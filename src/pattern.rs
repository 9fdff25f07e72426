use vstd::prelude::*;

verus! {

#[verifier::external_type_specification]
#[verifier::external_body]
pub struct ExRegex(regex::Regex);

/// Whether `p` is a pattern that the regex crate accepts.
pub uninterp spec fn regex_valid(p: Seq<char>) -> bool;

/// Whether the pattern `p` matches somewhere in `hay`.
pub uninterp spec fn regex_match(p: Seq<char>, hay: Seq<char>) -> bool;

/// A regular expression compiled once, kept with the text it was compiled from.
pub struct CompiledPattern {
    source: String,
    re: regex::Regex,
}

impl CompiledPattern {
    /// The text the pattern was compiled from.
    pub closed spec fn source(&self) -> Seq<char> {
        self.source@
    }

    /// Compiles `p`; `None` where the regex crate rejects it.
    pub fn compile(p: &String) -> (r: Option<CompiledPattern>)
        ensures
            r is Some <==> regex_valid(p@),
            r is Some ==> r->0.source() == p@,
    {
        match compile_regex(p.as_str()) {
            Some(re) => Some(CompiledPattern { source: p.clone(), re }),
            None => None,
        }
    }

    /// Relies on regex::Regex::is_match: true when the pattern matches anywhere in
    /// `hay`. `compile` is the only maker of a `CompiledPattern`, so `re` is always
    /// the compilation of `source`.
    #[verifier::external_body]
    pub fn is_match(&self, hay: &str) -> (r: bool)
        ensures
            r == regex_match(self.source(), hay@),
    {
        self.re.is_match(hay)
    }
}

/// Relies on regex::Regex::new: whether a pattern compiles depends on its text alone.
#[verifier::external_body]
fn compile_regex(p: &str) -> (r: Option<regex::Regex>)
    ensures
        r is Some <==> regex_valid(p@),
{
    regex::Regex::new(p).ok()
}

/// Whether `n` occurs in `h` as a contiguous run.
pub open spec fn is_infix(n: Seq<char>, h: Seq<char>) -> bool {
    exists|i: int| 0 <= i && i + n.len() <= h.len() && #[trigger] h.subrange(i, i + n.len()) == n
}

pub open spec fn is_prefix(n: Seq<char>, h: Seq<char>) -> bool {
    n.len() <= h.len() && h.subrange(0, n.len() as int) == n
}

pub open spec fn is_suffix(n: Seq<char>, h: Seq<char>) -> bool {
    n.len() <= h.len() && h.subrange(h.len() - n.len(), h.len() as int) == n
}

/// Whether `n` occurs in `h` as a contiguous run.
pub fn text_contains(h: &str, n: &str) -> (r: bool)
    ensures
        r == is_infix(n@, h@),
{
    let hl = h.unicode_len();
    let nl = n.unicode_len();
    if nl > hl {
        return false;
    }
    let last = hl - nl;
    let mut at: usize = 0;
    loop
        invariant
            hl == h@.len(),
            nl == n@.len(),
            nl <= hl,
            last == hl - nl,
            0 <= at <= last,
            forall|i: int| 0 <= i < at ==> #[trigger] h@.subrange(i, i + nl) != n@,
        decreases last - at,
    {
        if matches_at(h, n, at, hl, nl) {
            return true;
        }
        if at == last {
            return false;
        }
        at = at + 1;
    }
}

/// Whether `n` occurs in `h` starting at position `at`.
fn matches_at(h: &str, n: &str, at: usize, hl: usize, nl: usize) -> (r: bool)
    requires
        hl == h@.len(),
        nl == n@.len(),
        at + nl <= hl,
    ensures
        r == (h@.subrange(at as int, at + nl) == n@),
{
    let mut i: usize = 0;
    while i < nl
        invariant
            hl == h@.len(),
            nl == n@.len(),
            at + nl <= hl,
            0 <= i <= nl,
            h@.subrange(at as int, at + i) == n@.subrange(0, i as int),
        decreases nl - i,
    {
        if h.get_char(at + i) != n.get_char(i) {
            proof {
                assert(h@.subrange(at as int, at + nl)[i as int] != n@[i as int]);
            }
            return false;
        }
        proof {
            assert(h@.subrange(at as int, at + i + 1) =~= h@.subrange(at as int, at + i).push(h@[at + i]));
            assert(n@.subrange(0, i as int + 1) =~= n@.subrange(0, i as int).push(n@[i as int]));
        }
        i = i + 1;
    }
    proof {
        assert(n@.subrange(0, nl as int) =~= n@);
    }
    true
}

/// Whether `n` is a prefix of `h`.
pub fn text_starts_with(h: &str, n: &str) -> (r: bool)
    ensures
        r == is_prefix(n@, h@),
{
    let hl = h.unicode_len();
    let nl = n.unicode_len();
    if nl > hl {
        return false;
    }
    matches_at(h, n, 0, hl, nl)
}

/// Whether `n` is a suffix of `h`.
pub fn text_ends_with(h: &str, n: &str) -> (r: bool)
    ensures
        r == is_suffix(n@, h@),
{
    let hl = h.unicode_len();
    let nl = n.unicode_len();
    if nl > hl {
        return false;
    }
    matches_at(h, n, hl - nl, hl, nl)
}

/// Whether two texts hold the same characters.
pub fn same_text(a: &str, b: &str) -> (r: bool)
    ensures
        r == (a@ == b@),
{
    let n = a.unicode_len();
    if n != b.unicode_len() {
        return false;
    }
    let mut i: usize = 0;
    while i < n
        invariant
            n == a@.len(),
            n == b@.len(),
            0 <= i <= n,
            a@.subrange(0, i as int) == b@.subrange(0, i as int),
        decreases n - i,
    {
        if a.get_char(i) != b.get_char(i) {
            return false;
        }
        proof {
            assert(a@.subrange(0, i as int + 1) =~= a@.subrange(0, i as int).push(a@[i as int]));
            assert(b@.subrange(0, i as int + 1) =~= b@.subrange(0, i as int).push(b@[i as int]));
        }
        i = i + 1;
    }
    proof {
        assert(a@.subrange(0, n as int) =~= a@);
        assert(b@.subrange(0, n as int) =~= b@);
    }
    true
}

} // verus!
