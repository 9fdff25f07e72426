use vstd::prelude::*;

verus! {

/// The segments of a dotted path: the text split at every `.`.
pub open spec fn split_dots(p: Seq<char>) -> Seq<Seq<char>>
    decreases p.len(),
{
    if p.len() == 0 {
        seq![Seq::empty()]
    } else {
        let r = split_dots(p.drop_last());
        if p.last() == '.' {
            r.push(Seq::empty())
        } else {
            r.update(r.len() - 1, r.last().push(p.last()))
        }
    }
}

pub proof fn lemma_split_dots_nonempty(p: Seq<char>)
    ensures
        split_dots(p).len() >= 1,
    decreases p.len(),
{
    if p.len() > 0 {
        lemma_split_dots_nonempty(p.drop_last());
    }
}

pub open spec fn is_digit(c: char) -> bool {
    '0' <= c && c <= '9'
}

pub open spec fn digit_of(c: char) -> int {
    (c as u32) - ('0' as u32)
}

/// The number written by a sequence of decimal digits.
pub open spec fn digits_value(s: Seq<char>) -> int
    decreases s.len(),
{
    if s.len() == 0 {
        0
    } else {
        10 * digits_value(s.drop_last()) + digit_of(s.last())
    }
}

pub open spec fn all_digits(s: Seq<char>) -> bool {
    forall|i: int| 0 <= i < s.len() ==> is_digit(#[trigger] s[i])
}

/// The array index that a path segment names, if it is one: one or more decimal
/// digits whose value stays below `usize::MAX`.
pub open spec fn seg_index(s: Seq<char>) -> Option<nat> {
    if s.len() > 0 && all_digits(s) && digits_value(s) < usize::MAX {
        Some(digits_value(s) as nat)
    } else {
        None
    }
}

proof fn lemma_digits_value_mono(s: Seq<char>, i: int)
    requires
        0 <= i <= s.len(),
        all_digits(s),
    ensures
        0 <= digits_value(s.subrange(0, i)) <= digits_value(s),
    decreases s.len() - i,
{
    if i == s.len() {
        assert(s.subrange(0, i) =~= s);
        lemma_digits_value_nonneg(s);
    } else {
        let t = s.subrange(0, i + 1);
        assert(t.drop_last() =~= s.subrange(0, i));
        lemma_digits_value_nonneg(s.subrange(0, i));
        lemma_digits_value_mono(s, i + 1);
    }
}

proof fn lemma_digits_value_nonneg(s: Seq<char>)
    requires
        all_digits(s),
    ensures
        digits_value(s) >= 0,
    decreases s.len(),
{
    if s.len() > 0 {
        assert(all_digits(s.drop_last())) by {
            assert forall|i: int| 0 <= i < s.drop_last().len() implies is_digit(
                #[trigger] s.drop_last()[i],
            ) by {
                assert(s.drop_last()[i] == s[i]);
            }
        }
        lemma_digits_value_nonneg(s.drop_last());
    }
}

/// Reads a path segment as an array index.
pub fn parse_index(s: &str) -> (r: Option<usize>)
    ensures
        r is Some <==> seg_index(s@) is Some,
        r is Some ==> r->0 as nat == seg_index(s@)->0,
        r is Some ==> r->0 < usize::MAX,
{
    let n = s.unicode_len();
    if n == 0 {
        return None;
    }
    let mut i: usize = 0;
    let mut acc: usize = 0;
    while i < n
        invariant
            n == s@.len(),
            0 <= i <= n,
            forall|j: int| 0 <= j < i ==> is_digit(#[trigger] s@[j]),
            acc as int == digits_value(s@.subrange(0, i as int)),
            acc < usize::MAX,
        decreases n - i,
    {
        let c = s.get_char(i);
        if !('0' <= c && c <= '9') {
            return None;
        }
        let d = (c as u32 - '0' as u32) as usize;
        proof {
            let t = s@.subrange(0, i as int + 1);
            assert(t.drop_last() =~= s@.subrange(0, i as int));
        }
        if acc > (usize::MAX - 1 - d) / 10 {
            proof {
                assert(acc * 10 + d >= usize::MAX) by (nonlinear_arith)
                    requires
                        acc > (usize::MAX - 1 - d) / 10,
                        d <= 9,
                ;
                if all_digits(s@) {
                    lemma_digits_value_mono(s@, i as int + 1);
                }
            }
            return None;
        }
        acc = acc * 10 + d;
        i = i + 1;
    }
    proof {
        assert(s@.subrange(0, n as int) =~= s@);
    }
    Some(acc)
}

pub open spec fn views(v: Seq<String>) -> Seq<Seq<char>> {
    v.map_values(|s: String| s@)
}

/// Splits a dotted path into its segments.
pub fn split_path(p: &str) -> (r: Vec<String>)
    ensures
        views(r@) == split_dots(p@),
{
    let n = p.unicode_len();
    let mut segs: Vec<String> = Vec::new();
    let mut start: usize = 0;
    let mut i: usize = 0;
    proof {
        assert(p@.subrange(0, 0) =~= Seq::<char>::empty());
        assert(views(segs@) =~= Seq::<Seq<char>>::empty());
        assert(split_dots(Seq::<char>::empty()) =~= views(segs@).push(p@.subrange(0, 0)));
    }
    while i < n
        invariant
            n == p@.len(),
            0 <= start <= i <= n,
            split_dots(p@.subrange(0, i as int)) == views(segs@).push(
                p@.subrange(start as int, i as int),
            ),
        decreases n - i,
    {
        let c = p.get_char(i);
        proof {
            let t = p@.subrange(0, i as int + 1);
            assert(t.drop_last() =~= p@.subrange(0, i as int));
            assert(t.last() == c);
        }
        if c == '.' {
            let seg = String::from_str(p.substring_char(start, i));
            proof {
                assert(views(segs@.push(seg)) =~= views(segs@).push(seg@));
                assert(p@.subrange(i as int + 1, i as int + 1) =~= Seq::<char>::empty());
            }
            segs.push(seg);
            start = i + 1;
        } else {
            proof {
                assert(p@.subrange(start as int, i as int + 1) =~= p@.subrange(
                    start as int,
                    i as int,
                ).push(c));
            }
        }
        i = i + 1;
    }
    let last = String::from_str(p.substring_char(start, n));
    proof {
        assert(p@.subrange(0, n as int) =~= p@);
        assert(views(segs@.push(last)) =~= views(segs@).push(last@));
    }
    segs.push(last);
    segs
}

} // verus!
