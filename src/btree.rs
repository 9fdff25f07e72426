use vstd::prelude::*;
use crate::keyed::{pos_of, lookup, keys_distinct, lemma_pos_is, lemma_pos_facts, lemma_pos_distinct,
    lemma_lookup_update, lemma_lookup_insert, lemma_lookup_remove};
use crate::path::views;
use crate::text::{canonical, canonical_key};
use crate::value::Value;

verus! {

/// Lexicographic order of texts by character code, the order of Rust's `String`.
pub open spec fn text_lt(a: Seq<char>, b: Seq<char>) -> bool
    decreases a.len(),
{
    if b.len() == 0 {
        false
    } else if a.len() == 0 {
        true
    } else if a[0] != b[0] {
        a[0] < b[0]
    } else {
        text_lt(a.drop_first(), b.drop_first())
    }
}

pub proof fn lemma_text_lt_irrefl(a: Seq<char>)
    ensures
        !text_lt(a, a),
    decreases a.len(),
{
    if a.len() > 0 {
        lemma_text_lt_irrefl(a.drop_first());
    }
}

pub proof fn lemma_text_lt_trans(a: Seq<char>, b: Seq<char>, c: Seq<char>)
    requires
        text_lt(a, b),
        text_lt(b, c),
    ensures
        text_lt(a, c),
    decreases a.len(),
{
    if a.len() > 0 && b.len() > 0 && c.len() > 0 && a[0] == b[0] && b[0] == c[0] {
        lemma_text_lt_trans(a.drop_first(), b.drop_first(), c.drop_first());
    }
}

pub proof fn lemma_text_lt_total(a: Seq<char>, b: Seq<char>)
    requires
        a != b,
    ensures
        text_lt(a, b) || text_lt(b, a),
    decreases a.len(),
{
    if a.len() > 0 && b.len() > 0 {
        if a[0] == b[0] {
            if a.drop_first() == b.drop_first() {
                assert(a =~= seq![a[0]] + a.drop_first());
                assert(b =~= seq![b[0]] + b.drop_first());
            }
            lemma_text_lt_total(a.drop_first(), b.drop_first());
        }
    } else if a.len() == 0 && b.len() == 0 {
        assert(a =~= b);
    }
}

/// Whether `a` comes before `b`.
pub fn text_less(a: &String, b: &String) -> (r: bool)
    ensures
        r == text_lt(a@, b@),
{
    let s = a.as_str();
    let t = b.as_str();
    let n = s.unicode_len();
    let m = t.unicode_len();
    let mut i: usize = 0;
    proof {
        assert(s@.subrange(0, n as int) =~= s@);
        assert(t@.subrange(0, m as int) =~= t@);
    }
    while i < n && i < m
        invariant
            n == s@.len(),
            m == t@.len(),
            s@ == a@,
            t@ == b@,
            0 <= i <= n,
            i <= m,
            text_lt(s@, t@) == text_lt(s@.subrange(i as int, n as int), t@.subrange(i as int, m as int)),
        decreases n - i,
    {
        let c = s.get_char(i);
        let d = t.get_char(i);
        if c != d {
            proof {
                assert(s@.subrange(i as int, n as int)[0] == c);
                assert(t@.subrange(i as int, m as int)[0] == d);
            }
            let r = (c as u32) < (d as u32);
            assert(r == (c < d));
            proof {
                let ss = s@.subrange(i as int, n as int);
                let tt = t@.subrange(i as int, m as int);
                assert(ss.len() > 0 && tt.len() > 0 && ss[0] != tt[0]);
                assert(text_lt(ss, tt) == (ss[0] < tt[0]));
            }
            return r;
        }
        proof {
            assert(s@.subrange(i as int, n as int).drop_first() =~= s@.subrange(i as int + 1, n as int));
            assert(t@.subrange(i as int, m as int).drop_first() =~= t@.subrange(i as int + 1, m as int));
        }
        i = i + 1;
    }
    i < m
}

pub open spec fn sorted_keys<V>(s: Seq<(Seq<char>, V)>) -> bool {
    forall|i: int, j: int| 0 <= i < j < s.len() ==> text_lt(#[trigger] s[i].0, #[trigger] s[j].0)
}

pub open spec fn no_repeats(s: Seq<Seq<char>>) -> bool {
    forall|i: int, j: int| 0 <= i < j < s.len() ==> #[trigger] s[i] != #[trigger] s[j]
}

/// `s` without an occurrence of `x` (the only one, where nothing repeats).
pub open spec fn without(s: Seq<Seq<char>>, x: Seq<char>) -> Seq<Seq<char>> {
    if exists|t: int| 0 <= t < s.len() && s[t] == x {
        s.remove(choose|t: int| 0 <= t < s.len() && s[t] == x)
    } else {
        s
    }
}

proof fn lemma_without_at(s: Seq<Seq<char>>, x: Seq<char>, t: int)
    requires
        no_repeats(s),
        0 <= t < s.len(),
        s[t] == x,
    ensures
        without(s, x) == s.remove(t),
        no_repeats(s.remove(t)),
        !s.remove(t).contains(x),
        forall|y: Seq<char>| y != x ==> (s.remove(t).contains(y) <==> s.contains(y)),
{
    let c = choose|u: int| 0 <= u < s.len() && s[u] == x;
    assert(c == t) by {
        if c != t {
            if c < t {
                assert(s[c] != s[t]);
            } else {
                assert(s[t] != s[c]);
            }
        }
    }
    let r = s.remove(t);
    assert forall|a: int, b: int| 0 <= a < b < r.len() implies #[trigger] r[a] != #[trigger] r[b] by {
        let a2 = if a < t { a } else { a + 1 };
        let b2 = if b < t { b } else { b + 1 };
        assert(r[a] == s[a2] && r[b] == s[b2]);
    }
    assert forall|y: Seq<char>| y != x implies (r.contains(y) <==> s.contains(y)) by {
        if s.contains(y) {
            let j = choose|j: int| 0 <= j < s.len() && s[j] == y;
            assert(j != t);
            let j2 = if j < t { j } else { j - 1 };
            assert(r[j2] == y);
        }
        if r.contains(y) {
            let j = choose|j: int| 0 <= j < r.len() && r[j] == y;
            let j2 = if j < t { j } else { j + 1 };
            assert(s[j2] == y);
        }
    }
    if r.contains(x) {
        let j = choose|j: int| 0 <= j < r.len() && r[j] == x;
        let j2 = if j < t { j } else { j + 1 };
        assert(s[j2] == x);
        assert(j2 != t);
        if j2 < t {
            assert(s[j2] != s[t]);
        } else {
            assert(s[t] != s[j2]);
        }
    }
}

proof fn lemma_without_absent(s: Seq<Seq<char>>, x: Seq<char>)
    requires
        !s.contains(x),
    ensures
        without(s, x) == s,
{
    if exists|t: int| 0 <= t < s.len() && s[t] == x {
        let t = choose|t: int| 0 <= t < s.len() && s[t] == x;
        assert(s.contains(x));
    }
}

/// The doc-paths whose bucket key lies between `lo` and `hi`, both included and
/// either open when absent, bucket after bucket.
pub open spec fn range_docs(
    f: Seq<(Seq<char>, Seq<Seq<char>>)>,
    lo: Option<Seq<char>>,
    hi: Option<Seq<char>>,
) -> Seq<Seq<char>>
    decreases f.len(),
{
    if f.len() == 0 {
        Seq::empty()
    } else {
        let k = f.last().0;
        let inside = (lo is None || !text_lt(k, lo->0)) && (hi is None || !text_lt(hi->0, k));
        range_docs(f.drop_last(), lo, hi) + if inside {
            f.last().1
        } else {
            Seq::empty()
        }
    }
}

pub open spec fn opt_text(o: Option<String>) -> Option<Seq<char>> {
    match o {
        Some(s) => Some(s@),
        None => None,
    }
}

proof fn lemma_without_contains(s: Seq<Seq<char>>, x: Seq<char>, y: Seq<char>)
    requires
        no_repeats(s),
    ensures
        without(s, x).contains(y) <==> (s.contains(y) && y != x),
        no_repeats(without(s, x)),
{
    if s.contains(x) {
        let t = choose|t: int| 0 <= t < s.len() && s[t] == x;
        lemma_without_at(s, x, t);
    } else {
        lemma_without_absent(s, x);
    }
}

/// Position of `x` in `docs`, which holds it.
fn index_in(docs: &Vec<String>, x: &String) -> (r: usize)
    requires
        views(docs@).contains(x@),
    ensures
        r < docs@.len(),
        docs@[r as int]@ == x@,
{
    let ghost d = views(docs@);
    let mut t: usize = 0;
    while t < docs.len()
        invariant
            d == views(docs@),
            d.contains(x@),
            0 <= t <= docs@.len(),
            forall|j: int| 0 <= j < t ==> d[j] != x@,
        decreases docs@.len() - t,
    {
        if docs[t] == *x {
            return t;
        }
        t = t + 1;
    }
    proof {
        let j = choose|j: int| 0 <= j < d.len() && d[j] == x@;
        assert(d[j] != x@);
    }
    0
}

/// The (key, doc-path) pairs of stored buckets, bucket after bucket.
pub open spec fn stored_pairs(b: Seq<(String, Vec<String>)>) -> Seq<(Seq<char>, Seq<char>)>
    decreases b.len(),
{
    if b.len() == 0 {
        Seq::empty()
    } else {
        stored_pairs(b.drop_last()) + Seq::new(b.last().1@.len(), |j: int| (b.last().0@, b.last().1@[j]@))
    }
}

/// The key of the last pair for doc-path `d`, if any.
pub open spec fn last_key(pairs: Seq<(Seq<char>, Seq<char>)>, d: Seq<char>) -> Option<Seq<char>>
    decreases pairs.len(),
{
    if pairs.len() == 0 {
        None
    } else if pairs.last().1 == d {
        Some(pairs.last().0)
    } else {
        last_key(pairs.drop_last(), d)
    }
}

/// The bucket of key `k` after inserting `pairs` one by one into an empty index.
pub open spec fn rebuilt_bucket(pairs: Seq<(Seq<char>, Seq<char>)>, k: Seq<char>) -> Seq<Seq<char>>
    decreases pairs.len(),
{
    if pairs.len() == 0 {
        Seq::empty()
    } else {
        let prev = rebuilt_bucket(pairs.drop_last(), k);
        let (pk, d) = pairs.last();
        if last_key(pairs.drop_last(), d) == Some(pk) {
            prev
        } else if k == pk {
            without(prev, d).push(d)
        } else {
            without(prev, d)
        }
    }
}

/// A secondary index: for each canonical key, the doc-paths that hold it, in the
/// order they were added, with a reverse map from doc-path to key.
#[derive(Debug)]
pub struct BTreeIndex {
    pub name: String,
    pub field: String,
    pub buckets: Vec<(String, Vec<String>)>,
    pub reverse: Vec<(String, String)>,
    pub path: String,
    pub dirty: bool,
}

impl BTreeIndex {
    /// Buckets by key, in key order.
    pub open spec fn fwd(&self) -> Seq<(Seq<char>, Seq<Seq<char>>)> {
        Seq::new(self.buckets@.len(), |i: int| (self.buckets@[i].0@, views(self.buckets@[i].1@)))
    }

    /// Doc-path to key.
    pub open spec fn rev(&self) -> Seq<(Seq<char>, Seq<char>)> {
        Seq::new(self.reverse@.len(), |i: int| (self.reverse@[i].0@, self.reverse@[i].1@))
    }

    /// The doc-paths under key `k`, empty where there are none.
    pub open spec fn bucket(&self, k: Seq<char>) -> Seq<Seq<char>> {
        match lookup(self.fwd(), k) {
            Some(d) => d,
            None => Seq::empty(),
        }
    }

    /// The key of doc-path `p`, if it is indexed.
    pub open spec fn key_of(&self, p: Seq<char>) -> Option<Seq<char>> {
        lookup(self.rev(), p)
    }

    /// Buckets are in strict key order and never empty, no doc-path repeats in a
    /// bucket, and the reverse map is the inverse of the buckets.
    pub open spec fn wf(&self) -> bool {
        &&& sorted_keys(self.fwd())
        &&& keys_distinct(self.rev())
        &&& forall|i: int| 0 <= i < self.fwd().len() ==> (#[trigger] self.fwd()[i]).1.len() > 0
        &&& forall|i: int| 0 <= i < self.fwd().len() ==> no_repeats(#[trigger] self.fwd()[i].1)
        &&& forall|p: Seq<char>, k: Seq<char>|
            #![trigger self.key_of(p), self.bucket(k)]
            (self.key_of(p) == Some(k)) <==> self.bucket(k).contains(p)
    }

    /// An empty index named `name` over `field`, stored beside `base_path`.
    pub fn new(name: String, field: String, base_path: &str) -> (r: BTreeIndex)
        ensures
            r.wf(),
            r.name@ == name@,
            r.field@ == field@,
            r.path@ == base_path@ + "."@ + name@ + ".idx"@,
            r.fwd().len() == 0,
            r.rev().len() == 0,
            !r.dirty,
    {
        let path = String::from_str(base_path).concat(".").concat(name.as_str()).concat(".idx");
        let r = BTreeIndex { name, field, buckets: Vec::new(), reverse: Vec::new(), path, dirty: false };
        proof {
            assert(r.fwd() =~= Seq::<(Seq<char>, Seq<Seq<char>>)>::empty());
            assert(r.rev() =~= Seq::<(Seq<char>, Seq<char>)>::empty());
            assert forall|p: Seq<char>, k: Seq<char>| #![trigger r.key_of(p), r.bucket(k)]
                (r.key_of(p) == Some(k)) <==> r.bucket(k).contains(p) by {
                lemma_pos_facts(r.rev(), p);
                lemma_pos_facts(r.fwd(), k);
            }
        }
        r
    }

    /// Empties the index.
    pub fn clear(&mut self)
        ensures
            final(self).wf(),
            final(self).fwd().len() == 0,
            final(self).rev().len() == 0,
            final(self).dirty,
            final(self).name == old(self).name,
            final(self).field == old(self).field,
            final(self).path == old(self).path,
    {
        self.buckets.clear();
        self.reverse.clear();
        self.dirty = true;
        proof {
            assert(self.fwd() =~= Seq::<(Seq<char>, Seq<Seq<char>>)>::empty());
            assert(self.rev() =~= Seq::<(Seq<char>, Seq<char>)>::empty());
            assert forall|p: Seq<char>, k: Seq<char>| #![trigger self.key_of(p), self.bucket(k)]
                (self.key_of(p) == Some(k)) <==> self.bucket(k).contains(p) by {
                lemma_pos_facts(self.rev(), p);
                lemma_pos_facts(self.fwd(), k);
            }
        }
    }

    fn rev_find(&self, p: &String) -> (r: Option<usize>)
        ensures
            match r {
                Some(i) => i as int == pos_of(self.rev(), p@) && i < self.reverse@.len(),
                None => pos_of(self.rev(), p@) == -1,
            },
    {
        let mut i: usize = 0;
        while i < self.reverse.len()
            invariant
                0 <= i <= self.reverse@.len(),
                forall|j: int| 0 <= j < i ==> (#[trigger] self.rev()[j]).0 != p@,
            decreases self.reverse@.len() - i,
        {
            if self.reverse[i].0 == *p {
                proof {
                    lemma_pos_is(self.rev(), p@, i as int);
                }
                return Some(i);
            }
            i = i + 1;
        }
        proof {
            lemma_pos_is(self.rev(), p@, -1);
        }
        None
    }

    fn bucket_find(&self, k: &String) -> (r: Option<usize>)
        ensures
            match r {
                Some(i) => i as int == pos_of(self.fwd(), k@) && i < self.buckets@.len(),
                None => pos_of(self.fwd(), k@) == -1,
            },
    {
        let mut i: usize = 0;
        while i < self.buckets.len()
            invariant
                0 <= i <= self.buckets@.len(),
                forall|j: int| 0 <= j < i ==> (#[trigger] self.fwd()[j]).0 != k@,
            decreases self.buckets@.len() - i,
        {
            if self.buckets[i].0 == *k {
                proof {
                    lemma_pos_is(self.fwd(), k@, i as int);
                }
                return Some(i);
            }
            i = i + 1;
        }
        proof {
            lemma_pos_is(self.fwd(), k@, -1);
        }
        None
    }

    /// The doc-paths indexed under `key`, if any.
    pub fn find(&self, key: &Value) -> (r: Option<&Vec<String>>)
        ensures
            match lookup(self.fwd(), canonical(key@)) {
                Some(d) => r is Some && views(r->0@) == d,
                None => r is None,
            },
    {
        let k = canonical_key(key);
        match self.bucket_find(&k) {
            Some(i) => Some(&self.buckets[i].1),
            None => None,
        }
    }

    /// Doc-paths of the buckets whose key lies in `[start, end]`, in key order.
    pub fn range(&self, start: Option<&Value>, end: Option<&Value>) -> (r: Vec<String>)
        ensures
            views(r@) == range_docs(self.fwd(), match start {
                Some(v) => Some(canonical(v@)),
                None => None,
            }, match end {
                Some(v) => Some(canonical(v@)),
                None => None,
            }),
    {
        let lo: Option<String> = match start {
            Some(v) => Some(canonical_key(v)),
            None => None,
        };
        let hi: Option<String> = match end {
            Some(v) => Some(canonical_key(v)),
            None => None,
        };
        let ghost lov = opt_text(lo);
        let ghost hiv = opt_text(hi);
        let ghost f = self.fwd();
        let mut out: Vec<String> = Vec::new();
        let mut i: usize = 0;
        while i < self.buckets.len()
            invariant
                f == self.fwd(),
                lov == opt_text(lo),
                hiv == opt_text(hi),
                0 <= i <= self.buckets@.len(),
                views(out@) == range_docs(f.subrange(0, i as int), lov, hiv),
            decreases self.buckets@.len() - i,
        {
            let k = &self.buckets[i].0;
            let above = match &lo {
                Some(l) => !text_less(k, l),
                None => true,
            };
            let below = match &hi {
                Some(h) => !text_less(h, k),
                None => true,
            };
            proof {
                assert(f.subrange(0, i as int + 1).drop_last() =~= f.subrange(0, i as int));
            }
            let ghost before = views(out@);
            if above && below {
                let docs = &self.buckets[i].1;
                let mut t: usize = 0;
                while t < docs.len()
                    invariant
                        0 <= t <= docs@.len(),
                        views(out@) == before + views(docs@).subrange(0, t as int),
                    decreases docs@.len() - t,
                {
                    let ghost prev = views(out@);
                    out.push(docs[t].clone());
                    proof {
                        assert(views(out@) =~= prev.push(docs@[t as int]@));
                        assert(views(out@) =~= before + views(docs@).subrange(0, t as int + 1));
                    }
                    t = t + 1;
                }
                proof {
                    assert(views(docs@).subrange(0, docs@.len() as int) =~= views(docs@));
                }
            } else {
                proof {
                    assert(views(out@) =~= before + Seq::<Seq<char>>::empty());
                }
            }
            i = i + 1;
        }
        proof {
            assert(f.subrange(0, self.buckets@.len() as int) =~= f);
        }
        out
    }

    /// Takes doc-path `doc` out of the bucket at position `bi`, dropping the bucket
    /// when it empties.
    fn take_from_bucket(&mut self, bi: usize, doc: &String)
        requires
            old(self).shape(),
            bi < old(self).buckets@.len(),
            old(self).fwd()[bi as int].1.contains(doc@),
            forall|k: Seq<char>| k != old(self).fwd()[bi as int].0 ==> !(#[trigger] old(self).bucket(k)).contains(doc@),
        ensures
            sorted_keys(final(self).fwd()),
            final(self).reverse == old(self).reverse,
            final(self).name == old(self).name,
            final(self).field == old(self).field,
            final(self).path == old(self).path,
            final(self).dirty == old(self).dirty,
            forall|i: int| 0 <= i < final(self).fwd().len() ==> (#[trigger] final(self).fwd()[i]).1.len() > 0,
            forall|i: int| 0 <= i < final(self).fwd().len() ==> no_repeats(#[trigger] final(self).fwd()[i].1),
            forall|k: Seq<char>| #[trigger] final(self).bucket(k) == without(old(self).bucket(k), doc@),
    {
        let ghost f0 = self.fwd();
        let ghost k0 = f0[bi as int].0;
        let ghost d0 = f0[bi as int].1;
        proof {
            assert(keys_distinct(f0)) by {
                assert forall|a: int, b: int| 0 <= a < b < f0.len() implies (#[trigger] f0[a]).0 != (#[trigger] f0[b]).0 by {
                    lemma_text_lt_irrefl(f0[a].0);
                }
            }
            lemma_pos_distinct(f0, bi as int);
        }
        let mut docs: Vec<String> = Vec::new();
        let key = self.buckets[bi].0.clone();
        std::mem::swap(&mut docs, &mut self.buckets[bi].1);
        let t = index_in(&docs, doc);
        docs.remove(t);
        proof {
            assert(views(docs@) =~= d0.remove(t as int));
            lemma_without_at(d0, doc@, t as int);
        }
        if docs.len() == 0 {
            self.buckets.remove(bi);
            proof {
                assert(self.fwd() =~= f0.remove(bi as int));
                assert forall|a: int, b: int| 0 <= a < b < self.fwd().len() implies text_lt(
                    #[trigger] self.fwd()[a].0,
                    #[trigger] self.fwd()[b].0,
                ) by {
                    let a2 = if a < bi { a } else { a + 1 };
                    let b2 = if b < bi { b } else { b + 1 };
                    assert(self.fwd()[a] == f0[a2] && self.fwd()[b] == f0[b2]);
                }
                assert forall|i: int| 0 <= i < self.fwd().len() implies (#[trigger] self.fwd()[i]).1.len() > 0
                    && no_repeats(self.fwd()[i].1) by {
                    let i2 = if i < bi { i } else { i + 1 };
                    assert(self.fwd()[i] == f0[i2]);
                }
                assert forall|k: Seq<char>| #[trigger] self.bucket(k) == without(old(self).bucket(k), doc@) by {
                    lemma_lookup_remove(f0, bi as int, k);
                    if k != k0 {
                        lemma_without_absent(old(self).bucket(k), doc@);
                    } else {
                        assert(d0.remove(t as int) =~= Seq::<Seq<char>>::empty());
                    }
                }
            }
        } else {
            std::mem::swap(&mut docs, &mut self.buckets[bi].1);
            proof {
                assert(self.buckets@[bi as int].0 == key);
                assert(self.fwd() =~= f0.update(bi as int, (k0, d0.remove(t as int))));
                assert forall|a: int, b: int| 0 <= a < b < self.fwd().len() implies text_lt(
                    #[trigger] self.fwd()[a].0,
                    #[trigger] self.fwd()[b].0,
                ) by {
                    assert(self.fwd()[a].0 == f0[a].0 && self.fwd()[b].0 == f0[b].0);
                }
                assert forall|i: int| 0 <= i < self.fwd().len() implies (#[trigger] self.fwd()[i]).1.len() > 0
                    && no_repeats(self.fwd()[i].1) by {
                    if i != bi {
                        assert(self.fwd()[i] == f0[i]);
                    }
                }
                assert forall|k: Seq<char>| #[trigger] self.bucket(k) == without(old(self).bucket(k), doc@) by {
                    lemma_lookup_update(f0, bi as int, d0.remove(t as int), k);
                    if k != k0 {
                        lemma_without_absent(old(self).bucket(k), doc@);
                        if pos_of(f0, k) == bi {
                            lemma_pos_facts(f0, k);
                        }
                    }
                }
            }
        }
    }

    /// Buckets in strict key order, none empty, none with a repeated doc-path.
    pub open spec fn shape(&self) -> bool {
        &&& sorted_keys(self.fwd())
        &&& forall|i: int| 0 <= i < self.fwd().len() ==> (#[trigger] self.fwd()[i]).1.len() > 0
        &&& forall|i: int| 0 <= i < self.fwd().len() ==> no_repeats(#[trigger] self.fwd()[i].1)
    }

    /// Appends `doc` to the bucket of `k`, creating it in key order if needed.
    fn put_in_bucket(&mut self, k: &String, doc: &String)
        requires
            old(self).shape(),
            !old(self).bucket(k@).contains(doc@),
        ensures
            final(self).shape(),
            final(self).reverse == old(self).reverse,
            final(self).name == old(self).name,
            final(self).field == old(self).field,
            final(self).path == old(self).path,
            final(self).dirty == old(self).dirty,
            forall|k2: Seq<char>| #[trigger] final(self).bucket(k2) == if k2 == k@ {
                old(self).bucket(k2).push(doc@)
            } else {
                old(self).bucket(k2)
            },
    {
        let ghost f0 = self.fwd();
        proof {
            lemma_pos_facts(f0, k@);
        }
        match self.bucket_find(k) {
            Some(bi) => {
                let ghost d0 = f0[bi as int].1;
                let mut docs: Vec<String> = Vec::new();
                let key = self.buckets[bi].0.clone();
                std::mem::swap(&mut docs, &mut self.buckets[bi].1);
                docs.push(doc.clone());
                std::mem::swap(&mut docs, &mut self.buckets[bi].1);
                proof {
                    assert(views(self.buckets@[bi as int].1@) =~= d0.push(doc@));
                    assert(self.fwd() =~= f0.update(bi as int, (k@, d0.push(doc@))));
                    assert forall|a: int, b: int| 0 <= a < b < self.fwd().len() implies text_lt(
                        #[trigger] self.fwd()[a].0,
                        #[trigger] self.fwd()[b].0,
                    ) by {
                        assert(self.fwd()[a].0 == f0[a].0 && self.fwd()[b].0 == f0[b].0);
                    }
                    assert(!d0.contains(doc@));
                    assert forall|i: int| 0 <= i < self.fwd().len() implies (#[trigger] self.fwd()[i]).1.len() > 0
                        && no_repeats(self.fwd()[i].1) by {
                        if i != bi {
                            assert(self.fwd()[i] == f0[i]);
                        } else {
                            let e = d0.push(doc@);
                            assert forall|a: int, b: int| 0 <= a < b < e.len() implies #[trigger] e[a] != #[trigger] e[b] by {
                                if b == d0.len() {
                                    assert(d0[a] == e[a]);
                                }
                            }
                        }
                    }
                    assert forall|k2: Seq<char>| #[trigger] self.bucket(k2) == if k2 == k@ {
                        old(self).bucket(k2).push(doc@)
                    } else {
                        old(self).bucket(k2)
                    } by {
                        lemma_lookup_update(f0, bi as int, d0.push(doc@), k2);
                        lemma_pos_facts(f0, k2);
                    }
                }
            },
            None => {
                let mut q: usize = 0;
                while q < self.buckets.len() && text_less(&self.buckets[q].0, k)
                    invariant
                        f0 == self.fwd(),
                        0 <= q <= self.buckets@.len(),
                        forall|j: int| 0 <= j < q ==> text_lt(#[trigger] f0[j].0, k@),
                    decreases self.buckets@.len() - q,
                {
                    q = q + 1;
                }
                let mut docs: Vec<String> = Vec::new();
                docs.push(doc.clone());
                self.buckets.insert(q, (k.clone(), docs));
                proof {
                    let nb = (k@, seq![doc@]);
                    assert(views(docs@) =~= seq![doc@]);
                    assert(self.fwd() =~= f0.insert(q as int, nb));
                    let f1 = self.fwd();
                    if q < f0.len() {
                        assert(!text_lt(f0[q as int].0, k@));
                        assert(f0[q as int].0 != k@);
                        lemma_text_lt_total(f0[q as int].0, k@);
                    }
                    assert forall|a: int, b: int| 0 <= a < b < f1.len() implies text_lt(
                        #[trigger] f1[a].0,
                        #[trigger] f1[b].0,
                    ) by {
                        if a < q && b < q {
                            assert(f1[a] == f0[a] && f1[b] == f0[b]);
                        } else if a < q && b == q {
                            assert(f1[a] == f0[a]);
                        } else if a < q {
                            assert(f1[a] == f0[a] && f1[b] == f0[b - 1]);
                            lemma_text_lt_trans(f0[a].0, k@, f0[q as int].0);
                            if b - 1 > q {
                                lemma_text_lt_trans(f0[a].0, f0[q as int].0, f0[b - 1].0);
                            }
                        } else if a == q {
                            assert(f1[b] == f0[b - 1]);
                            if b - 1 > q {
                                lemma_text_lt_trans(k@, f0[q as int].0, f0[b - 1].0);
                            }
                        } else {
                            assert(f1[a] == f0[a - 1] && f1[b] == f0[b - 1]);
                        }
                    }
                    assert forall|i: int| 0 <= i < f1.len() implies (#[trigger] f1[i]).1.len() > 0
                        && no_repeats(f1[i].1) by {
                        if i < q {
                            assert(f1[i] == f0[i]);
                        } else if i > q {
                            assert(f1[i] == f0[i - 1]);
                        }
                    }
                    assert forall|k2: Seq<char>| #[trigger] self.bucket(k2) == if k2 == k@ {
                        old(self).bucket(k2).push(doc@)
                    } else {
                        old(self).bucket(k2)
                    } by {
                        lemma_lookup_insert(f0, q as int, k@, seq![doc@], k2);
                        if k2 == k@ {
                            assert(old(self).bucket(k2).push(doc@) =~= seq![doc@]);
                        }
                    }
                }
            },
        }
    }

    proof fn lemma_bucket_no_repeats(&self, k: Seq<char>)
        requires
            self.shape(),
        ensures
            no_repeats(self.bucket(k)),
    {
        lemma_pos_facts(self.fwd(), k);
        if pos_of(self.fwd(), k) >= 0 {
            assert(no_repeats(self.fwd()[pos_of(self.fwd(), k)].1));
        }
    }

    /// Indexes `doc_path` under the canonical key of `key`, moving it out of the
    /// bucket it was in; nothing changes when it is already under that key.
    pub fn insert(&mut self, key: &Value, doc_path: String)
        requires
            old(self).wf(),
        ensures
            final(self).wf(),
            final(self).name == old(self).name,
            final(self).field == old(self).field,
            final(self).path == old(self).path,
            final(self).key_of(doc_path@) == Some(canonical(key@)),
            forall|p: Seq<char>| p != doc_path@ ==> #[trigger] final(self).key_of(p) == old(self).key_of(p),
            old(self).key_of(doc_path@) == Some(canonical(key@)) ==> final(self).buckets == old(self).buckets
                && final(self).dirty == old(self).dirty,
            old(self).key_of(doc_path@) != Some(canonical(key@)) ==> final(self).dirty && forall|k: Seq<char>|
                #[trigger] final(self).bucket(k) == if k == canonical(key@) {
                    without(old(self).bucket(k), doc_path@).push(doc_path@)
                } else {
                    without(old(self).bucket(k), doc_path@)
                },
    {
        let nk = canonical_key(key);
        self.insert_key(nk, doc_path)
    }

    /// Indexes `doc_path` under the key text `nk`; `insert` with the key already
    /// in canonical form.
    pub fn insert_key(&mut self, nk: String, doc_path: String)
        requires
            old(self).wf(),
        ensures
            final(self).wf(),
            final(self).name == old(self).name,
            final(self).field == old(self).field,
            final(self).path == old(self).path,
            final(self).key_of(doc_path@) == Some(nk@),
            forall|p: Seq<char>| p != doc_path@ ==> #[trigger] final(self).key_of(p) == old(self).key_of(p),
            old(self).key_of(doc_path@) == Some(nk@) ==> final(self).buckets == old(self).buckets
                && final(self).dirty == old(self).dirty,
            old(self).key_of(doc_path@) != Some(nk@) ==> final(self).dirty && forall|k: Seq<char>|
                #[trigger] final(self).bucket(k) == if k == nk@ {
                    without(old(self).bucket(k), doc_path@).push(doc_path@)
                } else {
                    without(old(self).bucket(k), doc_path@)
                },
    {
        let ghost r0 = self.rev();
        let ghost f0 = self.fwd();
        let ghost d = doc_path@;
        proof {
            lemma_pos_facts(r0, d);
        }
        let found = self.rev_find(&doc_path);
        if let Some(i) = found {
            if self.reverse[i].1 == nk {
                return;
            }
        }
        self.dirty = true;
        let mut old_key: Option<String> = None;
        match found {
            Some(i) => {
                old_key = Some(self.reverse[i].1.clone());
                self.reverse.set(i, (doc_path.clone(), nk.clone()));
                proof {
                    assert(self.rev() =~= r0.update(i as int, (d, nk@)));
                    assert forall|p: Seq<char>| #[trigger] self.key_of(p) == if p == d { Some(nk@) } else { old(self).key_of(p) } by {
                        lemma_lookup_update(r0, i as int, nk@, p);
                        lemma_pos_facts(r0, p);
                    }
                    assert forall|a: int, b: int| 0 <= a < b < self.rev().len() implies (#[trigger] self.rev()[a]).0 != (#[trigger] self.rev()[b]).0 by {
                        assert(self.rev()[a].0 == r0[a].0 && self.rev()[b].0 == r0[b].0);
                    }
                }
            },
            None => {
                self.reverse.push((doc_path.clone(), nk.clone()));
                proof {
                    assert(self.rev() =~= r0.insert(r0.len() as int, (d, nk@)));
                    assert forall|p: Seq<char>| #[trigger] self.key_of(p) == if p == d { Some(nk@) } else { old(self).key_of(p) } by {
                        lemma_lookup_insert(r0, r0.len() as int, d, nk@, p);
                    }
                    assert forall|a: int, b: int| 0 <= a < b < self.rev().len() implies (#[trigger] self.rev()[a]).0 != (#[trigger] self.rev()[b]).0 by {
                        if b == r0.len() {
                            assert(self.rev()[a] == r0[a]);
                        } else {
                            assert(self.rev()[a] == r0[a] && self.rev()[b] == r0[b]);
                        }
                    }
                }
            },
        }
        let ghost s1 = *self;
        proof {
            assert(s1.fwd() == f0);
            assert forall|k: Seq<char>| #[trigger] s1.bucket(k) == old(self).bucket(k) by {}
        }
        match old_key {
            Some(ok) => {
                proof {
                    assert(old(self).key_of(d) == Some(ok@));
                    assert(old(self).bucket(ok@).contains(d));
                    lemma_pos_facts(f0, ok@);
                }
                let bi = match self.bucket_find(&ok) {
                    Some(bi) => bi,
                    None => {
                        return;
                    },
                };
                proof {
                    assert(self.fwd()[bi as int].0 == ok@);
                    assert(self.fwd()[bi as int].1 == old(self).bucket(ok@));
                    assert forall|k: Seq<char>| k != ok@ implies !(#[trigger] self.bucket(k)).contains(d) by {
                        assert(s1.bucket(k) == old(self).bucket(k));
                        if old(self).bucket(k).contains(d) {
                            assert(old(self).key_of(d) == Some(k));
                        }
                    }
                }
                self.take_from_bucket(bi, &doc_path);
                proof {
                    assert forall|k: Seq<char>| #[trigger] self.bucket(k) == without(old(self).bucket(k), d) by {
                        assert(s1.bucket(k) == old(self).bucket(k));
                    }
                }
            },
            None => {
                proof {
                    assert forall|k: Seq<char>| #[trigger] self.bucket(k) == without(old(self).bucket(k), d) by {
                        if old(self).bucket(k).contains(d) {
                            assert(old(self).key_of(d) == Some(k));
                        }
                        lemma_without_absent(old(self).bucket(k), d);
                    }
                }
            },
        }
        proof {
            old(self).lemma_bucket_no_repeats(nk@);
            lemma_without_contains(old(self).bucket(nk@), d, d);
            assert forall|p: Seq<char>| #[trigger] self.key_of(p) == s1.key_of(p) by {}
        }
        let ghost s2 = *self;
        self.put_in_bucket(&nk, &doc_path);
        proof {
            assert forall|p: Seq<char>| #[trigger] self.key_of(p) == s1.key_of(p) by {
                assert(s2.key_of(p) == s1.key_of(p));
            }
            assert forall|k: Seq<char>| #[trigger] s2.bucket(k) == without(old(self).bucket(k), d) by {}
            assert forall|p: Seq<char>, k: Seq<char>| #![trigger self.key_of(p), self.bucket(k)]
                (self.key_of(p) == Some(k)) <==> self.bucket(k).contains(p) by {
                old(self).lemma_bucket_no_repeats(k);
                lemma_without_contains(old(self).bucket(k), d, p);
                assert(old(self).key_of(p) == Some(k) <==> old(self).bucket(k).contains(p));
                if k == nk@ {
                    let w = without(old(self).bucket(k), d);
                    assert(self.bucket(k) == w.push(d));
                    if p == d {
                        assert(w.push(d)[w.len() as int] == d);
                    }
                    if w.push(d).contains(p) && p != d {
                        let j = choose|j: int| 0 <= j < w.push(d).len() && w.push(d)[j] == p;
                        assert(w[j] == p);
                    }
                    if w.contains(p) {
                        let j = choose|j: int| 0 <= j < w.len() && w[j] == p;
                        assert(w.push(d)[j] == p);
                    }
                }
            }
        }
    }

    /// Drops `doc_path` from the index.
    pub fn remove(&mut self, key: &Value, doc_path: &str)
        requires
            old(self).wf(),
        ensures
            final(self).wf(),
            final(self).name == old(self).name,
            final(self).field == old(self).field,
            final(self).path == old(self).path,
            final(self).key_of(doc_path@) is None,
            forall|p: Seq<char>| p != doc_path@ ==> #[trigger] final(self).key_of(p) == old(self).key_of(p),
            forall|k: Seq<char>| #[trigger] final(self).bucket(k) == without(old(self).bucket(k), doc_path@),
            final(self).dirty == (old(self).dirty || old(self).key_of(doc_path@) is Some),
    {
        let doc = String::from_str(doc_path);
        let ghost r0 = self.rev();
        let ghost f0 = self.fwd();
        let ghost d = doc_path@;
        proof {
            lemma_pos_facts(r0, d);
        }
        match self.rev_find(&doc) {
            None => {
                proof {
                    assert forall|k: Seq<char>| #[trigger] self.bucket(k) == without(old(self).bucket(k), d) by {
                        if old(self).bucket(k).contains(d) {
                            assert(old(self).key_of(d) == Some(k));
                        }
                        lemma_without_absent(old(self).bucket(k), d);
                    }
                }
            },
            Some(i) => {
                let ok = self.reverse[i].1.clone();
                proof {
                    assert(old(self).key_of(d) == Some(ok@));
                    assert(old(self).bucket(ok@).contains(d));
                    lemma_pos_facts(f0, ok@);
                }
                let bi = match self.bucket_find(&ok) {
                    Some(bi) => bi,
                    None => {
                        return;
                    },
                };
                self.reverse.remove(i);
                self.dirty = true;
                let ghost s1 = *self;
                proof {
                    assert(self.rev() =~= r0.remove(i as int));
                    assert forall|p: Seq<char>| #[trigger] self.key_of(p) == if p == d { None } else { old(self).key_of(p) } by {
                        lemma_lookup_remove(r0, i as int, p);
                    }
                    lemma_lookup_remove(r0, i as int, d);
                    assert(s1.fwd() == f0);
                    assert(self.fwd()[bi as int].0 == ok@);
                    assert(self.fwd()[bi as int].1 == old(self).bucket(ok@));
                    assert forall|k: Seq<char>| k != ok@ implies !(#[trigger] self.bucket(k)).contains(d) by {
                        assert(s1.bucket(k) == old(self).bucket(k));
                        if old(self).bucket(k).contains(d) {
                            assert(old(self).key_of(d) == Some(k));
                        }
                    }
                }
                self.take_from_bucket(bi, &doc);
                proof {
                    assert forall|k: Seq<char>| #[trigger] self.bucket(k) == without(old(self).bucket(k), d) by {
                        assert(s1.bucket(k) == old(self).bucket(k));
                    }
                    assert forall|p: Seq<char>| #[trigger] self.key_of(p) == s1.key_of(p) by {}
                }
            },
        }
        proof {
            assert forall|p: Seq<char>, k: Seq<char>| #![trigger self.key_of(p), self.bucket(k)]
                (self.key_of(p) == Some(k)) <==> self.bucket(k).contains(p) by {
                old(self).lemma_bucket_no_repeats(k);
                lemma_without_contains(old(self).bucket(k), d, p);
                assert(old(self).key_of(p) == Some(k) <==> old(self).bucket(k).contains(p));
            }
        }
    }

    /// Refills an empty index from buckets read back from its file, inserting
    /// their pairs in order; the result is not dirty.
    pub fn restore(&mut self, buckets: &Vec<(String, Vec<String>)>)
        requires
            old(self).wf(),
            old(self).fwd().len() == 0,
            old(self).rev().len() == 0,
        ensures
            final(self).wf(),
            final(self).name == old(self).name,
            final(self).field == old(self).field,
            final(self).path == old(self).path,
            !final(self).dirty,
            forall|p: Seq<char>| #[trigger] final(self).key_of(p) == last_key(stored_pairs(buckets@), p),
            forall|k: Seq<char>| #[trigger] final(self).bucket(k) == rebuilt_bucket(stored_pairs(buckets@), k),
    {
        let ghost b = buckets@;
        proof {
            assert forall|p: Seq<char>| #[trigger] self.key_of(p) == last_key(stored_pairs(b.subrange(0, 0)), p) by {
                assert(b.subrange(0, 0) =~= Seq::<(String, Vec<String>)>::empty());
                lemma_pos_facts(self.rev(), p);
            }
            assert forall|k: Seq<char>| #[trigger] self.bucket(k) == rebuilt_bucket(stored_pairs(b.subrange(0, 0)), k) by {
                assert(b.subrange(0, 0) =~= Seq::<(String, Vec<String>)>::empty());
                lemma_pos_facts(self.fwd(), k);
            }
        }
        let mut i: usize = 0;
        while i < buckets.len()
            invariant
                b == buckets@,
                self.wf(),
                self.name == old(self).name,
                self.field == old(self).field,
                self.path == old(self).path,
                0 <= i <= b.len(),
                forall|p: Seq<char>| #[trigger] self.key_of(p) == last_key(stored_pairs(b.subrange(0, i as int)), p),
                forall|k: Seq<char>| #[trigger] self.bucket(k) == rebuilt_bucket(stored_pairs(b.subrange(0, i as int)), k),
            decreases b.len() - i,
        {
            let ghost done = stored_pairs(b.subrange(0, i as int));
            let ghost key = b[i as int].0@;
            let ghost docs = b[i as int].1@;
            let mut t: usize = 0;
            proof {
                assert(done + Seq::new(0, |j: int| (key, docs[j]@)) =~= done);
            }
            while t < buckets[i].1.len()
                invariant
                    b == buckets@,
                    0 <= i < b.len(),
                    done == stored_pairs(b.subrange(0, i as int)),
                    key == b[i as int].0@,
                    docs == b[i as int].1@,
                    self.wf(),
                    self.name == old(self).name,
                    self.field == old(self).field,
                    self.path == old(self).path,
                    0 <= t <= docs.len(),
                    forall|p: Seq<char>| #[trigger] self.key_of(p) == last_key(
                        done + Seq::new(t as nat, |j: int| (key, docs[j]@)),
                        p,
                    ),
                    forall|k: Seq<char>| #[trigger] self.bucket(k) == rebuilt_bucket(
                        done + Seq::new(t as nat, |j: int| (key, docs[j]@)),
                        k,
                    ),
                decreases docs.len() - t,
            {
                let ghost before = done + Seq::new(t as nat, |j: int| (key, docs[j]@));
                let ghost after = done + Seq::new(t as nat + 1, |j: int| (key, docs[j]@));
                let ghost s0 = *self;
                proof {
                    assert(after.drop_last() =~= before);
                    assert(after.last() == (key, docs[t as int]@));
                }
                self.insert_key(buckets[i].0.clone(), buckets[i].1[t].clone());
                proof {
                    assert forall|p: Seq<char>| #[trigger] self.key_of(p) == last_key(after, p) by {}
                    let d = docs[t as int]@;
                    assert(s0.key_of(d) == last_key(before, d));
                    assert forall|k: Seq<char>| #[trigger] self.bucket(k) == rebuilt_bucket(after, k) by {
                        assert(rebuilt_bucket(after, k) == if last_key(before, d) == Some(key) {
                            rebuilt_bucket(before, k)
                        } else if k == key {
                            without(rebuilt_bucket(before, k), d).push(d)
                        } else {
                            without(rebuilt_bucket(before, k), d)
                        });
                        assert(s0.bucket(k) == rebuilt_bucket(before, k));
                        if s0.key_of(d) == Some(key) {
                            assert(self.buckets == s0.buckets);
                            assert(self.fwd() == s0.fwd());
                        }
                    }
                }
                t = t + 1;
            }
            proof {
                assert(b.subrange(0, i as int + 1).drop_last() =~= b.subrange(0, i as int));
                assert(b.subrange(0, i as int + 1).last() == b[i as int]);
                assert(Seq::new(docs.len(), |j: int| (key, docs[j]@)) =~= Seq::new(
                    b[i as int].1@.len(),
                    |j: int| (b[i as int].0@, b[i as int].1@[j]@),
                ));
                assert(stored_pairs(b.subrange(0, i as int + 1)) =~= done + Seq::new(t as nat, |j: int| (key, docs[j]@)));
            }
            i = i + 1;
        }
        let ghost s1 = *self;
        self.dirty = false;
        proof {
            assert(b.subrange(0, b.len() as int) =~= b);
            assert(self.fwd() == s1.fwd());
            assert(self.rev() == s1.rev());
            assert forall|p: Seq<char>| #[trigger] self.key_of(p) == s1.key_of(p) by {}
            assert forall|k: Seq<char>| #[trigger] self.bucket(k) == s1.bucket(k) by {}
        }
    }
}

} // verus!
