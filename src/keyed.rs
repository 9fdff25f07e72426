use vstd::prelude::*;

verus! {

/// Position of the first entry of `s` whose key is `k`, or -1.
pub open spec fn pos_of<V>(s: Seq<(Seq<char>, V)>, k: Seq<char>) -> int
    decreases s.len(),
{
    if s.len() == 0 {
        -1
    } else if pos_of(s.drop_last(), k) >= 0 {
        pos_of(s.drop_last(), k)
    } else if s.last().0 == k {
        s.len() - 1
    } else {
        -1
    }
}

/// The value bound to `k` by its first entry, if any.
pub open spec fn lookup<V>(s: Seq<(Seq<char>, V)>, k: Seq<char>) -> Option<V> {
    if pos_of(s, k) >= 0 {
        Some(s[pos_of(s, k)].1)
    } else {
        None
    }
}

pub open spec fn keys_distinct<V>(s: Seq<(Seq<char>, V)>) -> bool {
    forall|i: int, j: int| 0 <= i < j < s.len() ==> (#[trigger] s[i]).0 != (#[trigger] s[j]).0
}

/// `pos_of` is the first position holding the key.
pub proof fn lemma_pos_is<V>(s: Seq<(Seq<char>, V)>, k: Seq<char>, r: int)
    ensures
        (0 <= r < s.len() && s[r].0 == k && forall|j: int| 0 <= j < r ==> (#[trigger] s[j]).0 != k)
            ==> pos_of(s, k) == r,
        (r == -1 && forall|j: int| 0 <= j < s.len() ==> (#[trigger] s[j]).0 != k) ==> pos_of(s, k)
            == -1,
    decreases s.len(),
{
    if s.len() > 0 {
        let d = s.drop_last();
        assert forall|j: int| 0 <= j < d.len() implies d[j] == s[j] by {}
        if r < s.len() - 1 {
            lemma_pos_is(d, k, r);
        } else {
            lemma_pos_is(d, k, -1);
        }
        lemma_pos_is(d, k, -1);
    }
}

pub proof fn lemma_pos_facts<V>(s: Seq<(Seq<char>, V)>, k: Seq<char>)
    ensures
        -1 <= pos_of(s, k) < s.len(),
        pos_of(s, k) >= 0 ==> s[pos_of(s, k)].0 == k,
        pos_of(s, k) >= 0 ==> forall|j: int| 0 <= j < pos_of(s, k) ==> (#[trigger] s[j]).0 != k,
        pos_of(s, k) == -1 ==> forall|j: int| 0 <= j < s.len() ==> (#[trigger] s[j]).0 != k,
    decreases s.len(),
{
    if s.len() > 0 {
        lemma_pos_facts(s.drop_last(), k);
        let d = s.drop_last();
        assert forall|j: int| 0 <= j < d.len() implies d[j] == s[j] by {}
    }
}

/// In a sequence with distinct keys, the entry at `i` is the one for its key.
pub proof fn lemma_pos_distinct<V>(s: Seq<(Seq<char>, V)>, i: int)
    requires
        keys_distinct(s),
        0 <= i < s.len(),
    ensures
        pos_of(s, s[i].0) == i,
{
    lemma_pos_is(s, s[i].0, i);
}

/// Lookups in `s` with the value at `i` replaced.
pub proof fn lemma_lookup_update<V>(s: Seq<(Seq<char>, V)>, i: int, v: V, k: Seq<char>)
    requires
        0 <= i < s.len(),
    ensures
        pos_of(s.update(i, (s[i].0, v)), k) == pos_of(s, k),
        lookup(s.update(i, (s[i].0, v)), k) == if pos_of(s, k) == i {
            Some(v)
        } else {
            lookup(s, k)
        },
{
    let t = s.update(i, (s[i].0, v));
    lemma_pos_facts(s, k);
    let p = pos_of(s, k);
    assert forall|j: int| 0 <= j < s.len() implies (#[trigger] t[j]).0 == s[j].0 by {}
    lemma_pos_is(t, k, p);
}

/// Lookups in `s` with `(k, v)` added at `i`, where `k` was not bound.
pub proof fn lemma_lookup_insert<V>(s: Seq<(Seq<char>, V)>, i: int, k: Seq<char>, v: V, k2: Seq<char>)
    requires
        0 <= i <= s.len(),
        pos_of(s, k) == -1,
    ensures
        lookup(s.insert(i, (k, v)), k2) == if k2 == k {
            Some(v)
        } else {
            lookup(s, k2)
        },
{
    let t = s.insert(i, (k, v));
    lemma_pos_facts(s, k);
    lemma_pos_facts(s, k2);
    if k2 == k {
        assert forall|j: int| 0 <= j < i implies (#[trigger] t[j]).0 != k by {
            assert(t[j] == s[j]);
        }
        lemma_pos_is(t, k, i);
    } else {
        let p = pos_of(s, k2);
        if p >= 0 {
            if p < i {
                assert forall|j: int| 0 <= j < p implies (#[trigger] t[j]).0 != k2 by {
                    assert(t[j] == s[j]);
                }
                lemma_pos_is(t, k2, p);
            } else {
                assert forall|j: int| 0 <= j < p + 1 implies (#[trigger] t[j]).0 != k2 by {
                    if j < i {
                        assert(t[j] == s[j]);
                    } else if j > i {
                        assert(t[j] == s[j - 1]);
                    }
                }
                assert(t[p + 1] == s[p]);
                lemma_pos_is(t, k2, p + 1);
            }
        } else {
            assert forall|j: int| 0 <= j < t.len() implies (#[trigger] t[j]).0 != k2 by {
                if j < i {
                    assert(t[j] == s[j]);
                } else if j > i {
                    assert(t[j] == s[j - 1]);
                }
            }
            lemma_pos_is(t, k2, -1);
        }
    }
}

/// Lookups in `s` without its entry at `i`, where keys are distinct.
pub proof fn lemma_lookup_remove<V>(s: Seq<(Seq<char>, V)>, i: int, k2: Seq<char>)
    requires
        0 <= i < s.len(),
        keys_distinct(s),
    ensures
        keys_distinct(s.remove(i)),
        lookup(s.remove(i), k2) == if k2 == s[i].0 {
            None
        } else {
            lookup(s, k2)
        },
{
    let t = s.remove(i);
    assert forall|a: int, b: int| 0 <= a < b < t.len() implies (#[trigger] t[a]).0 != (#[trigger] t[b]).0 by {
        let a2 = if a < i { a } else { a + 1 };
        let b2 = if b < i { b } else { b + 1 };
        assert(t[a] == s[a2]);
        assert(t[b] == s[b2]);
    }
    lemma_pos_facts(s, k2);
    let p = pos_of(s, k2);
    if k2 == s[i].0 {
        assert forall|j: int| 0 <= j < t.len() implies (#[trigger] t[j]).0 != k2 by {
            let j2 = if j < i { j } else { j + 1 };
            assert(t[j] == s[j2]);
        }
        lemma_pos_is(t, k2, -1);
    } else if p >= 0 {
        let q = if p < i { p } else { p - 1 };
        assert(p != i);
        assert(t[q] == s[p]);
        assert forall|j: int| 0 <= j < q implies (#[trigger] t[j]).0 != k2 by {
            let j2 = if j < i { j } else { j + 1 };
            assert(t[j] == s[j2]);
        }
        lemma_pos_is(t, k2, q);
    } else {
        assert forall|j: int| 0 <= j < t.len() implies (#[trigger] t[j]).0 != k2 by {
            let j2 = if j < i { j } else { j + 1 };
            assert(t[j] == s[j2]);
        }
        lemma_pos_is(t, k2, -1);
    }
}

} // verus!
