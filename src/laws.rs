use vstd::prelude::*;
use crate::btree::BTreeIndex;
use crate::undo::{TxOp, run_tx};
use crate::tree::{
    get_at, set_at, delete_at, push_at, push_dedup, pad, fresh_for, path_segs, get_path,
    set_path, delete_path, push_path,
};
use crate::value::{Json, find_key, obj_get, obj_put, lemma_find_key_facts,
    lemma_find_key_first, lemma_find_key_none};

verus! {

proof fn lemma_put_then_get(m: Seq<(Seq<char>, Json)>, k: Seq<char>, v: Json)
    ensures
        obj_get(obj_put(m, k, v), k) == Some(v),
        find_key(m, k) >= 0 ==> find_key(obj_put(m, k, v), k) == find_key(m, k),
{
    lemma_find_key_facts(m, k);
    let t = obj_put(m, k, v);
    let p = find_key(m, k);
    if p >= 0 {
        assert forall|j: int| 0 <= j < p implies (#[trigger] t[j]).0 != k by {
            assert(t[j] == m[j]);
        }
        lemma_find_key_first(t, k, p);
    } else {
        assert forall|j: int| 0 <= j < m.len() implies (#[trigger] t[j]).0 != k by {
            assert(t[j] == m[j]);
        }
        lemma_find_key_first(t, k, m.len() as int);
    }
}

/// Reading a path right after writing `v` there gives `v`.
pub proof fn lemma_get_after_set(root: Json, segs: Seq<Seq<char>>, v: Json)
    requires
        set_at(root, segs, v) is Ok,
    ensures
        get_at(set_at(root, segs, v)->Ok_0, segs) == Some(v),
    decreases segs.len(),
{
    if segs.len() == 0 {
    } else if segs.len() == 1 {
        let k = segs[0];
        assert(segs.drop_first().len() == 0);
        match root {
            Json::Obj(m) => {
                lemma_put_then_get(m, k, v);
            },
            Json::Null => {
                if seg_is_index(k) {
                } else {
                    lemma_put_then_get(Seq::empty(), k, v);
                    lemma_find_key_facts(Seq::<(Seq<char>, Json)>::empty(), k);
                    assert(obj_put(Seq::empty(), k, v) =~= seq![(k, v)]);
                }
            },
            _ => {},
        }
    } else {
        let k = segs[0];
        let rest = segs.drop_first();
        let n = if root is Null { Json::Obj(Seq::empty()) } else { root };
        match n {
            Json::Obj(m) => {
                let child = match obj_get(m, k) {
                    Some(c) => c,
                    None => fresh_for(rest[0]),
                };
                lemma_get_after_set(child, rest, v);
                lemma_put_then_get(m, k, set_at(child, rest, v)->Ok_0);
            },
            Json::Arr(a) => {
                let i = crate::path::seg_index(k)->0;
                let p = pad(a, (i + 1) as int);
                let child = if p[i as int] is Null { fresh_for(rest[0]) } else { p[i as int] };
                lemma_get_after_set(child, rest, v);
            },
            _ => {},
        }
    }
}

spec fn seg_is_index(k: Seq<char>) -> bool {
    crate::path::seg_index(k) is Some
}

/// Writing `v` at `path` and reading `path` back gives `v`.
pub proof fn law_get_after_set(root: Json, path: Seq<char>, v: Json)
    requires
        set_path(root, path, v) is Ok,
    ensures
        get_path(set_path(root, path, v)->Ok_0, path) == v,
{
    lemma_get_after_set(root, path_segs(path), v);
}

/// Pushing `v` onto the array at `path` and reading `path` back gives the array
/// with `v` appended, unless an equal element was there already.
pub proof fn law_get_after_push(root: Json, path: Seq<char>, v: Json)
    requires
        push_path(root, path, v) is Ok,
    ensures
        get_at(root, path_segs(path)) matches Some(Json::Arr(a)) && get_path(push_path(root, path, v)->Ok_0, path)
            == Json::Arr(push_dedup(a, v)),
{
    lemma_get_after_push(root, path_segs(path), v);
}

proof fn lemma_get_after_push(root: Json, segs: Seq<Seq<char>>, v: Json)
    requires
        push_at(root, segs, v) is Ok,
    ensures
        get_at(root, segs) matches Some(Json::Arr(a)) && get_at(push_at(root, segs, v)->Ok_0, segs) == Some(
            Json::Arr(push_dedup(a, v)),
        ),
    decreases segs.len(),
{
    if segs.len() > 0 {
        let k = segs[0];
        let rest = segs.drop_first();
        match root {
            Json::Obj(m) => {
                let c = obj_get(m, k)->Some_0;
                lemma_get_after_push(c, rest, v);
                lemma_put_then_get(m, k, push_at(c, rest, v)->Ok_0);
            },
            Json::Arr(a) => {
                let i = crate::path::seg_index(k)->0;
                lemma_get_after_push(a[i as int], rest, v);
            },
            _ => {},
        }
    }
}

/// Deleting the entry at `path` of an object and reading `path` back gives null,
/// where the object's keys are distinct. (Deleting an array element shifts the
/// later ones into its place, so this is stated for object entries.)
pub proof fn law_get_after_delete(root: Json, path: Seq<char>)
    requires
        root.wf(),
        path.len() > 0,
        get_at(root, path_segs(path).drop_last()) matches Some(Json::Obj(_)),
    ensures
        get_path(delete_path(root, path), path) == Json::Null,
{
    crate::path::lemma_split_dots_nonempty(path);
    lemma_get_after_delete(root, path_segs(path));
}

proof fn lemma_get_after_delete(root: Json, segs: Seq<Seq<char>>)
    requires
        root.wf(),
        segs.len() > 0,
        get_at(root, segs.drop_last()) matches Some(Json::Obj(_)),
    ensures
        get_at(delete_at(root, segs), segs) is None,
    decreases segs.len(),
{
    let k = segs[0];
    let rest = segs.drop_first();
    if segs.len() == 1 {
        assert(segs.drop_last().len() == 0);
        if let Json::Obj(m) = root {
            lemma_find_key_facts(m, k);
            let p = find_key(m, k);
            if p >= 0 {
                let t = m.remove(p);
                assert forall|j: int| 0 <= j < t.len() implies (#[trigger] t[j]).0 != k by {
                    if j < p {
                        assert(t[j] == m[j]);
                    } else {
                        assert(t[j] == m[j + 1]);
                        assert(m[p].0 != m[j + 1].0);
                    }
                }
                lemma_find_key_none(t, k);
            }
        }
    } else {
        assert(segs.drop_last().drop_first() =~= rest.drop_last());
        assert(segs.drop_last()[0] == k);
        match root {
            Json::Obj(m) => {
                lemma_find_key_facts(m, k);
                let c = obj_get(m, k)->Some_0;
                assert(c.wf());
                lemma_get_after_delete(c, rest);
                lemma_put_then_get(m, k, delete_at(c, rest));
            },
            Json::Arr(a) => {
                let i = crate::path::seg_index(k)->0;
                assert(a[i as int].wf());
                lemma_get_after_delete(a[i as int], rest);
            },
            _ => {},
        }
    }
}

/// The reverse map of a well-formed index is the inverse of its buckets: a
/// doc-path maps to a key exactly when that key's bucket holds it.
pub proof fn law_index_inverse(idx: BTreeIndex, p: Seq<char>, k: Seq<char>)
    requires
        idx.wf(),
    ensures
        (idx.key_of(p) == Some(k)) <==> idx.bucket(k).contains(p),
{
}

/// Whether paths `s` and `q` part at an object key: after a common run of
/// segments they differ at a segment that neither reads as an array index.
pub open spec fn apart(s: Seq<Seq<char>>, q: Seq<Seq<char>>) -> bool
    decreases s.len(),
{
    if s.len() == 0 || q.len() == 0 {
        false
    } else if s[0] == q[0] {
        apart(s.drop_first(), q.drop_first())
    } else {
        crate::path::seg_index(s[0]) is None && crate::path::seg_index(q[0]) is None
    }
}

proof fn lemma_put_other(m: Seq<(Seq<char>, Json)>, k: Seq<char>, v: Json, k2: Seq<char>)
    requires
        k != k2,
    ensures
        obj_get(obj_put(m, k, v), k2) == obj_get(m, k2),
{
    lemma_find_key_facts(m, k);
    lemma_find_key_facts(m, k2);
    let t = obj_put(m, k, v);
    let f = find_key(m, k2);
    if f >= 0 {
        assert forall|j: int| 0 <= j < f implies (#[trigger] t[j]).0 != k2 by {
            if j < m.len() {
                assert(t[j].0 == m[j].0 || t[j].0 == k);
            }
        }
        assert(t[f] == m[f] || t[f].0 == k);
        lemma_find_key_first(t, k2, f);
    } else {
        assert forall|j: int| 0 <= j < t.len() implies (#[trigger] t[j]).0 != k2 by {
            if j < m.len() {
                assert(t[j].0 == m[j].0 || t[j].0 == k);
            }
        }
        lemma_find_key_none(t, k2);
    }
}

proof fn lemma_remove_other(m: Seq<(Seq<char>, Json)>, k: Seq<char>, k2: Seq<char>)
    requires
        k != k2,
    ensures
        obj_get(crate::value::obj_remove(m, k), k2) == obj_get(m, k2),
{
    lemma_find_key_facts(m, k);
    lemma_find_key_facts(m, k2);
    let p = find_key(m, k);
    if p >= 0 {
        let t = m.remove(p);
        let f = find_key(m, k2);
        if f >= 0 {
            let g = if f < p { f } else { f - 1 };
            assert(f != p);
            assert(t[g] == m[f]);
            assert forall|j: int| 0 <= j < g implies (#[trigger] t[j]).0 != k2 by {
                if j < p {
                    assert(t[j] == m[j]);
                } else {
                    assert(t[j] == m[j + 1]);
                }
            }
            lemma_find_key_first(t, k2, g);
        } else {
            assert forall|j: int| 0 <= j < t.len() implies (#[trigger] t[j]).0 != k2 by {
                if j < p {
                    assert(t[j] == m[j]);
                } else {
                    assert(t[j] == m[j + 1]);
                }
            }
            lemma_find_key_none(t, k2);
        }
    }
}

proof fn lemma_get_empty(j: Json, q: Seq<Seq<char>>)
    requires
        q.len() > 0,
        j == Json::Null || j == Json::Obj(Seq::empty()) || j == Json::Arr(Seq::empty()),
    ensures
        get_at(j, q) is None,
{
    lemma_find_key_facts(Seq::<(Seq<char>, Json)>::empty(), q[0]);
}

/// A write leaves the value at a path that parts from it at an object key.
pub proof fn lemma_set_frame(r: Json, s: Seq<Seq<char>>, q: Seq<Seq<char>>, v: Json)
    requires
        apart(s, q),
        set_at(r, s, v) is Ok,
    ensures
        get_at(set_at(r, s, v)->Ok_0, q) == get_at(r, q),
    decreases s.len(),
{
    let k = s[0];
    let k2 = q[0];
    let rest = s.drop_first();
    let q2 = q.drop_first();
    if k == k2 {
        assert(apart(rest, q2));
        assert(rest.len() > 0 && q2.len() > 0);
        let n = if r is Null { fresh_for(k) } else { r };
        match n {
            Json::Obj(m) => {
                let child = match obj_get(m, k) {
                    Some(c) => c,
                    None => fresh_for(rest[0]),
                };
                lemma_set_frame(child, rest, q2, v);
                lemma_put_then_get(m, k, set_at(child, rest, v)->Ok_0);
                if obj_get(m, k) is None {
                    lemma_get_empty(child, q2);
                }
                if r is Null {
                    lemma_get_empty(r, q);
                    lemma_find_key_facts(Seq::<(Seq<char>, Json)>::empty(), k);
                }
            },
            Json::Arr(a) => {
                let i = crate::path::seg_index(k)->Some_0;
                let p = pad(a, (i + 1) as int);
                let child = if p[i as int] is Null { fresh_for(rest[0]) } else { p[i as int] };
                lemma_set_frame(child, rest, q2, v);
                if p[i as int] is Null {
                    lemma_get_empty(child, q2);
                    lemma_get_empty(p[i as int], q2);
                }
                if r is Null {
                    lemma_get_empty(r, q);
                }
            },
            _ => {},
        }
    } else {
        match r {
            Json::Obj(m) => {
                if s.len() == 1 {
                    lemma_put_other(m, k, v, k2);
                } else {
                    let child = match obj_get(m, k) {
                        Some(c) => c,
                        None => fresh_for(rest[0]),
                    };
                    lemma_put_other(m, k, set_at(child, rest, v)->Ok_0, k2);
                }
            },
            Json::Null => {
                lemma_find_key_facts(Seq::<(Seq<char>, Json)>::empty(), k2);
                if s.len() == 1 {
                    lemma_put_other(Seq::empty(), k, v, k2);
                    assert(obj_put(Seq::<(Seq<char>, Json)>::empty(), k, v) =~= seq![(k, v)]);
                } else {
                    let child = fresh_for(rest[0]);
                    lemma_put_other(Seq::empty(), k, set_at(child, rest, v)->Ok_0, k2);
                }
            },
            _ => {},
        }
    }
}

/// A delete leaves the value at a path that parts from it at an object key.
pub proof fn lemma_delete_frame(r: Json, s: Seq<Seq<char>>, q: Seq<Seq<char>>)
    requires
        apart(s, q),
    ensures
        get_at(delete_at(r, s), q) == get_at(r, q),
    decreases s.len(),
{
    let k = s[0];
    let k2 = q[0];
    if k == k2 {
        if s.len() > 1 {
            match r {
                Json::Obj(m) => {
                    if let Some(c) = obj_get(m, k) {
                        lemma_delete_frame(c, s.drop_first(), q.drop_first());
                        lemma_put_then_get(m, k, delete_at(c, s.drop_first()));
                    }
                },
                Json::Arr(a) => {
                    if let Some(i) = crate::path::seg_index(k) {
                        if i < a.len() {
                            lemma_delete_frame(a[i as int], s.drop_first(), q.drop_first());
                        }
                    }
                },
                _ => {},
            }
        } else {
            assert(s.drop_first().len() == 0);
        }
    } else {
        match r {
            Json::Obj(m) => {
                if s.len() == 1 {
                    lemma_remove_other(m, k, k2);
                } else if let Some(c) = obj_get(m, k) {
                    lemma_put_other(m, k, delete_at(c, s.drop_first()), k2);
                }
            },
            _ => {},
        }
    }
}

/// A push leaves the value at a path that parts from it at an object key.
pub proof fn lemma_push_frame(r: Json, s: Seq<Seq<char>>, q: Seq<Seq<char>>, v: Json)
    requires
        apart(s, q),
        push_at(r, s, v) is Ok,
    ensures
        get_at(push_at(r, s, v)->Ok_0, q) == get_at(r, q),
    decreases s.len(),
{
    let k = s[0];
    let k2 = q[0];
    match r {
        Json::Obj(m) => {
            let c = obj_get(m, k)->Some_0;
            let c2 = push_at(c, s.drop_first(), v)->Ok_0;
            if k == k2 {
                lemma_push_frame(c, s.drop_first(), q.drop_first(), v);
                lemma_put_then_get(m, k, c2);
            } else {
                lemma_put_other(m, k, c2, k2);
            }
        },
        Json::Arr(a) => {
            let i = crate::path::seg_index(k)->Some_0;
            if k == k2 {
                lemma_push_frame(a[i as int], s.drop_first(), q.drop_first(), v);
            }
        },
        _ => {},
    }
}

/// The path a change is made at.
pub open spec fn op_path(op: TxOp) -> Seq<char> {
    match op {
        TxOp::Write(p, _) => p,
        TxOp::Remove(p) => p,
        TxOp::Append(p, _) => p,
    }
}

/// The tree after one change.
pub open spec fn step(r: Json, x: TxOp) -> Json {
    match x {
        TxOp::Write(p, v) => match set_path(r, p, v) {
            Ok(r2) => r2,
            Err(_) => r,
        },
        TxOp::Remove(p) => delete_path(r, p),
        TxOp::Append(p, v) => match push_path(r, p, v) {
            Ok(r2) => r2,
            Err(_) => r,
        },
    }
}

proof fn lemma_run_step(root: Json, ops: Seq<TxOp>, x: TxOp)
    ensures
        run_tx(root, ops.push(x)).0 == step(run_tx(root, ops).0, x),
{
    assert(ops.push(x).drop_last() =~= ops);
    assert(ops.push(x).last() == x);
}

/// Changes at paths that part from `q` at an object key leave the value at `q`.
proof fn lemma_post_frame(root: Json, ops: Seq<TxOp>, post: Seq<TxOp>, q: Seq<Seq<char>>)
    requires
        forall|j: int| 0 <= j < post.len() ==> apart(path_segs(op_path(#[trigger] post[j])), q),
    ensures
        get_at(run_tx(root, ops + post).0, q) == get_at(run_tx(root, ops).0, q),
    decreases post.len(),
{
    if post.len() > 0 {
        let init = post.drop_last();
        let x = post.last();
        lemma_post_frame(root, ops, init, q);
        assert(ops + post =~= (ops + init).push(x));
        lemma_run_step(root, ops + init, x);
        let r = run_tx(root, ops + init).0;
        assert(apart(path_segs(op_path(post[post.len() - 1])), q));
        match x {
            TxOp::Write(p, v) => {
                if set_path(r, p, v) is Ok {
                    lemma_set_frame(r, path_segs(p), q, v);
                }
            },
            TxOp::Remove(p) => {
                lemma_delete_frame(r, path_segs(p), q);
            },
            TxOp::Append(p, v) => {
                if push_path(r, p, v) is Ok {
                    lemma_push_frame(r, path_segs(p), q, v);
                }
            },
        }
    }
}

/// After any changes `pre`, a change at `p`, and then changes at paths that part
/// from `p` at an object key, reading `p` gives the value last written there,
/// null after a delete of an object entry (in a tree whose objects have distinct
/// keys), or the array the push extended.
pub proof fn law_get_after_sequence(root: Json, pre: Seq<TxOp>, last: TxOp, post: Seq<TxOp>)
    requires
        forall|j: int| 0 <= j < post.len() ==> apart(path_segs(op_path(#[trigger] post[j])), path_segs(op_path(last))),
    ensures
        ({
            let r = run_tx(root, pre).0;
            let fin = run_tx(root, pre.push(last) + post).0;
            match last {
                TxOp::Write(p, v) => set_path(r, p, v) is Ok ==> get_path(fin, p) == v,
                TxOp::Remove(p) => (r.wf() && p.len() > 0 && get_at(r, path_segs(p).drop_last()) matches Some(
                    Json::Obj(_),
                )) ==> get_path(fin, p) == Json::Null,
                TxOp::Append(p, v) => push_path(r, p, v) is Ok ==> (get_at(r, path_segs(p)) matches Some(Json::Arr(a))
                    && get_path(fin, p) == Json::Arr(push_dedup(a, v))),
            }
        }),
{
    let q = path_segs(op_path(last));
    lemma_post_frame(root, pre.push(last), post, q);
    lemma_run_step(root, pre, last);
    let r = run_tx(root, pre).0;
    assert(pre.push(last) + Seq::<TxOp>::empty() =~= pre.push(last));
    match last {
        TxOp::Write(p, v) => {
            if set_path(r, p, v) is Ok {
                law_get_after_set(r, p, v);
            }
        },
        TxOp::Remove(p) => {
            if r.wf() && p.len() > 0 && get_at(r, path_segs(p).drop_last()) matches Some(Json::Obj(_)) {
                law_get_after_delete(r, p);
            }
        },
        TxOp::Append(p, v) => {
            if push_path(r, p, v) is Ok {
                law_get_after_push(r, p, v);
            }
        },
    }
}

} // verus!
