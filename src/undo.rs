use vstd::prelude::*;
use crate::path::{seg_index, lemma_split_dots_nonempty};
use crate::tree::{
    PathError, get_at, set_at, delete_at, push_at, pad, path_segs, set_path, delete_path,
    push_path,
};
use crate::value::{Json, find_key, obj_get, obj_put, obj_remove, lemma_find_key_facts, lemma_find_key_first};

verus! {

/// One undo record: a path, as segments from the root, and what stood there
/// (`None`: nothing, so undoing deletes the path).
pub type UndoEntry = (Seq<Seq<char>>, Option<Json>);

/// Restores one undo record: a value is written back, an absence deleted.
pub open spec fn undo_one(root: Json, e: UndoEntry) -> Json {
    match e.1 {
        Some(v) => match set_at(root, e.0, v) {
            Ok(j) => j,
            Err(_) => root,
        },
        None => delete_at(root, e.0),
    }
}

/// The tree after undoing `log`, newest record first.
pub open spec fn undo_all(root: Json, log: Seq<UndoEntry>) -> Json
    decreases log.len(),
{
    if log.len() == 0 {
        root
    } else {
        undo_all(undo_one(root, log.last()), log.drop_last())
    }
}

/// How many leading segments of `segs` a write below `node` may change, and what
/// stood at that depth: the first missing entry (recorded as absent), the first
/// null that the write would turn into a container, an array the write would
/// extend, or the written path itself.
pub open spec fn undo_depth(node: Json, segs: Seq<Seq<char>>) -> (int, Option<Json>)
    decreases segs.len(),
{
    if segs.len() == 0 {
        (0, Some(node))
    } else {
        let k = segs[0];
        let rest = segs.drop_first();
        match node {
            Json::Obj(m) => match obj_get(m, k) {
                None => (1, None),
                Some(c) => if segs.len() > 1 && c is Null {
                    (1, Some(Json::Null))
                } else {
                    let e = undo_depth(c, rest);
                    (e.0 + 1, e.1)
                },
            },
            Json::Arr(a) => match seg_index(k) {
                Some(i) => if i < a.len() {
                    if segs.len() > 1 && a[i as int] is Null {
                        (1, Some(Json::Null))
                    } else {
                        let e = undo_depth(a[i as int], rest);
                        (e.0 + 1, e.1)
                    }
                } else {
                    (0, Some(node))
                },
                None => (0, Some(node)),
            },
            _ => (0, Some(node)),
        }
    }
}

/// The record that undoes a write at `segs` below `root`.
pub open spec fn set_entry(root: Json, segs: Seq<Seq<char>>) -> UndoEntry {
    (segs.subrange(0, undo_depth(root, segs).0), undo_depth(root, segs).1)
}

/// The record that undoes a delete at `segs`: the parent's value, kept whole
/// (nothing, where there is no parent and so nothing changes); for the root, the
/// root itself.
pub open spec fn delete_entry(root: Json, segs: Seq<Seq<char>>) -> Option<UndoEntry> {
    if segs.len() == 0 {
        Some((Seq::empty(), Some(root)))
    } else {
        match get_at(root, segs.drop_last()) {
            Some(x) => Some((segs.drop_last(), Some(x))),
            None => None,
        }
    }
}

/// A change a transaction makes.
pub enum TxOp {
    Write(Seq<char>, Json),
    Remove(Seq<char>),
    Append(Seq<char>, Json),
}

/// The tree after `ops`, and the undo log the store records for them.
pub open spec fn run_tx(root: Json, ops: Seq<TxOp>) -> (Json, Seq<UndoEntry>)
    decreases ops.len(),
{
    if ops.len() == 0 {
        (root, Seq::empty())
    } else {
        let prev = run_tx(root, ops.drop_last());
        let r = prev.0;
        match ops.last() {
            TxOp::Write(p, v) => match set_path(r, p, v) {
                Ok(r2) => (r2, prev.1.push(set_entry(r, path_segs(p)))),
                Err(_) => prev,
            },
            TxOp::Remove(p) => (delete_path(r, p), match delete_entry(r, path_segs(p)) {
                Some(e) => prev.1.push(e),
                None => prev.1,
            }),
            TxOp::Append(p, v) => match push_path(r, p, v) {
                Ok(r2) => (r2, prev.1.push((path_segs(p), get_at(r, path_segs(p))))),
                Err(_) => prev,
            },
        }
    }
}

proof fn lemma_put_get(m: Seq<(Seq<char>, Json)>, k: Seq<char>, v: Json)
    ensures
        obj_get(obj_put(m, k, v), k) == Some(v),
{
    lemma_find_key_facts(m, k);
    let t = obj_put(m, k, v);
    let p = find_key(m, k);
    if p >= 0 {
        assert forall|j: int| 0 <= j < p implies (#[trigger] t[j]).0 != k by {
            assert(t[j] == m[j]);
        }
        lemma_find_key_first(t, k, p);
    } else {
        assert forall|j: int| 0 <= j < m.len() implies (#[trigger] t[j]).0 != k by {
            assert(t[j] == m[j]);
        }
        lemma_find_key_first(t, k, m.len() as int);
    }
}

proof fn lemma_put_back(m: Seq<(Seq<char>, Json)>, k: Seq<char>, v: Json, c: Json)
    requires
        obj_get(m, k) == Some(c),
    ensures
        obj_put(obj_put(m, k, v), k, c) == m,
        obj_put(m, k, c) == m,
{
    lemma_find_key_facts(m, k);
    let p = find_key(m, k);
    let t = obj_put(m, k, v);
    assert forall|j: int| 0 <= j < p implies (#[trigger] t[j]).0 != k by {
        assert(t[j] == m[j]);
    }
    lemma_find_key_first(t, k, p);
    assert(obj_put(obj_put(m, k, v), k, c) =~= m);
    assert(obj_put(m, k, c) =~= m);
}

proof fn lemma_put_new_remove(m: Seq<(Seq<char>, Json)>, k: Seq<char>, v: Json)
    requires
        obj_get(m, k) is None,
    ensures
        obj_remove(obj_put(m, k, v), k) == m,
{
    lemma_find_key_facts(m, k);
    let t = obj_put(m, k, v);
    assert forall|j: int| 0 <= j < m.len() implies (#[trigger] t[j]).0 != k by {
        assert(t[j] == m[j]);
    }
    lemma_find_key_first(t, k, m.len() as int);
    assert(t.remove(m.len() as int) =~= m);
}

proof fn lemma_set_container(r: Json, segs: Seq<Seq<char>>, v: Json)
    requires
        segs.len() > 0,
        set_at(r, segs, v) is Ok,
    ensures
        !(set_at(r, segs, v)->Ok_0 is Null),
{
}

/// Undoing a write with the record taken before it restores the tree.
pub proof fn lemma_undo_set(r: Json, segs: Seq<Seq<char>>, v: Json)
    requires
        set_at(r, segs, v) is Ok,
    ensures
        0 <= undo_depth(r, segs).0 <= segs.len(),
        undo_depth(r, segs).1 is None ==> undo_depth(r, segs).0 >= 1,
        undo_one(set_at(r, segs, v)->Ok_0, set_entry(r, segs)) == r,
    decreases segs.len(),
{
    let r1 = set_at(r, segs, v)->Ok_0;
    let e = undo_depth(r, segs);
    if segs.len() == 0 {
        assert(segs.subrange(0, 0) =~= segs);
    } else {
        let k = segs[0];
        let rest = segs.drop_first();
        match r {
            Json::Obj(m) => {
                lemma_find_key_facts(m, k);
                match obj_get(m, k) {
                    None => {
                        let c2 = if segs.len() == 1 { v } else { set_at(crate::tree::fresh_for(rest[0]), rest, v)->Ok_0 };
                        assert(r1 == Json::Obj(obj_put(m, k, c2)));
                        assert(segs.subrange(0, 1) =~= seq![k]);
                        lemma_put_new_remove(m, k, c2);
                    },
                    Some(c) => {
                        if segs.len() > 1 && c is Null {
                            let c2 = set_at(c, rest, v)->Ok_0;
                            assert(segs.subrange(0, 1) =~= seq![k]);
                            lemma_put_back(m, k, c2, c);
                        } else if segs.len() == 1 {
                            assert(rest.len() == 0);
                            assert(segs.subrange(0, 1) =~= seq![k]);
                            lemma_put_back(m, k, v, c);
                        } else {
                            let c2 = set_at(c, rest, v)->Ok_0;
                            lemma_undo_set(c, rest, v);
                            let e2 = undo_depth(c, rest);
                            let p = segs.subrange(0, e2.0 + 1);
                            assert(p[0] == k);
                            assert(p.drop_first() =~= rest.subrange(0, e2.0));
                            let m1 = obj_put(m, k, c2);
                            lemma_put_get(m, k, c2);
                            lemma_put_back(m, k, c2, c);
                            lemma_set_container(c, rest, v);
                            if e2.0 == 0 {
                                assert(p =~= seq![k]);
                                assert(rest.subrange(0, 0) =~= Seq::<Seq<char>>::empty());
                            }
                        }
                    },
                }
            },
            Json::Arr(a) => {
                match seg_index(k) {
                    Some(i) => {
                        if i < a.len() {
                            assert(pad(a, (i + 1) as int) == a);
                            assert(segs.subrange(0, 1) =~= seq![k]);
                            if segs.len() > 1 && a[i as int] is Null {
                                let c2 = set_at(crate::tree::fresh_for(rest[0]), rest, v)->Ok_0;
                                let a1 = a.update(i as int, c2);
                                assert(pad(a1, (i + 1) as int) == a1);
                                assert(a1.update(i as int, Json::Null) =~= a);
                            } else if segs.len() == 1 {
                                let a1 = a.update(i as int, v);
                                assert(pad(a1, (i + 1) as int) == a1);
                                assert(a1.update(i as int, a[i as int]) =~= a);
                                assert(rest.subrange(0, 0) =~= Seq::<Seq<char>>::empty());
                            } else {
                                let c = a[i as int];
                                let c2 = set_at(c, rest, v)->Ok_0;
                                lemma_undo_set(c, rest, v);
                                lemma_set_container(c, rest, v);
                                let e2 = undo_depth(c, rest);
                                let p = segs.subrange(0, e2.0 + 1);
                                assert(p[0] == k);
                                assert(p.drop_first() =~= rest.subrange(0, e2.0));
                                let a1 = a.update(i as int, c2);
                                assert(pad(a1, (i + 1) as int) == a1);
                                assert(a1.update(i as int, c) =~= a);
                                assert(a1.update(i as int, c2) =~= a1);
                                if e2.0 == 0 {
                                    assert(p =~= seq![k]);
                                    assert(rest.subrange(0, 0) =~= Seq::<Seq<char>>::empty());
                                }
                            }
                        } else {
                            assert(segs.subrange(0, 0) =~= Seq::<Seq<char>>::empty());
                        }
                    },
                    None => {
                        assert(segs.subrange(0, 0) =~= Seq::<Seq<char>>::empty());
                    },
                }
            },
            _ => {
                assert(segs.subrange(0, 0) =~= Seq::<Seq<char>>::empty());
            },
        }
    }
}

/// Writing back what stood at a path before a push restores the tree.
pub proof fn lemma_undo_push(r: Json, segs: Seq<Seq<char>>, v: Json)
    requires
        push_at(r, segs, v) is Ok,
    ensures
        get_at(r, segs) is Some,
        !(push_at(r, segs, v)->Ok_0 is Null),
        set_at(push_at(r, segs, v)->Ok_0, segs, get_at(r, segs)->Some_0) == Ok::<Json, PathError>(r),
    decreases segs.len(),
{
    if segs.len() > 0 {
        let k = segs[0];
        let rest = segs.drop_first();
        match r {
            Json::Obj(m) => {
                let c = obj_get(m, k)->Some_0;
                lemma_undo_push(c, rest, v);
                let c2 = push_at(c, rest, v)->Ok_0;
                lemma_put_get(m, k, c2);
                lemma_put_back(m, k, c2, c);
            },
            Json::Arr(a) => {
                let i = seg_index(k)->Some_0;
                let c = a[i as int];
                lemma_undo_push(c, rest, v);
                let c2 = push_at(c, rest, v)->Ok_0;
                let a1 = a.update(i as int, c2);
                assert(pad(a1, (i + 1) as int) == a1);
                assert(a1.update(i as int, c) =~= a);
            },
            _ => {},
        }
    }
}

proof fn lemma_delete_container(c: Json, segs: Seq<Seq<char>>)
    ensures
        c is Obj ==> delete_at(c, segs) is Obj,
        c is Arr ==> delete_at(c, segs) is Arr,
{
}

/// Writing back the parent's value after a delete restores the tree.
pub proof fn lemma_undo_delete(r: Json, segs: Seq<Seq<char>>)
    requires
        segs.len() > 0,
        get_at(r, segs.drop_last()) is Some,
    ensures
        set_at(delete_at(r, segs), segs.drop_last(), get_at(r, segs.drop_last())->Some_0) == Ok::<Json, PathError>(r),
    decreases segs.len(),
{
    if segs.len() > 1 {
        let k = segs[0];
        let rest = segs.drop_first();
        let q = segs.drop_last();
        assert(q[0] == k);
        assert(q.drop_first() =~= rest.drop_last());
        match r {
            Json::Obj(m) => {
                let c = obj_get(m, k)->Some_0;
                lemma_undo_delete(c, rest);
                let d = delete_at(c, rest);
                lemma_put_get(m, k, d);
                lemma_put_back(m, k, d, c);
                if q.len() > 1 {
                    lemma_delete_container(c, rest);
                } else {
                    assert(rest.drop_last() =~= Seq::<Seq<char>>::empty());
                }
            },
            Json::Arr(a) => {
                let i = seg_index(k)->Some_0;
                let c = a[i as int];
                lemma_undo_delete(c, rest);
                let d = delete_at(c, rest);
                let a1 = a.update(i as int, d);
                assert(pad(a1, (i + 1) as int) == a1);
                assert(a1.update(i as int, c) =~= a);
                if q.len() > 1 {
                    lemma_delete_container(c, rest);
                } else {
                    assert(rest.drop_last() =~= Seq::<Seq<char>>::empty());
                }
            },
            _ => {},
        }
    }
}

/// A delete whose parent does not exist changes nothing.
pub proof fn lemma_delete_missing(r: Json, segs: Seq<Seq<char>>)
    requires
        segs.len() > 0,
        get_at(r, segs.drop_last()) is None,
    ensures
        delete_at(r, segs) == r,
    decreases segs.len(),
{
    if segs.len() > 1 {
        let k = segs[0];
        let rest = segs.drop_first();
        let q = segs.drop_last();
        assert(q[0] == k);
        assert(q.drop_first() =~= rest.drop_last());
        match r {
            Json::Obj(m) => {
                if let Some(c) = obj_get(m, k) {
                    lemma_delete_missing(c, rest);
                    lemma_put_back(m, k, c, c);
                }
            },
            Json::Arr(a) => {
                if let Some(i) = seg_index(k) {
                    if i < a.len() {
                        lemma_delete_missing(a[i as int], rest);
                        assert(a.update(i as int, a[i as int]) =~= a);
                    }
                }
            },
            _ => {},
        }
    } else {
        assert(segs.drop_last() =~= Seq::<Seq<char>>::empty());
    }
}

/// Rolling back a transaction restores the tree it began with: undoing, newest
/// first, the records the store keeps for its writes, deletes and pushes gives
/// back the state before `begin`.
pub proof fn law_rollback_restores(root: Json, ops: Seq<TxOp>)
    ensures
        undo_all(run_tx(root, ops).0, run_tx(root, ops).1) == root,
    decreases ops.len(),
{
    if ops.len() > 0 {
        let prev = run_tx(root, ops.drop_last());
        law_rollback_restores(root, ops.drop_last());
        let r = prev.0;
        let cur = run_tx(root, ops);
        match ops.last() {
            TxOp::Write(p, v) => {
                if set_path(r, p, v) is Ok {
                    lemma_undo_set(r, path_segs(p), v);
                    assert(cur.1.drop_last() =~= prev.1);
                }
            },
            TxOp::Remove(p) => {
                lemma_split_dots_nonempty(p);
                let segs = path_segs(p);
                match delete_entry(r, segs) {
                    Some(e) => {
                        assert(cur.1.drop_last() =~= prev.1);
                        if p.len() > 0 {
                            lemma_undo_delete(r, segs);
                        }
                    },
                    None => {
                        lemma_delete_missing(r, segs);
                    },
                }
            },
            TxOp::Append(p, v) => {
                if push_path(r, p, v) is Ok {
                    lemma_undo_push(r, path_segs(p), v);
                    assert(cur.1.drop_last() =~= prev.1);
                }
            },
        }
    }
}

} // verus!
