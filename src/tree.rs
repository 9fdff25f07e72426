use vstd::prelude::*;
use crate::path::{seg_index, split_dots, views, parse_index, split_path, lemma_split_dots_nonempty};
use crate::value::{
    Json, Value, find_key, obj_get, obj_put, obj_remove, obj_view, arr_view, seq_contains_eq,
    find_entry, contains_value, lemma_find_key_facts, lemma_view_parts,
};

verus! {

/// Why a dotted path could not be followed.
#[derive(Clone, Copy, Debug, PartialEq, Eq, Structural)]
pub enum PathError {
    /// A segment meets a number, string or boolean.
    Blocked,
    /// An array is indexed by a segment that is no index.
    NotIndex,
    /// Nothing stands at the path.
    NotFound,
    /// What stands at the path is not an array.
    NotArray,
}

/// The segments of a path; the empty path has none and names the root.
pub open spec fn path_segs(p: Seq<char>) -> Seq<Seq<char>> {
    if p.len() == 0 {
        Seq::empty()
    } else {
        split_dots(p)
    }
}

/// The empty container that a write creates in front of segment `seg`.
pub open spec fn fresh_for(seg: Seq<char>) -> Json {
    if seg_index(seg) is Some {
        Json::Arr(Seq::empty())
    } else {
        Json::Obj(Seq::empty())
    }
}

/// `a` extended with nulls to length `n`.
pub open spec fn pad(a: Seq<Json>, n: int) -> Seq<Json> {
    if a.len() >= n {
        a
    } else {
        a + Seq::new((n - a.len()) as nat, |i: int| Json::Null)
    }
}

/// The value at `segs` below `node`.
pub open spec fn get_at(node: Json, segs: Seq<Seq<char>>) -> Option<Json>
    decreases segs.len(),
{
    if segs.len() == 0 {
        Some(node)
    } else {
        match node {
            Json::Obj(m) => match obj_get(m, segs[0]) {
                Some(c) => get_at(c, segs.drop_first()),
                None => None,
            },
            Json::Arr(a) => match seg_index(segs[0]) {
                Some(i) => if i < a.len() {
                    get_at(a[i as int], segs.drop_first())
                } else {
                    None
                },
                None => None,
            },
            _ => None,
        }
    }
}

/// `node` with `v` written at `segs`, creating missing containers on the way: a
/// missing or null node becomes an array where the segment applied to it is an
/// index, an object otherwise.
pub open spec fn set_at(node: Json, segs: Seq<Seq<char>>, v: Json) -> Result<Json, PathError>
    decreases segs.len(),
{
    if segs.len() == 0 {
        Ok(v)
    } else if segs.len() == 1 {
        let k = segs[0];
        match node {
            Json::Obj(m) => Ok(Json::Obj(obj_put(m, k, v))),
            Json::Arr(a) => match seg_index(k) {
                Some(i) => Ok(Json::Arr(pad(a, (i + 1) as int).update(i as int, v))),
                None => Err(PathError::NotIndex),
            },
            Json::Null => match seg_index(k) {
                Some(i) => Ok(Json::Arr(pad(Seq::empty(), (i + 1) as int).update(i as int, v))),
                None => Ok(Json::Obj(seq![(k, v)])),
            },
            _ => Err(PathError::Blocked),
        }
    } else {
        let k = segs[0];
        let rest = segs.drop_first();
        let n = if node is Null {
            fresh_for(k)
        } else {
            node
        };
        match n {
            Json::Obj(m) => {
                let child = match obj_get(m, k) {
                    Some(c) => c,
                    None => fresh_for(rest[0]),
                };
                match set_at(child, rest, v) {
                    Ok(c2) => Ok(Json::Obj(obj_put(m, k, c2))),
                    Err(e) => Err(e),
                }
            },
            Json::Arr(a) => match seg_index(k) {
                Some(i) => {
                    let p = pad(a, (i + 1) as int);
                    let child = if p[i as int] is Null {
                        fresh_for(rest[0])
                    } else {
                        p[i as int]
                    };
                    match set_at(child, rest, v) {
                        Ok(c2) => Ok(Json::Arr(p.update(i as int, c2))),
                        Err(e) => Err(e),
                    }
                },
                None => Err(PathError::NotIndex),
            },
            _ => Err(PathError::Blocked),
        }
    }
}

/// `node` without the entry at `segs`; unchanged where the parent does not exist.
pub open spec fn delete_at(node: Json, segs: Seq<Seq<char>>) -> Json
    decreases segs.len(),
{
    if segs.len() == 0 {
        node
    } else if segs.len() == 1 {
        match node {
            Json::Obj(m) => Json::Obj(obj_remove(m, segs[0])),
            Json::Arr(a) => match seg_index(segs[0]) {
                Some(i) => if i < a.len() {
                    Json::Arr(a.remove(i as int))
                } else {
                    node
                },
                None => node,
            },
            _ => node,
        }
    } else {
        match node {
            Json::Obj(m) => match obj_get(m, segs[0]) {
                Some(c) => Json::Obj(obj_put(m, segs[0], delete_at(c, segs.drop_first()))),
                None => node,
            },
            Json::Arr(a) => match seg_index(segs[0]) {
                Some(i) => if i < a.len() {
                    Json::Arr(a.update(i as int, delete_at(a[i as int], segs.drop_first())))
                } else {
                    node
                },
                None => node,
            },
            _ => node,
        }
    }
}

/// `a` with `v` appended unless an equal element is already there.
pub open spec fn push_dedup(a: Seq<Json>, v: Json) -> Seq<Json> {
    if seq_contains_eq(a, v) {
        a
    } else {
        a.push(v)
    }
}

/// `node` with `v` pushed onto the array at `segs`.
pub open spec fn push_at(node: Json, segs: Seq<Seq<char>>, v: Json) -> Result<Json, PathError>
    decreases segs.len(),
{
    if segs.len() == 0 {
        match node {
            Json::Arr(a) => Ok(Json::Arr(push_dedup(a, v))),
            _ => Err(PathError::NotArray),
        }
    } else {
        match node {
            Json::Obj(m) => match obj_get(m, segs[0]) {
                Some(c) => match push_at(c, segs.drop_first(), v) {
                    Ok(c2) => Ok(Json::Obj(obj_put(m, segs[0], c2))),
                    Err(e) => Err(e),
                },
                None => Err(PathError::NotFound),
            },
            Json::Arr(a) => match seg_index(segs[0]) {
                Some(i) => if i < a.len() {
                    match push_at(a[i as int], segs.drop_first(), v) {
                        Ok(c2) => Ok(Json::Arr(a.update(i as int, c2))),
                        Err(e) => Err(e),
                    }
                } else {
                    Err(PathError::NotFound)
                },
                None => Err(PathError::NotFound),
            },
            _ => Err(PathError::NotFound),
        }
    }
}

/// The value at path `p` of `root`, null where there is none.
pub open spec fn get_path(root: Json, p: Seq<char>) -> Json {
    match get_at(root, path_segs(p)) {
        Some(j) => j,
        None => Json::Null,
    }
}

pub open spec fn set_path(root: Json, p: Seq<char>, v: Json) -> Result<Json, PathError> {
    set_at(root, path_segs(p), v)
}

pub open spec fn delete_path(root: Json, p: Seq<char>) -> Json {
    if p.len() == 0 {
        Json::Obj(Seq::empty())
    } else {
        delete_at(root, path_segs(p))
    }
}

pub open spec fn push_path(root: Json, p: Seq<char>, v: Json) -> Result<Json, PathError> {
    push_at(root, path_segs(p), v)
}

pub open spec fn segs_from(s: Seq<String>, i: int) -> Seq<Seq<char>> {
    views(s).subrange(i, s.len() as int)
}

proof fn lemma_segs_from(s: Seq<String>, i: int)
    requires
        0 <= i < s.len(),
    ensures
        segs_from(s, i).len() == s.len() - i,
        segs_from(s, i)[0] == s[i]@,
        segs_from(s, i).drop_first() == segs_from(s, i + 1 as int),
{
    assert(segs_from(s, i).drop_first() =~= segs_from(s, i + 1 as int));
}

/// Writing below a null or a freshly created container never fails.
proof fn lemma_set_fresh_ok(segs: Seq<Seq<char>>, v: Json)
    requires
        segs.len() >= 1,
    ensures
        set_at(Json::Null, segs, v) is Ok,
        set_at(Json::Obj(Seq::empty()), segs, v) is Ok,
        set_at(fresh_for(segs[0]), segs, v) is Ok,
    decreases segs.len(),
{
    if segs.len() > 1 {
        let rest = segs.drop_first();
        lemma_set_fresh_ok(rest, v);
        lemma_find_key_facts(Seq::empty(), segs[0]);
        if let Some(i) = seg_index(segs[0]) {
            let p = pad(Seq::<Json>::empty(), (i + 1) as int);
            assert(p[i as int] is Null);
        }
    }
}

proof fn lemma_obj_put_len(m: Seq<(Seq<char>, Json)>, k: Seq<char>, v: Json)
    ensures
        find_key(m, k) >= 0 ==> obj_put(m, k, v).len() == m.len(),
{
    lemma_find_key_facts(m, k);
}

/// `a` extended with nulls to length `n`.
fn pad_nulls(a: &mut Vec<Value>, n: usize)
    ensures
        arr_view(final(a)@) == pad(arr_view(old(a)@), n as int),
        final(a)@.len() == if old(a)@.len() >= n { old(a)@.len() } else { n as nat },
{
    let ghost a0 = arr_view(a@);
    if a.len() >= n {
        return;
    }
    while a.len() < n
        invariant
            old(a)@.len() <= a@.len() <= n,
            arr_view(a@) =~= a0 + Seq::new((a@.len() - a0.len()) as nat, |i: int| Json::Null),
            a0 == arr_view(old(a)@),
        decreases n - a@.len(),
    {
        let ghost prev = arr_view(a@);
        a.push(Value::Null);
        proof {
            assert(arr_view(a@) =~= prev.push(Json::Null));
            assert(a0 + Seq::new((a@.len() - a0.len()) as nat, |i: int| Json::Null) =~= (a0
                + Seq::new((a@.len() - 1 - a0.len()) as nat, |i: int| Json::Null)).push(Json::Null));
        }
    }
}

/// A new empty container for the segment that follows.
fn fresh_value(seg: &String) -> (r: Value)
    ensures
        r@ == fresh_for(seg@),
{
    let r = match parse_index(seg.as_str()) {
        Some(_) => Value::Array(Vec::new()),
        None => Value::Object(Vec::new()),
    };
    proof {
        lemma_view_parts(&r);
        if let Value::Array(a) = &r {
            assert(arr_view(a@) =~= Seq::<Json>::empty());
        }
        if let Value::Object(o) = &r {
            assert(obj_view(o@) =~= Seq::<(Seq<char>, Json)>::empty());
        }
    }
    r
}

/// Reads the value at segments `i..` below `node`.
pub fn get_in<'a>(node: &'a Value, segs: &Vec<String>, i: usize) -> (r: Option<&'a Value>)
    requires
        i <= segs@.len(),
    ensures
        match get_at(node@, segs_from(segs@, i as int)) {
            Some(j) => r is Some && r->0@ == j,
            None => r is None,
        },
    decreases segs@.len() - i,
{
    if i == segs.len() {
        assert(segs_from(segs@, i as int) =~= Seq::<Seq<char>>::empty());
        return Some(node);
    }
    proof {
        lemma_segs_from(segs@, i as int);
        lemma_view_parts(node);
    }
    match node {
        Value::Object(m) => {
            match find_entry(m, &segs[i]) {
                Some(p) => {
                    proof {
                        lemma_find_key_facts(obj_view(m@), segs@[i as int]@);
                    }
                    get_in(&m[p].1, segs, i + 1)
                },
                None => None,
            }
        },
        Value::Array(a) => {
            match parse_index(segs[i].as_str()) {
                Some(idx) => {
                    if idx < a.len() {
                        get_in(&a[idx], segs, i + 1)
                    } else {
                        None
                    }
                },
                None => None,
            }
        },
        _ => None,
    }
}

/// Writes `v` at segments `i..` below `node`; on failure `node` is left as it was.
pub fn set_in(node: &mut Value, segs: &Vec<String>, i: usize, v: Value) -> (r: Result<(), PathError>)
    requires
        i < segs@.len(),
    ensures
        match set_at(old(node)@, segs_from(segs@, i as int), v@) {
            Ok(j) => r is Ok && final(node)@ == j,
            Err(e) => r == Err::<(), PathError>(e) && final(node)@ == old(node)@,
        },
    decreases segs@.len() - i,
{
    let ghost segs_i = segs_from(segs@, i as int);
    let ghost k = segs@[i as int]@;
    let ghost vv = v@;
    proof {
        lemma_segs_from(segs@, i as int);
        lemma_view_parts(node);
    }
    let is_null = match node {
        Value::Null => true,
        _ => false,
    };
    if i == segs.len() - 1 {
        if is_null {
            match parse_index(segs[i].as_str()) {
                Some(idx) => {
                    let mut arr: Vec<Value> = Vec::new();
                    pad_nulls(&mut arr, idx + 1);
                    let ghost padded = arr_view(arr@);
                    arr.set(idx, v);
                    proof {
                        assert(arr_view(Seq::<Value>::empty()) =~= Seq::<Json>::empty());
                        assert(arr_view(arr@) =~= padded.update(idx as int, vv));
                    }
                    *node = Value::Array(arr);
                    proof {
                        lemma_view_parts(node);
                    }
                },
                None => {
                    let mut m: Vec<(String, Value)> = Vec::new();
                    m.push((segs[i].clone(), v));
                    proof {
                        assert(obj_view(m@) =~= seq![(k, vv)]);
                    }
                    *node = Value::Object(m);
                    proof {
                        lemma_view_parts(node);
                    }
                },
            }
            return Ok(());
        }
        match node {
            Value::Object(m) => {
                let ghost m0 = obj_view(m@);
                proof {
                    lemma_find_key_facts(m0, k);
                }
                match find_entry(m, &segs[i]) {
                    Some(p) => {
                        let key = segs[i].clone();
                        m.set(p, (key, v));
                        proof {
                            assert(obj_view(m@) =~= m0.update(p as int, (k, vv)));
                        }
                    },
                    None => {
                        m.push((segs[i].clone(), v));
                        proof {
                            assert(obj_view(m@) =~= m0.push((k, vv)));
                        }
                    },
                }
                proof {
                    lemma_view_parts(node);
                }
                Ok(())
            },
            Value::Array(a) => {
                match parse_index(segs[i].as_str()) {
                    Some(idx) => {
                        pad_nulls(a, idx + 1);
                        let ghost padded = arr_view(a@);
                        a.set(idx, v);
                        proof {
                            assert(arr_view(a@) =~= padded.update(idx as int, vv));
                            lemma_view_parts(node);
                        }
                        Ok(())
                    },
                    None => Err(PathError::NotIndex),
                }
            },
            _ => Err(PathError::Blocked),
        }
    } else {
        proof {
            lemma_segs_from(segs@, i as int + 1);
            lemma_set_fresh_ok(segs_i, vv);
            lemma_set_fresh_ok(segs_i.drop_first(), vv);
        }
        if is_null {
            *node = fresh_value(&segs[i]);
            proof {
                lemma_view_parts(node);
            }
        }
        let ghost n0 = node@;
        match node {
            Value::Object(m) => {
                let ghost m0 = obj_view(m@);
                proof {
                    lemma_find_key_facts(m0, k);
                }
                match find_entry(m, &segs[i]) {
                    Some(p) => {
                        let key = segs[i].clone();
                        let mut child = Value::Null;
                        let ghost c0 = m@[p as int].1@;
                        let ghost key0 = m@[p as int].0;
                        std::mem::swap(&mut child, &mut m[p].1);
                        let r = set_in(&mut child, segs, i + 1, v);
                        std::mem::swap(&mut child, &mut m[p].1);
                        proof {
                            assert(m@[p as int].0 == key0);
                            assert(obj_view(m@) =~= m0.update(p as int, (k, m@[p as int].1@)));
                            lemma_view_parts(node);
                            if r is Err {
                                assert(obj_view(m@) =~= m0);
                            }
                        }
                        r
                    },
                    None => {
                        let mut child = fresh_value(&segs[i + 1]);
                        let r = set_in(&mut child, segs, i + 1, v);
                        m.push((segs[i].clone(), child));
                        proof {
                            assert(obj_view(m@) =~= m0.push((k, m@[m@.len() - 1].1@)));
                            lemma_view_parts(node);
                        }
                        Ok(())
                    },
                }
            },
            Value::Array(a) => {
                match parse_index(segs[i].as_str()) {
                    Some(idx) => {
                        let ghost a0 = arr_view(a@);
                        pad_nulls(a, idx + 1);
                        let ghost padded = arr_view(a@);
                        let child_null = match &a[idx] {
                            Value::Null => true,
                            _ => false,
                        };
                        if child_null {
                            let f = fresh_value(&segs[i + 1]);
                            a.set(idx, f);
                        }
                        let mut child = Value::Null;
                        std::mem::swap(&mut child, &mut a[idx]);
                        let ghost c1 = child@;
                        let r = set_in(&mut child, segs, i + 1, v);
                        std::mem::swap(&mut child, &mut a[idx]);
                        proof {
                            assert(arr_view(a@) =~= padded.update(idx as int, a@[idx as int]@));
                            lemma_view_parts(node);
                            if r is Err {
                                assert(!child_null);
                                assert(idx < a0.len());
                                assert(arr_view(a@) =~= a0);
                            }
                        }
                        r
                    },
                    None => Err(PathError::NotIndex),
                }
            },
            _ => Err(PathError::Blocked),
        }
    }
}

/// Removes the entry at segments `i..` below `node`.
pub fn delete_in(node: &mut Value, segs: &Vec<String>, i: usize)
    requires
        i < segs@.len(),
    ensures
        final(node)@ == delete_at(old(node)@, segs_from(segs@, i as int)),
    decreases segs@.len() - i,
{
    let ghost k = segs@[i as int]@;
    proof {
        lemma_segs_from(segs@, i as int);
        lemma_view_parts(node);
    }
    if i == segs.len() - 1 {
        match node {
            Value::Object(m) => {
                let ghost m0 = obj_view(m@);
                proof {
                    lemma_find_key_facts(m0, k);
                }
                match find_entry(m, &segs[i]) {
                    Some(p) => {
                        m.remove(p);
                        proof {
                            assert(obj_view(m@) =~= m0.remove(p as int));
                        }
                    },
                    None => {},
                }
                proof {
                    lemma_view_parts(node);
                }
            },
            Value::Array(a) => {
                let ghost a0 = arr_view(a@);
                match parse_index(segs[i].as_str()) {
                    Some(idx) => {
                        if idx < a.len() {
                            a.remove(idx);
                            proof {
                                assert(arr_view(a@) =~= a0.remove(idx as int));
                            }
                        }
                    },
                    None => {},
                }
                proof {
                    lemma_view_parts(node);
                }
            },
            _ => {},
        }
    } else {
        proof {
            lemma_segs_from(segs@, i as int + 1);
        }
        match node {
            Value::Object(m) => {
                let ghost m0 = obj_view(m@);
                proof {
                    lemma_find_key_facts(m0, k);
                }
                match find_entry(m, &segs[i]) {
                    Some(p) => {
                        let mut child = Value::Null;
                        let ghost key0 = m@[p as int].0;
                        std::mem::swap(&mut child, &mut m[p].1);
                        delete_in(&mut child, segs, i + 1);
                        std::mem::swap(&mut child, &mut m[p].1);
                        proof {
                            assert(m@[p as int].0 == key0);
                            assert(obj_view(m@) =~= m0.update(p as int, (k, m@[p as int].1@)));
                        }
                    },
                    None => {},
                }
                proof {
                    lemma_view_parts(node);
                }
            },
            Value::Array(a) => {
                let ghost a0 = arr_view(a@);
                match parse_index(segs[i].as_str()) {
                    Some(idx) => {
                        if idx < a.len() {
                            let mut child = Value::Null;
                            std::mem::swap(&mut child, &mut a[idx]);
                            delete_in(&mut child, segs, i + 1);
                            std::mem::swap(&mut child, &mut a[idx]);
                            proof {
                                assert(arr_view(a@) =~= a0.update(idx as int, a@[idx as int]@));
                            }
                        }
                    },
                    None => {},
                }
                proof {
                    lemma_view_parts(node);
                }
            },
            _ => {},
        }
    }
}

/// Pushes `v` onto the array at segments `i..` below `node`, unless an equal
/// element is there; on failure `node` is left as it was.
pub fn push_in(node: &mut Value, segs: &Vec<String>, i: usize, v: Value) -> (r: Result<(), PathError>)
    requires
        i <= segs@.len(),
    ensures
        match push_at(old(node)@, segs_from(segs@, i as int), v@) {
            Ok(j) => r is Ok && final(node)@ == j,
            Err(e) => r == Err::<(), PathError>(e) && final(node)@ == old(node)@,
        },
    decreases segs@.len() - i,
{
    let ghost vv = v@;
    proof {
        lemma_view_parts(node);
    }
    if i == segs.len() {
        assert(segs_from(segs@, i as int) =~= Seq::<Seq<char>>::empty());
        match node {
            Value::Array(a) => {
                let ghost a0 = arr_view(a@);
                if !contains_value(a, &v) {
                    a.push(v);
                    proof {
                        assert(arr_view(a@) =~= a0.push(vv));
                    }
                }
                proof {
                    lemma_view_parts(node);
                }
                return Ok(());
            },
            _ => {
                return Err(PathError::NotArray);
            },
        }
    }
    let ghost k = segs@[i as int]@;
    proof {
        lemma_segs_from(segs@, i as int);
    }
    match node {
        Value::Object(m) => {
            let ghost m0 = obj_view(m@);
            proof {
                lemma_find_key_facts(m0, k);
            }
            match find_entry(m, &segs[i]) {
                Some(p) => {
                    let mut child = Value::Null;
                    let ghost key0 = m@[p as int].0;
                    std::mem::swap(&mut child, &mut m[p].1);
                    let r = push_in(&mut child, segs, i + 1, v);
                    std::mem::swap(&mut child, &mut m[p].1);
                    proof {
                        assert(m@[p as int].0 == key0);
                        assert(obj_view(m@) =~= m0.update(p as int, (k, m@[p as int].1@)));
                        lemma_view_parts(node);
                        if r is Err {
                            assert(obj_view(m@) =~= m0);
                        }
                    }
                    r
                },
                None => Err(PathError::NotFound),
            }
        },
        Value::Array(a) => {
            let ghost a0 = arr_view(a@);
            match parse_index(segs[i].as_str()) {
                Some(idx) => {
                    if idx < a.len() {
                        let mut child = Value::Null;
                        std::mem::swap(&mut child, &mut a[idx]);
                        let r = push_in(&mut child, segs, i + 1, v);
                        std::mem::swap(&mut child, &mut a[idx]);
                        proof {
                            assert(arr_view(a@) =~= a0.update(idx as int, a@[idx as int]@));
                            lemma_view_parts(node);
                            if r is Err {
                                assert(arr_view(a@) =~= a0);
                            }
                        }
                        r
                    } else {
                        Err(PathError::NotFound)
                    }
                },
                None => Err(PathError::NotFound),
            }
        },
        _ => Err(PathError::NotFound),
    }
}

/// The segments of a path as the tree operations take them.
pub fn segments_of(path: &str) -> (r: Vec<String>)
    ensures
        segs_from(r@, 0) == path_segs(path@),
{
    if path.unicode_len() == 0 {
        let r: Vec<String> = Vec::new();
        assert(segs_from(r@, 0) =~= Seq::<Seq<char>>::empty());
        r
    } else {
        let r = split_path(path);
        assert(segs_from(r@, 0) =~= views(r@));
        r
    }
}

/// The value at `path`, or null where there is none; the empty path gives the root.
pub fn get_value(root: &Value, path: &str) -> (r: Value)
    ensures
        r@ == get_path(root@, path@),
{
    let segs = segments_of(path);
    match get_in(root, &segs, 0) {
        Some(v) => v.duplicate(),
        None => Value::Null,
    }
}

/// Whether a value stands at `path`.
pub fn has_value(root: &Value, path: &str) -> (r: bool)
    ensures
        r == get_at(root@, path_segs(path@)) is Some,
{
    let segs = segments_of(path);
    get_in(root, &segs, 0).is_some()
}

/// Writes `v` at `path`; the empty path replaces the root.
pub fn set_value(root: &mut Value, path: &str, v: Value) -> (r: Result<(), PathError>)
    ensures
        match set_path(old(root)@, path@, v@) {
            Ok(j) => r is Ok && final(root)@ == j,
            Err(e) => r == Err::<(), PathError>(e) && final(root)@ == old(root)@,
        },
{
    let segs = segments_of(path);
    if segs.len() == 0 {
        *root = v;
        return Ok(());
    }
    set_in(root, &segs, 0, v)
}

/// Removes the entry at `path`; the empty path resets the root to an empty object.
pub fn delete_value(root: &mut Value, path: &str)
    ensures
        final(root)@ == delete_path(old(root)@, path@),
{
    let segs = segments_of(path);
    proof {
        lemma_split_dots_nonempty(path@);
    }
    if segs.len() == 0 {
        *root = Value::Object(Vec::new());
        proof {
            lemma_view_parts(root);
            assert(obj_view(Seq::<(String, Value)>::empty()) =~= Seq::<(Seq<char>, Json)>::empty());
        }
        return;
    }
    delete_in(root, &segs, 0)
}

/// Appends `v` to the array at `path` unless an equal element is there.
pub fn push_value(root: &mut Value, path: &str, v: Value) -> (r: Result<(), PathError>)
    ensures
        match push_path(old(root)@, path@, v@) {
            Ok(j) => r is Ok && final(root)@ == j,
            Err(e) => r == Err::<(), PathError>(e) && final(root)@ == old(root)@,
        },
{
    let segs = segments_of(path);
    push_in(root, &segs, 0, v)
}

} // verus!
