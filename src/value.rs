use vstd::prelude::*;

verus! {

/// The mathematical model of a document value.
pub enum Json {
    Null,
    Bool(bool),
    Int(int),
    Float(Seq<char>),
    Str(Seq<char>),
    Arr(Seq<Json>),
    Obj(Seq<(Seq<char>, Json)>),
}

/// A dynamically typed document value.
#[derive(Debug)]
pub enum Value {
    Null,
    Bool(bool),
    Int(i128),
    Float(String),
    Str(String),
    Array(Vec<Value>),
    Object(Vec<(String, Value)>),
}

impl View for Value {
    type V = Json;

    open spec fn view(&self) -> Json
        decreases self,
    {
        match self {
            Value::Null => Json::Null,
            Value::Bool(b) => Json::Bool(*b),
            Value::Int(n) => Json::Int(*n as int),
            Value::Float(s) => Json::Float(s@),
            Value::Str(s) => Json::Str(s@),
            Value::Array(a) => Json::Arr(Seq::new(a@.len(), |i: int| if 0 <= i < a@.len() { a@[i].view() } else { Json::Null })),
            Value::Object(o) => Json::Obj(Seq::new(o@.len(), |i: int| (o@[i].0@, if 0 <= i < o@.len() { o@[i].1.view() } else { Json::Null }))),
        }
    }
}


/// Position of the first entry of `m` whose key is `k`, or -1.
pub open spec fn find_key(m: Seq<(Seq<char>, Json)>, k: Seq<char>) -> int
    decreases m.len(),
{
    if m.len() == 0 {
        -1
    } else if find_key(m.drop_last(), k) >= 0 {
        find_key(m.drop_last(), k)
    } else if m.last().0 == k {
        m.len() - 1
    } else {
        -1
    }
}

pub proof fn lemma_find_key_first(m: Seq<(Seq<char>, Json)>, k: Seq<char>, r: int)
    requires
        0 <= r < m.len(),
        m[r].0 == k,
        forall|j: int| 0 <= j < r ==> (#[trigger] m[j]).0 != k,
    ensures
        find_key(m, k) == r,
    decreases m.len(),
{
    if r < m.len() - 1 {
        lemma_find_key_first(m.drop_last(), k, r);
    } else {
        lemma_find_key_none(m.drop_last(), k);
    }
}

pub proof fn lemma_find_key_none(m: Seq<(Seq<char>, Json)>, k: Seq<char>)
    requires
        forall|j: int| 0 <= j < m.len() ==> (#[trigger] m[j]).0 != k,
    ensures
        find_key(m, k) == -1,
    decreases m.len(),
{
    if m.len() > 0 {
        lemma_find_key_none(m.drop_last(), k);
    }
}

pub proof fn lemma_find_key_facts(m: Seq<(Seq<char>, Json)>, k: Seq<char>)
    ensures
        -1 <= find_key(m, k) < m.len(),
        find_key(m, k) >= 0 ==> m[find_key(m, k)].0 == k,
        find_key(m, k) >= 0 ==> forall|j: int| 0 <= j < find_key(m, k) ==> (#[trigger] m[j]).0 != k,
        find_key(m, k) == -1 ==> forall|j: int| 0 <= j < m.len() ==> (#[trigger] m[j]).0 != k,
    decreases m.len(),
{
    if m.len() > 0 {
        lemma_find_key_facts(m.drop_last(), k);
        let d = m.drop_last();
        assert forall|j: int| 0 <= j < d.len() implies d[j] == m[j] by {}
    }
}

/// The value stored under key `k`, if any.
pub open spec fn obj_get(m: Seq<(Seq<char>, Json)>, k: Seq<char>) -> Option<Json> {
    if find_key(m, k) >= 0 {
        Some(m[find_key(m, k)].1)
    } else {
        None
    }
}

/// `m` with key `k` bound to `v`: in place where the key is present, appended otherwise.
pub open spec fn obj_put(m: Seq<(Seq<char>, Json)>, k: Seq<char>, v: Json) -> Seq<(Seq<char>, Json)> {
    if find_key(m, k) >= 0 {
        m.update(find_key(m, k), (k, v))
    } else {
        m.push((k, v))
    }
}

/// `m` without its entry for key `k`.
pub open spec fn obj_remove(m: Seq<(Seq<char>, Json)>, k: Seq<char>) -> Seq<(Seq<char>, Json)> {
    if find_key(m, k) >= 0 {
        m.remove(find_key(m, k))
    } else {
        m
    }
}

pub open spec fn keys_unique(m: Seq<(Seq<char>, Json)>) -> bool {
    forall|i: int, j: int| 0 <= i < j < m.len() ==> (#[trigger] m[i]).0 != (#[trigger] m[j]).0
}

impl Json {
    /// Every object in the tree has distinct keys.
    pub open spec fn wf(self) -> bool
        decreases self,
    {
        match self {
            Json::Arr(a) => forall|i: int| 0 <= i < a.len() ==> (#[trigger] a[i]).wf(),
            Json::Obj(m) => keys_unique(m) && forall|i: int|
                0 <= i < m.len() ==> (#[trigger] m[i]).1.wf(),
            _ => true,
        }
    }
}

/// Equality of documents: objects are equal when they bind the same keys to equal
/// values, whatever the order of their entries.
pub open spec fn json_eq(a: Json, b: Json) -> bool
    decreases a,
{
    match a {
        Json::Arr(x) => match b {
            Json::Arr(y) => x.len() == y.len() && forall|i: int|
                0 <= i < x.len() ==> json_eq(#[trigger] x[i], y[i]),
            _ => false,
        },
        Json::Obj(m) => match b {
            Json::Obj(n) => m.len() == n.len() && forall|i: int|
                0 <= i < m.len() ==> {
                    let p = find_key(n, (#[trigger] m[i]).0);
                    p >= 0 && json_eq(m[i].1, n[p].1)
                },
            _ => false,
        },
        _ => a == b,
    }
}

/// Whether some element of `s` equals `v`.
pub open spec fn seq_contains_eq(s: Seq<Json>, v: Json) -> bool {
    exists|i: int| 0 <= i < s.len() && json_eq(#[trigger] s[i], v)
}

impl Value {
    /// A copy of this value.
    pub fn duplicate(&self) -> (r: Value)
        ensures
            r@ == self@,
        decreases self,
    {
        match self {
            Value::Null => Value::Null,
            Value::Bool(b) => Value::Bool(*b),
            Value::Int(n) => Value::Int(*n),
            Value::Float(s) => Value::Float(s.clone()),
            Value::Str(s) => Value::Str(s.clone()),
            Value::Array(a) => {
                let mut out: Vec<Value> = Vec::new();
                let mut i: usize = 0;
                while i < a.len()
                    invariant
                        *self == Value::Array(*a),
                        0 <= i <= a@.len(),
                        out@.len() == i,
                        forall|j: int| 0 <= j < i ==> (#[trigger] out@[j])@ == a@[j]@,
                    decreases a@.len() - i,
                {
                    proof {
                        assert(decreases_to!(*self => self->Array_0));
                        assert(decreases_to!(*a => a@));
                        assert(decreases_to!(a@ => a@[i as int]));
                    }
                    let c = a[i].duplicate();
                    out.push(c);
                    i = i + 1;
                }
                let r = Value::Array(out);
                assert(r@ == self@) by {
                    if let Json::Arr(x) = r@ {
                        if let Json::Arr(y) = self@ {
                            assert(x =~= y);
                        }
                    }
                }
                r
            },
            Value::Object(o) => {
                let mut out: Vec<(String, Value)> = Vec::new();
                let mut i: usize = 0;
                while i < o.len()
                    invariant
                        *self == Value::Object(*o),
                        0 <= i <= o@.len(),
                        out@.len() == i,
                        forall|j: int|
                            0 <= j < i ==> (#[trigger] out@[j]).0@ == o@[j].0@ && out@[j].1@
                                == o@[j].1@,
                    decreases o@.len() - i,
                {
                    let k = o[i].0.clone();
                    proof {
                        assert(decreases_to!(*self => self->Object_0));
                        assert(decreases_to!(*o => o@));
                        assert(decreases_to!(o@ => o@[i as int]));
                        assert(decreases_to!(o@[i as int] => o@[i as int].1));
                    }
                    let c = o[i].1.duplicate();
                    out.push((k, c));
                    i = i + 1;
                }
                let r = Value::Object(out);
                assert(r@ == self@) by {
                    if let Json::Obj(x) = r@ {
                        if let Json::Obj(y) = self@ {
                            assert forall|j: int| 0 <= j < x.len() implies x[j] == y[j] by {
                                assert(out@[j].0@ == o@[j].0@);
                            }
                            assert(x =~= y);
                        }
                    }
                }
                r
            },
        }
    }
}

/// Finds the entry for key `k` in an object's entries.
pub fn find_entry(entries: &Vec<(String, Value)>, k: &String) -> (r: Option<usize>)
    ensures
        match r {
            Some(i) => find_key(obj_view(entries@), k@) == i as int,
            None => find_key(obj_view(entries@), k@) == -1,
        },
{
    let ghost m = obj_view(entries@);
    let mut i: usize = 0;
    while i < entries.len()
        invariant
            0 <= i <= entries@.len(),
            m == obj_view(entries@),
            forall|j: int| 0 <= j < i ==> (#[trigger] m[j]).0 != k@,
        decreases entries@.len() - i,
    {
        if entries[i].0 == *k {
            proof {
                lemma_find_key_first(m, k@, i as int);
            }
            return Some(i);
        }
        i = i + 1;
    }
    proof {
        lemma_find_key_none(m, k@);
    }
    None
}

/// The model of an object's entries.
pub open spec fn obj_view(e: Seq<(String, Value)>) -> Seq<(Seq<char>, Json)> {
    Seq::new(e.len(), |i: int| (e[i].0@, e[i].1@))
}

/// The model of an array's elements.
pub open spec fn arr_view(a: Seq<Value>) -> Seq<Json> {
    Seq::new(a.len(), |i: int| a[i]@)
}

pub proof fn lemma_view_parts(v: &Value)
    ensures
        v is Array ==> v@ == Json::Arr(arr_view(v->Array_0@)),
        v is Object ==> v@ == Json::Obj(obj_view(v->Object_0@)),
{
    if let Value::Array(a) = v {
        if let Json::Arr(x) = v@ {
            assert(x =~= arr_view(a@));
        }
    }
    if let Value::Object(o) = v {
        if let Json::Obj(x) = v@ {
            assert(x.len() == o@.len());
            assert forall|j: int| 0 <= j < x.len() implies x[j] == obj_view(o@)[j] by {}
            assert(x =~= obj_view(o@));
        }
    }
}

/// Document equality, as `json_eq` states it.
pub fn values_equal(a: &Value, b: &Value) -> (r: bool)
    ensures
        r == json_eq(a@, b@),
    decreases a,
{
    proof {
        lemma_view_parts(a);
        lemma_view_parts(b);
    }
    match a {
        Value::Null => match b {
            Value::Null => true,
            _ => false,
        },
        Value::Bool(x) => match b {
            Value::Bool(y) => *x == *y,
            _ => false,
        },
        Value::Int(x) => match b {
            Value::Int(y) => *x == *y,
            _ => false,
        },
        Value::Float(x) => match b {
            Value::Float(y) => *x == *y,
            _ => false,
        },
        Value::Str(x) => match b {
            Value::Str(y) => *x == *y,
            _ => false,
        },
        Value::Array(x) => match b {
            Value::Array(y) => {
                if x.len() != y.len() {
                    return false;
                }
                let mut i: usize = 0;
                while i < x.len()
                    invariant
                        *a == Value::Array(*x),
                        a@ == Json::Arr(arr_view(x@)),
                        b@ == Json::Arr(arr_view(y@)),
                        x@.len() == y@.len(),
                        0 <= i <= x@.len(),
                        forall|j: int| 0 <= j < i ==> json_eq(#[trigger] arr_view(x@)[j], arr_view(y@)[j]),
                    decreases x@.len() - i,
                {
                    proof {
                        assert(decreases_to!(*a => a->Array_0));
                        assert(decreases_to!(*x => x@));
                        assert(decreases_to!(x@ => x@[i as int]));
                    }
                    if !values_equal(&x[i], &y[i]) {
                        assert(!json_eq(arr_view(x@)[i as int], arr_view(y@)[i as int]));
                        return false;
                    }
                    i = i + 1;
                }
                true
            },
            _ => false,
        },
        Value::Object(m) => match b {
            Value::Object(n) => {
                if m.len() != n.len() {
                    return false;
                }
                let mut i: usize = 0;
                while i < m.len()
                    invariant
                        *a == Value::Object(*m),
                        a@ == Json::Obj(obj_view(m@)),
                        b@ == Json::Obj(obj_view(n@)),
                        m@.len() == n@.len(),
                        0 <= i <= m@.len(),
                        forall|j: int|
                            0 <= j < i ==> {
                                let p = find_key(obj_view(n@), (#[trigger] obj_view(m@)[j]).0);
                                p >= 0 && json_eq(obj_view(m@)[j].1, obj_view(n@)[p].1)
                            },
                    decreases m@.len() - i,
                {
                    proof {
                        assert(decreases_to!(*a => a->Object_0));
                        assert(decreases_to!(*m => m@));
                        assert(decreases_to!(m@ => m@[i as int]));
                        assert(decreases_to!(m@[i as int] => m@[i as int].1));
                    }
                    match find_entry(n, &m[i].0) {
                        None => {
                            assert(find_key(obj_view(n@), obj_view(m@)[i as int].0) < 0);
                            return false;
                        },
                        Some(p) => {
                            proof {
                                lemma_find_key_facts(obj_view(n@), m@[i as int].0@);
                            }
                            if !values_equal(&m[i].1, &n[p].1) {
                                assert(find_key(obj_view(n@), obj_view(m@)[i as int].0) == p);
                                assert(!json_eq(obj_view(m@)[i as int].1, obj_view(n@)[p as int].1));
                                return false;
                            }
                        },
                    }
                    i = i + 1;
                }
                true
            },
            _ => false,
        },
    }
}

/// Whether some element of `items` equals `v`.
pub fn contains_value(items: &Vec<Value>, v: &Value) -> (r: bool)
    ensures
        r == seq_contains_eq(arr_view(items@), v@),
{
    let mut i: usize = 0;
    while i < items.len()
        invariant
            0 <= i <= items@.len(),
            forall|j: int| 0 <= j < i ==> !json_eq(#[trigger] arr_view(items@)[j], v@),
        decreases items@.len() - i,
    {
        if values_equal(&items[i], v) {
            assert(json_eq(arr_view(items@)[i as int], v@));
            return true;
        }
        i = i + 1;
    }
    false
}

} // verus!
