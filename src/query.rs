use vstd::prelude::*;
use crate::path::{split_dots, split_path, views};
use crate::pattern::{
    CompiledPattern, regex_valid, regex_match, is_infix, is_prefix, is_suffix, text_contains,
    text_starts_with, text_ends_with, same_text,
};
use crate::text::{canonical, canonical_key};
use crate::tree::{get_at, get_in, segs_from};
use crate::value::{
    Json, Value, arr_view, obj_view, obj_put, json_eq, seq_contains_eq, values_equal, contains_value,
    lemma_view_parts, find_entry, lemma_find_key_facts,
};

verus! {

/// The comparison a filter makes.
#[derive(Clone, Copy, Debug, PartialEq, Eq, Structural)]
pub enum FilterOp {
    Eq,
    Ne,
    Gt,
    Gte,
    Lt,
    Lte,
    Contains,
    StartsWith,
    EndsWith,
    In,
    NotIn,
    Regex,
    ContainsAll,
    ContainsAny,
    /// An operator name that is not known: it accepts every item.
    Other,
}

pub open spec fn op_of(s: Seq<char>) -> FilterOp {
    if s == "eq"@ { FilterOp::Eq }
    else if s == "ne"@ { FilterOp::Ne }
    else if s == "gt"@ { FilterOp::Gt }
    else if s == "gte"@ { FilterOp::Gte }
    else if s == "lt"@ { FilterOp::Lt }
    else if s == "lte"@ { FilterOp::Lte }
    else if s == "contains"@ { FilterOp::Contains }
    else if s == "startswith"@ { FilterOp::StartsWith }
    else if s == "endswith"@ { FilterOp::EndsWith }
    else if s == "in"@ { FilterOp::In }
    else if s == "notin"@ { FilterOp::NotIn }
    else if s == "regex"@ { FilterOp::Regex }
    else if s == "containsAll"@ { FilterOp::ContainsAll }
    else if s == "containsAny"@ { FilterOp::ContainsAny }
    else { FilterOp::Other }
}

impl FilterOp {
    /// The operator that a name selects.
    pub fn from_name(s: &str) -> (r: FilterOp)
        ensures
            r == op_of(s@),
    {
        if same_text(s, "eq") { FilterOp::Eq }
        else if same_text(s, "ne") { FilterOp::Ne }
        else if same_text(s, "gt") { FilterOp::Gt }
        else if same_text(s, "gte") { FilterOp::Gte }
        else if same_text(s, "lt") { FilterOp::Lt }
        else if same_text(s, "lte") { FilterOp::Lte }
        else if same_text(s, "contains") { FilterOp::Contains }
        else if same_text(s, "startswith") { FilterOp::StartsWith }
        else if same_text(s, "endswith") { FilterOp::EndsWith }
        else if same_text(s, "in") { FilterOp::In }
        else if same_text(s, "notin") { FilterOp::NotIn }
        else if same_text(s, "regex") { FilterOp::Regex }
        else if same_text(s, "containsAll") { FilterOp::ContainsAll }
        else if same_text(s, "containsAny") { FilterOp::ContainsAny }
        else { FilterOp::Other }
    }
}

/// One condition of a query: the value at `field` of an item compared by `op` with `value`.
#[derive(Debug)]
pub struct QueryFilter {
    pub field: String,
    pub op: String,
    pub value: Value,
}

/// A query: the collection at `path` and the conditions its items must meet.
#[derive(Debug)]
pub struct BatchQuery {
    pub path: String,
    pub filters: Vec<QueryFilter>,
}

/// Integer comparison for the ordering operators. Only integers are ordered here:
/// a float is carried as its text and never compared, since floating point is not
/// held in this verified code, so a float operand (like any non-number) makes the
/// comparison false.
pub open spec fn order_holds(op: FilterOp, a: int, b: int) -> bool {
    match op {
        FilterOp::Gt => a > b,
        FilterOp::Gte => a >= b,
        FilterOp::Lt => a < b,
        _ => a <= b,
    }
}

/// Whether `item` meets the condition (`field`, `op`, `value`).
pub open spec fn filter_holds(item: Json, field: Seq<char>, op: FilterOp, value: Json) -> bool {
    match get_at(item, split_dots(field)) {
        None => false,
        Some(cur) => match op {
            FilterOp::Eq => json_eq(cur, value),
            FilterOp::Ne => !json_eq(cur, value),
            FilterOp::Gt | FilterOp::Gte | FilterOp::Lt | FilterOp::Lte => match (cur, value) {
                (Json::Int(a), Json::Int(b)) => order_holds(op, a, b),
                _ => false,
            },
            FilterOp::Contains => match (cur, value) {
                (Json::Str(h), Json::Str(n)) => is_infix(n, h),
                _ => false,
            },
            FilterOp::StartsWith => match (cur, value) {
                (Json::Str(h), Json::Str(n)) => is_prefix(n, h),
                _ => false,
            },
            FilterOp::EndsWith => match (cur, value) {
                (Json::Str(h), Json::Str(n)) => is_suffix(n, h),
                _ => false,
            },
            FilterOp::In => match value {
                Json::Arr(a) => seq_contains_eq(a, cur),
                _ => false,
            },
            FilterOp::NotIn => match value {
                Json::Arr(a) => !seq_contains_eq(a, cur),
                _ => false,
            },
            FilterOp::Regex => match (cur, value) {
                (Json::Str(s), Json::Str(p)) => regex_valid(p) && regex_match(p, s),
                _ => false,
            },
            FilterOp::ContainsAll => match (cur, value) {
                (Json::Arr(c), Json::Arr(r)) => forall|i: int|
                    0 <= i < r.len() ==> seq_contains_eq(c, #[trigger] r[i]),
                _ => false,
            },
            FilterOp::ContainsAny => match (cur, value) {
                (Json::Arr(c), Json::Arr(r)) => exists|i: int|
                    0 <= i < r.len() && seq_contains_eq(c, #[trigger] r[i]),
                _ => false,
            },
            FilterOp::Other => true,
        },
    }
}

/// A filter made ready for evaluation: its field split once, its pattern compiled once.
pub struct PreparedFilter {
    pub field: String,
    pub op: FilterOp,
    pub value: Value,
    pub segs: Vec<String>,
    pub pattern: Option<CompiledPattern>,
}

impl PreparedFilter {
    pub open spec fn wf(&self) -> bool {
        &&& views(self.segs@) == split_dots(self.field@)
        &&& match self.pattern {
            Some(c) => self.op == FilterOp::Regex && self.value is Str && c.source()
                == self.value->Str_0@ && regex_valid(c.source()),
            None => !(self.op == FilterOp::Regex && self.value is Str && regex_valid(
                self.value->Str_0@,
            )),
        }
    }

    /// Whether `item` meets this filter.
    pub open spec fn holds(&self, item: Json) -> bool {
        filter_holds(item, self.field@, self.op, self.value@)
    }

    /// Prepares `q`: splits its field and, for a regex filter, compiles the pattern.
    pub fn from_query_filter(q: &QueryFilter) -> (r: PreparedFilter)
        ensures
            r.wf(),
            r.field@ == q.field@,
            r.op == op_of(q.op@),
            r.value@ == q.value@,
    {
        let op = FilterOp::from_name(q.op.as_str());
        let pattern = match (op, &q.value) {
            (FilterOp::Regex, Value::Str(p)) => CompiledPattern::compile(p),
            _ => None,
        };
        PreparedFilter {
            field: q.field.clone(),
            op,
            value: q.value.duplicate(),
            segs: split_path(q.field.as_str()),
            pattern,
        }
    }
}

/// Whether every element of `r` has an equal element in `c`.
fn contains_all(c: &Vec<Value>, r: &Vec<Value>) -> (b: bool)
    ensures
        b == forall|i: int| 0 <= i < r@.len() ==> seq_contains_eq(arr_view(c@), #[trigger] arr_view(r@)[i]),
{
    let mut i: usize = 0;
    while i < r.len()
        invariant
            0 <= i <= r@.len(),
            forall|j: int| 0 <= j < i ==> seq_contains_eq(arr_view(c@), #[trigger] arr_view(r@)[j]),
        decreases r@.len() - i,
    {
        if !contains_value(c, &r[i]) {
            assert(!seq_contains_eq(arr_view(c@), arr_view(r@)[i as int]));
            return false;
        }
        i = i + 1;
    }
    true
}

/// Whether some element of `r` has an equal element in `c`.
fn contains_any(c: &Vec<Value>, r: &Vec<Value>) -> (b: bool)
    ensures
        b == exists|i: int| 0 <= i < r@.len() && seq_contains_eq(arr_view(c@), #[trigger] arr_view(r@)[i]),
{
    let mut i: usize = 0;
    while i < r.len()
        invariant
            0 <= i <= r@.len(),
            forall|j: int| 0 <= j < i ==> !seq_contains_eq(arr_view(c@), #[trigger] arr_view(r@)[j]),
        decreases r@.len() - i,
    {
        if contains_value(c, &r[i]) {
            assert(seq_contains_eq(arr_view(c@), arr_view(r@)[i as int]));
            return true;
        }
        i = i + 1;
    }
    false
}

/// Whether `item` meets filter `f`.
pub fn matches_filter(item: &Value, f: &PreparedFilter) -> (r: bool)
    requires
        f.wf(),
    ensures
        r == f.holds(item@),
{
    proof {
        assert(segs_from(f.segs@, 0) =~= views(f.segs@));
    }
    let cur = match get_in(item, &f.segs, 0) {
        Some(c) => c,
        None => {
            return false;
        },
    };
    proof {
        lemma_view_parts(cur);
        lemma_view_parts(&f.value);
        assert(get_at(item@, split_dots(f.field@)) == Some(cur@));
    }
    let ghost c = cur@;
    let ghost v = f.value@;
    let r = match f.op {
        FilterOp::Eq => values_equal(cur, &f.value),
        FilterOp::Ne => !values_equal(cur, &f.value),
        FilterOp::Gt | FilterOp::Gte | FilterOp::Lt | FilterOp::Lte => match (cur, &f.value) {
            (Value::Int(a), Value::Int(b)) => match f.op {
                FilterOp::Gt => *a > *b,
                FilterOp::Gte => *a >= *b,
                FilterOp::Lt => *a < *b,
                _ => *a <= *b,
            },
            _ => false,
        },
        FilterOp::Contains => match (cur, &f.value) {
            (Value::Str(h), Value::Str(n)) => text_contains(h.as_str(), n.as_str()),
            _ => false,
        },
        FilterOp::StartsWith => match (cur, &f.value) {
            (Value::Str(h), Value::Str(n)) => text_starts_with(h.as_str(), n.as_str()),
            _ => false,
        },
        FilterOp::EndsWith => match (cur, &f.value) {
            (Value::Str(h), Value::Str(n)) => text_ends_with(h.as_str(), n.as_str()),
            _ => false,
        },
        FilterOp::In => match &f.value {
            Value::Array(a) => contains_value(a, cur),
            _ => false,
        },
        FilterOp::NotIn => match &f.value {
            Value::Array(a) => !contains_value(a, cur),
            _ => false,
        },
        FilterOp::Regex => match (cur, &f.pattern) {
            (Value::Str(s), Some(p)) => p.is_match(s.as_str()),
            _ => false,
        },
        FilterOp::ContainsAll => match (cur, &f.value) {
            (Value::Array(c), Value::Array(r)) => contains_all(c, r),
            _ => false,
        },
        FilterOp::ContainsAny => match (cur, &f.value) {
            (Value::Array(c), Value::Array(r)) => contains_any(c, r),
            _ => false,
        },
        FilterOp::Other => true,
    };
    proof {
        assert(f.op == FilterOp::Eq ==> r == f.holds(item@));
        assert(f.op == FilterOp::Ne ==> r == f.holds(item@));
        assert(f.op == FilterOp::Gt ==> r == f.holds(item@));
        assert(f.op == FilterOp::Contains ==> r == f.holds(item@));
        assert(f.op == FilterOp::In ==> r == f.holds(item@));
        assert(f.op == FilterOp::NotIn ==> r == f.holds(item@));
        assert(f.op == FilterOp::Regex ==> r == f.holds(item@));
        assert(f.op == FilterOp::ContainsAll ==> r == f.holds(item@));
        assert(f.op == FilterOp::ContainsAny ==> r == f.holds(item@));
    }
    r
}

pub open spec fn all_hold(item: Json, fs: Seq<PreparedFilter>) -> bool {
    forall|i: int| 0 <= i < fs.len() ==> (#[trigger] fs[i]).holds(item)
}

pub open spec fn all_wf(fs: Seq<PreparedFilter>) -> bool {
    forall|i: int| 0 <= i < fs.len() ==> (#[trigger] fs[i]).wf()
}

/// Whether `item` meets every filter.
pub fn matches_filters(item: &Value, fs: &Vec<PreparedFilter>) -> (r: bool)
    requires
        all_wf(fs@),
    ensures
        r == all_hold(item@, fs@),
{
    let mut i: usize = 0;
    while i < fs.len()
        invariant
            all_wf(fs@),
            0 <= i <= fs@.len(),
            forall|j: int| 0 <= j < i ==> (#[trigger] fs@[j]).holds(item@),
        decreases fs@.len() - i,
    {
        if !matches_filter(item, &fs[i]) {
            return false;
        }
        i = i + 1;
    }
    true
}

/// The items that meet every filter, in their order.
pub open spec fn filter_seq(items: Seq<Json>, fs: Seq<PreparedFilter>) -> Seq<Json>
    decreases items.len(),
{
    if items.len() == 0 {
        Seq::empty()
    } else if all_hold(items.last(), fs) {
        filter_seq(items.drop_last(), fs).push(items.last())
    } else {
        filter_seq(items.drop_last(), fs)
    }
}

/// The items of a collection: an object's values in entry order, or an array's elements.
pub open spec fn collection_of(j: Json) -> Option<Seq<Json>> {
    match j {
        Json::Obj(m) => Some(Seq::new(m.len(), |i: int| m[i].1)),
        Json::Arr(a) => Some(a),
        _ => None,
    }
}

/// The items of the collection at `segs` below `root`.
pub open spec fn collection_at(root: Json, segs: Seq<Seq<char>>) -> Option<Seq<Json>> {
    match get_at(root, segs) {
        Some(j) => collection_of(j),
        None => None,
    }
}

/// The items of collection `node` that meet every filter, in collection order.
pub fn filter_collection(node: &Value, fs: &Vec<PreparedFilter>) -> (r: Vec<Value>)
    requires
        all_wf(fs@),
    ensures
        arr_view(r@) == match collection_of(node@) {
            Some(items) => filter_seq(items, fs@),
            None => Seq::empty(),
        },
{
    proof {
        lemma_view_parts(node);
    }
    let mut out: Vec<Value> = Vec::new();
    match node {
        Value::Array(a) => {
            let ghost items = arr_view(a@);
            let mut i: usize = 0;
            while i < a.len()
                invariant
                    items == arr_view(a@),
                    all_wf(fs@),
                    0 <= i <= a@.len(),
                    arr_view(out@) == filter_seq(items.subrange(0, i as int), fs@),
                decreases a@.len() - i,
            {
                proof {
                    assert(items.subrange(0, i as int + 1).drop_last() =~= items.subrange(0, i as int));
                }
                if matches_filters(&a[i], fs) {
                    let c = a[i].duplicate();
                    out.push(c);
                    proof {
                        assert(arr_view(out@) =~= filter_seq(items.subrange(0, i as int), fs@).push(items[i as int]));
                    }
                }
                i = i + 1;
            }
            proof {
                assert(items.subrange(0, a@.len() as int) =~= items);
            }
        },
        Value::Object(m) => {
            let ghost items = Seq::new(obj_view(m@).len(), |i: int| obj_view(m@)[i].1);
            let mut i: usize = 0;
            while i < m.len()
                invariant
                    items == Seq::new(obj_view(m@).len(), |i: int| obj_view(m@)[i].1),
                    all_wf(fs@),
                    0 <= i <= m@.len(),
                    arr_view(out@) == filter_seq(items.subrange(0, i as int), fs@),
                decreases m@.len() - i,
            {
                proof {
                    assert(items.subrange(0, i as int + 1).drop_last() =~= items.subrange(0, i as int));
                    assert(items[i as int] == m@[i as int].1@);
                }
                if matches_filters(&m[i].1, fs) {
                    let c = m[i].1.duplicate();
                    out.push(c);
                    proof {
                        assert(arr_view(out@) =~= filter_seq(items.subrange(0, i as int), fs@).push(items[i as int]));
                    }
                }
                i = i + 1;
            }
            proof {
                assert(items.subrange(0, m@.len() as int) =~= items);
            }
        },
        _ => {
            proof {
                assert(arr_view(out@) =~= Seq::<Json>::empty());
            }
        },
    }
    out
}

/// Filtering a concatenation gives the concatenation of the filtered parts: a scan
/// that splits the items into chunks, filters each chunk on its own and joins the
/// results in chunk order returns what a sequential scan returns.
pub proof fn lemma_filter_concat(a: Seq<Json>, b: Seq<Json>, fs: Seq<PreparedFilter>)
    ensures
        filter_seq(a + b, fs) == filter_seq(a, fs) + filter_seq(b, fs),
    decreases b.len(),
{
    if b.len() == 0 {
        assert(a + b =~= a);
        assert(filter_seq(a, fs) + filter_seq(b, fs) =~= filter_seq(a, fs));
    } else {
        lemma_filter_concat(a, b.drop_last(), fs);
        assert((a + b).drop_last() =~= a + b.drop_last());
        assert((a + b).last() == b.last());
        if all_hold(b.last(), fs) {
            assert(filter_seq(a, fs) + filter_seq(b, fs) =~= (filter_seq(a, fs) + filter_seq(b.drop_last(), fs)).push(b.last()));
        } else {
            assert(filter_seq(a, fs) + filter_seq(b, fs) =~= filter_seq(a, fs) + filter_seq(b.drop_last(), fs));
        }
    }
}

/// Splitting the items at any points and filtering the parts separately gives the
/// sequential result.
pub proof fn lemma_chunked_filter(chunks: Seq<Seq<Json>>, fs: Seq<PreparedFilter>)
    ensures
        filter_seq(chunks.fold_left(Seq::empty(), |acc: Seq<Json>, c: Seq<Json>| acc + c), fs)
            == chunks.map_values(|c: Seq<Json>| filter_seq(c, fs)).fold_left(Seq::empty(), |acc: Seq<Json>, c: Seq<Json>| acc + c),
    decreases chunks.len(),
{
    if chunks.len() == 0 {
        assert(filter_seq(Seq::<Json>::empty(), fs) == Seq::<Json>::empty());
    } else {
        let init = chunks.drop_last();
        lemma_chunked_filter(init, fs);
        assert(chunks.map_values(|c: Seq<Json>| filter_seq(c, fs)).drop_last() =~= init.map_values(|c: Seq<Json>| filter_seq(c, fs)));
        lemma_filter_concat(init.fold_left(Seq::empty(), |acc: Seq<Json>, c: Seq<Json>| acc + c), chunks.last(), fs);
    }
}

/// The key an item joins on: the canonical key of the value at `field`, if any.
pub open spec fn join_key(item: Json, field: Seq<char>) -> Option<Seq<char>> {
    match get_at(item, split_dots(field)) {
        Some(v) => Some(canonical(v)),
        None => None,
    }
}

/// The items of `rights` whose key at `field` is `k`, in their order.
pub open spec fn join_matches(rights: Seq<Json>, field: Seq<char>, k: Seq<char>) -> Seq<Json>
    decreases rights.len(),
{
    if rights.len() == 0 {
        Seq::empty()
    } else if join_key(rights.last(), field) == Some(k) {
        join_matches(rights.drop_last(), field, k).push(rights.last())
    } else {
        join_matches(rights.drop_last(), field, k)
    }
}

/// A left item with its matches: an object gets the field `as_field` holding the
/// right items whose key equals its own (none where it has no key); anything else
/// is kept as it is.
pub open spec fn joined(
    left: Json,
    rights: Seq<Json>,
    lf: Seq<char>,
    rf: Seq<char>,
    as_field: Seq<char>,
) -> Json {
    match left {
        Json::Obj(m) => Json::Obj(
            obj_put(
                m,
                as_field,
                Json::Arr(
                    match join_key(left, lf) {
                        Some(k) => join_matches(rights, rf, k),
                        None => Seq::empty(),
                    },
                ),
            ),
        ),
        _ => left,
    }
}

/// Reads the key at `field` of `item`.
fn key_of(item: &Value, segs: &Vec<String>) -> (r: Option<String>)
    ensures
        match get_at(item@, segs_from(segs@, 0)) {
            Some(v) => r is Some && r->0@ == canonical(v),
            None => r is None,
        },
{
    match get_in(item, segs, 0) {
        Some(v) => Some(canonical_key(v)),
        None => None,
    }
}

/// The items of collection `node`, copied.
pub fn collection_items(node: &Value) -> (r: Option<Vec<Value>>)
    ensures
        match collection_of(node@) {
            Some(items) => r is Some && arr_view(r->0@) == items,
            None => r is None,
        },
{
    proof {
        lemma_view_parts(node);
    }
    match node {
        Value::Array(a) => {
            let mut out: Vec<Value> = Vec::new();
            let mut i: usize = 0;
            while i < a.len()
                invariant
                    0 <= i <= a@.len(),
                    arr_view(out@) =~= arr_view(a@).subrange(0, i as int),
                decreases a@.len() - i,
            {
                let ghost prev = arr_view(out@);
                let c = a[i].duplicate();
                out.push(c);
                proof {
                    assert(arr_view(out@) =~= prev.push(c@));
                    assert(arr_view(out@) =~= arr_view(a@).subrange(0, i as int + 1));
                }
                i = i + 1;
            }
            proof {
                assert(arr_view(a@).subrange(0, a@.len() as int) =~= arr_view(a@));
            }
            Some(out)
        },
        Value::Object(m) => {
            let ghost items = Seq::new(obj_view(m@).len(), |i: int| obj_view(m@)[i].1);
            let mut out: Vec<Value> = Vec::new();
            let mut i: usize = 0;
            while i < m.len()
                invariant
                    items == Seq::new(obj_view(m@).len(), |i: int| obj_view(m@)[i].1),
                    0 <= i <= m@.len(),
                    arr_view(out@) =~= items.subrange(0, i as int),
                decreases m@.len() - i,
            {
                let ghost prev = arr_view(out@);
                let c = m[i].1.duplicate();
                out.push(c);
                proof {
                    assert(arr_view(out@) =~= prev.push(c@));
                    assert(items[i as int] == m@[i as int].1@);
                    assert(arr_view(out@) =~= items.subrange(0, i as int + 1));
                }
                i = i + 1;
            }
            proof {
                assert(items.subrange(0, m@.len() as int) =~= items);
            }
            Some(out)
        },
        _ => None,
    }
}

/// Left outer join of `lefts` with `rights`: every left item, in order, with the
/// right items that share its key added under `as_field`.
pub fn lookup_join(
    lefts: &Vec<Value>,
    rights: &Vec<Value>,
    lf: &str,
    rf: &str,
    as_field: &String,
) -> (r: Vec<Value>)
    ensures
        r@.len() == lefts@.len(),
        forall|i: int|
            0 <= i < lefts@.len() ==> (#[trigger] r@[i])@ == joined(
                lefts@[i]@,
                arr_view(rights@),
                lf@,
                rf@,
                as_field@,
            ),
{
    let lsegs = split_path(lf);
    let rsegs = split_path(rf);
    proof {
        assert(segs_from(lsegs@, 0) =~= split_dots(lf@));
        assert(segs_from(rsegs@, 0) =~= split_dots(rf@));
    }
    let ghost rv = arr_view(rights@);
    let mut rkeys: Vec<Option<String>> = Vec::new();
    let mut j: usize = 0;
    while j < rights.len()
        invariant
            segs_from(rsegs@, 0) == split_dots(rf@),
            0 <= j <= rights@.len(),
            rkeys@.len() == j,
            forall|t: int|
                0 <= t < j ==> match join_key(rights@[t]@, rf@) {
                    Some(k) => (#[trigger] rkeys@[t]) is Some && rkeys@[t]->0@ == k,
                    None => rkeys@[t] is None,
                },
        decreases rights@.len() - j,
    {
        rkeys.push(key_of(&rights[j], &rsegs));
        j = j + 1;
    }
    let mut out: Vec<Value> = Vec::new();
    let mut i: usize = 0;
    while i < lefts.len()
        invariant
            segs_from(lsegs@, 0) == split_dots(lf@),
            rv == arr_view(rights@),
            rkeys@.len() == rights@.len(),
            forall|t: int|
                0 <= t < rights@.len() ==> match join_key(rights@[t]@, rf@) {
                    Some(k) => (#[trigger] rkeys@[t]) is Some && rkeys@[t]->0@ == k,
                    None => rkeys@[t] is None,
                },
            0 <= i <= lefts@.len(),
            out@.len() == i,
            forall|t: int|
                0 <= t < i ==> (#[trigger] out@[t])@ == joined(lefts@[t]@, rv, lf@, rf@, as_field@),
        decreases lefts@.len() - i,
    {
        let item = lefts[i].duplicate();
        proof {
            lemma_view_parts(&item);
        }
        let res = match item {
            Value::Object(mut m) => {
                let ghost m0 = obj_view(m@);
                let lk = key_of(&lefts[i], &lsegs);
                let mut matches: Vec<Value> = Vec::new();
                match &lk {
                    Some(k) => {
                        let mut t: usize = 0;
                        while t < rights.len()
                            invariant
                                rv == arr_view(rights@),
                                rkeys@.len() == rights@.len(),
                                forall|u: int|
                                    0 <= u < rights@.len() ==> match join_key(rights@[u]@, rf@) {
                                        Some(kk) => (#[trigger] rkeys@[u]) is Some && rkeys@[u]->0@ == kk,
                                        None => rkeys@[u] is None,
                                    },
                                0 <= t <= rights@.len(),
                                arr_view(matches@) == join_matches(rv.subrange(0, t as int), rf@, k@),
                            decreases rights@.len() - t,
                        {
                            proof {
                                assert(rv.subrange(0, t as int + 1).drop_last() =~= rv.subrange(0, t as int));
                                assert(rv[t as int] == rights@[t as int]@);
                            }
                            let hit = match &rkeys[t] {
                                Some(rk) => *rk == *k,
                                None => false,
                            };
                            if hit {
                                matches.push(rights[t].duplicate());
                                proof {
                                    assert(arr_view(matches@) =~= join_matches(rv.subrange(0, t as int), rf@, k@).push(rv[t as int]));
                                }
                            }
                            t = t + 1;
                        }
                        proof {
                            assert(rv.subrange(0, rights@.len() as int) =~= rv);
                        }
                    },
                    None => {
                        proof {
                            assert(arr_view(matches@) =~= Seq::<Json>::empty());
                        }
                    },
                }
                let arr = Value::Array(matches);
                proof {
                    lemma_view_parts(&arr);
                    lemma_find_key_facts(m0, as_field@);
                }
                let ghost av = arr@;
                match find_entry(&m, as_field) {
                    Some(p) => {
                        m.set(p, (as_field.clone(), arr));
                        proof {
                            assert(obj_view(m@) =~= m0.update(p as int, (as_field@, av)));
                        }
                    },
                    None => {
                        m.push((as_field.clone(), arr));
                        proof {
                            assert(obj_view(m@) =~= m0.push((as_field@, av)));
                        }
                    },
                }
                let r = Value::Object(m);
                proof {
                    lemma_view_parts(&r);
                }
                r
            },
            other => other,
        };
        out.push(res);
        i = i + 1;
    }
    out
}

/// The number stored at `field` of `item`; the empty field names the item itself.
pub open spec fn numeric_at(item: Json, field: Seq<char>) -> Option<Json> {
    let v = if field.len() == 0 {
        Some(item)
    } else {
        get_at(item, split_dots(field))
    };
    match v {
        Some(Json::Int(n)) => Some(Json::Int(n)),
        Some(Json::Float(t)) => Some(Json::Float(t)),
        _ => None,
    }
}

/// The numbers found at `field` of the items, in order; items without one are skipped.
pub open spec fn numbers_of(items: Seq<Json>, field: Seq<char>) -> Seq<Json>
    decreases items.len(),
{
    if items.len() == 0 {
        Seq::empty()
    } else {
        match numeric_at(items.last(), field) {
            Some(n) => numbers_of(items.drop_last(), field).push(n),
            None => numbers_of(items.drop_last(), field),
        }
    }
}

/// The numbers at `field` of each item that has one.
pub fn numeric_values(items: &Vec<Value>, field: &str) -> (r: Vec<Value>)
    ensures
        arr_view(r@) == numbers_of(arr_view(items@), field@),
{
    let empty_field = field.unicode_len() == 0;
    let segs: Vec<String> = if empty_field {
        Vec::new()
    } else {
        split_path(field)
    };
    proof {
        if !empty_field {
            assert(segs_from(segs@, 0) =~= split_dots(field@));
        } else {
            assert(segs_from(segs@, 0) =~= Seq::<Seq<char>>::empty());
        }
    }
    let ghost iv = arr_view(items@);
    let mut out: Vec<Value> = Vec::new();
    let mut i: usize = 0;
    while i < items.len()
        invariant
            iv == arr_view(items@),
            empty_field == (field@.len() == 0),
            !empty_field ==> segs_from(segs@, 0) == split_dots(field@),
            empty_field ==> segs_from(segs@, 0) == Seq::<Seq<char>>::empty(),
            0 <= i <= items@.len(),
            arr_view(out@) == numbers_of(iv.subrange(0, i as int), field@),
        decreases items@.len() - i,
    {
        proof {
            assert(iv.subrange(0, i as int + 1).drop_last() =~= iv.subrange(0, i as int));
            assert(iv[i as int] == items@[i as int]@);
        }
        match get_in(&items[i], &segs, 0) {
            Some(v) => {
                proof {
                    lemma_view_parts(v);
                }
                match v {
                    Value::Int(n) => {
                        out.push(Value::Int(*n));
                        proof {
                            assert(arr_view(out@) =~= numbers_of(iv.subrange(0, i as int), field@).push(v@));
                        }
                    },
                    Value::Float(t) => {
                        out.push(Value::Float(t.clone()));
                        proof {
                            assert(arr_view(out@) =~= numbers_of(iv.subrange(0, i as int), field@).push(v@));
                        }
                    },
                    _ => {},
                }
            },
            None => {},
        }
        i = i + 1;
    }
    proof {
        assert(iv.subrange(0, items@.len() as int) =~= iv);
    }
    out
}

} // verus!
