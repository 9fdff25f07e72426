use vstd::prelude::*;
use crate::btree::{BTreeIndex, stored_pairs, last_key, rebuilt_bucket};
use crate::keyed::{pos_of, lookup, lemma_pos_is, lemma_pos_facts};
use crate::path::views;
use crate::query::{
    QueryFilter, PreparedFilter, filter_holds, op_of, filter_seq, all_hold, all_wf,
    collection_of, filter_collection, collection_items, lookup_join, joined, numeric_values,
    numbers_of,
};
use crate::schema::{Schema, ValidationError, validate, validate_spec};
use crate::text::canonical;
use crate::tree::{
    PathError, get_at, path_segs, get_path, set_path, delete_path, push_path, get_in, segs_from, segments_of, get_value, has_value, set_value, delete_value, push_value,
};
use crate::value::{Json, Value, arr_view, obj_view, obj_get, find_entry, lemma_view_parts};
use crate::path::{parse_index, seg_index};
use crate::undo::{UndoEntry, undo_all, undo_depth, set_entry, delete_entry};

verus! {

/// Errors of the store's operations.
#[derive(Debug)]
pub enum DbError {
    AlreadyLocked,
    Io(String),
    Parse(String),
    /// A value failed the schema registered at `prefix`.
    Schema { prefix: String, error: ValidationError },
    InvalidPath,
    /// A path segment meets a value that is no container.
    TypeError,
    NoTransaction,
    TransactionAlreadyActive,
    UnknownSavepoint,
    WalStopped,
    Timeout,
}

/// The error kind of a path failure.
pub open spec fn path_error_kind(e: PathError) -> DbError {
    match e {
        PathError::Blocked | PathError::NotArray => DbError::TypeError,
        PathError::NotIndex | PathError::NotFound => DbError::InvalidPath,
    }
}

fn path_error(e: PathError) -> (r: DbError)
    ensures
        r == path_error_kind(e),
{
    match e {
        PathError::Blocked | PathError::NotArray => DbError::TypeError,
        PathError::NotIndex | PathError::NotFound => DbError::InvalidPath,
    }
}

/// The undo state of the open transaction: one record per change, in the order
/// the changes were made (a path as segments, and what stood there), and
/// savepoints as positions in that log.
#[derive(Debug)]
pub struct TransactionState {
    pub undo_log: Vec<(Vec<String>, Option<Value>)>,
    pub savepoints: Vec<(String, usize)>,
}

/// The outcome of a batch of writes.
#[derive(Debug)]
pub struct ParallelResult {
    pub success: bool,
    pub count: u32,
    pub error: Option<String>,
}

pub open spec fn opt_view(o: Option<Value>) -> Option<Json> {
    match o {
        Some(v) => Some(v@),
        None => None,
    }
}

pub open spec fn undo_view(log: Seq<(Vec<String>, Option<Value>)>) -> Seq<UndoEntry> {
    Seq::new(log.len(), |i: int| (views(log[i].0@), opt_view(log[i].1)))
}

/// The first `n` segments of `segs`, copied.
fn segs_prefix(segs: &Vec<String>, n: usize) -> (r: Vec<String>)
    requires
        n <= segs@.len(),
    ensures
        views(r@) == views(segs@).subrange(0, n as int),
{
    let mut out: Vec<String> = Vec::new();
    let mut i: usize = 0;
    while i < n
        invariant
            n <= segs@.len(),
            0 <= i <= n,
            views(out@) == views(segs@).subrange(0, i as int),
        decreases n - i,
    {
        let ghost prev = views(out@);
        out.push(segs[i].clone());
        proof {
            assert(views(out@) =~= prev.push(segs@[i as int]@));
            assert(views(segs@).subrange(0, i as int + 1) =~= views(segs@).subrange(0, i as int).push(segs@[i as int]@));
        }
        i = i + 1;
    }
    out
}

/// How deep a write at segments `i..` below `node` may change the tree, and what
/// stood there.
fn undo_depth_in(node: &Value, segs: &Vec<String>, i: usize) -> (r: (usize, Option<Value>))
    requires
        i <= segs@.len(),
    ensures
        r.0 as int == undo_depth(node@, segs_from(segs@, i as int)).0,
        opt_view(r.1) == undo_depth(node@, segs_from(segs@, i as int)).1,
    decreases segs@.len() - i,
{
    if i == segs.len() {
        assert(segs_from(segs@, i as int) =~= Seq::<Seq<char>>::empty());
        return (0, Some(node.duplicate()));
    }
    proof {
        lemma_view_parts(node);
        assert(segs_from(segs@, i as int)[0] == segs@[i as int]@);
        assert(segs_from(segs@, i as int).drop_first() =~= segs_from(segs@, i as int + 1));
    }
    let last = i + 1 == segs.len();
    match node {
        Value::Object(m) => {
            proof {
                crate::value::lemma_find_key_facts(obj_view(m@), segs@[i as int]@);
            }
            match find_entry(m, &segs[i]) {
                None => (1, None),
                Some(p) => {
                    let is_null = match &m[p].1 {
                        Value::Null => true,
                        _ => false,
                    };
                    if !last && is_null {
                        (1, Some(Value::Null))
                    } else {
                        let (d, v) = undo_depth_in(&m[p].1, segs, i + 1);
                        proof {
                            lemma_undo_depth_bound(m@[p as int].1@, segs_from(segs@, i as int + 1));
                        }
                        (d + 1, v)
                    }
                },
            }
        },
        Value::Array(a) => {
            match parse_index(segs[i].as_str()) {
                Some(idx) => {
                    if idx < a.len() {
                        let is_null = match &a[idx] {
                            Value::Null => true,
                            _ => false,
                        };
                        if !last && is_null {
                            (1, Some(Value::Null))
                        } else {
                            let (d, v) = undo_depth_in(&a[idx], segs, i + 1);
                            proof {
                                lemma_undo_depth_bound(a@[idx as int]@, segs_from(segs@, i as int + 1));
                            }
                            (d + 1, v)
                        }
                    } else {
                        (0, Some(node.duplicate()))
                    }
                },
                None => (0, Some(node.duplicate())),
            }
        },
        _ => (0, Some(node.duplicate())),
    }
}

proof fn lemma_undo_depth_bound(node: Json, segs: Seq<Seq<char>>)
    ensures
        0 <= undo_depth(node, segs).0 <= segs.len(),
    decreases segs.len(),
{
    if segs.len() > 0 {
        match node {
            Json::Obj(m) => {
                if let Some(c) = obj_get(m, segs[0]) {
                    lemma_undo_depth_bound(c, segs.drop_first());
                }
            },
            Json::Arr(a) => {
                if let Some(i) = seg_index(segs[0]) {
                    if i < a.len() {
                        lemma_undo_depth_bound(a[i as int], segs.drop_first());
                    }
                }
            },
            _ => {},
        }
    }
}

/// Whether `item` meets every condition of `qs`.
pub open spec fn meets_all(item: Json, qs: Seq<QueryFilter>) -> bool {
    forall|i: int| 0 <= i < qs.len() ==> filter_holds(item, (#[trigger] qs[i]).field@, op_of(qs[i].op@), qs[i].value@)
}

/// The items that meet every condition of `qs`, in their order.
pub open spec fn select(items: Seq<Json>, qs: Seq<QueryFilter>) -> Seq<Json>
    decreases items.len(),
{
    if items.len() == 0 {
        Seq::empty()
    } else if meets_all(items.last(), qs) {
        select(items.drop_last(), qs).push(items.last())
    } else {
        select(items.drop_last(), qs)
    }
}

proof fn lemma_select_prepared(items: Seq<Json>, qs: Seq<QueryFilter>, ps: Seq<PreparedFilter>)
    requires
        ps.len() == qs.len(),
        forall|i: int| 0 <= i < ps.len() ==> (#[trigger] ps[i]).field@ == qs[i].field@ && ps[i].op == op_of(qs[i].op@)
            && ps[i].value@ == qs[i].value@,
    ensures
        filter_seq(items, ps) == select(items, qs),
    decreases items.len(),
{
    if items.len() > 0 {
        lemma_select_prepared(items.drop_last(), qs, ps);
        let x = items.last();
        assert(all_hold(x, ps) == meets_all(x, qs)) by {
            if all_hold(x, ps) {
                assert forall|i: int| 0 <= i < qs.len() implies filter_holds(x, (#[trigger] qs[i]).field@, op_of(qs[i].op@), qs[i].value@) by {
                    assert(ps[i].holds(x));
                }
            }
            if meets_all(x, qs) {
                assert forall|i: int| 0 <= i < ps.len() implies (#[trigger] ps[i]).holds(x) by {
                    assert(filter_holds(x, qs[i].field@, op_of(qs[i].op@), qs[i].value@));
                }
            }
        }
    }
}

/// Position of the last `.` of `p`, or -1.
pub open spec fn last_dot(p: Seq<char>) -> int
    decreases p.len(),
{
    if p.len() == 0 {
        -1
    } else if p.last() == '.' {
        p.len() - 1
    } else {
        last_dot(p.drop_last())
    }
}

proof fn lemma_last_dot(p: Seq<char>)
    ensures
        -1 <= last_dot(p) < p.len(),
    decreases p.len(),
{
    if p.len() > 0 {
        lemma_last_dot(p.drop_last());
    }
}

/// The schema that governs path `p`: the one registered at `p`, else at the path
/// without its last segment, and so on; none where no prefix has one.
pub open spec fn governing(s: Seq<(Seq<char>, Schema)>, p: Seq<char>) -> Option<(Seq<char>, Schema)>
    decreases p.len(),
{
    if lookup(s, p) is Some {
        Some((p, lookup(s, p)->0))
    } else if 0 <= last_dot(p) < p.len() {
        governing(s, p.subrange(0, last_dot(p)))
    } else {
        None
    }
}

fn find_last_dot(p: &str) -> (r: Option<usize>)
    ensures
        match r {
            Some(i) => i as int == last_dot(p@),
            None => last_dot(p@) == -1,
        },
{
    let n = p.unicode_len();
    let mut i: usize = n;
    proof {
        assert(p@.subrange(0, n as int) =~= p@);
    }
    while i > 0
        invariant
            n == p@.len(),
            0 <= i <= n,
            last_dot(p@) == last_dot(p@.subrange(0, i as int)),
        decreases i,
    {
        proof {
            assert(p@.subrange(0, i as int).drop_last() =~= p@.subrange(0, i as int - 1));
        }
        if p.get_char(i - 1) == '.' {
            return Some(i - 1);
        }
        i = i - 1;
    }
    None
}

pub open spec fn savepoint_view(s: Seq<(String, usize)>) -> Seq<(Seq<char>, nat)> {
    Seq::new(s.len(), |i: int| (s[i].0@, s[i].1 as nat))
}

fn savepoint_find(s: &Vec<(String, usize)>, name: &String) -> (r: Option<usize>)
    ensures
        match r {
            Some(i) => i as int == pos_of(savepoint_view(s@), name@) && i < s@.len(),
            None => pos_of(savepoint_view(s@), name@) == -1,
        },
{
    let mut i: usize = 0;
    while i < s.len()
        invariant
            0 <= i <= s@.len(),
            forall|j: int| 0 <= j < i ==> (#[trigger] savepoint_view(s@)[j]).0 != name@,
        decreases s@.len() - i,
    {
        if s[i].0 == *name {
            proof {
                lemma_pos_is(savepoint_view(s@), name@, i as int);
            }
            return Some(i);
        }
        i = i + 1;
    }
    proof {
        lemma_pos_is(savepoint_view(s@), name@, -1);
    }
    None
}

pub open spec fn batch_view(ops: Seq<(String, Value)>) -> Seq<(Seq<char>, Json)> {
    Seq::new(ops.len(), |i: int| (ops[i].0@, ops[i].1@))
}

/// The tree after writing each `(path, value)` in order, and how many writes
/// succeeded.
pub open spec fn batch_result(root: Json, ops: Seq<(Seq<char>, Json)>) -> (Json, int)
    decreases ops.len(),
{
    if ops.len() == 0 {
        (root, 0)
    } else {
        let prev = batch_result(root, ops.drop_last());
        match set_path(prev.0, ops.last().0, ops.last().1) {
            Ok(j) => (j, prev.1 + 1),
            Err(_) => prev,
        }
    }
}

/// The document store: one value tree, its secondary indexes and schemas, and the
/// undo state of an open transaction.
pub struct Store {
    pub root: Value,
    pub base_path: String,
    pub indexes: Vec<(String, BTreeIndex)>,
    pub schemas: Vec<(String, Schema)>,
    pub txn: Option<TransactionState>,
}

impl Store {
    pub open spec fn schema_view(&self) -> Seq<(Seq<char>, Schema)> {
        Seq::new(self.schemas@.len(), |i: int| (self.schemas@[i].0@, self.schemas@[i].1))
    }

    pub open spec fn index_view(&self) -> Seq<(Seq<char>, BTreeIndex)> {
        Seq::new(self.indexes@.len(), |i: int| (self.indexes@[i].0@, self.indexes@[i].1))
    }

    /// Every index keeps its reverse map the inverse of its buckets.
    pub open spec fn wf(&self) -> bool {
        forall|i: int| 0 <= i < self.indexes@.len() ==> (#[trigger] self.indexes@[i]).1.wf()
    }

    /// The undo log of the open transaction, if any.
    pub open spec fn undo(&self) -> Option<Seq<UndoEntry>> {
        match self.txn {
            Some(t) => Some(undo_view(t.undo_log@)),
            None => None,
        }
    }

    /// A store over `root` whose files sit at `base_path`.
    pub fn new(base_path: String, root: Value) -> (r: Store)
        ensures
            r.wf(),
            r.root == root,
            r.base_path == base_path,
            r.indexes@.len() == 0,
            r.schemas@.len() == 0,
            r.txn is None,
    {
        Store { root, base_path, indexes: Vec::new(), schemas: Vec::new(), txn: None }
    }

    /// The value at `path`, null where there is none.
    pub fn get(&self, path: &str) -> (r: Value)
        ensures
            r@ == get_path(self.root@, path@),
    {
        get_value(&self.root, path)
    }

    /// Whether a value stands at `path`.
    pub fn has(&self, path: &str) -> (r: bool)
        ensures
            r == get_at(self.root@, path_segs(path@)) is Some,
    {
        has_value(&self.root, path)
    }

    /// Whether the schema that governs `p` rejects `v`.
    pub open spec fn rejects(&self, p: Seq<char>, v: Json) -> bool {
        match governing(self.schema_view(), p) {
            Some(g) => validate_spec(v, g.1) is Some,
            None => false,
        }
    }

    fn schema_find(&self, p: &String) -> (r: Option<usize>)
        ensures
            match r {
                Some(i) => i as int == pos_of(self.schema_view(), p@) && i < self.schemas@.len(),
                None => pos_of(self.schema_view(), p@) == -1,
            },
    {
        let mut i: usize = 0;
        while i < self.schemas.len()
            invariant
                0 <= i <= self.schemas@.len(),
                forall|j: int| 0 <= j < i ==> (#[trigger] self.schema_view()[j]).0 != p@,
            decreases self.schemas@.len() - i,
        {
            if self.schemas[i].0 == *p {
                proof {
                    lemma_pos_is(self.schema_view(), p@, i as int);
                }
                return Some(i);
            }
            i = i + 1;
        }
        proof {
            lemma_pos_is(self.schema_view(), p@, -1);
        }
        None
    }

    /// Checks `value` against the schema that governs `path`; success where none does.
    pub fn validate_path(&self, path: &str, value: &Value) -> (r: Result<(), DbError>)
        ensures
            match governing(self.schema_view(), path@) {
                None => r is Ok,
                Some(g) => match validate_spec(value@, g.1) {
                    None => r is Ok,
                    Some(f) => r matches Err(DbError::Schema { prefix, error }) && prefix@ == g.0 && error@ == f,
                },
            },
    {
        let mut cur = String::from_str(path);
        loop
            invariant
                governing(self.schema_view(), path@) == governing(self.schema_view(), cur@),
            decreases cur@.len(),
        {
            proof {
                lemma_pos_facts(self.schema_view(), cur@);
            }
            match self.schema_find(&cur) {
                Some(i) => {
                    return match validate(value, &self.schemas[i].1) {
                        Ok(()) => Ok(()),
                        Err(e) => Err(DbError::Schema { prefix: cur, error: e }),
                    };
                },
                None => {},
            }
            proof {
                lemma_last_dot(cur@);
            }
            match find_last_dot(cur.as_str()) {
                Some(d) => {
                    cur = String::from_str(cur.as_str().substring_char(0, d));
                },
                None => {
                    return Ok(());
                },
            }
        }
    }

    /// Appends `entry` to the undo log of the open transaction, if there is one.
    fn log_undo(&mut self, entry: (Vec<String>, Option<Value>))
        ensures
            final(self).root == old(self).root,
            final(self).indexes == old(self).indexes,
            final(self).schemas == old(self).schemas,
            final(self).base_path == old(self).base_path,
            final(self).txn is Some == old(self).txn is Some,
            old(self).txn is Some ==> final(self).txn->0.savepoints == old(self).txn->0.savepoints,
            old(self).txn is Some ==> final(self).undo()->0 == old(self).undo()->0.push(
                (views(entry.0@), opt_view(entry.1)),
            ),
    {
        match &mut self.txn {
            Some(t) => {
                let ghost u0 = undo_view(t.undo_log@);
                let ghost e = (views(entry.0@), opt_view(entry.1));
                t.undo_log.push(entry);
                proof {
                    assert(undo_view(t.undo_log@) =~= u0.push(e));
                }
            },
            None => {},
        }
    }

    /// Writes `value` at `path`, after the governing schema accepts it. In an open
    /// transaction a successful write first records what it may change.
    pub fn set(&mut self, path: &str, value: Value) -> (r: Result<(), DbError>)
        ensures
            final(self).indexes == old(self).indexes,
            final(self).schemas == old(self).schemas,
            final(self).base_path == old(self).base_path,
            old(self).rejects(path@, value@) ==> (r matches Err(DbError::Schema { .. }) && final(self).root
                == old(self).root && final(self).txn == old(self).txn),
            !old(self).rejects(path@, value@) ==> {
                &&& final(self).txn is Some == old(self).txn is Some
                &&& match set_path(old(self).root@, path@, value@) {
                    Ok(j) => r is Ok && final(self).root@ == j && (old(self).txn is Some ==> final(self).undo()->0
                        == old(self).undo()->0.push(set_entry(old(self).root@, path_segs(path@)))),
                    Err(e) => r == Err::<(), DbError>(path_error_kind(e)) && final(self).root@ == old(self).root@
                        && final(self).undo() == old(self).undo(),
                }
            },
    {
        match self.validate_path(path, &value) {
            Ok(()) => {},
            Err(e) => {
                return Err(e);
            },
        }
        let segs = segments_of(path);
        let entry = if self.txn.is_some() {
            let (d, prior) = undo_depth_in(&self.root, &segs, 0);
            proof {
                lemma_undo_depth_bound(self.root@, segs_from(segs@, 0));
            }
            let prefix = segs_prefix(&segs, d);
            proof {
                assert(segs_from(segs@, 0) =~= views(segs@));
            }
            Some((prefix, prior))
        } else {
            None
        };
        match set_value(&mut self.root, path, value) {
            Ok(()) => {
                if let Some(e) = entry {
                    self.log_undo(e);
                }
                Ok(())
            },
            Err(e) => Err(path_error(e)),
        }
    }

    /// Removes the entry at `path`. In an open transaction it first records the
    /// parent's value (the root's, for the empty path); a delete under a missing
    /// parent changes nothing and records nothing.
    pub fn delete(&mut self, path: &str)
        ensures
            final(self).root@ == delete_path(old(self).root@, path@),
            final(self).indexes == old(self).indexes,
            final(self).schemas == old(self).schemas,
            final(self).base_path == old(self).base_path,
            final(self).txn is Some == old(self).txn is Some,
            old(self).txn is Some ==> final(self).undo()->0 == match delete_entry(old(self).root@, path_segs(path@)) {
                Some(e) => old(self).undo()->0.push(e),
                None => old(self).undo()->0,
            },
    {
        let segs = segments_of(path);
        proof {
            assert(segs_from(segs@, 0) =~= views(segs@));
        }
        if self.txn.is_some() {
            if segs.len() == 0 {
                let whole = self.root.duplicate();
                self.log_undo((Vec::new(), Some(whole)));
                proof {
                    assert(views(Seq::<String>::empty()) =~= Seq::<Seq<char>>::empty());
                }
            } else {
                let parent = segs_prefix(&segs, segs.len() - 1);
                proof {
                    assert(segs_from(parent@, 0) =~= views(parent@));
                    assert(views(segs@).subrange(0, segs@.len() - 1) =~= views(segs@).drop_last());
                }
                match get_in(&self.root, &parent, 0) {
                    Some(x) => {
                        let px = x.duplicate();
                        self.log_undo((parent, Some(px)));
                    },
                    None => {},
                }
            }
        }
        delete_value(&mut self.root, path);
    }

    /// Appends `value` to the array at `path` unless an equal element is there.
    /// In an open transaction a successful push records the array it changed.
    pub fn push(&mut self, path: &str, value: Value) -> (r: Result<(), DbError>)
        ensures
            final(self).indexes == old(self).indexes,
            final(self).schemas == old(self).schemas,
            final(self).base_path == old(self).base_path,
            final(self).txn is Some == old(self).txn is Some,
            match push_path(old(self).root@, path@, value@) {
                Ok(j) => r is Ok && final(self).root@ == j && (old(self).txn is Some ==> final(self).undo()->0
                    == old(self).undo()->0.push((path_segs(path@), get_at(old(self).root@, path_segs(path@))))),
                Err(e) => r == Err::<(), DbError>(path_error_kind(e)) && final(self).root@ == old(self).root@
                    && final(self).undo() == old(self).undo(),
            },
    {
        let segs = segments_of(path);
        proof {
            assert(segs_from(segs@, 0) =~= views(segs@));
        }
        let entry = if self.txn.is_some() {
            let prior = match get_in(&self.root, &segs, 0) {
                Some(x) => Some(x.duplicate()),
                None => None,
            };
            let all = segs_prefix(&segs, segs.len());
            proof {
                assert(views(segs@).subrange(0, segs@.len() as int) =~= views(segs@));
            }
            Some((all, prior))
        } else {
            None
        };
        match push_value(&mut self.root, path, value) {
            Ok(()) => {
                if let Some(e) = entry {
                    self.log_undo(e);
                }
                Ok(())
            },
            Err(e) => Err(path_error(e)),
        }
    }

    /// Undoes `log`, newest record first.
    fn apply_undo_log(root: &mut Value, log: Vec<(Vec<String>, Option<Value>)>)
        ensures
            final(root)@ == undo_all(old(root)@, undo_view(log@)),
    {
        let ghost target = undo_all(root@, undo_view(log@));
        let mut log = log;
        while log.len() > 0
            invariant
                target == undo_all(root@, undo_view(log@)),
            decreases log@.len(),
        {
            let ghost l0 = undo_view(log@);
            let entry = log.pop().unwrap();
            proof {
                assert(undo_view(log@) =~= l0.drop_last());
            }
            let (segs, prior) = entry;
            proof {
                assert(segs_from(segs@, 0) =~= views(segs@));
            }
            match prior {
                Some(v) => {
                    if segs.len() == 0 {
                        *root = v;
                    } else {
                        let _ = crate::tree::set_in(root, &segs, 0, v);
                    }
                },
                None => {
                    if segs.len() > 0 {
                        crate::tree::delete_in(root, &segs, 0);
                    }
                },
            }
        }
        proof {
            assert(undo_view(log@) =~= Seq::<UndoEntry>::empty());
        }
        assert(root@ == target);
    }

    /// Opens a transaction.
    pub fn begin_transaction(&mut self) -> (r: Result<(), DbError>)
        ensures
            old(self).txn is Some <==> r is Err,
            old(self).txn is Some ==> r == Err::<(), DbError>(DbError::TransactionAlreadyActive) && *final(self) == *old(self),
            old(self).txn is None ==> final(self).undo() == Some(Seq::<UndoEntry>::empty())
                && final(self).txn->0.savepoints@.len() == 0 && final(self).root == old(self).root
                && final(self).indexes == old(self).indexes && final(self).schemas == old(self).schemas,
    {
        if self.txn.is_some() {
            return Err(DbError::TransactionAlreadyActive);
        }
        self.txn = Some(TransactionState { undo_log: Vec::new(), savepoints: Vec::new() });
        proof {
            assert(undo_view(self.txn->0.undo_log@) =~= Seq::<UndoEntry>::empty());
        }
        Ok(())
    }

    /// Closes the open transaction, keeping its changes.
    pub fn commit_transaction(&mut self) -> (r: Result<(), DbError>)
        ensures
            old(self).txn is None <==> r is Err,
            old(self).txn is None ==> r == Err::<(), DbError>(DbError::NoTransaction) && *final(self) == *old(self),
            old(self).txn is Some ==> final(self).txn is None && final(self).root == old(self).root
                && final(self).indexes == old(self).indexes && final(self).schemas == old(self).schemas,
    {
        if self.txn.is_none() {
            return Err(DbError::NoTransaction);
        }
        self.txn = None;
        Ok(())
    }

    /// Closes the open transaction, undoing every change it recorded.
    pub fn rollback_transaction(&mut self) -> (r: Result<(), DbError>)
        ensures
            old(self).txn is None <==> r is Err,
            old(self).txn is None ==> r == Err::<(), DbError>(DbError::NoTransaction) && *final(self) == *old(self),
            old(self).txn is Some ==> final(self).txn is None && final(self).root@ == undo_all(
                old(self).root@,
                old(self).undo()->0,
            ) && final(self).indexes == old(self).indexes && final(self).schemas == old(self).schemas,
    {
        let mut taken: Option<TransactionState> = None;
        std::mem::swap(&mut taken, &mut self.txn);
        match taken {
            None => Err(DbError::NoTransaction),
            Some(state) => {
                Self::apply_undo_log(&mut self.root, state.undo_log);
                Ok(())
            },
        }
    }

    /// Records the current length of the undo log under `name`, replacing an
    /// earlier savepoint of that name.
    pub fn create_savepoint(&mut self, name: String) -> (r: Result<(), DbError>)
        ensures
            old(self).txn is None <==> r is Err,
            old(self).txn is None ==> r == Err::<(), DbError>(DbError::NoTransaction) && *final(self) == *old(self),
            old(self).txn is Some ==> final(self).txn is Some && final(self).undo() == old(self).undo()
                && final(self).root == old(self).root && lookup(
                savepoint_view(final(self).txn->0.savepoints@),
                name@,
            ) == Some(old(self).txn->0.undo_log@.len()) && forall|n: Seq<char>|
                n != name@ ==> #[trigger] lookup(savepoint_view(final(self).txn->0.savepoints@), n) == lookup(
                    savepoint_view(old(self).txn->0.savepoints@),
                    n,
                ),
    {
        match &mut self.txn {
            None => Err(DbError::NoTransaction),
            Some(t) => {
                let len = t.undo_log.len();
                let ghost sv = savepoint_view(t.savepoints@);
                proof {
                    lemma_pos_facts(sv, name@);
                }
                match savepoint_find(&t.savepoints, &name) {
                    Some(i) => {
                        let ghost nm = name@;
                        t.savepoints.set(i, (name, len));
                        proof {
                            assert(savepoint_view(t.savepoints@) =~= sv.update(i as int, (sv[i as int].0, len as nat)));
                            assert forall|n: Seq<char>| #[trigger] lookup(savepoint_view(t.savepoints@), n) == if n == nm {
                                Some(len as nat)
                            } else {
                                lookup(sv, n)
                            } by {
                                crate::keyed::lemma_lookup_update(sv, i as int, len as nat, n);
                                lemma_pos_facts(sv, n);
                            }
                        }
                    },
                    None => {
                        let ghost nm = name@;
                        t.savepoints.push((name, len));
                        proof {
                            assert(savepoint_view(t.savepoints@) =~= sv.insert(sv.len() as int, (nm, len as nat)));
                            assert forall|n: Seq<char>| #[trigger] lookup(savepoint_view(t.savepoints@), n) == if n == nm {
                                Some(len as nat)
                            } else {
                                lookup(sv, n)
                            } by {
                                crate::keyed::lemma_lookup_insert(sv, sv.len() as int, nm, len as nat, n);
                            }
                        }
                    },
                }
                Ok(())
            },
        }
    }

    /// Undoes, newest first, the changes recorded since savepoint `name`, and drops
    /// them from the undo log; the transaction stays open.
    pub fn rollback_to_savepoint(&mut self, name: &String) -> (r: Result<(), DbError>)
        ensures
            old(self).txn is None ==> r == Err::<(), DbError>(DbError::NoTransaction) && *final(self) == *old(self),
            old(self).txn is Some && lookup(savepoint_view(old(self).txn->0.savepoints@), name@) is None
                ==> r == Err::<(), DbError>(DbError::UnknownSavepoint) && *final(self) == *old(self),
            old(self).txn is Some && lookup(savepoint_view(old(self).txn->0.savepoints@), name@) is Some ==> {
                let k = lookup(savepoint_view(old(self).txn->0.savepoints@), name@)->0 as int;
                let u = old(self).undo()->0;
                &&& r is Ok
                &&& final(self).txn is Some
                &&& final(self).txn->0.savepoints == old(self).txn->0.savepoints
                &&& k <= u.len() ==> final(self).undo()->0 == u.subrange(0, k) && final(self).root@ == undo_all(
                    old(self).root@,
                    u.subrange(k, u.len() as int),
                )
                &&& k > u.len() ==> final(self).undo() == old(self).undo() && final(self).root == old(self).root
            },
    {
        match &mut self.txn {
            None => Err(DbError::NoTransaction),
            Some(t) => {
                let ghost sv = savepoint_view(t.savepoints@);
                proof {
                    lemma_pos_facts(sv, name@);
                }
                match savepoint_find(&t.savepoints, name) {
                    None => Err(DbError::UnknownSavepoint),
                    Some(i) => {
                        let k = t.savepoints[i].1;
                        if k <= t.undo_log.len() {
                            let ghost u = undo_view(t.undo_log@);
                            let tail = t.undo_log.split_off(k);
                            proof {
                                assert(undo_view(t.undo_log@) =~= u.subrange(0, k as int));
                                assert(undo_view(tail@) =~= u.subrange(k as int, u.len() as int));
                            }
                            Self::apply_undo_log(&mut self.root, tail);
                        }
                        Ok(())
                    },
                }
            },
        }
    }

    fn index_find(&self, name: &String) -> (r: Option<usize>)
        ensures
            match r {
                Some(i) => i as int == pos_of(self.index_view(), name@) && i < self.indexes@.len(),
                None => pos_of(self.index_view(), name@) == -1,
            },
    {
        let mut i: usize = 0;
        while i < self.indexes.len()
            invariant
                0 <= i <= self.indexes@.len(),
                forall|j: int| 0 <= j < i ==> (#[trigger] self.index_view()[j]).0 != name@,
            decreases self.indexes@.len() - i,
        {
            if self.indexes[i].0 == *name {
                proof {
                    lemma_pos_is(self.index_view(), name@, i as int);
                }
                return Some(i);
            }
            i = i + 1;
        }
        proof {
            lemma_pos_is(self.index_view(), name@, -1);
        }
        None
    }

    /// Registers index `name` over `field`, unless one of that name exists. Its
    /// contents are rebuilt from `stored`, the buckets read back from its file.
    pub fn register_index(&mut self, name: String, field: String, stored: Option<Vec<(String, Vec<String>)>>)
        requires
            old(self).wf(),
        ensures
            final(self).wf(),
            final(self).root == old(self).root,
            final(self).schemas == old(self).schemas,
            lookup(final(self).index_view(), name@) is Some,
            pos_of(old(self).index_view(), name@) >= 0 ==> final(self).indexes == old(self).indexes,
            pos_of(old(self).index_view(), name@) == -1 ==> final(self).indexes@ == old(self).indexes@.push(
                (name, final(self).indexes@.last().1),
            ) && final(self).indexes@.last().1.field@ == field@ && !final(self).indexes@.last().1.dirty && (
            stored is None ==> final(self).indexes@.last().1.fwd().len() == 0) && (stored is Some ==> (forall|p: Seq<char>|
                #[trigger] final(self).indexes@.last().1.key_of(p) == last_key(stored_pairs(stored->0@), p))
                && forall|k: Seq<char>|
                #[trigger] final(self).indexes@.last().1.bucket(k) == rebuilt_bucket(stored_pairs(stored->0@), k)),
    {
        proof {
            lemma_pos_facts(self.index_view(), name@);
        }
        if self.index_find(&name).is_some() {
            return;
        }
        let mut idx = BTreeIndex::new(name.clone(), field, self.base_path.as_str());
        if let Some(buckets) = &stored {
            idx.restore(buckets);
        }
        let ghost v0 = self.index_view();
        self.indexes.push((name, idx));
        proof {
            assert(self.index_view() =~= v0.insert(v0.len() as int, (self.indexes@.last().0@, self.indexes@.last().1)));
            crate::keyed::lemma_lookup_insert(v0, v0.len() as int, self.indexes@.last().0@, self.indexes@.last().1, self.indexes@.last().0@);
        }
    }

    /// Indexes `path` under `key` in index `name` (or drops it, for a delete); no
    /// effect where no index has that name.
    pub fn update_index(&mut self, name: &String, key: &Value, path: String, is_delete: bool)
        requires
            old(self).wf(),
        ensures
            final(self).wf(),
            final(self).root == old(self).root,
            final(self).schemas == old(self).schemas,
            final(self).indexes@.len() == old(self).indexes@.len(),
            pos_of(old(self).index_view(), name@) == -1 ==> final(self).indexes == old(self).indexes,
            pos_of(old(self).index_view(), name@) >= 0 ==> {
                let i = pos_of(old(self).index_view(), name@);
                &&& final(self).indexes@[i].0 == old(self).indexes@[i].0
                &&& is_delete ==> final(self).indexes@[i].1.key_of(path@) is None
                &&& !is_delete ==> final(self).indexes@[i].1.key_of(path@) == Some(canonical(key@))
                &&& forall|p: Seq<char>| p != path@ ==> #[trigger] final(self).indexes@[i].1.key_of(p)
                    == old(self).indexes@[i].1.key_of(p)
                &&& forall|j: int| 0 <= j < old(self).indexes@.len() && j != i ==> #[trigger] final(self).indexes@[j]
                    == old(self).indexes@[j]
            },
    {
        match self.index_find(name) {
            None => {},
            Some(i) => {
                let mut idx = BTreeIndex::new(String::new(), String::new(), "");
                std::mem::swap(&mut idx, &mut self.indexes[i].1);
                proof {
                    assert(old(self).indexes@[i as int].1.wf());
                }
                if is_delete {
                    idx.remove(key, path.as_str());
                } else {
                    idx.insert(key, path);
                }
                std::mem::swap(&mut idx, &mut self.indexes[i].1);
                proof {
                    assert forall|j: int| 0 <= j < self.indexes@.len() implies (#[trigger] self.indexes@[j]).1.wf() by {
                        if j != i {
                            assert(self.indexes@[j] == old(self).indexes@[j]);
                        }
                    }
                }
            },
        }
    }

    /// The doc-paths that index `name` holds under `key`; none where there is no
    /// such index or bucket.
    pub fn find_index_paths(&self, name: &String, key: &Value) -> (r: Vec<String>)
        ensures
            views(r@) == match lookup(self.index_view(), name@) {
                Some(idx) => idx.bucket(canonical(key@)),
                None => Seq::empty(),
            },
    {
        proof {
            lemma_pos_facts(self.index_view(), name@);
        }
        match self.index_find(name) {
            None => {
                let r: Vec<String> = Vec::new();
                assert(views(r@) =~= Seq::<Seq<char>>::empty());
                r
            },
            Some(i) => {
                match self.indexes[i].1.find(key) {
                    Some(docs) => {
                        let mut out: Vec<String> = Vec::new();
                        let mut t: usize = 0;
                        while t < docs.len()
                            invariant
                                0 <= t <= docs@.len(),
                                views(out@) == views(docs@).subrange(0, t as int),
                            decreases docs@.len() - t,
                        {
                            let ghost prev = views(out@);
                            out.push(docs[t].clone());
                            proof {
                                assert(views(out@) =~= prev.push(docs@[t as int]@));
                                assert(views(docs@).subrange(0, t as int + 1) =~= views(docs@).subrange(0, t as int).push(docs@[t as int]@));
                            }
                            t = t + 1;
                        }
                        proof {
                            assert(views(docs@).subrange(0, docs@.len() as int) =~= views(docs@));
                        }
                        out
                    },
                    None => {
                        let r: Vec<String> = Vec::new();
                        assert(views(r@) =~= Seq::<Seq<char>>::empty());
                        r
                    },
                }
            },
        }
    }

    /// Empties index `name`, if there is one.
    pub fn clear_index(&mut self, name: &String)
        requires
            old(self).wf(),
        ensures
            final(self).wf(),
            final(self).root == old(self).root,
            final(self).indexes@.len() == old(self).indexes@.len(),
            pos_of(old(self).index_view(), name@) >= 0 ==> final(self).indexes@[pos_of(old(self).index_view(), name@)].1.fwd().len() == 0,
            pos_of(old(self).index_view(), name@) == -1 ==> final(self).indexes == old(self).indexes,
    {
        match self.index_find(name) {
            None => {},
            Some(i) => {
                let mut idx = BTreeIndex::new(String::new(), String::new(), "");
                std::mem::swap(&mut idx, &mut self.indexes[i].1);
                idx.clear();
                std::mem::swap(&mut idx, &mut self.indexes[i].1);
                proof {
                    assert forall|j: int| 0 <= j < self.indexes@.len() implies (#[trigger] self.indexes@[j]).1.wf() by {
                        if j != i {
                            assert(self.indexes@[j] == old(self).indexes@[j]);
                        }
                    }
                }
            },
        }
    }

    /// Binds `schema` to the path prefix `path`, replacing an earlier binding.
    pub fn register_schema(&mut self, path: String, schema: Schema)
        ensures
            final(self).root == old(self).root,
            final(self).indexes == old(self).indexes,
            final(self).txn == old(self).txn,
            lookup(final(self).schema_view(), path@) == Some(schema),
            forall|p: Seq<char>| p != path@ ==> #[trigger] lookup(final(self).schema_view(), p) == lookup(
                old(self).schema_view(),
                p,
            ),
    {
        let ghost v0 = self.schema_view();
        let ghost pv = path@;
        let ghost sc = schema;
        proof {
            lemma_pos_facts(v0, pv);
        }
        match self.schema_find(&path) {
            Some(i) => {
                self.schemas.set(i, (path, schema));
                proof {
                    assert(self.schema_view() =~= v0.update(i as int, (v0[i as int].0, sc)));
                    assert forall|p: Seq<char>| #[trigger] lookup(self.schema_view(), p) == if p == pv { Some(sc) } else { lookup(v0, p) } by {
                        crate::keyed::lemma_lookup_update(v0, i as int, sc, p);
                        lemma_pos_facts(v0, p);
                    }
                }
            },
            None => {
                self.schemas.push((path, schema));
                proof {
                    assert(self.schema_view() =~= v0.insert(v0.len() as int, (pv, sc)));
                    assert forall|p: Seq<char>| #[trigger] lookup(self.schema_view(), p) == if p == pv { Some(sc) } else { lookup(v0, p) } by {
                        crate::keyed::lemma_lookup_insert(v0, v0.len() as int, pv, sc, p);
                    }
                }
            },
        }
    }

    fn collection_node(&self, path: &str) -> (r: Option<&Value>)
        ensures
            match get_at(self.root@, path_segs(path@)) {
                Some(j) => r is Some && r->0@ == j,
                None => r is None,
            },
    {
        let segs = crate::tree::segments_of(path);
        get_in(&self.root, &segs, 0)
    }

    /// The items of the collection at `path` that meet every filter, in collection
    /// order; none where `path` holds no object or array.
    pub fn parallel_query(&self, path: &str, filters: &Vec<QueryFilter>) -> (r: Vec<Value>)
        ensures
            arr_view(r@) == match get_at(self.root@, path_segs(path@)) {
                Some(node) => match collection_of(node) {
                    Some(items) => select(items, filters@),
                    None => Seq::empty(),
                },
                None => Seq::<Json>::empty(),
            },
    {
        let mut prepared: Vec<PreparedFilter> = Vec::new();
        let mut i: usize = 0;
        while i < filters.len()
            invariant
                0 <= i <= filters@.len(),
                prepared@.len() == i,
                all_wf(prepared@),
                forall|j: int| 0 <= j < i ==> (#[trigger] prepared@[j]).field@ == filters@[j].field@
                    && prepared@[j].op == op_of(filters@[j].op@) && prepared@[j].value@ == filters@[j].value@,
            decreases filters@.len() - i,
        {
            prepared.push(PreparedFilter::from_query_filter(&filters[i]));
            i = i + 1;
        }
        match self.collection_node(path) {
            Some(node) => {
                let r = filter_collection(node, &prepared);
                proof {
                    if let Some(items) = collection_of(node@) {
                        lemma_select_prepared(items, filters@, prepared@);
                    }
                }
                r
            },
            None => {
                let r: Vec<Value> = Vec::new();
                assert(arr_view(r@) =~= Seq::<Json>::empty());
                r
            },
        }
    }

    /// The items of the collection at `path`, copied; none where it holds no object
    /// or array.
    pub fn collection(&self, path: &str) -> (r: Option<Vec<Value>>)
        ensures
            match get_at(self.root@, path_segs(path@)) {
                Some(node) => match collection_of(node) {
                    Some(items) => r is Some && arr_view(r->0@) == items,
                    None => r is None,
                },
                None => r is None,
            },
    {
        match self.collection_node(path) {
            Some(node) => collection_items(node),
            None => None,
        }
    }

    /// The numbers at `field` of the items of the collection at `path`, which sum,
    /// average, minimum and maximum are taken over; none where `path` holds no
    /// collection.
    pub fn aggregate_inputs(&self, path: &str, field: &str) -> (r: Option<Vec<Value>>)
        ensures
            match get_at(self.root@, path_segs(path@)) {
                Some(node) => match collection_of(node) {
                    Some(items) => r is Some && arr_view(r->0@) == numbers_of(items, field@),
                    None => r is None,
                },
                None => r is None,
            },
    {
        match self.collection(path) {
            Some(items) => Some(numeric_values(&items, field)),
            None => None,
        }
    }

    /// Left outer join of the collection at `left_path` with the one at
    /// `right_path` on `left_field` = `right_field`, each left item getting its
    /// matches under `as_field`.
    pub fn parallel_lookup(
        &self,
        left_path: &str,
        right_path: &str,
        left_field: &str,
        right_field: &str,
        as_field: &String,
    ) -> (r: Result<Vec<Value>, DbError>)
        ensures
            match (
                match get_at(self.root@, path_segs(left_path@)) {
                    Some(n) => collection_of(n),
                    None => None,
                },
                match get_at(self.root@, path_segs(right_path@)) {
                    Some(n) => collection_of(n),
                    None => None,
                },
            ) {
                (Some(ls), Some(rs)) => r is Ok && r->Ok_0@.len() == ls.len() && forall|i: int|
                    0 <= i < ls.len() ==> (#[trigger] r->Ok_0@[i])@ == joined(
                        ls[i],
                        rs,
                        left_field@,
                        right_field@,
                        as_field@,
                    ),
                _ => r == Err::<Vec<Value>, DbError>(DbError::InvalidPath),
            },
    {
        let lefts = match self.collection(left_path) {
            Some(l) => l,
            None => {
                return Err(DbError::InvalidPath);
            },
        };
        let rights = match self.collection(right_path) {
            Some(x) => x,
            None => {
                return Err(DbError::InvalidPath);
            },
        };
        let out = lookup_join(&lefts, &rights, left_field, right_field, as_field);
        proof {
            assert forall|i: int| 0 <= i < lefts@.len() implies lefts@[i]@ == arr_view(lefts@)[i] by {}
        }
        Ok(out)
    }

    /// Writes each `(path, value)` in order, without schema checks or undo records,
    /// and counts the writes that succeeded. When `parallel` holds, an empty path
    /// anywhere in the batch rejects it whole before any write.
    pub fn batch_set_parallel(&mut self, operations: Vec<(String, Value)>, parallel: bool) -> (r: ParallelResult)
        requires
            operations@.len() <= u32::MAX,
        ensures
            final(self).indexes == old(self).indexes,
            final(self).schemas == old(self).schemas,
            final(self).txn == old(self).txn,
            (parallel && exists|i: int| 0 <= i < operations@.len() && (#[trigger] operations@[i]).0@.len() == 0)
                ==> !r.success && r.count == 0 && r.error is Some && final(self).root == old(self).root,
            !(parallel && exists|i: int| 0 <= i < operations@.len() && (#[trigger] operations@[i]).0@.len() == 0)
                ==> r.success && r.error is None && final(self).root@ == batch_result(old(self).root@, batch_view(operations@)).0
                && r.count as int == batch_result(old(self).root@, batch_view(operations@)).1,
    {
        if parallel {
            let mut i: usize = 0;
            while i < operations.len()
                invariant
                    parallel,
                    0 <= i <= operations@.len(),
                    forall|j: int| 0 <= j < i ==> (#[trigger] operations@[j]).0@.len() != 0,
                decreases operations@.len() - i,
            {
                if operations[i].0.as_str().unicode_len() == 0 {
                    assert(operations@[i as int].0@.len() == 0);
                    return ParallelResult {
                        success: false,
                        count: 0,
                        error: Some(String::from_str("Invalid path in batch")),
                    };
                }
                i = i + 1;
            }
        }
        let ghost ops = batch_view(operations@);
        let ghost r0 = self.root@;
        let mut count: u32 = 0;
        let mut i: usize = 0;
        while i < operations.len()
            invariant
                ops == batch_view(operations@),
                operations@.len() <= u32::MAX,
                0 <= i <= operations@.len(),
                count <= i,
                self.root@ == batch_result(r0, ops.subrange(0, i as int)).0,
                count as int == batch_result(r0, ops.subrange(0, i as int)).1,
                self.indexes == old(self).indexes,
                self.schemas == old(self).schemas,
                self.txn == old(self).txn,
            decreases operations@.len() - i,
        {
            proof {
                assert(ops.subrange(0, i as int + 1).drop_last() =~= ops.subrange(0, i as int));
            }
            let value = operations[i].1.duplicate();
            if set_value(&mut self.root, operations[i].0.as_str(), value).is_ok() {
                count = count + 1;
            }
            i = i + 1;
        }
        proof {
            assert(ops.subrange(0, operations@.len() as int) =~= ops);
        }
        ParallelResult { success: true, count, error: None }
    }
}

} // verus!
