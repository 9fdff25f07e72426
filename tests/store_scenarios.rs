use native_db::query::QueryFilter;
use native_db::schema::{Schema, SchemaType, ValidationError};
use native_db::store::{DbError, Store};
use native_db::text::to_json_text;
use native_db::value::Value;

fn s(t: &str) -> String {
    t.to_string()
}

fn obj(entries: Vec<(&str, Value)>) -> Value {
    Value::Object(entries.into_iter().map(|(k, v)| (k.to_string(), v)).collect())
}

fn text(v: &Value) -> String {
    to_json_text(v)
}

fn fresh() -> Store {
    Store::new(s("/tmp/db.json"), Value::Object(Vec::new()))
}

fn plain_schema(t: SchemaType) -> Schema {
    Schema {
        schema_type: t,
        properties: None,
        required: None,
        min_length: None,
        max_length: None,
        pattern: None,
        minimum: None,
        maximum: None,
        exclusive_minimum: None,
        exclusive_maximum: None,
        items: None,
        min_items: None,
        max_items: None,
        unique_items: None,
        enum_values: None,
    }
}

#[test]
fn nested_set_creates_objects() {
    let mut db = fresh();
    assert!(db.set("a.b.c", Value::Int(1)).is_ok());
    assert_eq!(text(&db.get("a")), "{\"b\":{\"c\":1}}");
    assert_eq!(text(&db.get("a.b.c")), "1");
}

#[test]
fn set_indices_pads_with_nulls() {
    let mut db = fresh();
    assert!(db.set("xs.0", Value::Str(s("x"))).is_ok());
    assert!(db.set("xs.2", Value::Str(s("z"))).is_ok());
    assert_eq!(text(&db.get("xs")), "[\"x\",null,\"z\"]");
}

#[test]
fn push_skips_equal_element() {
    let mut db = fresh();
    assert!(db.set("xs.0", Value::Str(s("x"))).is_ok());
    assert!(db.set("xs.2", Value::Str(s("z"))).is_ok());
    assert!(db.push("xs", Value::Str(s("x"))).is_ok());
    assert_eq!(text(&db.get("xs")), "[\"x\",null,\"z\"]");
    assert!(db.push("xs", Value::Str(s("y"))).is_ok());
    assert_eq!(text(&db.get("xs")), "[\"x\",null,\"z\",\"y\"]");
}

#[test]
fn push_to_missing_path_fails() {
    let mut db = fresh();
    assert!(matches!(db.push("nope", Value::Int(1)), Err(DbError::InvalidPath)));
    assert!(db.set("n", Value::Int(3)).is_ok());
    assert!(matches!(db.push("n", Value::Int(1)), Err(DbError::TypeError)));
}

#[test]
fn set_empty_path_replaces_root() {
    let mut db = fresh();
    assert!(db.set("a", Value::Int(1)).is_ok());
    assert!(db.set("", Value::Array(vec![Value::Bool(true)])).is_ok());
    assert_eq!(text(&db.get("")), "[true]");
}

#[test]
fn delete_empty_path_resets_root() {
    let mut db = fresh();
    assert!(db.set("a", Value::Int(1)).is_ok());
    db.delete("");
    assert_eq!(text(&db.get("")), "{}");
}

#[test]
fn delete_array_element_shifts() {
    let mut db = fresh();
    assert!(db.set("xs", Value::Array(vec![Value::Int(1), Value::Int(2), Value::Int(3)])).is_ok());
    db.delete("xs.0");
    assert_eq!(text(&db.get("xs")), "[2,3]");
    assert!(db.set("xs.0", Value::Null).is_ok());
    assert_eq!(text(&db.get("xs")), "[null,3]");
    assert!(db.has("xs.1"));
    assert!(!db.has("xs.5"));
}

#[test]
fn set_through_primitive_fails() {
    let mut db = fresh();
    assert!(db.set("a", Value::Int(5)).is_ok());
    assert!(matches!(db.set("a.b", Value::Int(1)), Err(DbError::TypeError)));
    assert!(db.set("l", Value::Array(Vec::new())).is_ok());
    assert!(matches!(db.set("l.k", Value::Int(1)), Err(DbError::InvalidPath)));
    assert_eq!(text(&db.get("")), "{\"a\":5,\"l\":[]}");
}

#[test]
fn schema_min_length_rejects() {
    let mut db = fresh();
    let mut name_schema = plain_schema(SchemaType::String);
    name_schema.min_length = Some(1);
    let mut user = plain_schema(SchemaType::Object);
    user.required = Some(vec![s("name")]);
    user.properties = Some(vec![(s("name"), name_schema)]);
    db.register_schema(s("u"), user);
    let r = db.set("u", obj(vec![("name", Value::Str(s("")))]));
    match r {
        Err(DbError::Schema { prefix, error }) => {
            assert_eq!(prefix, "u");
            match error {
                ValidationError::PropertyError(p, inner) => {
                    assert_eq!(p, "name");
                    assert!(matches!(*inner, ValidationError::MinLength(1)));
                },
                other => panic!("unexpected {:?}", other),
            }
        },
        _ => panic!("expected a schema error"),
    }
    assert_eq!(text(&db.get("")), "{}");
    assert!(db.set("u", obj(vec![("name", Value::Str(s("ann")))])).is_ok());
    assert!(matches!(db.set("u", obj(vec![])), Err(DbError::Schema { .. })));
    assert!(matches!(db.set("u.name", Value::Int(3)), Err(DbError::Schema { .. })));
}

#[test]
fn savepoint_rollback_scenario() {
    let mut db = fresh();
    assert!(db.begin_transaction().is_ok());
    assert!(db.set("k", Value::Int(1)).is_ok());
    assert!(db.set("k", Value::Int(2)).is_ok());
    assert!(db.create_savepoint(s("sp")).is_ok());
    assert!(db.set("k", Value::Int(3)).is_ok());
    assert!(db.rollback_to_savepoint(&s("sp")).is_ok());
    assert_eq!(text(&db.get("k")), "2");
    assert!(db.rollback_transaction().is_ok());
    assert_eq!(text(&db.get("k")), "null");
}

#[test]
fn transaction_errors() {
    let mut db = fresh();
    assert!(matches!(db.commit_transaction(), Err(DbError::NoTransaction)));
    assert!(matches!(db.rollback_transaction(), Err(DbError::NoTransaction)));
    assert!(matches!(db.create_savepoint(s("a")), Err(DbError::NoTransaction)));
    assert!(db.begin_transaction().is_ok());
    assert!(matches!(db.begin_transaction(), Err(DbError::TransactionAlreadyActive)));
    assert!(matches!(db.rollback_to_savepoint(&s("none")), Err(DbError::UnknownSavepoint)));
    assert!(db.set("x", Value::Int(1)).is_ok());
    assert!(db.commit_transaction().is_ok());
    assert_eq!(text(&db.get("x")), "1");
}

#[test]
fn rollback_restores_overwritten_values() {
    let mut db = fresh();
    assert!(db.set("a", obj(vec![("b", Value::Int(1)), ("c", Value::Int(2))])).is_ok());
    let before = text(&db.get(""));
    assert!(db.begin_transaction().is_ok());
    assert!(db.set("a.b", Value::Int(10)).is_ok());
    assert!(db.set("a.c", Value::Str(s("t"))).is_ok());
    assert!(db.set("a", Value::Null).is_ok());
    assert!(db.rollback_transaction().is_ok());
    assert_eq!(text(&db.get("")), before);
}

#[test]
fn index_moves_doc_between_keys() {
    let mut db = fresh();
    db.register_index(s("by_age"), s("age"), None);
    db.update_index(&s("by_age"), &Value::Int(30), s("users.alice"), false);
    db.update_index(&s("by_age"), &Value::Int(31), s("users.alice"), false);
    assert_eq!(db.find_index_paths(&s("by_age"), &Value::Int(31)), vec![s("users.alice")]);
    assert!(db.find_index_paths(&s("by_age"), &Value::Int(30)).is_empty());
    db.update_index(&s("by_age"), &Value::Int(31), s("users.alice"), true);
    assert!(db.find_index_paths(&s("by_age"), &Value::Int(31)).is_empty());
    assert!(db.find_index_paths(&s("missing"), &Value::Int(31)).is_empty());
}

#[test]
fn index_restored_from_stored_buckets_keeps_order() {
    let mut db = fresh();
    let stored = vec![(s("x"), vec![s("d2"), s("d1")]), (s("y"), vec![s("d3"), s("d1")])];
    db.register_index(s("ix"), s("f"), Some(stored));
    assert_eq!(db.find_index_paths(&s("ix"), &Value::Str(s("x"))), vec![s("d2")]);
    assert_eq!(db.find_index_paths(&s("ix"), &Value::Str(s("y"))), vec![s("d3"), s("d1")]);
    assert!(!db.indexes[0].1.dirty);
}

#[test]
fn index_restored_from_stored_buckets() {
    let mut db = fresh();
    let stored = vec![(s("a"), vec![s("d1"), s("d2")]), (s("b"), vec![s("d3")])];
    db.register_index(s("ix"), s("f"), Some(stored));
    assert_eq!(db.find_index_paths(&s("ix"), &Value::Str(s("a"))), vec![s("d1"), s("d2")]);
    db.clear_index(&s("ix"));
    assert!(db.find_index_paths(&s("ix"), &Value::Str(s("a"))).is_empty());
}

fn people() -> Store {
    let mut db = fresh();
    let users = vec![
        obj(vec![("name", Value::Str(s("ann"))), ("age", Value::Int(30)), ("tags", Value::Array(vec![Value::Str(s("a")), Value::Str(s("b"))]))]),
        obj(vec![("name", Value::Str(s("bob"))), ("age", Value::Int(17)), ("tags", Value::Array(vec![Value::Str(s("c"))]))]),
        obj(vec![("name", Value::Str(s("cyd"))), ("age", Value::Int(45))]),
    ];
    assert!(db.set("users", Value::Array(users)).is_ok());
    db
}

fn filter(field: &str, op: &str, value: Value) -> QueryFilter {
    QueryFilter { field: s(field), op: s(op), value }
}

fn names(items: &[Value]) -> Vec<String> {
    items.iter().map(|v| match v {
        Value::Object(m) => match &m.iter().find(|(k, _)| k == "name").unwrap().1 {
            Value::Str(n) => n.clone(),
            _ => String::new(),
        },
        _ => String::new(),
    }).collect()
}

#[test]
fn query_comparisons() {
    let db = people();
    assert_eq!(names(&db.parallel_query("users", &vec![filter("age", "gte", Value::Int(30))])), vec!["ann", "cyd"]);
    assert_eq!(names(&db.parallel_query("users", &vec![filter("age", "lt", Value::Int(30))])), vec!["bob"]);
    assert_eq!(names(&db.parallel_query("users", &vec![filter("name", "eq", Value::Str(s("bob")))])), vec!["bob"]);
    assert_eq!(names(&db.parallel_query("users", &vec![filter("name", "ne", Value::Str(s("bob")))])), vec!["ann", "cyd"]);
    assert_eq!(names(&db.parallel_query("users", &vec![filter("age", "gt", Value::Str(s("x")))])).len(), 0);
    assert_eq!(db.parallel_query("nothing", &vec![]).len(), 0);
    assert_eq!(names(&db.parallel_query("users", &vec![filter("age", "unknown", Value::Null)])).len(), 3);
}

#[test]
fn query_text_and_sets() {
    let db = people();
    assert_eq!(names(&db.parallel_query("users", &vec![filter("name", "contains", Value::Str(s("o")))])), vec!["bob"]);
    assert_eq!(names(&db.parallel_query("users", &vec![filter("name", "startswith", Value::Str(s("c")))])), vec!["cyd"]);
    assert_eq!(names(&db.parallel_query("users", &vec![filter("name", "endswith", Value::Str(s("n")))])), vec!["ann"]);
    assert_eq!(names(&db.parallel_query("users", &vec![filter("name", "regex", Value::Str(s("^[ab]")))])), vec!["ann", "bob"]);
    assert_eq!(names(&db.parallel_query("users", &vec![filter("name", "regex", Value::Str(s("(")))])).len(), 0);
    let ages = Value::Array(vec![Value::Int(17), Value::Int(45)]);
    assert_eq!(names(&db.parallel_query("users", &vec![filter("age", "in", ages.duplicate())])), vec!["bob", "cyd"]);
    assert_eq!(names(&db.parallel_query("users", &vec![filter("age", "notin", ages)])), vec!["ann"]);
    let ab = Value::Array(vec![Value::Str(s("a")), Value::Str(s("b"))]);
    assert_eq!(names(&db.parallel_query("users", &vec![filter("tags", "containsAll", ab.duplicate())])), vec!["ann"]);
    let bc = Value::Array(vec![Value::Str(s("b")), Value::Str(s("c"))]);
    assert_eq!(names(&db.parallel_query("users", &vec![filter("tags", "containsAny", bc)])), vec!["ann", "bob"]);
    assert_eq!(
        names(&db.parallel_query("users", &vec![filter("age", "gt", Value::Int(10)), filter("name", "contains", Value::Str(s("y")))])),
        vec!["cyd"]
    );
}

#[test]
fn query_chunks_match_whole_scan() {
    let mut db = fresh();
    let items: Vec<Value> = (0..250).map(|i| obj(vec![("n", Value::Int(i))])).collect();
    assert!(db.set("c", Value::Array(items)).is_ok());
    let filters = vec![filter("n", "gte", Value::Int(100))];
    let whole = db.parallel_query("c", &filters);
    let mut joined: Vec<String> = Vec::new();
    for start in [0usize, 100, 200] {
        let mut part = fresh();
        let chunk: Vec<Value> = (start..(start + 100).min(250)).map(|i| obj(vec![("n", Value::Int(i as i128))])).collect();
        assert!(part.set("c", Value::Array(chunk)).is_ok());
        joined.extend(part.parallel_query("c", &filters).iter().map(|v| text(v)));
    }
    let whole_text: Vec<String> = whole.iter().map(|v| text(v)).collect();
    assert_eq!(whole_text.len(), 150);
    assert_eq!(whole_text, joined);
}

#[test]
fn query_over_object_values() {
    let mut db = fresh();
    assert!(db.set("m.x", obj(vec![("v", Value::Int(1))])).is_ok());
    assert!(db.set("m.y", obj(vec![("v", Value::Int(2))])).is_ok());
    let r = db.parallel_query("m", &vec![filter("v", "eq", Value::Int(2))]);
    assert_eq!(r.len(), 1);
    assert_eq!(text(&r[0]), "{\"v\":2}");
}

#[test]
fn lookup_joins_on_canonical_key() {
    let mut db = fresh();
    assert!(db.set("orders", Value::Array(vec![
        obj(vec![("uid", Value::Int(1)), ("item", Value::Str(s("pen")))]),
        obj(vec![("uid", Value::Int(2)), ("item", Value::Str(s("ink")))]),
        obj(vec![("uid", Value::Str(s("1"))), ("item", Value::Str(s("cap")))]),
    ])).is_ok());
    assert!(db.set("users", Value::Array(vec![
        obj(vec![("id", Value::Int(1))]),
        obj(vec![("id", Value::Int(3))]),
        Value::Int(9),
    ])).is_ok());
    let r = match db.parallel_lookup("users", "orders", "id", "uid", &s("orders")) {
        Ok(r) => r,
        Err(_) => panic!("lookup failed"),
    };
    assert_eq!(r.len(), 3);
    assert_eq!(
        text(&r[0]),
        "{\"id\":1,\"orders\":[{\"item\":\"pen\",\"uid\":1},{\"item\":\"cap\",\"uid\":\"1\"}]}"
    );
    assert_eq!(text(&r[1]), "{\"id\":3,\"orders\":[]}");
    assert_eq!(text(&r[2]), "9");
    assert!(matches!(db.parallel_lookup("users", "none", "id", "uid", &s("o")), Err(DbError::InvalidPath)));
}

#[test]
fn aggregate_inputs_skip_non_numbers() {
    let mut db = fresh();
    assert!(db.set("v", Value::Array(vec![
        obj(vec![("p", Value::Int(3))]),
        obj(vec![("p", Value::Str(s("x")))]),
        obj(vec![("p", Value::Float(s("2.5")))]),
        obj(vec![]),
    ])).is_ok());
    let nums = db.aggregate_inputs("v", "p").unwrap();
    assert_eq!(nums.iter().map(|v| text(v)).collect::<Vec<_>>(), vec!["3", "2.5"]);
    assert_eq!(db.collection("v").unwrap().len(), 4);
    assert!(db.aggregate_inputs("none", "p").is_none());
    assert!(db.set("w", Value::Array(vec![Value::Int(4), Value::Bool(true)])).is_ok());
    assert_eq!(db.aggregate_inputs("w", "").unwrap().len(), 1);
}

#[test]
fn batch_set_counts_successes() {
    let mut db = fresh();
    let ops = vec![(s("a"), Value::Int(1)), (s("a.b"), Value::Int(2)), (s("c.0"), Value::Int(3))];
    let r = db.batch_set_parallel(ops, false);
    assert!(r.success);
    assert_eq!(r.count, 2);
    assert_eq!(text(&db.get("")), "{\"a\":1,\"c\":[3]}");
    let bad = vec![(s("x"), Value::Int(1)), (s(""), Value::Int(2))];
    let r = db.batch_set_parallel(bad, true);
    assert!(!r.success);
    assert_eq!(r.count, 0);
    assert!(r.error.is_some());
    assert!(!db.has("x"));
}

#[test]
fn validate_path_uses_nearest_prefix() {
    let mut db = fresh();
    db.register_schema(s("cfg"), plain_schema(SchemaType::Object));
    db.register_schema(s("cfg.port"), plain_schema(SchemaType::Number));
    assert!(db.validate_path("cfg.port", &Value::Int(80)).is_ok());
    assert!(db.validate_path("cfg.port", &Value::Str(s("80"))).is_err());
    assert!(db.validate_path("cfg.other.deep", &Value::Int(1)).is_err());
    assert!(db.validate_path("cfg.other.deep", &obj(vec![])).is_ok());
    assert!(db.validate_path("free", &Value::Int(1)).is_ok());
}

#[test]
fn write_through_null_makes_array() {
    let mut db = fresh();
    assert!(db.set("a", Value::Null).is_ok());
    assert!(db.set("a.0.x", Value::Int(1)).is_ok());
    assert_eq!(text(&db.get("")), "{\"a\":[{\"x\":1}]}");
}

#[test]
fn rollback_removes_created_containers() {
    let mut db = fresh();
    assert!(db.begin_transaction().is_ok());
    assert!(db.set("a.b.c", Value::Int(1)).is_ok());
    assert!(db.rollback_transaction().is_ok());
    assert_eq!(text(&db.get("")), "{}");
}

#[test]
fn rollback_undoes_mixed_changes() {
    let mut db = fresh();
    assert!(db.set("o", obj(vec![("p", Value::Int(1)), ("q", Value::Int(2))])).is_ok());
    assert!(db.set("l", Value::Array(vec![Value::Int(1)])).is_ok());
    assert!(db.set("n", Value::Null).is_ok());
    let before = text(&db.get(""));
    assert!(db.begin_transaction().is_ok());
    db.delete("o.p");
    assert!(db.push("l", Value::Int(2)).is_ok());
    assert!(db.set("l.4", Value::Int(9)).is_ok());
    assert!(db.set("n.0.k", Value::Bool(true)).is_ok());
    db.delete("missing.x");
    db.delete("");
    assert!(db.set("z", Value::Int(0)).is_ok());
    assert!(db.rollback_transaction().is_ok());
    assert_eq!(text(&db.get("")), before);
}
