use native_db::pattern::{text_contains, text_ends_with, text_starts_with};
use native_db::btree::BTreeIndex;
use native_db::config::{DBOptions, ThreadPoolConfig};
use native_db::lock::{lock_file_path, lock_file_text, lock_step, parse_pid, LockAction, LockEvent, LockMode, LockStage};
use native_db::schema::{validate, Schema, SchemaType, ValidationError};
use native_db::text::{canonical_key, to_json_text};
use native_db::tree::{set_value, get_value};
use native_db::value::{values_equal, Value};
use native_db::wal::{
    apply_legacy_entry, apply_wal_op, decode_log, replay_records, encode_batch, DurabilityMode, LogWriter, WalConfig,
    WalOp, WalOpType, WriterEvent,
};

fn s(t: &str) -> String {
    t.to_string()
}

fn plain_schema(t: SchemaType) -> Schema {
    Schema {
        schema_type: t,
        properties: None,
        required: None,
        min_length: None,
        max_length: None,
        pattern: None,
        minimum: None,
        maximum: None,
        exclusive_minimum: None,
        exclusive_maximum: None,
        items: None,
        min_items: None,
        max_items: None,
        unique_items: None,
        enum_values: None,
    }
}

#[test]
fn index_range_in_key_order() {
    let mut idx = BTreeIndex::new(s("ix"), s("f"), "/tmp/db");
    assert_eq!(idx.path, "/tmp/db.ix.idx");
    idx.insert(&Value::Str(s("m")), s("d1"));
    idx.insert(&Value::Str(s("b")), s("d2"));
    idx.insert(&Value::Str(s("x")), s("d3"));
    idx.insert(&Value::Str(s("b")), s("d4"));
    assert!(idx.dirty);
    assert_eq!(idx.range(None, None), vec![s("d2"), s("d4"), s("d1"), s("d3")]);
    let lo = Value::Str(s("c"));
    let hi = Value::Str(s("m"));
    assert_eq!(idx.range(Some(&lo), Some(&hi)), vec![s("d1")]);
    assert_eq!(idx.range(Some(&lo), None), vec![s("d1"), s("d3")]);
    idx.remove(&Value::Null, "d2");
    assert_eq!(idx.find(&Value::Str(s("b"))).unwrap(), &vec![s("d4")]);
    idx.remove(&Value::Null, "d4");
    assert!(idx.find(&Value::Str(s("b"))).is_none());
    idx.clear();
    assert!(idx.range(None, None).is_empty());
}

#[test]
fn index_keys_of_other_kinds() {
    let mut idx = BTreeIndex::new(s("ix"), s("f"), "b");
    idx.insert(&Value::Int(31), s("a"));
    idx.insert(&Value::Bool(true), s("b"));
    idx.insert(&Value::Null, s("c"));
    assert_eq!(idx.find(&Value::Str(s("31"))).unwrap(), &vec![s("a")]);
    assert_eq!(idx.find(&Value::Str(s("true"))).unwrap(), &vec![s("b")]);
    assert_eq!(idx.find(&Value::Str(s("null"))).unwrap(), &vec![s("c")]);
}

#[test]
fn canonical_keys_and_json_text() {
    assert_eq!(canonical_key(&Value::Str(s("a\"b"))), "a\"b");
    assert_eq!(canonical_key(&Value::Int(-120)), "-120");
    assert_eq!(canonical_key(&Value::Float(s("2.5"))), "2.5");
    let v = Value::Object(vec![
        (s("k"), Value::Array(vec![Value::Str(s("q\"\\\n\u{1}")), Value::Bool(false), Value::Null])),
        (s("n"), Value::Int(i128::MIN)),
    ]);
    assert_eq!(
        to_json_text(&v),
        "{\"k\":[\"q\\\"\\\\\\n\\u0001\",false,null],\"n\":-170141183460469231731687303715884105728}"
    );
}

#[test]
fn equality_ignores_entry_order() {
    let a = Value::Object(vec![(s("x"), Value::Int(1)), (s("y"), Value::Int(2))]);
    let b = Value::Object(vec![(s("y"), Value::Int(2)), (s("x"), Value::Int(1))]);
    let c = Value::Object(vec![(s("y"), Value::Int(3)), (s("x"), Value::Int(1))]);
    assert!(values_equal(&a, &b));
    assert!(!values_equal(&a, &c));
    assert!(!values_equal(&Value::Int(1), &Value::Float(s("1.0"))));
}

fn frame_records(n: u64) -> Vec<(u64, Vec<u8>)> {
    (1..=n).map(|i| (i, format!("{{\"op\":{}}}", i).into_bytes())).collect()
}

#[test]
fn wal_frames_round_trip() {
    let recs = frame_records(10000);
    let (bytes, max) = encode_batch(&recs);
    assert_eq!(max, 10000);
    let back = decode_log(&bytes);
    assert_eq!(back.len(), 10000);
    assert_eq!(back, recs);
}

#[test]
fn wal_frame_layout() {
    let recs = vec![(7u64, b"abc".to_vec())];
    let (bytes, max) = encode_batch(&recs);
    assert_eq!(max, 7);
    assert_eq!(bytes.len(), 19);
    assert_eq!(&bytes[0..8], &7u64.to_le_bytes());
    assert_eq!(&bytes[8..12], &crc32fast::hash(b"abc").to_le_bytes());
    assert_eq!(&bytes[12..16], &3u32.to_le_bytes());
    assert_eq!(&bytes[16..], b"abc");
    let (empty, none) = encode_batch(&Vec::new());
    assert!(empty.is_empty());
    assert_eq!(none, 0);
}

#[test]
fn wal_corrupt_tail_stops_recovery() {
    let recs = frame_records(50);
    let (mut bytes, _) = encode_batch(&recs);
    let n = bytes.len();
    for b in &mut bytes[n - 20..] {
        *b ^= 0xff;
    }
    let back = decode_log(&bytes);
    assert_eq!(back.len(), 49);
    assert_eq!(back[..], recs[..49]);
    let torn = decode_log(&bytes[..n - 25].to_vec());
    assert_eq!(torn.len(), 49);
}

#[test]
fn wal_replay_applies_writes() {
    let mut root = Value::Object(Vec::new());
    for i in 0..10000 {
        let op = WalOp { timestamp: 0, op_type: WalOpType::Put, path: format!("k{}", i), value: Some(Value::Int(i)) };
        apply_wal_op(&mut root, op);
    }
    assert_eq!(to_json_text(&get_value(&root, "k9999")), "9999");
    apply_wal_op(&mut root, WalOp { timestamp: 0, op_type: WalOpType::Delete, path: s("k0"), value: None });
    assert_eq!(to_json_text(&get_value(&root, "k0")), "null");
    apply_legacy_entry(&mut root, "set", "l", Some(Value::Array(Vec::new())));
    apply_legacy_entry(&mut root, "push", "l", Some(Value::Int(1)));
    apply_legacy_entry(&mut root, "push", "l", Some(Value::Int(1)));
    apply_legacy_entry(&mut root, "bogus", "l", Some(Value::Int(2)));
    assert_eq!(to_json_text(&get_value(&root, "l")), "[1]");
    apply_legacy_entry(&mut root, "delete", "l", None);
    assert_eq!(to_json_text(&get_value(&root, "l")), "null");
}

fn op(i: i128) -> WalOp {
    WalOp { timestamp: 0, op_type: WalOpType::Put, path: s("k"), value: Some(Value::Int(i)) }
}

#[test]
fn writer_batches_and_flushes() {
    let mut w = LogWriter::new(WalConfig { batch_size: 2, flush_interval_ms: 10, fsync: false });
    let a = w.handle(WriterEvent::Write { lsn: 1, op: op(1) });
    assert!(a.flush.is_none() && !a.ack && !a.exit);
    let a = w.handle(WriterEvent::Write { lsn: 2, op: op(2) });
    let (batch, fsync) = a.flush.unwrap();
    assert_eq!(batch.iter().map(|r| r.0).collect::<Vec<_>>(), vec![1, 2]);
    assert!(!fsync);
    let a = w.handle(WriterEvent::Sync);
    assert!(a.ack && a.flush.is_none());
    w.handle(WriterEvent::Write { lsn: 3, op: op(3) });
    let a = w.handle(WriterEvent::Sync);
    assert!(a.ack);
    assert!(a.flush.unwrap().1);
    w.handle(WriterEvent::Write { lsn: 4, op: op(4) });
    let a = w.handle(WriterEvent::Timeout);
    assert_eq!(a.flush.unwrap().0.len(), 1);
    assert!(a.restart_timer);
    w.handle(WriterEvent::Write { lsn: 5, op: op(5) });
    let a = w.handle(WriterEvent::Shutdown);
    assert!(a.exit);
    assert!(a.flush.unwrap().1);
    let a = w.handle(WriterEvent::Disconnected);
    assert!(a.exit && a.flush.is_none());
}

#[test]
fn durability_presets() {
    assert!(DurabilityMode::Off.to_config().is_none());
    let l = DurabilityMode::Lazy.to_config().unwrap();
    assert_eq!((l.batch_size, l.flush_interval_ms, l.fsync), (1000, 100, true));
    let b = DurabilityMode::Batched.to_config().unwrap();
    assert_eq!((b.batch_size, b.flush_interval_ms, b.fsync), (1000, 10, true));
    let y = DurabilityMode::Sync.to_config().unwrap();
    assert_eq!((y.batch_size, y.flush_interval_ms, y.fsync), (1, 0, true));
    assert_eq!(DurabilityMode::from_str("batched"), DurabilityMode::Batched);
    assert_eq!(DurabilityMode::from_str("lazy"), DurabilityMode::Lazy);
    assert_eq!(DurabilityMode::from_str("sync"), DurabilityMode::Sync);
    assert_eq!(DurabilityMode::from_str("nope"), DurabilityMode::Off);
    let d = WalConfig::default();
    assert_eq!((d.batch_size, d.flush_interval_ms, d.fsync), (1000, 10, true));
}

#[test]
fn options_and_threads() {
    let o = DBOptions::from_names("shared", "sync", Some(5), None);
    assert_eq!(o.lock_mode, LockMode::Shared);
    let c = o.wal_config().unwrap();
    assert_eq!((c.batch_size, c.flush_interval_ms, c.fsync), (5, 0, true));
    let y = DBOptions::from_names("none", "sync", None, None).wal_config().unwrap();
    assert_eq!((y.batch_size, y.flush_interval_ms), (1, 0));
    let l = DBOptions::from_names("none", "lazy", None, None).wal_config().unwrap();
    assert_eq!((l.batch_size, l.flush_interval_ms), (1000, 100));
    assert!(DBOptions::legacy(false).wal_config().is_none());
    assert_eq!(DBOptions::default().lock_mode, LockMode::Exclusive);
    assert_eq!(LockMode::from_str("exclusive"), LockMode::Exclusive);
    assert_eq!(LockMode::from_str("whatever"), LockMode::Unlocked);
    let t = ThreadPoolConfig::with_cores(9);
    assert_eq!(t.optimal_threads(50), 1);
    assert_eq!(t.optimal_threads(500), 4);
    assert_eq!(t.optimal_threads(5000), 6);
    assert_eq!(t.optimal_threads(50000), 8);
    assert!(t.should_parallelize(100));
    assert!(!t.should_parallelize(99));
    assert!(!ThreadPoolConfig::with_cores(2).should_parallelize(1000));
    assert_eq!(ThreadPoolConfig::with_cores(2).system_info().recommended_batch_size, 100);
    assert!(ThreadPoolConfig::new().available_cores >= 1);
}

#[test]
fn lock_file_contents() {
    assert_eq!(lock_file_path("/d/db"), "/d/db.process_lock");
    assert_eq!(lock_file_text(4321), "4321\n");
    assert_eq!(parse_pid(" 4321\n"), Some(4321));
    assert_eq!(parse_pid("12x"), None);
    assert_eq!(parse_pid(""), None);
    assert_eq!(parse_pid("4294967296"), None);
    assert_eq!(parse_pid("4294967295"), Some(4294967295));
}

#[test]
fn lock_live_owner_refuses() {
    let (st, act) = lock_step(LockStage::First, LockEvent::Attempt(false));
    assert_eq!(act, LockAction::ReadOwner);
    let (st, act) = lock_step(st, LockEvent::OwnerText(s("77\n")));
    assert_eq!(act, LockAction::ProbePid(77));
    let (st, act) = lock_step(st, LockEvent::OwnerAlive(true));
    assert_eq!(act, LockAction::FailAlreadyLocked);
    assert_eq!(st, LockStage::Refused);
}

#[test]
fn lock_dead_owner_is_replaced() {
    let (st, _) = lock_step(LockStage::First, LockEvent::Attempt(false));
    let (st, _) = lock_step(st, LockEvent::OwnerText(s("77\n")));
    let (st, act) = lock_step(st, LockEvent::OwnerAlive(false));
    assert_eq!(act, LockAction::RecreateAndRetry);
    let (st, act) = lock_step(st, LockEvent::Attempt(true));
    assert_eq!(act, LockAction::WritePid);
    assert_eq!(st, LockStage::Held);
    let (st2, act2) = lock_step(LockStage::ReadingOwner, LockEvent::OwnerText(s("garbage")));
    assert_eq!((st2, act2), (LockStage::Retrying, LockAction::RecreateAndRetry));
    let (_, act3) = lock_step(LockStage::Retrying, LockEvent::Attempt(false));
    assert_eq!(act3, LockAction::FailAlreadyLocked);
}

#[test]
fn schema_constraints() {
    let mut st = plain_schema(SchemaType::String);
    st.max_length = Some(3);
    st.pattern = Some(s("^a"));
    assert!(validate(&Value::Str(s("ab")), &st).is_ok());
    assert!(matches!(validate(&Value::Str(s("abcd")), &st), Err(ValidationError::MaxLength(3))));
    assert!(matches!(validate(&Value::Str(s("éé")), &st), Err(ValidationError::MaxLength(3))));
    assert!(matches!(validate(&Value::Str(s("b")), &st), Err(ValidationError::PatternMismatch(_))));
    assert!(matches!(validate(&Value::Int(1), &st), Err(ValidationError::TypeMismatch { .. })));
    let mut num = plain_schema(SchemaType::Number);
    num.minimum = Some(Value::Int(0));
    num.exclusive_maximum = Some(Value::Int(10));
    assert!(validate(&Value::Int(0), &num).is_ok());
    assert!(matches!(validate(&Value::Int(-1), &num), Err(ValidationError::Minimum(0))));
    assert!(matches!(validate(&Value::Int(10), &num), Err(ValidationError::Maximum(10))));
    let mut arr = plain_schema(SchemaType::Array);
    arr.min_items = Some(1);
    arr.max_items = Some(3);
    arr.unique_items = Some(true);
    arr.items = Some(Box::new(plain_schema(SchemaType::Number)));
    assert!(validate(&Value::Array(vec![Value::Int(1), Value::Int(2)]), &arr).is_ok());
    assert!(matches!(validate(&Value::Array(vec![]), &arr), Err(ValidationError::MinItems(1))));
    assert!(matches!(validate(&Value::Array(vec![Value::Int(1), Value::Int(2), Value::Int(3), Value::Int(4)]), &arr), Err(ValidationError::MaxItems(3))));
    assert!(matches!(validate(&Value::Array(vec![Value::Int(1), Value::Int(1)]), &arr), Err(ValidationError::UniqueItems)));
    match validate(&Value::Array(vec![Value::Int(1), Value::Null]), &arr) {
        Err(ValidationError::ItemError(1, inner)) => assert!(matches!(*inner, ValidationError::TypeMismatch { .. })),
        other => panic!("unexpected {:?}", other),
    }
    let mut en = plain_schema(SchemaType::String);
    en.enum_values = Some(vec![Value::Str(s("a")), Value::Str(s("b"))]);
    assert!(validate(&Value::Str(s("b")), &en).is_ok());
    assert!(matches!(validate(&Value::Str(s("c")), &en), Err(ValidationError::EnumMismatch)));
    let mut ob = plain_schema(SchemaType::Object);
    ob.required = Some(vec![s("id")]);
    assert!(matches!(validate(&Value::Object(vec![]), &ob), Err(ValidationError::MissingRequired(_))));
    let mut bad = plain_schema(SchemaType::String);
    bad.pattern = Some(s("("));
    assert!(matches!(validate(&Value::Str(s("x")), &bad), Err(ValidationError::PatternMismatch(_))));
}

#[test]
fn tree_set_then_get() {
    let mut root = Value::Null;
    assert!(set_value(&mut root, "a.0.b", Value::Int(1)).is_ok());
    assert_eq!(to_json_text(&root), "{\"a\":[{\"b\":1}]}");
    let mut r2 = Value::Null;
    assert!(set_value(&mut r2, "3", Value::Int(1)).is_ok());
    assert_eq!(to_json_text(&r2), "[null,null,null,1]");
}

#[test]
fn replay_stops_at_unparsed_record() {
    let mut root = Value::Object(Vec::new());
    let recs = vec![(1u64, Some(op(1))), (2, Some(op(2))), (3, None), (4, Some(op(4)))];
    assert_eq!(replay_records(&mut root, &recs), 2);
    assert_eq!(to_json_text(&root), "{\"k\":2}");
    let mut empty = Value::Object(Vec::new());
    assert_eq!(replay_records(&mut empty, &vec![(5u64, None)]), 0);
    assert_eq!(to_json_text(&empty), "{}");
}

#[test]
fn equal_objects_share_canonical_key() {
    let a = Value::Object(vec![(s("y"), Value::Int(2)), (s("x"), Value::Int(1))]);
    let b = Value::Object(vec![(s("x"), Value::Int(1)), (s("y"), Value::Int(2))]);
    assert_eq!(canonical_key(&a), "{\"x\":1,\"y\":2}");
    assert_eq!(canonical_key(&a), canonical_key(&b));
}

#[test]
fn text_search_helpers() {
    assert!(text_contains("héllo", "éll"));
    assert!(text_contains("abc", ""));
    assert!(!text_contains("ab", "abc"));
    assert!(!text_contains("abc", "ca"));
    assert!(text_starts_with("héllo", "hé"));
    assert!(!text_starts_with("héllo", "é"));
    assert!(text_ends_with("héllo", "lo"));
    assert!(!text_ends_with("lo", "llo"));
}
