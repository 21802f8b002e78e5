use kvs::command::{decode, encode};
use kvs::{Command, KvError, KvStore};

fn s(x: &str) -> String {
    x.to_owned()
}

fn empty_store() -> KvStore {
    KvStore::open(Vec::new())
}

#[test]
fn set_then_get_gives_value() {
    let mut kv = empty_store();
    kv.set(s("a"), s("1")).unwrap();
    assert_eq!(kv.get(s("a")).unwrap(), Some(s("1")));
}

#[test]
fn overwrite_gives_latest_value() {
    let mut kv = empty_store();
    kv.set(s("a"), s("1")).unwrap();
    kv.set(s("a"), s("2")).unwrap();
    assert_eq!(kv.get(s("a")).unwrap(), Some(s("2")));
}

#[test]
fn remove_missing_key_fails() {
    let mut kv = empty_store();
    assert_eq!(kv.remove(s("missing")), Err(KvError::KeyNotFound));
}

#[test]
fn remove_missing_key_changes_nothing() {
    let mut kv = empty_store();
    kv.set(s("a"), s("1")).unwrap();
    let before = kv.contents().clone();
    assert_eq!(kv.remove(s("b")), Err(KvError::KeyNotFound));
    assert_eq!(kv.contents(), &before);
    assert_eq!(kv.get(s("a")).unwrap(), Some(s("1")));
    assert_eq!(kv.get(s("b")).unwrap(), None);
}

#[test]
fn remove_then_get_gives_none() {
    let mut kv = empty_store();
    kv.set(s("a"), s("1")).unwrap();
    kv.remove(s("a")).unwrap();
    assert_eq!(kv.get(s("a")).unwrap(), None);
}

#[test]
fn reopen_keeps_contents() {
    let mut kv = empty_store();
    kv.set(s("a"), s("1")).unwrap();
    kv.set(s("b"), s("2")).unwrap();
    kv.remove(s("a")).unwrap();
    let mut reopened = KvStore::open(kv.contents().clone());
    assert_eq!(reopened.get(s("a")).unwrap(), None);
    assert_eq!(reopened.get(s("b")).unwrap(), Some(s("2")));
}

#[test]
fn get_missing_key_is_none() {
    let mut kv = empty_store();
    assert_eq!(kv.get(s("nothing")).unwrap(), None);
}

#[test]
fn encode_write_is_json_line() {
    let c = Command::Write { key: s("a"), value: s("1") };
    assert_eq!(encode(&c), b"[\"Write\",\"a\",\"1\"]\n".to_vec());
}

#[test]
fn encode_remove_is_json_line() {
    let c = Command::Remove { key: s("k") };
    assert_eq!(encode(&c), b"[\"Remove\",\"k\"]\n".to_vec());
}

#[test]
fn encode_escapes_newline() {
    let c = Command::Write { key: s("a\nb"), value: s("x\"y") };
    let bytes = encode(&c);
    assert_eq!(bytes.iter().filter(|b| **b == b'\n').count(), 1);
    assert_eq!(bytes, b"[\"Write\",\"a\\nb\",\"x\\\"y\"]\n".to_vec());
}

#[test]
fn decode_round_trip() {
    let c = Command::Write { key: s("k\ney"), value: s("v") };
    let bytes = encode(&c);
    match decode(&bytes[..bytes.len() - 1]).unwrap() {
        Command::Write { key, value } => {
            assert_eq!(key, s("k\ney"));
            assert_eq!(value, s("v"));
        }
        Command::Remove { .. } => panic!("expected a write"),
    }
    match decode(b"[\"Remove\",\"z\"]").unwrap() {
        Command::Remove { key } => assert_eq!(key, s("z")),
        Command::Write { .. } => panic!("expected a removal"),
    }
}

#[test]
fn decode_rejects_bad_lines() {
    assert!(matches!(decode(b"not json"), Err(KvError::Decode)));
    assert!(matches!(decode(b"[\"Write\",\"a\"]"), Err(KvError::Decode)));
    assert!(matches!(decode(b"[\"Remove\",\"a\",\"b\"]"), Err(KvError::Decode)));
    assert!(matches!(decode(b"[\"Put\",\"a\",\"b\"]"), Err(KvError::Decode)));
    assert!(matches!(decode(b"[\"Write\",\"a\""), Err(KvError::Decode)));
}

#[test]
fn open_replays_log() {
    let log = b"[\"Write\",\"a\",\"1\"]\n[\"Write\",\"b\",\"2\"]\n[\"Remove\",\"a\"]\n[\"Write\",\"b\",\"3\"]\n".to_vec();
    let mut kv = KvStore::open(log);
    assert_eq!(kv.get(s("a")).unwrap(), None);
    assert_eq!(kv.get(s("b")).unwrap(), Some(s("3")));
}

#[test]
fn open_skips_corrupt_line() {
    let log = b"[\"Write\",\"a\",\"1\"]\ngarbage\n[\"Write\",\"b\",\"2\"]\n".to_vec();
    let mut kv = KvStore::open(log);
    assert_eq!(kv.get(s("a")).unwrap(), Some(s("1")));
    assert_eq!(kv.get(s("b")).unwrap(), Some(s("2")));
}

#[test]
fn open_ignores_unterminated_last_line() {
    let log = b"[\"Write\",\"a\",\"1\"]\n[\"Write\",\"a\",\"2\"]".to_vec();
    let mut kv = KvStore::open(log);
    assert_eq!(kv.get(s("a")).unwrap(), Some(s("1")));
    kv.set(s("b"), s("3")).unwrap();
    assert_eq!(kv.get(s("a")).unwrap(), Some(s("1")));
    assert_eq!(kv.get(s("b")).unwrap(), Some(s("3")));
    let mut reopened = KvStore::open(kv.contents().clone());
    assert_eq!(reopened.get(s("a")).unwrap(), Some(s("1")));
    assert_eq!(reopened.get(s("b")).unwrap(), Some(s("3")));
}

#[test]
fn compaction_drops_stale_records() {
    let log = b"[\"Write\",\"a\",\"1\"]\n[\"Write\",\"a\",\"2\"]\n[\"Write\",\"b\",\"x\"]\n[\"Remove\",\"b\"]\n".to_vec();
    let mut kv = KvStore::open(log.clone());
    kv.compact_log();
    assert_eq!(kv.contents(), &b"[\"Write\",\"a\",\"2\"]\n".to_vec());
    assert!(kv.contents().len() <= log.len());
    assert_eq!(kv.get(s("a")).unwrap(), Some(s("2")));
    assert_eq!(kv.get(s("b")).unwrap(), None);
}

#[test]
fn compaction_keeps_contents_and_is_idempotent() {
    let mut kv = empty_store();
    kv.set(s("x"), s("1")).unwrap();
    kv.set(s("y"), s("2")).unwrap();
    kv.set(s("x"), s("3")).unwrap();
    let before = kv.contents().clone();
    kv.compact_log();
    assert_eq!(kv.contents(), &before);
    assert_eq!(kv.get(s("x")).unwrap(), Some(s("3")));
    assert_eq!(kv.get(s("y")).unwrap(), Some(s("2")));
}

#[test]
fn log_after_writes_holds_one_record_per_key() {
    let mut kv = empty_store();
    kv.set(s("a"), s("1")).unwrap();
    kv.set(s("a"), s("2")).unwrap();
    kv.set(s("b"), s("3")).unwrap();
    kv.remove(s("b")).unwrap();
    assert_eq!(kv.contents(), &b"[\"Write\",\"a\",\"2\"]\n".to_vec());
}

#[test]
fn read_record_at_offsets() {
    let log = b"[\"Write\",\"a\",\"1\"]\nbad\n".to_vec();
    let kv = KvStore::open(log.clone());
    match kv.read_record(0).unwrap() {
        Some(Command::Write { key, value }) => {
            assert_eq!(key, s("a"));
            assert_eq!(value, s("1"));
        }
        _ => panic!("expected a write at offset 0"),
    }
    assert!(matches!(kv.read_record(18), Err(KvError::Decode)));
    assert!(matches!(kv.read_record(log.len()), Ok(None)));
    assert!(matches!(kv.read_record(log.len() + 5), Ok(None)));
}

#[test]
fn result_alias_carries_store_errors() {
    let mut kv = empty_store();
    let r: kvs::Result<()> = kv.remove(s("absent"));
    assert_eq!(r, Err(KvError::KeyNotFound));
}

#[test]
fn compacting_a_compacted_log_changes_nothing() {
    let log = b"[\"Write\",\"a\",\"1\"]\n[\"Remove\",\"a\"]\n[\"Write\",\"b\",\"2\"]\n[\"Write\",\"b\",\"3\"]\n".to_vec();
    let mut kv = KvStore::open(log);
    kv.compact_log();
    let once = kv.contents().clone();
    assert_eq!(once, b"[\"Write\",\"b\",\"3\"]\n".to_vec());
    kv.compact_log();
    assert_eq!(kv.contents(), &once);
}

#[test]
fn object_shaped_line_is_no_record() {
    let log = b"{\"type\":\"Write\",\"key\":\"a\",\"value\":\"1\"}\n[\"Write\",\"b\",\"2\"]\n".to_vec();
    let mut kv = KvStore::open(log);
    assert_eq!(kv.get(s("a")).unwrap(), None);
    assert_eq!(kv.get(s("b")).unwrap(), Some(s("2")));
}
