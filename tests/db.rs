use minidb::command_type::CommandType;
use minidb::codec::encode_table;
use minidb::db::{prepare_delete, prepare_set, Db, MemoryWal};
use minidb::engine::SSTableEngine;
use minidb::error::DbError;
use minidb::table::SortedTable;
use minidb::wal::Mutation;

fn table_of(pairs: &[(&str, Option<&str>)]) -> SortedTable {
    let mut t = SortedTable::new();
    for (k, v) in pairs {
        t.insert(k.as_bytes().to_vec(), v.map(|s| s.as_bytes().to_vec()));
    }
    t
}

fn engine() -> SSTableEngine {
    SSTableEngine::new("data".to_string())
}

fn flushed(pairs: &[(&str, Option<&str>)]) -> Vec<u8> {
    encode_table(&table_of(pairs))
}

#[test]
fn handle_set_inserts_and_saves() {
    let mut db = Db::new(engine(), SortedTable::new());
    let mut wal = MemoryWal::new();

    let input = vec!["SET", "foo", "bar"];
    db.handle_set(&input, &mut wal).expect("handle_set failed");

    assert_eq!(db.data.get(b"foo"), Some(Some(b"bar".to_vec())));
}

#[test]
fn handle_get_returns_value_or_error() {
    let db = Db::new(engine(), table_of(&[("k1", Some("v1"))]));

    let res = db.handle_get(&["GET", "k1"], &[]).expect("get failed");
    assert_eq!(res, "v1");

    let err = db.handle_get(&["GET", "missing"], &[]).unwrap_err();
    match err {
        DbError::KeyNotFound(_) => {}
        _ => panic!("Expected KeyNotFound error"),
    }
}

#[test]
fn handle_delete_removes_key() {
    let mut db = Db::new(engine(), table_of(&[("to_delete", Some("v"))]));
    let mut wal = MemoryWal::new();

    assert!(db.handle_get(&["GET", "to_delete"], &[]).is_ok());

    db.handle_delete(&["DEL", "to_delete"], &mut wal).expect("delete failed");

    assert_eq!(db.data.get(b"to_delete"), Some(None));
    assert!(db.handle_get(&["GET", "to_delete"], &[]).is_err());
}

#[test]
fn test_wal_recovery() {
    let mut wal = MemoryWal::new();
    let records: Vec<(String, String)> = (0..50)
        .map(|i| (format!("key_{}", i), format!("{{\"id\":{},\"type\":\"user\"}}", i)))
        .collect();
    {
        let mut db = Db::new(engine(), SortedTable::new());
        for (k, v) in &records {
            db.handle_set(&["SET", k, v], &mut wal).expect("Failed to insert record");
        }
        // no flush: the process goes away with only the log left
        drop(db);
    }
    let recovered_db = Db::recover(engine(), &wal.lines);
    for (k, v) in &records {
        let result = recovered_db
            .handle_get(&["GET", k], &[])
            .expect("Record not found after recovery");
        assert_eq!(&result, v, "Recovered value doesn't match original");
    }
}

#[test]
fn set_then_delete_scenario() {
    let mut db = Db::new(engine(), SortedTable::new());
    let mut wal = MemoryWal::new();
    db.handle_set(&["SET", "foo", "bar"], &mut wal).unwrap();
    assert_eq!(db.handle_get(&["GET", "foo"], &[]).unwrap(), "bar");
    db.handle_delete(&["DELETE", "foo"], &mut wal).unwrap();
    match db.handle_get(&["GET", "foo"], &[]) {
        Err(DbError::KeyNotFound(k)) => assert_eq!(k, "foo"),
        other => panic!("unexpected {:?}", other),
    }
    assert_eq!(wal.lines, vec![b"SET foo bar\n".to_vec(), b"DELETE foo \n".to_vec()]);
}

#[test]
fn overwrite_across_flush() {
    let mut wal = MemoryWal::new();
    let mut db = Db::new(engine(), SortedTable::new());
    db.handle_set(&["SET", "a", "1"], &mut wal).unwrap();
    let first = flushed(&[("a", Some("1"))]);
    db.handle_set(&["SET", "a", "2"], &mut wal).unwrap();
    let second = flushed(&[("a", Some("2"))]);
    let files = vec![second.clone(), first.clone()];
    assert_eq!(db.handle_get(&["GET", "a"], &files).unwrap(), "2");
    // a fresh memtable reads the files newest first
    let cold = Db::new(engine(), SortedTable::new());
    assert_eq!(cold.handle_get(&["GET", "a"], &files).unwrap(), "2");
    let merged = engine().compact_sstables(&files).unwrap();
    let one = vec![encode_table(&merged)];
    assert_eq!(cold.handle_get(&["GET", "a"], &one).unwrap(), "2");
}

#[test]
fn delete_across_sstables() {
    let older = flushed(&[("x", Some("1"))]);
    let newer = flushed(&[("x", None)]);
    let files = vec![newer, older];
    let cold = Db::new(engine(), SortedTable::new());
    assert!(matches!(cold.handle_get(&["GET", "x"], &files), Err(DbError::KeyNotFound(_))));
    let merged = engine().compact_sstables(&files).unwrap();
    assert_eq!(merged.len(), 0);
}

#[test]
fn value_with_spaces() {
    let mut db = Db::new(engine(), SortedTable::new());
    let mut wal = MemoryWal::new();
    db.handle_set(&["SET", "greeting", "hello", "world"], &mut wal).unwrap();
    assert_eq!(db.handle_get(&["GET", "greeting"], &[]).unwrap(), "hello world");
    assert_eq!(wal.lines, vec![b"SET greeting hello world\n".to_vec()]);
}

#[test]
fn many_clients_all_inserted() {
    let mut db = Db::new(engine(), SortedTable::new());
    let mut wal = MemoryWal::new();
    for i in 0..50 {
        for j in 0..100 {
            let k = format!("key_{}_{}", i, j);
            let v = format!("val_{}_{}", i, j);
            db.handle_set(&["SET", &k, &v], &mut wal).unwrap();
        }
    }
    assert_eq!(wal.lines.len(), 5000);
    for i in 0..50 {
        for j in 0..100 {
            let k = format!("key_{}_{}", i, j);
            assert_eq!(db.handle_get(&["GET", &k], &[]).unwrap(), format!("val_{}_{}", i, j));
        }
    }
}

#[test]
fn memtable_value_beats_files() {
    let mut db = Db::new(engine(), SortedTable::new());
    let mut wal = MemoryWal::new();
    db.handle_set(&["SET", "k", "v1"], &mut wal).unwrap();
    db.handle_set(&["SET", "k", "v2"], &mut wal).unwrap();
    let files = vec![flushed(&[("k", Some("v1"))])];
    assert_eq!(db.handle_get(&["GET", "k"], &files).unwrap(), "v2");
}

#[test]
fn memtable_tombstone_hides_files() {
    let mut db = Db::new(engine(), SortedTable::new());
    let mut wal = MemoryWal::new();
    let files = vec![flushed(&[("k", Some("old"))])];
    assert_eq!(db.handle_get(&["GET", "k"], &files).unwrap(), "old");
    db.handle_delete(&["DELETE", "k"], &mut wal).unwrap();
    assert!(matches!(db.handle_get(&["GET", "k"], &files), Err(DbError::KeyNotFound(_))));
}

#[test]
fn malformed_commands_are_rejected() {
    let mut db = Db::new(engine(), SortedTable::new());
    let mut wal = MemoryWal::new();
    assert!(matches!(db.handle_set(&["SET", "k"], &mut wal), Err(DbError::InvalidCommand(_))));
    assert!(matches!(db.handle_delete(&["DELETE"], &mut wal), Err(DbError::InvalidCommand(_))));
    assert!(matches!(db.handle_get(&["GET"], &[]), Err(DbError::InvalidCommand(_))));
    assert!(wal.lines.is_empty());
    assert!(matches!(prepare_set(&["SET"]), Err(DbError::InvalidCommand(_))));
    assert!(matches!(prepare_delete(&["DELETE"]), Err(DbError::InvalidCommand(_))));
}

#[test]
fn prepared_mutations() {
    assert_eq!(
        prepare_set(&["SET", "k", "a", "b"]).unwrap(),
        Mutation::Put { key: b"k".to_vec(), value: b"a b".to_vec() }
    );
    assert_eq!(prepare_delete(&["DELETE", "k"]).unwrap(), Mutation::Delete { key: b"k".to_vec() });
}

#[test]
fn failed_log_append_leaves_memtable() {
    let mut db = Db::new(engine(), SortedTable::new());
    let m = prepare_set(&["SET", "k", "v"]).unwrap();
    let r = db.commit(m, Err(DbError::WalStoreFailed("disk full".to_string())));
    assert!(matches!(r, Err(DbError::WalStoreFailed(_))));
    assert_eq!(db.data.len(), 0);
}

#[test]
fn invalid_utf8_in_file_is_a_read_failure() {
    let mut t = SortedTable::new();
    t.insert(b"k".to_vec(), Some(vec![0xff, 0xfe]));
    let files = vec![encode_table(&t)];
    let db = Db::new(engine(), SortedTable::new());
    assert!(matches!(db.handle_get(&["GET", "k"], &files), Err(DbError::SSTableReadFailed(_))));
}

#[test]
fn list_keys_skips_tombstones() {
    let db = Db::new(engine(), table_of(&[("a", Some("1")), ("b", None), ("c", Some("3"))]));
    assert_eq!(db.list_keys(), vec![b"a".to_vec(), b"c".to_vec()]);
}

#[test]
fn command_words() {
    assert_eq!(CommandType::Put.as_str(), "SET");
    assert_eq!(CommandType::Get.as_str(), "GET");
    assert_eq!(CommandType::GetKeys.as_str(), "GET_KEYS");
    assert_eq!(CommandType::Delete.as_str(), "DELETE");
    assert_eq!(CommandType::from_str("  set "), Some(CommandType::Put));
    assert_eq!(CommandType::from_str("get_keys"), Some(CommandType::GetKeys));
    assert_eq!(CommandType::from_str("Delete"), Some(CommandType::Delete));
    assert_eq!(CommandType::from_str("GET"), Some(CommandType::Get));
    assert_eq!(CommandType::from_str("PUT"), None);
    assert_eq!(CommandType::from_word("set"), None);
    assert_eq!(CommandType::from_word("SET"), Some(CommandType::Put));
}

#[test]
fn words_with_whitespace_are_rejected() {
    let mut db = Db::new(engine(), SortedTable::new());
    let mut wal = MemoryWal::new();
    assert!(matches!(db.handle_set(&["SET", "a b", "v"], &mut wal), Err(DbError::InvalidCommand(_))));
    assert!(matches!(db.handle_set(&["SET", "k", ""], &mut wal), Err(DbError::InvalidCommand(_))));
    assert!(matches!(db.handle_set(&["SET", "", "v"], &mut wal), Err(DbError::InvalidCommand(_))));
    assert!(matches!(db.handle_set(&["SET", "k", "v", "w\tx"], &mut wal), Err(DbError::InvalidCommand(_))));
    assert!(matches!(db.handle_delete(&["DELETE", "a b"], &mut wal), Err(DbError::InvalidCommand(_))));
    assert!(matches!(db.handle_delete(&["DELETE", ""], &mut wal), Err(DbError::InvalidCommand(_))));
    assert!(wal.lines.is_empty());
    assert_eq!(db.data.len(), 0);
}

#[test]
fn accepted_set_replays_after_restart() {
    let mut wal = MemoryWal::new();
    let mut db = Db::new(engine(), SortedTable::new());
    db.handle_set(&["SET", "greeting", "hello", "big", "world"], &mut wal).unwrap();
    db.handle_delete(&["DELETE", "gone"], &mut wal).unwrap();
    let restarted = Db::recover(engine(), &wal.lines);
    assert_eq!(restarted.handle_get(&["GET", "greeting"], &[]).unwrap(), "hello big world");
    assert_eq!(restarted.data.get(b"gone"), Some(None));
}
