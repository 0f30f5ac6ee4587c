use minidb::flusher::{Flusher, COMPACTION_CADENCE};
use minidb::table::SortedTable;
use minidb::wal::{parse_wal_line, replay_batch_lines, split_tokens, Mutation, Wal};

#[test]
fn tokens_split_on_whitespace() {
    assert_eq!(
        split_tokens(b"  SET\tk  v1 v2\n"),
        vec![b"SET".to_vec(), b"k".to_vec(), b"v1".to_vec(), b"v2".to_vec()]
    );
    assert!(split_tokens(b"   ").is_empty());
}

#[test]
fn lines_parse_and_format() {
    let put = Mutation::Put { key: b"k".to_vec(), value: b"hello world".to_vec() };
    assert_eq!(put.to_line(), b"SET k hello world\n".to_vec());
    assert_eq!(parse_wal_line(&put.to_line()), Some(put));
    let del = Mutation::Delete { key: b"k".to_vec() };
    assert_eq!(del.to_line(), b"DELETE k \n".to_vec());
    assert_eq!(parse_wal_line(&del.to_line()), Some(del));
}

#[test]
fn malformed_lines_are_skipped() {
    assert_eq!(parse_wal_line(b"SET onlykey"), None);
    assert_eq!(parse_wal_line(b"DELETE"), None);
    assert_eq!(parse_wal_line(b"GET k"), None);
    assert_eq!(parse_wal_line(b""), None);
    assert_eq!(parse_wal_line(b"set k v"), None);
}

#[test]
fn store_wals_to_map_removes_on_delete() {
    let wal = Wal::new("wal".to_string());
    let mut map = SortedTable::new();
    wal.store_wals_to_map("SET a 1", &mut map);
    wal.store_wals_to_map("SET b two words", &mut map);
    wal.store_wals_to_map("DELETE a ", &mut map);
    wal.store_wals_to_map("NOPE x y", &mut map);
    assert_eq!(map.get(b"a"), None);
    assert_eq!(map.get(b"b"), Some(Some(b"two words".to_vec())));
    assert_eq!(map.len(), 1);
}

#[test]
fn flush_batch_keeps_tombstones() {
    let lines = vec![
        b"SET a 1\n".to_vec(),
        b"SET b 2\n".to_vec(),
        b"DELETE a \n".to_vec(),
        b"SET b 3\n".to_vec(),
        b"garbage\n".to_vec(),
    ];
    let t = replay_batch_lines(&lines);
    assert_eq!(t.get(b"a"), Some(None));
    assert_eq!(t.get(b"b"), Some(Some(b"3".to_vec())));
    assert!(Flusher::batch(&lines).is_some());
    assert!(Flusher::batch(&[b"junk".to_vec()]).is_none());
    assert!(Flusher::batch(&[]).is_none());
}

#[test]
fn delete_then_set_in_one_batch() {
    let lines = vec![b"DELETE a \n".to_vec(), b"SET a back\n".to_vec()];
    let t = replay_batch_lines(&lines);
    assert_eq!(t.get(b"a"), Some(Some(b"back".to_vec())));
}

#[test]
fn compaction_every_second_flush() {
    assert_eq!(COMPACTION_CADENCE, 2);
    let mut f = Flusher::new(40, Wal::new("wal".to_string()), "data".to_string());
    assert_eq!(f.flush_interval_secs, 40);
    assert!(!f.tick());
    assert!(f.tick());
    assert!(!f.tick());
    assert!(f.tick());
    assert_eq!(f.flush_count, 0);
}
