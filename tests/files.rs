use minidb::files::{
    current_segment_name, fresh_sstable_name, newest_first, segment_file_name, segment_is_aged,
    sstable_file_name, MinuteStamp,
};

#[test]
fn segment_names() {
    let t = MinuteStamp { year: 2024, month: 3, day: 7, hour: 9, minute: 5 };
    assert_eq!(segment_file_name(&t), Some(b"wal_2024-03-07 09:05:00.log".to_vec()));
    let late = MinuteStamp { year: 999, month: 12, day: 31, hour: 23, minute: 59 };
    assert_eq!(segment_file_name(&late), Some(b"wal_0999-12-31 23:59:00.log".to_vec()));
    let far = MinuteStamp { year: 10000, month: 1, day: 1, hour: 0, minute: 0 };
    assert_eq!(segment_file_name(&far), None);
    let before = MinuteStamp { year: -1, month: 1, day: 1, hour: 0, minute: 0 };
    assert_eq!(segment_file_name(&before), None);
}

#[test]
fn segment_name_from_clock() {
    let name = current_segment_name().expect("clock within four-digit years");
    assert_eq!(name.len(), b"wal_YYYY-MM-DD HH:MM:00.log".len());
    assert!(name.starts_with(b"wal_20"));
    assert!(name.ends_with(b":00.log"));
}

#[test]
fn sstable_names() {
    assert_eq!(sstable_file_name(1700000000, false), b"1700000000.db".to_vec());
    assert_eq!(sstable_file_name(0, false), b"0.db".to_vec());
    assert_eq!(sstable_file_name(42, true), b"compacted_42.db".to_vec());
    let fresh = fresh_sstable_name(true).expect("clock after the epoch");
    assert!(fresh.starts_with(b"compacted_1"));
    assert!(fresh.ends_with(b".db"));
    let plain = fresh_sstable_name(false).unwrap();
    assert!(plain.len() > 3 && plain[0].is_ascii_digit());
}

#[test]
fn aged_segments() {
    assert!(segment_is_aged(100, 200, 60));
    assert!(!segment_is_aged(140, 200, 60));
    assert!(!segment_is_aged(141, 200, 60));
    assert!(!segment_is_aged(0, 30, 60));
    assert!(segment_is_aged(0, u64::MAX, u64::MAX - 1));
}

#[test]
fn sstables_newest_first() {
    let files = vec![
        (b"100.db".to_vec(), 100u64),
        (b"notes.txt".to_vec(), 500),
        (b"300.db".to_vec(), 300),
        (b"compacted_200.db".to_vec(), 200),
        (b"b.db".to_vec(), 300),
        (b"x.db.tmp".to_vec(), 900),
    ];
    assert_eq!(newest_first(&files), vec![2, 4, 3, 0]);
    assert!(newest_first(&[]).is_empty());
}
