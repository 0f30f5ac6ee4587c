use minidb::codec::{decode_table, encode_table};
use minidb::engine::{read_key, Lookup, SSTableEngine};
use minidb::error::DbError;
use minidb::order::compare_keys;
use minidb::table::SortedTable;

fn lookup_tables(files: &[Vec<u8>], key: &[u8]) -> Option<Vec<u8>> {
    SSTableEngine::new("data".to_string()).get_value(files, key)
}

fn compact(files: &[Vec<u8>]) -> Result<SortedTable, DbError> {
    SSTableEngine::new("data".to_string()).compact_sstables(files)
}

fn table_of(pairs: &[(&[u8], Option<&[u8]>)]) -> SortedTable {
    let mut t = SortedTable::new();
    for (k, v) in pairs {
        t.insert(k.to_vec(), v.map(|s| s.to_vec()));
    }
    t
}

#[test]
fn empty_table_layout() {
    let img = encode_table(&SortedTable::new());
    let mut expected = b"MINIDBSS".to_vec();
    expected.push(1);
    expected.extend_from_slice(&[0; 7]);
    expected.extend_from_slice(&16u64.to_be_bytes());
    expected.extend_from_slice(b"MINIDIDX");
    assert_eq!(img, expected);
}

#[test]
fn one_record_layout() {
    let img = encode_table(&table_of(&[(b"ab", Some(b"xyz"))]));
    let mut e = b"MINIDBSS".to_vec();
    e.push(1);
    e.extend_from_slice(&[0; 7]);
    // DATA
    e.extend_from_slice(&2u32.to_be_bytes());
    e.extend_from_slice(b"ab");
    e.push(0);
    e.extend_from_slice(&3u32.to_be_bytes());
    e.extend_from_slice(b"xyz");
    let index_offset = e.len() as u64;
    // INDEX
    e.extend_from_slice(&2u32.to_be_bytes());
    e.extend_from_slice(b"ab");
    e.extend_from_slice(&16u64.to_be_bytes());
    // FOOTER
    e.extend_from_slice(&index_offset.to_be_bytes());
    e.extend_from_slice(b"MINIDIDX");
    assert_eq!(img, e);
}

#[test]
fn tombstone_is_a_flag_byte() {
    let img = encode_table(&table_of(&[(b"k", None)]));
    assert_eq!(&img[16..21], &[0, 0, 0, 1, b'k']);
    assert_eq!(img[21], 1);
}

#[test]
fn round_trip_keeps_records_and_tombstones() {
    let t = table_of(&[(b"b", Some(b"2")), (b"a", Some(b"1")), (b"c", None), (b"", Some(b""))]);
    let img = encode_table(&t);
    let back = decode_table(&img).expect("decode");
    assert_eq!(back.entries().len(), 4);
    for (x, y) in back.entries().iter().zip(t.entries().iter()) {
        assert_eq!(x.key, y.key);
        assert_eq!(x.value, y.value);
    }
    assert_eq!(back.entries()[0].key, b"".to_vec());
    assert_eq!(back.entries()[3].value, None);
}

#[test]
fn footer_points_at_index() {
    let img = encode_table(&table_of(&[(b"a", Some(b"1")), (b"bb", Some(b"22"))]));
    let n = img.len();
    assert_eq!(&img[n - 8..], b"MINIDIDX");
    let mut off = [0u8; 8];
    off.copy_from_slice(&img[n - 16..n - 8]);
    let off = u64::from_be_bytes(off) as usize;
    // two index entries: (4 + 1 + 8) and (4 + 2 + 8)
    assert_eq!(n - 16 - off, 13 + 14);
    assert_eq!(&img[off..off + 5], &[0, 0, 0, 1, b'a']);
}

#[test]
fn corrupt_files_are_refused() {
    let img = encode_table(&table_of(&[(b"a", Some(b"1"))]));
    let mut bad_magic = img.clone();
    let n = bad_magic.len();
    bad_magic[n - 1] = b'Y';
    assert!(matches!(decode_table(&bad_magic), Err(DbError::SSTableReadFailed(_))));
    assert!(matches!(decode_table(&img[..img.len() - 1]), Err(DbError::SSTableReadFailed(_))));
    assert!(matches!(decode_table(b"short"), Err(DbError::SSTableReadFailed(_))));
    let mut bad_flag = img.clone();
    bad_flag[21] = 7;
    assert!(matches!(decode_table(&bad_flag), Err(DbError::SSTableReadFailed(_))));
    assert!(read_key(&bad_magic, b"a").is_err());
}

#[test]
fn read_key_answers() {
    let img = encode_table(&table_of(&[(b"a", Some(b"1")), (b"d", None)]));
    assert_eq!(read_key(&img, b"a").unwrap(), Lookup::Value(b"1".to_vec()));
    assert_eq!(read_key(&img, b"d").unwrap(), Lookup::Tombstone);
    assert_eq!(read_key(&img, b"z").unwrap(), Lookup::NotInFile);
}

#[test]
fn newest_file_decides() {
    let old = encode_table(&table_of(&[(b"k", Some(b"old")), (b"o", Some(b"only_old"))]));
    let new = encode_table(&table_of(&[(b"k", Some(b"new")), (b"t", None)]));
    let older_t = encode_table(&table_of(&[(b"t", Some(b"resurrected"))]));
    let files = vec![new, old, older_t];
    assert_eq!(lookup_tables(&files, b"k"), Some(b"new".to_vec()));
    assert_eq!(lookup_tables(&files, b"o"), Some(b"only_old".to_vec()));
    assert_eq!(lookup_tables(&files, b"t"), None);
    assert_eq!(lookup_tables(&files, b"missing"), None);
    assert_eq!(lookup_tables(&[], b"k"), None);
}

#[test]
fn unreadable_file_falls_through() {
    let good = encode_table(&table_of(&[(b"k", Some(b"v"))]));
    let files = vec![b"garbage".to_vec(), good];
    assert_eq!(lookup_tables(&files, b"k"), Some(b"v".to_vec()));
}

#[test]
fn compaction_newest_wins_and_drops_tombstones() {
    let newest = encode_table(&table_of(&[(b"a", Some(b"3")), (b"b", None)]));
    let middle = encode_table(&table_of(&[(b"a", Some(b"2")), (b"b", Some(b"2")), (b"c", Some(b"2"))]));
    let oldest = encode_table(&table_of(&[(b"a", Some(b"1")), (b"d", Some(b"1"))]));
    let merged = compact(&[newest, middle, oldest]).unwrap();
    let got: Vec<(Vec<u8>, Option<Vec<u8>>)> =
        merged.entries().iter().map(|e| (e.key.clone(), e.value.clone())).collect();
    assert_eq!(
        got,
        vec![
            (b"a".to_vec(), Some(b"3".to_vec())),
            (b"c".to_vec(), Some(b"2".to_vec())),
            (b"d".to_vec(), Some(b"1".to_vec())),
        ]
    );
}

#[test]
fn compaction_twice_is_stable() {
    let f1 = encode_table(&table_of(&[(b"a", Some(b"1")), (b"b", None)]));
    let f2 = encode_table(&table_of(&[(b"b", Some(b"0")), (b"c", Some(b"9"))]));
    let once = encode_table(&compact(&[f1, f2]).unwrap());
    let twice = encode_table(&compact(&[once.clone()]).unwrap());
    assert_eq!(once, twice);
}

#[test]
fn compaction_refuses_corrupt_input() {
    let good = encode_table(&table_of(&[(b"a", Some(b"1"))]));
    assert!(matches!(compact(&[good, b"junk".to_vec()]), Err(DbError::SSTableReadFailed(_))));
}

#[test]
fn sorted_table_operations() {
    let mut t = SortedTable::new();
    assert!(t.is_empty());
    t.insert(b"b".to_vec(), Some(b"1".to_vec()));
    t.insert(b"a".to_vec(), Some(b"2".to_vec()));
    t.insert(b"b".to_vec(), None);
    assert_eq!(t.len(), 2);
    assert_eq!(t.get(b"a"), Some(Some(b"2".to_vec())));
    assert_eq!(t.get(b"b"), Some(None));
    t.remove(b"a");
    assert_eq!(t.get(b"a"), None);
    assert_eq!(t.entries()[0].key, b"b".to_vec());
}

#[test]
fn key_order_is_bytewise() {
    assert!(compare_keys(b"a", b"b") < 0);
    assert!(compare_keys(b"ab", b"a") > 0);
    assert!(compare_keys(b"", b"a") < 0);
    assert_eq!(compare_keys(b"same", b"same"), 0);
    assert!(compare_keys(&[0xff], b"z") > 0);
}

fn be32_at(b: &[u8], at: usize) -> usize {
    u32::from_be_bytes([b[at], b[at + 1], b[at + 2], b[at + 3]]) as usize
}

#[test]
fn data_and_index_keys_in_order() {
    let t = table_of(&[(b"cc", Some(b"3")), (b"a", None), (b"bb", Some(b"22"))]);
    let img = encode_table(&t);
    let n = img.len();
    let mut off = [0u8; 8];
    off.copy_from_slice(&img[n - 16..n - 8]);
    let index_offset = u64::from_be_bytes(off) as usize;
    let mut data_keys = Vec::new();
    let mut starts = Vec::new();
    let mut pos = 16;
    while pos < index_offset {
        starts.push(pos as u64);
        let kl = be32_at(&img, pos);
        data_keys.push(img[pos + 4..pos + 4 + kl].to_vec());
        pos += 4 + kl;
        if img[pos] == 1 {
            pos += 1;
        } else {
            pos += 1;
            let vl = be32_at(&img, pos);
            pos += 4 + vl;
        }
    }
    assert_eq!(pos, index_offset);
    let mut index_keys = Vec::new();
    let mut offsets = Vec::new();
    let mut pos = index_offset;
    while pos < n - 16 {
        let kl = be32_at(&img, pos);
        index_keys.push(img[pos + 4..pos + 4 + kl].to_vec());
        let mut o = [0u8; 8];
        o.copy_from_slice(&img[pos + 4 + kl..pos + 12 + kl]);
        offsets.push(u64::from_be_bytes(o));
        pos += 12 + kl;
    }
    assert_eq!(pos, n - 16);
    assert_eq!(data_keys, vec![b"a".to_vec(), b"bb".to_vec(), b"cc".to_vec()]);
    assert_eq!(index_keys, data_keys);
    assert_eq!(offsets, starts);
}

#[test]
fn reserved_header_bytes_are_free() {
    let t = table_of(&[(b"k", Some(b"v")), (b"z", None)]);
    let mut img = encode_table(&t);
    for b in &mut img[9..16] {
        *b = 0xaa;
    }
    let back = decode_table(&img).expect("reserved bytes are not checked");
    assert_eq!(back.entries().len(), 2);
    assert_eq!(read_key(&img, b"k").unwrap(), Lookup::Value(b"v".to_vec()));
    let mut bad_version = encode_table(&t);
    bad_version[8] = 2;
    assert!(decode_table(&bad_version).is_err());
    let merged = compact(&[img]).unwrap();
    assert_eq!(merged.len(), 1);
}
