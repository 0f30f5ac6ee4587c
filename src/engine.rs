//! Reads across a set of SSTable files ordered newest first, and compaction of
//! that set into one table.
use vstd::prelude::*;

use crate::codec::{decode_image, decode_table, is_table_image, law_round_trip, table_image};
use crate::error::DbError;
use crate::table::{
    copy_entry, entries_view, lemma_map_at, opt_view, table_map, valid_records,
    Entry, RecordView, SortedTable,
};

verus! {

/// What one SSTable file says about a key.
#[derive(Debug, Clone, PartialEq, Eq)]
pub enum Lookup {
    Value(Vec<u8>),
    Tombstone,
    NotInFile,
}

impl Lookup {
    /// `None` when the file has no record for the key; else the record's value
    /// (`None` again for a tombstone).
    pub open spec fn view_lookup(&self) -> Option<Option<Seq<u8>>> {
        match self {
            Lookup::Value(v) => Some(Some(v@)),
            Lookup::Tombstone => Some(None),
            Lookup::NotInFile => None,
        }
    }
}

/// What the records `s` hold for `k`.
pub open spec fn records_lookup(s: Seq<RecordView>, k: Seq<u8>) -> Option<Option<Seq<u8>>> {
    if table_map(s).contains_key(k) {
        Some(table_map(s)[k])
    } else {
        None
    }
}

/// The newest record for `k` among the files `imgs` (newest first); files that
/// are not tables are passed over.
pub open spec fn newest(imgs: Seq<Seq<u8>>, k: Seq<u8>) -> Option<Option<Seq<u8>>>
    decreases imgs.len(),
{
    if imgs.len() == 0 {
        None
    } else {
        match decode_image(imgs[0]) {
            Some(s) if records_lookup(s, k) is Some => records_lookup(s, k),
            _ => newest(imgs.drop_first(), k),
        }
    }
}

/// The value a read of `k` sees across `imgs`: the newest record, unless it is
/// a tombstone.
pub open spec fn visible(imgs: Seq<Seq<u8>>, k: Seq<u8>) -> Option<Seq<u8>> {
    match newest(imgs, k) {
        Some(Some(v)) => Some(v),
        _ => None,
    }
}

/// The live contents of a set of files: every key whose newest record is a value.
pub open spec fn live_map(imgs: Seq<Seq<u8>>) -> Map<Seq<u8>, Option<Seq<u8>>> {
    Map::new(|k: Seq<u8>| visible(imgs, k) is Some, |k: Seq<u8>| visible(imgs, k))
}

pub open spec fn images_view(files: Seq<Vec<u8>>) -> Seq<Seq<u8>> {
    files.map_values(|f: Vec<u8>| f@)
}

/// Looks `key` up in one SSTable file.
pub fn read_key(file: &[u8], key: &[u8]) -> (r: Result<Lookup, DbError>)
    ensures
        r is Ok <==> is_table_image(file@),
        r matches Ok(l) ==> l.view_lookup() == records_lookup(decode_image(file@)->Some_0, key@),
        r matches Err(e) ==> e is SSTableReadFailed,
{
    let t = decode_table(file)?;
    match t.get(key) {
        None => Ok(Lookup::NotInFile),
        Some(None) => Ok(Lookup::Tombstone),
        Some(Some(v)) => Ok(Lookup::Value(v)),
    }
}

proof fn lemma_newest_skip(imgs: Seq<Seq<u8>>, i: int, k: Seq<u8>)
    requires
        0 <= i < imgs.len(),
    ensures
        newest(imgs.skip(i), k) == match decode_image(imgs[i]) {
            Some(s) if records_lookup(s, k) is Some => records_lookup(s, k),
            _ => newest(imgs.skip(i + 1), k),
        },
{
    assert(imgs.skip(i).drop_first() =~= imgs.skip(i + 1));
    assert(imgs.skip(i)[0] == imgs[i]);
}

proof fn lemma_newest_push(imgs: Seq<Seq<u8>>, img: Seq<u8>, k: Seq<u8>)
    ensures
        newest(imgs.push(img), k) == match newest(imgs, k) {
            Some(v) => Some(v),
            None => match decode_image(img) {
                Some(s) if records_lookup(s, k) is Some => records_lookup(s, k),
                _ => None,
            },
        },
    decreases imgs.len(),
{
    if imgs.len() == 0 {
        assert(imgs.push(img)[0] == img);
        assert(imgs.push(img).drop_first() =~= Seq::<Seq<u8>>::empty());
    } else {
        assert(imgs.push(img)[0] == imgs[0]);
        assert(imgs.push(img).drop_first() =~= imgs.drop_first().push(img));
        lemma_newest_push(imgs.drop_first(), img, k);
    }
}

/// The SSTable files of one data directory. Reads and compaction work on the
/// files' contents, handed in newest first.
pub struct SSTableEngine {
    pub file_path: String,
}

impl SSTableEngine {
    pub fn new(file_path: String) -> (e: SSTableEngine)
        ensures
            e.file_path@ == file_path@,
    {
        SSTableEngine { file_path }
    }

    /// Reads `key` from the files `files`, newest first: the first file holding a
    /// record for it decides; a tombstone there means the key is absent. Files that
    /// cannot be read as tables are passed over.
    pub fn get_value(&self, files: &[Vec<u8>], key: &[u8]) -> (r: Option<Vec<u8>>)
        ensures
            opt_view(r) == visible(images_view(files@), key@),
    {
        let ghost imgs = images_view(files@);
        let mut i: usize = 0;
        assert(imgs.skip(0) =~= imgs);
        while i < files.len()
            invariant
                imgs == images_view(files@),
                i <= files@.len(),
                newest(imgs, key@) == newest(imgs.skip(i as int), key@),
            decreases files.len() - i,
        {
            proof {
                lemma_newest_skip(imgs, i as int, key@);
                assert(imgs[i as int] == files@[i as int]@);
            }
            match read_key(files[i].as_slice(), key) {
                Ok(Lookup::Value(v)) => {
                    return Some(v);
                },
                Ok(Lookup::Tombstone) => {
                    return None;
                },
                _ => {},
            }
            i = i + 1;
        }
        assert(imgs.skip(i as int) =~= Seq::<Seq<u8>>::empty());
        None
    }

    /// Merges the files `files` (newest first) into one table that holds, for each
    /// key, the value of its newest record; keys whose newest record is a tombstone
    /// are dropped. Fails, changing nothing, when some file is not a table.
    pub fn compact_sstables(&self, files: &[Vec<u8>]) -> (r: Result<SortedTable, DbError>)
        ensures
            r is Ok <==> forall|i: int| 0 <= i < files@.len() ==> is_table_image(#[trigger] files@[i]@),
            r matches Ok(t) ==> t.wf() && t.map() == live_map(images_view(files@)),
            r matches Err(e) ==> e is SSTableReadFailed,
    {
        let ghost imgs = images_view(files@);
        // every key seen so far, with the record of the newest file holding it
        let mut seen = SortedTable::new();
        let mut i: usize = 0;
        proof {
            assert(imgs.take(0) =~= Seq::<Seq<u8>>::empty());
            assert(seen.map() =~= Map::<Seq<u8>, Option<Seq<u8>>>::empty());
        }
        while i < files.len()
            invariant
                imgs == images_view(files@),
                i <= files@.len(),
                seen.wf(),
                forall|j: int| 0 <= j < i ==> is_table_image(#[trigger] files@[j]@),
                forall|k: Seq<u8>| #[trigger]
                    seen.map().contains_key(k) == newest(imgs.take(i as int), k) is Some,
                forall|k: Seq<u8>| #[trigger]
                    seen.map().contains_key(k) ==> Some(seen.map()[k]) == newest(
                        imgs.take(i as int),
                        k,
                    ),
            decreases files.len() - i,
        {
            let t = match decode_table(files[i].as_slice()) {
                Ok(t) => t,
                Err(e) => {
                    proof {
                        assert(!is_table_image(files@[i as int]@));
                    }
                    return Err(e);
                },
            };
            let ghost s = t@;
            let ghost before = seen.map();
            proof {
                assert(imgs[i as int] == files@[i as int]@);
                assert(imgs.take(i + 1) =~= imgs.take(i as int).push(imgs[i as int]));
            }
            let ents = t.entries();
            let mut e: usize = 0;
            while e < ents.len()
                invariant
                    seen.wf(),
                    t.wf(),
                    s == t@,
                    entries_view(ents@) == s,
                    e <= s.len(),
                    forall|k: Seq<u8>| #[trigger]
                        seen.map().contains_key(k) == (before.contains_key(k) || exists|x: int|
                            0 <= x < e && s[x].0 == k),
                    forall|k: Seq<u8>| #[trigger]
                        before.contains_key(k) ==> seen.map()[k] == before[k],
                    forall|k: Seq<u8>| #[trigger]
                        seen.map().contains_key(k) && !before.contains_key(k) ==> seen.map()[k]
                            == table_map(s)[k],
                decreases ents.len() - e,
            {
                let ghost rec = s[e as int];
                assert(ents@[e as int]@ == rec);
                proof {
                    lemma_map_at(s, e as int);
                }
                if seen.get(ents[e].key.as_slice()).is_none() {
                    let en = copy_entry(&ents[e]);
                    seen.insert(en.key, en.value);
                }
                proof {
                    assert forall|k: Seq<u8>| #[trigger]
                        seen.map().contains_key(k) == (before.contains_key(k) || exists|x: int|
                            0 <= x < e + 1 && s[x].0 == k) by {
                        if k == rec.0 {
                            assert(0 <= e < e + 1 && s[e as int].0 == k);
                        }
                        if exists|x: int| 0 <= x < e + 1 && s[x].0 == k {
                            let x = choose|x: int| 0 <= x < e + 1 && s[x].0 == k;
                            if x < e {
                                assert(0 <= x < e && s[x].0 == k);
                            }
                        }
                    }
                }
                e = e + 1;
            }
            proof {
                assert forall|k: Seq<u8>| #[trigger]
                    seen.map().contains_key(k) == newest(imgs.take(i + 1), k) is Some && (
                    seen.map().contains_key(k) ==> Some(seen.map()[k]) == newest(imgs.take(i + 1), k)) by {
                    lemma_newest_push(imgs.take(i as int), imgs[i as int], k);
                    assert(decode_image(imgs[i as int]) == Some(s));
                    if exists|x: int| 0 <= x < e && s[x].0 == k {
                        let x = choose|x: int| 0 <= x < e && s[x].0 == k;
                        lemma_map_at(s, x);
                    } else {
                        assert(!table_map(s).contains_key(k));
                    }
                }
            }
            i = i + 1;
        }
        assert(imgs.take(i as int) =~= imgs);
        // keep the records whose newest version is a value
        let ghost sv = seen@;
        let ents = seen.entries();
        let mut live: Vec<Entry> = Vec::new();
        let ghost picked: Seq<int> = Seq::empty();
        let mut e: usize = 0;
        while e < ents.len()
            invariant
                seen.wf(),
                sv == seen@,
                entries_view(ents@) == sv,
                e <= sv.len(),
                picked.len() == live@.len(),
                forall|a: int| 0 <= a < picked.len() ==> 0 <= #[trigger] picked[a] < e,
                forall|a: int, b: int| 0 <= a < b < picked.len() ==> #[trigger] picked[a] < #[trigger] picked[b],
                forall|a: int| 0 <= a < picked.len() ==> entries_view(live@)[a] == sv[#[trigger] picked[a]],
                forall|a: int| 0 <= a < picked.len() ==> (#[trigger] sv[picked[a]]).1 is Some,
                forall|x: int| 0 <= x < e && (#[trigger] sv[x]).1 is Some ==> exists|a: int| 0 <= a < picked.len() && picked[a] == x,
            decreases ents.len() - e,
        {
            assert(ents@[e as int]@ == sv[e as int]);
            let ghost old_picked = picked;
            if ents[e].value.is_some() {
                let en = copy_entry(&ents[e]);
                let ghost old_live = live@;
                live.push(en);
                proof {
                    assert(entries_view(live@) =~= entries_view(old_live).push(sv[e as int]));
                    picked = picked.push(e as int);
                }
            }
            proof {
                assert forall|x: int| 0 <= x < e + 1 && (#[trigger] sv[x]).1 is Some implies exists|a: int|
                    0 <= a < picked.len() && picked[a] == x by {
                    if x == e {
                        assert(picked[picked.len() - 1] == x);
                    } else {
                        let a = choose|a: int| 0 <= a < old_picked.len() && old_picked[a] == x;
                        assert(picked[a] == x);
                    }
                }
            }
            e = e + 1;
        }
        let ghost lv = entries_view(live@);
        proof {
            assert forall|a: int, b: int| 0 <= a < b < lv.len() implies crate::order::lex_lt(
                #[trigger] lv[a].0,
                #[trigger] lv[b].0,
            ) by {
                assert(picked[a] < picked[b]);
            }
            assert forall|a: int| 0 <= a < lv.len() implies crate::table::record_fits(#[trigger] lv[a]) by {
                assert(lv[a] == sv[picked[a]]);
            }
        }
        let out = SortedTable::from_sorted(live);
        proof {
            let m = live_map(imgs);
            assert forall|k: Seq<u8>|
                #![trigger out.map().dom().contains(k)]
                #![trigger m.dom().contains(k)]
                out.map().contains_key(k) == m.contains_key(k) && (m.contains_key(k) ==> out.map()[k]
                    == m[k]) by {
                if exists|a: int| 0 <= a < lv.len() && lv[a].0 == k {
                    let a = choose|a: int| 0 <= a < lv.len() && lv[a].0 == k;
                    lemma_map_at(lv, a);
                    lemma_map_at(sv, picked[a]);
                    assert(seen.map().contains_key(k));
                    assert(Some(seen.map()[k]) == newest(imgs, k));
                    assert(visible(imgs, k) == Some(lv[a].1->Some_0));
                } else {
                    assert(!out.map().contains_key(k));
                    if seen.map().contains_key(k) {
                        assert(crate::table::has_key(sv, k));
                        let x = crate::table::key_index(sv, k);
                        lemma_map_at(sv, x);
                        if sv[x].1 is Some {
                            let a = choose|a: int| 0 <= a < picked.len() && picked[a] == x;
                            assert(lv[a].0 == k);
                        }
                        assert(Some(seen.map()[k]) == newest(imgs, k));
                        assert(visible(imgs, k) is None);
                    } else {
                        assert(newest(imgs, k) is None);
                    }
                }
            }
            assert(out.map() =~= m);
        }
        Ok(out)
    }
}

/// A file placed in front of others decides every key it holds: a read sees
/// its value, or nothing when it holds a tombstone; older files cannot bring
/// the key back.
pub proof fn law_newest_file_wins(s: Seq<RecordView>, older: Seq<Seq<u8>>, k: Seq<u8>)
    requires
        valid_records(s),
        table_image(s).len() <= usize::MAX,
        table_map(s).contains_key(k),
    ensures
        visible(seq![table_image(s)] + older, k) == table_map(s)[k],
{
    law_round_trip(s);
    let imgs = seq![table_image(s)] + older;
    assert(imgs[0] == table_image(s));
}

/// Compaction changes nothing a read can see: the compacted file gives every
/// key the value the whole set of files gave it. So compacting the result
/// again yields the same contents.
pub proof fn law_compaction_idempotent(imgs: Seq<Seq<u8>>, s: Seq<RecordView>)
    requires
        valid_records(s),
        table_image(s).len() <= usize::MAX,
        table_map(s) == live_map(imgs),
    ensures
        live_map(seq![table_image(s)]) == live_map(imgs),
{
    law_round_trip(s);
    let one = seq![table_image(s)];
    assert forall|k: Seq<u8>| #[trigger] visible(one, k) == visible(imgs, k) by {
        assert(one[0] == table_image(s));
        assert(one.drop_first() =~= Seq::<Seq<u8>>::empty());
        assert(newest(one.drop_first(), k) is None);
        assert(decode_image(one[0]) == Some(s));
        if table_map(s).contains_key(k) {
            assert(live_map(imgs).contains_key(k));
            assert(newest(one, k) == Some(table_map(s)[k]));
            assert(table_map(s)[k] == visible(imgs, k));
        } else {
            assert(!live_map(imgs).contains_key(k));
            assert(newest(one, k) is None);
        }
    }
    assert(live_map(one) =~= live_map(imgs));
}

} // verus!
