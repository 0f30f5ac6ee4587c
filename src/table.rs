use vstd::prelude::*;
use vstd::slice::slice_to_vec;

use crate::order::{compare_keys, lemma_lex_irreflexive, lemma_lex_transitive, lex_lt};

verus! {

/// A record as the engine sees it: a key and its value, `None` standing for a tombstone.
pub type RecordView = (Seq<u8>, Option<Seq<u8>>);

/// Largest length a key or a value may have (it is written as a `u32`).
pub const MAX_FIELD_LEN: usize = 0xffff_ffff;

/// One record of a sorted table.
#[derive(Debug, Clone)]
pub struct Entry {
    pub key: Vec<u8>,
    /// `None` marks the key as deleted (a tombstone).
    pub value: Option<Vec<u8>>,
}

pub open spec fn opt_view(v: Option<Vec<u8>>) -> Option<Seq<u8>> {
    match v {
        Some(b) => Some(b@),
        None => None,
    }
}

impl View for Entry {
    type V = RecordView;

    open spec fn view(&self) -> RecordView {
        (self.key@, opt_view(self.value))
    }
}

pub open spec fn entries_view(v: Seq<Entry>) -> Seq<RecordView> {
    v.map_values(|e: Entry| e@)
}

/// Keys strictly increase along the sequence.
pub open spec fn sorted_keys(s: Seq<RecordView>) -> bool {
    forall|i: int, j: int| 0 <= i < j < s.len() ==> lex_lt(#[trigger] s[i].0, #[trigger] s[j].0)
}

/// Every key and value fits the on-disk `u32` length fields.
pub open spec fn record_fits(r: RecordView) -> bool {
    &&& r.0.len() <= MAX_FIELD_LEN
    &&& match r.1 {
        Some(v) => v.len() <= MAX_FIELD_LEN,
        None => true,
    }
}

pub open spec fn all_fit(s: Seq<RecordView>) -> bool {
    forall|i: int| 0 <= i < s.len() ==> record_fits(#[trigger] s[i])
}

/// A well-formed table: sorted keys, all of them storable.
pub open spec fn valid_records(s: Seq<RecordView>) -> bool {
    sorted_keys(s) && all_fit(s)
}

pub open spec fn has_key(s: Seq<RecordView>, k: Seq<u8>) -> bool {
    exists|i: int| 0 <= i < s.len() && s[i].0 == k
}

/// Some position of `k` in `s` (the only one, when keys are sorted).
pub open spec fn key_index(s: Seq<RecordView>, k: Seq<u8>) -> int {
    choose|i: int| 0 <= i < s.len() && s[i].0 == k
}

/// The mapping from key to value (or tombstone) that a sequence of records stands for.
pub open spec fn table_map(s: Seq<RecordView>) -> Map<Seq<u8>, Option<Seq<u8>>> {
    Map::new(|k: Seq<u8>| has_key(s, k), |k: Seq<u8>| s[key_index(s, k)].1)
}

pub proof fn lemma_sorted_unique(s: Seq<RecordView>, i: int, j: int)
    requires
        sorted_keys(s),
        0 <= i < s.len(),
        0 <= j < s.len(),
        s[i].0 == s[j].0,
    ensures
        i == j,
{
    if i != j {
        lemma_lex_irreflexive(s[i].0);
    }
}

pub proof fn lemma_map_at(s: Seq<RecordView>, j: int)
    requires
        sorted_keys(s),
        0 <= j < s.len(),
    ensures
        table_map(s).contains_key(s[j].0),
        table_map(s)[s[j].0] == s[j].1,
{
    let k = s[j].0;
    assert(has_key(s, k));
    let c = key_index(s, k);
    lemma_sorted_unique(s, c, j);
}

/// Copies a byte slice into a fresh vector.
pub fn copy_bytes(b: &[u8]) -> (r: Vec<u8>)
    ensures
        r@ == b@,
{
    slice_to_vec(b)
}

/// Appends the bytes of `b` to `out`.
pub fn extend_bytes(out: &mut Vec<u8>, b: &[u8])
    ensures
        final(out)@ == old(out)@ + b@,
{
    let ghost start = out@;
    let mut i: usize = 0;
    while i < b.len()
        invariant
            i <= b@.len(),
            out@ == start + b@.take(i as int),
        decreases b.len() - i,
    {
        out.push(b[i]);
        assert(b@.take(i + 1) =~= b@.take(i as int).push(b@[i as int]));
        i = i + 1;
    }
    assert(b@.take(i as int) =~= b@);
}

pub fn copy_value(v: &Option<Vec<u8>>) -> (r: Option<Vec<u8>>)
    ensures
        opt_view(r) == opt_view(*v),
{
    match v {
        Some(b) => Some(copy_bytes(b.as_slice())),
        None => None,
    }
}

pub fn copy_entry(e: &Entry) -> (r: Entry)
    ensures
        r@ == e@,
{
    Entry { key: copy_bytes(e.key.as_slice()), value: copy_value(&e.value) }
}

/// An ordered map from byte-string keys to values or tombstones, kept as a
/// vector of records in strictly increasing key order.
pub struct SortedTable {
    entries: Vec<Entry>,
}

impl View for SortedTable {
    type V = Seq<RecordView>;

    closed spec fn view(&self) -> Seq<RecordView> {
        entries_view(self.entries@)
    }
}

impl SortedTable {
    pub open spec fn wf(&self) -> bool {
        valid_records(self@)
    }

    /// The key-to-value mapping this table holds.
    pub open spec fn map(&self) -> Map<Seq<u8>, Option<Seq<u8>>> {
        table_map(self@)
    }

    pub fn new() -> (t: SortedTable)
        ensures
            t.wf(),
            t@ == Seq::<RecordView>::empty(),
            t.map() == Map::<Seq<u8>, Option<Seq<u8>>>::empty(),
    {
        let t = SortedTable { entries: Vec::new() };
        assert(t@ =~= Seq::<RecordView>::empty());
        assert(t.map() =~= Map::<Seq<u8>, Option<Seq<u8>>>::empty());
        t
    }

    pub fn len(&self) -> (n: usize)
        ensures
            n == self@.len(),
    {
        self.entries.len()
    }

    pub fn is_empty(&self) -> (b: bool)
        ensures
            b <==> self@.len() == 0,
    {
        self.entries.len() == 0
    }

    /// The records, in key order.
    pub fn entries(&self) -> (r: &[Entry])
        ensures
            entries_view(r@) == self@,
    {
        self.entries.as_slice()
    }

    /// Where `key` stands: its index and whether it is present; when absent, the
    /// index at which it would be inserted.
    fn locate(&self, key: &[u8]) -> (r: (usize, bool))
        requires
            self.wf(),
        ensures
            r.0 <= self@.len(),
            forall|j: int| 0 <= j < r.0 ==> lex_lt(#[trigger] self@[j].0, key@),
            r.1 ==> r.0 < self@.len() && self@[r.0 as int].0 == key@,
            !r.1 ==> r.0 == self@.len() || lex_lt(key@, self@[r.0 as int].0),
    {
        let mut i: usize = 0;
        while i < self.entries.len()
            invariant
                i <= self@.len(),
                self@.len() == self.entries@.len(),
                forall|j: int| 0 <= j < i ==> lex_lt(#[trigger] self@[j].0, key@),
            decreases self.entries.len() - i,
        {
            let c = compare_keys(self.entries[i].key.as_slice(), key);
            assert(self@[i as int] == self.entries@[i as int]@);
            if c == 0 {
                return (i, true);
            } else if c > 0 {
                return (i, false);
            }
            i = i + 1;
        }
        (i, false)
    }

    /// Looks `key` up: `None` when the table holds no record for it, else its
    /// value or tombstone.
    pub fn get(&self, key: &[u8]) -> (r: Option<Option<Vec<u8>>>)
        requires
            self.wf(),
        ensures
            r is None <==> !self.map().contains_key(key@),
            r matches Some(v) ==> opt_view(v) == self.map()[key@],
    {
        let (i, found) = self.locate(key);
        if found {
            proof {
                lemma_map_at(self@, i as int);
                assert(self@[i as int] == self.entries@[i as int]@);
            }
            Some(copy_value(&self.entries[i].value))
        } else {
            proof {
                assert forall|j: int| 0 <= j < self@.len() implies self@[j].0 != key@ by {
                    if j >= i {
                        if j > i {
                            lemma_lex_transitive(key@, self@[i as int].0, self@[j].0);
                        }
                        lemma_lex_irreflexive(key@);
                    } else {
                        lemma_lex_irreflexive(key@);
                    }
                }
            }
            None
        }
    }

    /// Sets `key` to `value` (a tombstone when `None`), replacing any earlier record.
    pub fn insert(&mut self, key: Vec<u8>, value: Option<Vec<u8>>)
        requires
            old(self).wf(),
            record_fits((key@, opt_view(value))),
        ensures
            final(self).wf(),
            final(self).map() == old(self).map().insert(key@, opt_view(value)),
    {
        let ghost s = self@;
        let ghost k = key@;
        let ghost v = opt_view(value);
        let (i, found) = self.locate(key.as_slice());
        let e = Entry { key, value };
        assert(e@ == (k, v));
        if found {
            self.entries.set(i, e);
            proof {
                assert(self@ =~= s.update(i as int, (k, v)));
            }
        } else {
            self.entries.insert(i, e);
            proof {
                assert(self@ =~= s.insert(i as int, (k, v)));
            }
        }
        let ghost s2 = self@;
        proof {
            if !found {
                assert forall|j: int| i <= j < s.len() implies lex_lt(k, #[trigger] s[j].0) by {
                    if j > i {
                        lemma_lex_transitive(k, s[i as int].0, s[j].0);
                    }
                }
            }
            assert forall|a: int, b: int| 0 <= a < b < s2.len() implies lex_lt(
                #[trigger] s2[a].0,
                #[trigger] s2[b].0,
            ) by {
                if found {
                    if b == i {
                        assert(s2[b].0 == s[b].0);
                    }
                    if a == i {
                        assert(s2[a].0 == s[a].0);
                    }
                } else {
                    if a == i {
                        if b - 1 > i {
                            lemma_lex_transitive(k, s[i as int].0, s[b - 1].0);
                        }
                    } else if b == i {
                    } else if a < i && b > i {
                        lemma_lex_transitive(s[a].0, k, s[b - 1].0);
                    }
                }
            }
            assert forall|a: int| 0 <= a < s2.len() implies record_fits(#[trigger] s2[a]) by {
                if a != i {
                    if found || a < i {
                        assert(s2[a] == s[a]);
                    } else {
                        assert(s2[a] == s[a - 1]);
                    }
                }
            }
            let m = table_map(s).insert(k, v);
            assert forall|kk: Seq<u8>|
                #![trigger table_map(s2).dom().contains(kk)]
                #![trigger m.dom().contains(kk)]
                table_map(s2).contains_key(kk) == m.contains_key(kk) && (m.contains_key(kk)
                    ==> table_map(s2)[kk] == m[kk]) by {
                if kk == k {
                    lemma_map_at(s2, i as int);
                } else if has_key(s, kk) {
                    let j = key_index(s, kk);
                    lemma_map_at(s, j);
                    if found || j < i {
                        assert(s2[j] == s[j]);
                        lemma_map_at(s2, j);
                    } else {
                        assert(s2[j + 1] == s[j]);
                        lemma_map_at(s2, j + 1);
                    }
                } else {
                    assert forall|j: int| 0 <= j < s2.len() implies s2[j].0 != kk by {
                        if j != i {
                            if found || j < i {
                                assert(s2[j] == s[j]);
                            } else {
                                assert(s2[j] == s[j - 1]);
                            }
                        }
                    }
                }
            }
            assert(table_map(s2) =~= m);
        }
    }

    /// Drops whatever record `key` has, leaving no trace of it.
    pub fn remove(&mut self, key: &[u8])
        requires
            old(self).wf(),
        ensures
            final(self).wf(),
            final(self).map() == old(self).map().remove(key@),
    {
        let ghost s = self@;
        let (i, found) = self.locate(key);
        if !found {
            proof {
                assert forall|j: int| 0 <= j < s.len() implies s[j].0 != key@ by {
                    if j > i {
                        lemma_lex_transitive(key@, s[i as int].0, s[j].0);
                    }
                    lemma_lex_irreflexive(key@);
                }
                assert(table_map(s).remove(key@) =~= table_map(s));
            }
            return;
        }
        let _ = self.entries.remove(i);
        let ghost s2 = self@;
        proof {
            assert(s2 =~= s.remove(i as int));
            let m = table_map(s).remove(key@);
            assert forall|kk: Seq<u8>|
                #![trigger table_map(s2).dom().contains(kk)]
                #![trigger m.dom().contains(kk)]
                table_map(s2).contains_key(kk) == m.contains_key(kk) && (m.contains_key(kk)
                    ==> table_map(s2)[kk] == m[kk]) by {
                if kk == key@ {
                    assert forall|j: int| 0 <= j < s2.len() implies s2[j].0 != kk by {
                        if j < i {
                            assert(s2[j] == s[j]);
                            if s[j].0 == kk {
                                lemma_sorted_unique(s, j, i as int);
                            }
                        } else {
                            assert(s2[j] == s[j + 1]);
                            if s[j + 1].0 == kk {
                                lemma_sorted_unique(s, j + 1, i as int);
                            }
                        }
                    }
                } else if has_key(s, kk) {
                    let j = key_index(s, kk);
                    lemma_map_at(s, j);
                    if j < i {
                        assert(s2[j] == s[j]);
                        lemma_map_at(s2, j);
                    } else {
                        assert(s2[j - 1] == s[j]);
                        lemma_map_at(s2, j - 1);
                    }
                } else {
                    assert forall|j: int| 0 <= j < s2.len() implies s2[j].0 != kk by {
                        if j < i {
                            assert(s2[j] == s[j]);
                        } else {
                            assert(s2[j] == s[j + 1]);
                        }
                    }
                }
            }
            assert(table_map(s2) =~= m);
        }
    }

    /// Builds a table from records already in strictly increasing key order.
    pub fn from_sorted(entries: Vec<Entry>) -> (t: SortedTable)
        requires
            valid_records(entries_view(entries@)),
        ensures
            t.wf(),
            t@ == entries_view(entries@),
    {
        SortedTable { entries }
    }

    /// Gives the records up, in key order.
    pub fn into_entries(self) -> (v: Vec<Entry>)
        ensures
            entries_view(v@) == self@,
    {
        self.entries
    }
}

} // verus!
