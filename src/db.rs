//! The database façade: the memtable in front of the SSTable files, with every
//! mutation written to the log before the memtable sees it.
use vstd::prelude::*;
use vstd::string::StringSliceAdditionalSpecFns;
use vstd::utf8::{encode_utf8, valid_utf8};

use crate::engine::{images_view, visible, SSTableEngine};
use crate::error::DbError;
use crate::order::lex_lt;
use crate::table::{copy_bytes, SortedTable, MAX_FIELD_LEN};
use crate::wal::{
    is_single_token, join_from, join_spaced, law_logged_delete_marks, law_logged_set_survives,
    lemma_joined_is_normal, line_of, replay_batch, replay_batch_lines, single_token, tokens_view,
    Mutation, MutationView,
};

verus! {

/// Somewhere log lines go: `append` returns once the line is durable, or
/// fails with `WalStoreFailed`.
///
/// A sink verified here describes itself through `modelled`, `log` (the lines
/// it holds, oldest first) and `accepts` (an append certain to succeed). A sink
/// written outside verified code keeps the defaults: it is not `modelled`, so
/// it promises nothing about its lines, and it accepts nothing in advance.
pub trait WalSink {
    closed spec fn modelled(&self) -> bool {
        false
    }

    closed spec fn log(&self) -> Seq<Seq<u8>> {
        Seq::empty()
    }

    closed spec fn accepts(&self, line: Seq<u8>) -> bool {
        false
    }

    fn append(&mut self, line: &[u8]) -> (r: Result<(), DbError>)
        ensures
            r matches Err(e) ==> e is WalStoreFailed,
            final(self).modelled() == old(self).modelled(),
            old(self).modelled() ==> {
                &&& r is Ok ==> final(self).log() == old(self).log().push(line@)
                &&& r is Err ==> final(self).log() == old(self).log()
                &&& old(self).accepts(line@) ==> r is Ok
            },
    ;
}

/// A log kept in memory, line by line; it accepts every line.
pub struct MemoryWal {
    pub lines: Vec<Vec<u8>>,
}

impl MemoryWal {
    pub fn new() -> (w: MemoryWal)
        ensures
            w.modelled(),
            w.log() == Seq::<Seq<u8>>::empty(),
    {
        let w = MemoryWal { lines: Vec::new() };
        assert(w.log() =~= Seq::<Seq<u8>>::empty());
        w
    }
}

impl WalSink for MemoryWal {
    open spec fn modelled(&self) -> bool {
        true
    }

    open spec fn log(&self) -> Seq<Seq<u8>> {
        self.lines@.map_values(|l: Vec<u8>| l@)
    }

    open spec fn accepts(&self, line: Seq<u8>) -> bool {
        true
    }

    fn append(&mut self, line: &[u8]) -> (r: Result<(), DbError>) {
        let ghost before = self.log();
        self.lines.push(copy_bytes(line));
        assert(self.log() =~= before.push(line@));
        Ok(())
    }
}

/// The UTF-8 bytes of each word.
pub open spec fn words_bytes(parts: Seq<&str>) -> Seq<Seq<u8>> {
    parts.map_values(|p: &str| p.spec_bytes())
}

/// Every word of `parts` from `from` on is a single word the log can carry.
pub open spec fn words_from(parts: Seq<&str>, from: int) -> bool {
    forall|i: int| from <= i < parts.len() ==> single_token(#[trigger] parts[i].spec_bytes())
}

/// The mutation a `SET` command asks for, if it is well formed: a key and at
/// least one value word, all of them words without whitespace (so that the
/// logged line reads back the same), and lengths that fit the file format.
pub open spec fn set_request(parts: Seq<&str>) -> Option<MutationView> {
    if parts.len() < 3 || !words_from(parts, 1) {
        None
    } else {
        let k = parts[1].spec_bytes();
        let v = join_spaced(words_bytes(parts).skip(2));
        if k.len() <= MAX_FIELD_LEN && v.len() <= MAX_FIELD_LEN {
            Some(MutationView::Put(k, v))
        } else {
            None
        }
    }
}

/// The mutation a `DELETE` command asks for, if it is well formed: a key that
/// is one word; further words are ignored.
pub open spec fn delete_request(parts: Seq<&str>) -> Option<MutationView> {
    if parts.len() < 2 || !single_token(parts[1].spec_bytes()) || parts[1].spec_bytes().len()
        > MAX_FIELD_LEN {
        None
    } else {
        Some(MutationView::Delete(parts[1].spec_bytes()))
    }
}

/// The memtable after a mutation: a delete leaves a tombstone, so that older
/// SSTable records stay hidden.
pub open spec fn apply_mutation(m: Map<Seq<u8>, Option<Seq<u8>>>, mu: MutationView) -> Map<
    Seq<u8>,
    Option<Seq<u8>>,
> {
    match mu {
        MutationView::Put(k, v) => m.insert(k, Some(v)),
        MutationView::Delete(k) => m.insert(k, None),
    }
}

/// What a read of `k` sees: the memtable decides any key it holds, the files
/// (newest first) the rest.
pub open spec fn db_read(m: Map<Seq<u8>, Option<Seq<u8>>>, imgs: Seq<Seq<u8>>, k: Seq<u8>) -> Option<
    Seq<u8>,
> {
    if m.contains_key(k) {
        m[k]
    } else {
        visible(imgs, k)
    }
}

pub open spec fn mutation_fits(m: MutationView) -> bool {
    match m {
        MutationView::Put(k, v) => k.len() <= MAX_FIELD_LEN && v.len() <= MAX_FIELD_LEN,
        MutationView::Delete(k) => k.len() <= MAX_FIELD_LEN,
    }
}

/// Relies on `String::from_utf8`: it succeeds exactly on valid UTF-8, and the
/// string it gives has those bytes as its encoding.
#[verifier::external_body]
fn string_from_utf8(b: Vec<u8>) -> (r: Option<String>)
    ensures
        r is Some <==> valid_utf8(b@),
        r matches Some(s) ==> encode_utf8(s@) == b@,
{
    String::from_utf8(b).ok()
}

fn str_to_owned(s: &str) -> (r: String)
    ensures
        r@ == s@,
{
    s.to_owned()
}

/// The UTF-8 bytes of each word.
fn words_of(parts: &[&str]) -> (r: Vec<Vec<u8>>)
    ensures
        tokens_view(r@) == words_bytes(parts@),
{
    let mut out: Vec<Vec<u8>> = Vec::new();
    let mut i: usize = 0;
    while i < parts.len()
        invariant
            i <= parts@.len(),
            tokens_view(out@) == words_bytes(parts@).take(i as int),
        decreases parts.len() - i,
    {
        let ghost before = tokens_view(out@);
        out.push(copy_bytes(parts[i].as_bytes()));
        assert(tokens_view(out@) =~= before.push(parts@[i as int].spec_bytes()));
        assert(words_bytes(parts@).take(i + 1) =~= words_bytes(parts@).take(i as int).push(
            parts@[i as int].spec_bytes(),
        ));
        i = i + 1;
    }
    assert(words_bytes(parts@).take(i as int) =~= words_bytes(parts@));
    out
}

/// The mutation for `SET <key> <value...>`: the value is every word after the
/// key, joined by single spaces.
pub fn prepare_set(parts: &[&str]) -> (r: Result<Mutation, DbError>)
    ensures
        match set_request(parts@) {
            Some(m) => r matches Ok(x) && x@ == m,
            None => r matches Err(e) && e is InvalidCommand,
        },
{
    if parts.len() < 3 {
        return Err(
            DbError::InvalidCommand("Invalid SET instruction. It needs a key and value".to_string()),
        );
    }
    let words = words_of(parts);
    let ghost wv = words_bytes(parts@);
    assert(words@.len() == tokens_view(words@).len());
    assert(wv.len() == parts@.len());
    let mut i: usize = 1;
    while i < words.len()
        invariant
            1 <= i <= words@.len(),
            words@.len() == parts@.len(),
            tokens_view(words@) == wv,
            wv == words_bytes(parts@),
            forall|j: int| 1 <= j < i ==> single_token(#[trigger] parts@[j].spec_bytes()),
        decreases words.len() - i,
    {
        assert(wv[i as int] == words@[i as int]@);
        if !is_single_token(words[i].as_slice()) {
            return Err(DbError::InvalidCommand("SET key and value must be plain words".to_string()));
        }
        i = i + 1;
    }
    assert(words@[1]@ == wv[1]);
    let key = copy_bytes(words[1].as_slice());
    let value = join_from(&words, 2);
    if key.len() > MAX_FIELD_LEN || value.len() > MAX_FIELD_LEN {
        return Err(DbError::InvalidCommand("SET key or value too long".to_string()));
    }
    Ok(Mutation::Put { key, value })
}

/// The mutation for `DELETE <key>`.
pub fn prepare_delete(parts: &[&str]) -> (r: Result<Mutation, DbError>)
    ensures
        match delete_request(parts@) {
            Some(m) => r matches Ok(x) && x@ == m,
            None => r matches Err(e) && e is InvalidCommand,
        },
{
    if parts.len() < 2 {
        return Err(
            DbError::InvalidCommand(
                "Number of argument too low for delete. Need to know the key".to_string(),
            ),
        );
    }
    let b = parts[1].as_bytes();
    if !is_single_token(b) {
        return Err(DbError::InvalidCommand("DELETE key must be a plain word".to_string()));
    }
    if b.len() > MAX_FIELD_LEN {
        return Err(DbError::InvalidCommand("DELETE key too long".to_string()));
    }
    Ok(Mutation::Delete { key: copy_bytes(b) })
}

/// The memtable, in front of the SSTable files.
pub struct Db {
    pub data: SortedTable,
    pub engine: SSTableEngine,
}

impl Db {
    pub open spec fn wf(&self) -> bool {
        self.data.wf()
    }

    /// A database over the SSTable files of `engine`, whose memtable starts as `data`.
    pub fn new(engine: SSTableEngine, data: SortedTable) -> (db: Db)
        requires
            data.wf(),
        ensures
            db.wf(),
            db.data@ == data@,
            db.engine == engine,
    {
        Db { data, engine }
    }

    /// A database restarted from its log: the memtable holds what replaying
    /// every logged line, oldest first, gives (deletes as tombstones).
    pub fn recover(engine: SSTableEngine, lines: &[Vec<u8>]) -> (db: Db)
        ensures
            db.wf(),
            db.data.map() == replay_batch(tokens_view(lines@)),
            db.engine == engine,
    {
        Db { data: replay_batch_lines(lines), engine }
    }

    /// Applies a mutation once the log has answered: only after a successful
    /// append does the memtable change; a failed append is handed back.
    pub fn commit(&mut self, m: Mutation, logged: Result<(), DbError>) -> (r: Result<(), DbError>)
        requires
            old(self).wf(),
            mutation_fits(m@),
        ensures
            final(self).wf(),
            r == logged,
            logged is Ok ==> final(self).data.map() == apply_mutation(old(self).data.map(), m@),
            logged is Err ==> final(self).data@ == old(self).data@,
    {
        if logged.is_err() {
            return logged;
        }
        match m {
            Mutation::Put { key, value } => {
                self.data.insert(key, Some(value));
            },
            Mutation::Delete { key } => {
                self.data.insert(key, None);
            },
        }
        logged
    }

    /// `SET <key> <value...>`: appends the mutation's line to `wal`, and only
    /// once that succeeded applies it to the memtable.
    pub fn handle_set<W: WalSink>(&mut self, parts: &[&str], wal: &mut W) -> (r: Result<(), DbError>)
        requires
            old(self).wf(),
        ensures
            final(self).wf(),
            set_request(parts@) is None <==> (r matches Err(e) && e is InvalidCommand),
            set_request(parts@) is Some ==> (r matches Err(e) ==> e is WalStoreFailed),
            r is Err ==> final(self).data@ == old(self).data@,
            r is Ok ==> ({
                let m = set_request(parts@)->Some_0;
                &&& set_request(parts@) is Some
                &&& final(self).data.map() == apply_mutation(old(self).data.map(), m)
            }),
            final(wal).modelled() == old(wal).modelled(),
            old(wal).modelled() ==> ({
                let m = set_request(parts@)->Some_0;
                &&& r is Ok ==> final(wal).log() == old(wal).log().push(line_of(m))
                &&& r is Err ==> final(wal).log() == old(wal).log()
                &&& (set_request(parts@) is Some && old(wal).accepts(line_of(m))) ==> r is Ok
            }),
    {
        let m = prepare_set(parts)?;
        let line = m.to_line();
        let logged = wal.append(line.as_slice());
        self.commit(m, logged)
    }

    /// `DELETE <key>`: appends the mutation's line to `wal`, and only once that
    /// succeeded leaves a tombstone in the memtable.
    pub fn handle_delete<W: WalSink>(&mut self, parts: &[&str], wal: &mut W) -> (r: Result<(), DbError>)
        requires
            old(self).wf(),
        ensures
            final(self).wf(),
            delete_request(parts@) is None <==> (r matches Err(e) && e is InvalidCommand),
            delete_request(parts@) is Some ==> (r matches Err(e) ==> e is WalStoreFailed),
            r is Err ==> final(self).data@ == old(self).data@,
            r is Ok ==> ({
                let m = delete_request(parts@)->Some_0;
                &&& delete_request(parts@) is Some
                &&& final(self).data.map() == apply_mutation(old(self).data.map(), m)
            }),
            final(wal).modelled() == old(wal).modelled(),
            old(wal).modelled() ==> ({
                let m = delete_request(parts@)->Some_0;
                &&& r is Ok ==> final(wal).log() == old(wal).log().push(line_of(m))
                &&& r is Err ==> final(wal).log() == old(wal).log()
                &&& (delete_request(parts@) is Some && old(wal).accepts(line_of(m))) ==> r is Ok
            }),
    {
        let m = prepare_delete(parts)?;
        let line = m.to_line();
        let logged = wal.append(line.as_slice());
        self.commit(m, logged)
    }

    /// `GET <key>`: the memtable first, then the SSTable files `files`, newest first.
    pub fn handle_get(&self, parts: &[&str], files: &[Vec<u8>]) -> (r: Result<String, DbError>)
        requires
            self.wf(),
        ensures
            parts@.len() < 2 ==> (r matches Err(e) && e is InvalidCommand),
            parts@.len() >= 2 ==> ({
                let seen = db_read(self.data.map(), images_view(files@), parts@[1].spec_bytes());
                &&& seen is None ==> (r matches Err(DbError::KeyNotFound(k)) && k@ == parts@[1]@)
                &&& seen matches Some(v) ==> (r is Ok <==> valid_utf8(v))
                &&& seen matches Some(v) ==> (r matches Ok(s) ==> encode_utf8(s@) == v)
                &&& seen matches Some(v) ==> (r matches Err(e) ==> e is SSTableReadFailed)
            }),
    {
        if parts.len() < 2 {
            return Err(DbError::InvalidCommand("Invalid GET instruction. It needs the key".to_string()));
        }
        let key = parts[1].as_bytes();
        let found = match self.data.get(key) {
            Some(v) => v,
            None => self.engine.get_value(files, key),
        };
        match found {
            None => Err(DbError::KeyNotFound(str_to_owned(parts[1]))),
            Some(v) => match string_from_utf8(v) {
                Some(s) => Ok(s),
                None => Err(DbError::SSTableReadFailed("value is not UTF-8".to_string())),
            },
        }
    }

    /// The keys the memtable holds a value for, in key order (`GET_KEYS`).
    pub fn list_keys(&self) -> (r: Vec<Vec<u8>>)
        requires
            self.wf(),
        ensures
            forall|i: int| 0 <= i < r@.len() ==> self.data.map().contains_key(#[trigger] r@[i]@)
                && self.data.map()[r@[i]@] is Some,
            forall|k: Seq<u8>| #[trigger] self.data.map().contains_key(k) && self.data.map()[k] is Some
                ==> exists|i: int| 0 <= i < r@.len() && r@[i]@ == k,
            forall|i: int, j: int| 0 <= i < j < r@.len() ==> lex_lt(#[trigger] r@[i]@, #[trigger] r@[j]@),
    {
        let ents = self.data.entries();
        let ghost s = self.data@;
        let mut out: Vec<Vec<u8>> = Vec::new();
        let ghost picked: Seq<int> = Seq::empty();
        let mut i: usize = 0;
        while i < ents.len()
            invariant
                self.wf(),
                s == self.data@,
                crate::table::entries_view(ents@) == s,
                i <= s.len(),
                picked.len() == out@.len(),
                forall|a: int| 0 <= a < picked.len() ==> 0 <= #[trigger] picked[a] < i && out@[a]@ == s[picked[a]].0
                    && s[picked[a]].1 is Some,
                forall|a: int, b: int| 0 <= a < b < picked.len() ==> #[trigger] picked[a] < #[trigger] picked[b],
                forall|x: int| 0 <= x < i && (#[trigger] s[x]).1 is Some ==> exists|a: int|
                    0 <= a < picked.len() && picked[a] == x,
            decreases ents.len() - i,
        {
            proof {
                assert(ents@[i as int]@ == s[i as int]);
            }
            let ghost before = picked;
            if ents[i].value.is_some() {
                let k = copy_bytes(ents[i].key.as_slice());
                out.push(k);
                proof {
                    picked = picked.push(i as int);
                }
            }
            proof {
                assert forall|x: int| 0 <= x < i + 1 && (#[trigger] s[x]).1 is Some implies exists|a: int|
                    0 <= a < picked.len() && picked[a] == x by {
                    if x < i {
                        let a = choose|a: int| 0 <= a < before.len() && before[a] == x;
                        assert(picked[a] == x);
                    } else {
                        assert(picked[picked.len() - 1] == x);
                    }
                }
            }
            i = i + 1;
        }
        proof {
            assert forall|a: int| 0 <= a < out@.len() implies self.data.map().contains_key(#[trigger] out@[a]@)
                && self.data.map()[out@[a]@] is Some by {
                crate::table::lemma_map_at(s, picked[a]);
            }
            assert forall|k: Seq<u8>| #[trigger] self.data.map().contains_key(k) && self.data.map()[k]
                is Some implies exists|a: int| 0 <= a < out@.len() && out@[a]@ == k by {
                let x = crate::table::key_index(s, k);
                crate::table::lemma_map_at(s, x);
                let a = choose|a: int| 0 <= a < picked.len() && picked[a] == x;
                assert(out@[a]@ == k);
            }
            assert forall|a: int, b: int| 0 <= a < b < out@.len() implies lex_lt(
                #[trigger] out@[a]@,
                #[trigger] out@[b]@,
            ) by {
                assert(picked[a] < picked[b]);
            }
        }
        out
    }
}

/// A read after two writes of the same key returns the second value, whatever
/// the memtable held before and whatever the SSTable files hold.
pub proof fn law_latest_write_wins(
    m: Map<Seq<u8>, Option<Seq<u8>>>,
    imgs: Seq<Seq<u8>>,
    k: Seq<u8>,
    v1: Seq<u8>,
    v2: Seq<u8>,
)
    ensures
        db_read(
            apply_mutation(apply_mutation(m, MutationView::Put(k, v1)), MutationView::Put(k, v2)),
            imgs,
            k,
        ) == Some(v2),
{
}

/// After a key is set and then deleted, reads of it find nothing, whatever
/// older SSTable files still hold for it.
pub proof fn law_delete_hides(m: Map<Seq<u8>, Option<Seq<u8>>>, imgs: Seq<Seq<u8>>, k: Seq<u8>, v: Seq<u8>)
    ensures
        db_read(
            apply_mutation(apply_mutation(m, MutationView::Put(k, v)), MutationView::Delete(k)),
            imgs,
            k,
        ) is None,
{
}

/// A SET the façade accepts reaches the log as a line that replay reads back
/// as the same key and value: once `handle_set` has returned `Ok`, a restart
/// that replays the log, up to and including that line, sees the value.
pub proof fn law_accepted_set_survives(parts: Seq<&str>, before: Seq<Seq<u8>>)
    requires
        set_request(parts) is Some,
    ensures
        ({
            let m = set_request(parts)->Some_0;
            &&& m is Put
            &&& replay_batch(before.push(line_of(m))).contains_key(m->Put_0)
            &&& replay_batch(before.push(line_of(m)))[m->Put_0] == Some(m->Put_1)
        }),
{
    let ws = words_bytes(parts).skip(2);
    assert forall|i: int| 0 <= i < ws.len() implies single_token(#[trigger] ws[i]) by {
        assert(ws[i] == parts[i + 2].spec_bytes());
    }
    lemma_joined_is_normal(ws);
    assert(single_token(parts[1].spec_bytes()));
    law_logged_set_survives(before, parts[1].spec_bytes(), join_spaced(ws));
}

/// A DELETE the façade accepts reaches the log as a line that replay reads
/// back as a tombstone for the key.
pub proof fn law_accepted_delete_survives(parts: Seq<&str>, before: Seq<Seq<u8>>)
    requires
        delete_request(parts) is Some,
    ensures
        ({
            let m = delete_request(parts)->Some_0;
            &&& m is Delete
            &&& replay_batch(before.push(line_of(m))).contains_key(m->Delete_0)
            &&& replay_batch(before.push(line_of(m)))[m->Delete_0] is None
        }),
{
    law_logged_delete_marks(before, parts[1].spec_bytes());
}

} // verus!
