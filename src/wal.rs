//! The write-ahead log: one text line per mutation, `<OP> <KEY> <VALUE>\n`,
//! and the replay of such lines into a sorted table.
use vstd::prelude::*;
use vstd::string::StringSliceAdditionalSpecFns;

use crate::table::{extend_bytes, copy_bytes, SortedTable, MAX_FIELD_LEN};

verus! {

/// A mutation as the log records it.
#[derive(Debug, Clone, PartialEq, Eq)]
pub enum Mutation {
    Put { key: Vec<u8>, value: Vec<u8> },
    Delete { key: Vec<u8> },
}

/// A mutation over plain byte sequences.
pub enum MutationView {
    Put(Seq<u8>, Seq<u8>),
    Delete(Seq<u8>),
}

impl View for Mutation {
    type V = MutationView;

    open spec fn view(&self) -> MutationView {
        match self {
            Mutation::Put { key, value } => MutationView::Put(key@, value@),
            Mutation::Delete { key } => MutationView::Delete(key@),
        }
    }
}

/// The bytes that separate the fields of a log line.
pub open spec fn is_ws(c: u8) -> bool {
    c == 32 || c == 9 || c == 10 || c == 11 || c == 12 || c == 13
}

/// Scans `s` left to right: the finished tokens and the token being read.
pub open spec fn scan(s: Seq<u8>) -> (Seq<Seq<u8>>, Seq<u8>)
    decreases s.len(),
{
    if s.len() == 0 {
        (Seq::empty(), Seq::empty())
    } else {
        let (done, cur) = scan(s.drop_last());
        if is_ws(s.last()) {
            if cur.len() > 0 {
                (done.push(cur), Seq::empty())
            } else {
                (done, Seq::empty())
            }
        } else {
            (done, cur.push(s.last()))
        }
    }
}

/// The maximal runs of non-whitespace bytes of `s`, in order.
pub open spec fn tokens(s: Seq<u8>) -> Seq<Seq<u8>> {
    let (done, cur) = scan(s);
    if cur.len() > 0 {
        done.push(cur)
    } else {
        done
    }
}

/// Tokens joined with single spaces.
pub open spec fn join_spaced(ts: Seq<Seq<u8>>) -> Seq<u8>
    decreases ts.len(),
{
    if ts.len() == 0 {
        Seq::empty()
    } else if ts.len() == 1 {
        ts[0]
    } else {
        join_spaced(ts.drop_last()) + seq![32u8] + ts.last()
    }
}

/// "SET"
pub open spec fn set_word() -> Seq<u8> {
    seq![83u8, 69, 84]
}

/// "DELETE"
pub open spec fn delete_word() -> Seq<u8> {
    seq![68u8, 69, 76, 69, 84, 69]
}

/// The mutation a log line stands for. A SET needs a key and a value (the
/// value is every token after the key, joined by single spaces); a DELETE
/// needs a key. Anything else, or a field too long to store, is no mutation.
pub open spec fn parse_line(line: Seq<u8>) -> Option<MutationView> {
    let ts = tokens(line);
    if ts.len() >= 3 && ts[0] == set_word() {
        let v = join_spaced(ts.skip(2));
        if ts[1].len() <= MAX_FIELD_LEN && v.len() <= MAX_FIELD_LEN {
            Some(MutationView::Put(ts[1], v))
        } else {
            None
        }
    } else if ts.len() >= 2 && ts[0] == delete_word() {
        if ts[1].len() <= MAX_FIELD_LEN {
            Some(MutationView::Delete(ts[1]))
        } else {
            None
        }
    } else {
        None
    }
}

/// The log line for a mutation: `SET <k> <v>\n`, or `DELETE <k> \n`.
pub open spec fn line_of(m: MutationView) -> Seq<u8> {
    match m {
        MutationView::Put(k, v) => set_word() + seq![32u8] + k + seq![32u8] + v + seq![10u8],
        MutationView::Delete(k) => delete_word() + seq![32u8] + k + seq![32u8, 10u8],
    }
}

pub open spec fn tokens_view(v: Seq<Vec<u8>>) -> Seq<Seq<u8>> {
    v.map_values(|t: Vec<u8>| t@)
}

/// Splits a line into its whitespace-separated tokens.
pub fn split_tokens(line: &[u8]) -> (r: Vec<Vec<u8>>)
    ensures
        tokens_view(r@) == tokens(line@),
{
    let mut done: Vec<Vec<u8>> = Vec::new();
    let mut cur: Vec<u8> = Vec::new();
    let mut i: usize = 0;
    assert(line@.take(0) =~= Seq::<u8>::empty());
    while i < line.len()
        invariant
            i <= line@.len(),
            (tokens_view(done@), cur@) == scan(line@.take(i as int)),
        decreases line.len() - i,
    {
        let c = line[i];
        proof {
            assert(line@.take(i + 1).drop_last() =~= line@.take(i as int));
            assert(line@.take(i + 1).last() == c);
        }
        let ghost d0 = tokens_view(done@);
        if c == 32 || c == 9 || c == 10 || c == 11 || c == 12 || c == 13 {
            if cur.len() > 0 {
                let t = cur;
                done.push(t);
                cur = Vec::new();
                assert(tokens_view(done@) =~= d0.push(t@));
            } else {
                cur = Vec::new();
            }
            assert(cur@ =~= Seq::<u8>::empty());
        } else {
            cur.push(c);
        }
        i = i + 1;
    }
    assert(line@.take(i as int) =~= line@);
    if cur.len() > 0 {
        let ghost d0 = tokens_view(done@);
        let t = cur;
        done.push(t);
        assert(tokens_view(done@) =~= d0.push(t@));
    }
    done
}

/// Joins `ts[from..]` with single spaces.
pub fn join_from(ts: &Vec<Vec<u8>>, from: usize) -> (r: Vec<u8>)
    requires
        from <= ts@.len(),
    ensures
        r@ == join_spaced(tokens_view(ts@).skip(from as int)),
{
    let ghost all = tokens_view(ts@);
    let mut out: Vec<u8> = Vec::new();
    let mut i: usize = from;
    assert(all.skip(from as int).take(0) =~= Seq::<Seq<u8>>::empty());
    while i < ts.len()
        invariant
            from <= i <= ts@.len(),
            all == tokens_view(ts@),
            out@ == join_spaced(all.skip(from as int).take(i - from)),
        decreases ts.len() - i,
    {
        let ghost part = all.skip(from as int).take(i - from + 1);
        proof {
            assert(part.drop_last() =~= all.skip(from as int).take(i - from));
            assert(part.last() == ts@[i as int]@);
        }
        if i > from {
            out.push(32u8);
        }
        let t = ts[i].as_slice();
        let mut j: usize = 0;
        let ghost base = out@;
        while j < t.len()
            invariant
                j <= t@.len(),
                out@ == base + t@.take(j as int),
            decreases t.len() - j,
        {
            out.push(t[j]);
            assert(t@.take(j + 1) =~= t@.take(j as int).push(t@[j as int]));
            j = j + 1;
        }
        proof {
            assert(t@.take(j as int) =~= t@);
            if i == from {
                assert(part.len() == 1);
                assert(out@ =~= join_spaced(part));
            } else {
                assert(out@ =~= join_spaced(part));
            }
        }
        i = i + 1;
    }
    assert(all.skip(from as int).take(i - from) =~= all.skip(from as int));
    out
}

/// Reads one log line. Malformed lines and unknown operations give `None`.
pub fn parse_wal_line(line: &[u8]) -> (r: Option<Mutation>)
    ensures
        match r {
            Some(m) => parse_line(line@) == Some(m@),
            None => parse_line(line@) is None,
        },
{
    let ts = split_tokens(line);
    let ghost tv = tokens_view(ts@);
    if ts.len() == 0 {
        return None;
    }
    let set_w: [u8; 3] = [83u8, 69, 84];
    let del_w: [u8; 6] = [68u8, 69, 76, 69, 84, 69];
    assert(set_w@ =~= set_word());
    assert(del_w@ =~= delete_word());
    assert(tv[0] == ts@[0]@);
    if ts.len() >= 3 && crate::codec::bytes_equal(ts[0].as_slice(), set_w.as_slice()) {
        let v = join_from(&ts, 2);
        assert(tv[1] == ts@[1]@);
        if ts[1].len() <= MAX_FIELD_LEN && v.len() <= MAX_FIELD_LEN {
            let key = copy_bytes(ts[1].as_slice());
            return Some(Mutation::Put { key, value: v });
        }
        return None;
    }
    if ts.len() >= 2 && crate::codec::bytes_equal(ts[0].as_slice(), del_w.as_slice()) {
        assert(tv[1] == ts@[1]@);
        if ts[1].len() <= MAX_FIELD_LEN {
            let key = copy_bytes(ts[1].as_slice());
            return Some(Mutation::Delete { key });
        }
        return None;
    }
    if ts.len() >= 3 {
        assert(tv[0] != set_word());
    }
    None
}

impl Mutation {
    /// The line that records this mutation in the log.
    pub fn to_line(&self) -> (r: Vec<u8>)
        ensures
            r@ == line_of(self@),
    {
        let mut out: Vec<u8> = Vec::new();
        match self {
            Mutation::Put { key, value } => {
                out.push(83u8);
                out.push(69u8);
                out.push(84u8);
                out.push(32u8);
                extend_bytes(&mut out, key.as_slice());
                out.push(32u8);
                extend_bytes(&mut out, value.as_slice());
                out.push(10u8);
            },
            Mutation::Delete { key } => {
                out.push(68u8);
                out.push(69u8);
                out.push(76u8);
                out.push(69u8);
                out.push(84u8);
                out.push(69u8);
                out.push(32u8);
                extend_bytes(&mut out, key.as_slice());
                out.push(32u8);
                out.push(10u8);
            },
        }
        assert(out@ =~= line_of(self@));
        out
    }
}

/// The table after a log line is replayed into it, deletes removing the key.
pub open spec fn replay_removing(m: Map<Seq<u8>, Option<Seq<u8>>>, line: Seq<u8>) -> Map<
    Seq<u8>,
    Option<Seq<u8>>,
> {
    match parse_line(line) {
        Some(MutationView::Put(k, v)) => m.insert(k, Some(v)),
        Some(MutationView::Delete(k)) => m.remove(k),
        None => m,
    }
}

/// The table after a log line is replayed into it, deletes leaving a tombstone.
pub open spec fn replay_marking(m: Map<Seq<u8>, Option<Seq<u8>>>, line: Seq<u8>) -> Map<
    Seq<u8>,
    Option<Seq<u8>>,
> {
    match parse_line(line) {
        Some(MutationView::Put(k, v)) => m.insert(k, Some(v)),
        Some(MutationView::Delete(k)) => m.insert(k, None),
        None => m,
    }
}

/// The batch that a flush builds from log lines, in the order they were written.
pub open spec fn replay_batch(lines: Seq<Seq<u8>>) -> Map<Seq<u8>, Option<Seq<u8>>>
    decreases lines.len(),
{
    if lines.len() == 0 {
        Map::empty()
    } else {
        replay_marking(replay_batch(lines.drop_last()), lines.last())
    }
}

/// Replays one line into `map`, a DELETE leaving a tombstone.
pub fn replay_line_marking(map: &mut SortedTable, line: &[u8])
    requires
        old(map).wf(),
    ensures
        final(map).wf(),
        final(map).map() == replay_marking(old(map).map(), line@),
{
    match parse_wal_line(line) {
        Some(Mutation::Put { key, value }) => {
            map.insert(key, Some(value));
        },
        Some(Mutation::Delete { key }) => {
            map.insert(key, None);
        },
        None => {},
    }
}

/// Replays the lines of aged log segments, oldest first, into a fresh table:
/// the batch that one flush writes out.
pub fn replay_batch_lines(lines: &[Vec<u8>]) -> (t: SortedTable)
    ensures
        t.wf(),
        t.map() == replay_batch(tokens_view(lines@)),
{
    let ghost lv = tokens_view(lines@);
    let mut t = SortedTable::new();
    let mut i: usize = 0;
    assert(lv.take(0) =~= Seq::<Seq<u8>>::empty());
    while i < lines.len()
        invariant
            lv == tokens_view(lines@),
            i <= lines@.len(),
            t.wf(),
            t.map() == replay_batch(lv.take(i as int)),
        decreases lines.len() - i,
    {
        replay_line_marking(&mut t, lines[i].as_slice());
        proof {
            assert(lv.take(i + 1).drop_last() =~= lv.take(i as int));
            assert(lv.take(i + 1).last() == lines@[i as int]@);
        }
        i = i + 1;
    }
    assert(lv.take(i as int) =~= lv);
    t
}

/// The log directory.
pub struct Wal {
    pub file_dir: String,
}

impl Wal {
    pub fn new(file_path: String) -> (w: Wal)
        ensures
            w.file_dir@ == file_path@,
    {
        Wal { file_dir: file_path }
    }

    /// Replays one log line into `map`: a SET sets the key, a DELETE removes it;
    /// malformed lines and unknown operations are skipped.
    pub fn store_wals_to_map(&self, instruction: &str, map: &mut SortedTable)
        requires
            old(map).wf(),
        ensures
            final(map).wf(),
            final(map).map() == replay_removing(old(map).map(), instruction.spec_bytes()),
    {
        match parse_wal_line(instruction.as_bytes()) {
            Some(Mutation::Put { key, value }) => {
                map.insert(key, Some(value));
            },
            Some(Mutation::Delete { key }) => {
                map.remove(key.as_slice());
            },
            None => {},
        }
    }
}

/// A key the log can carry: one non-empty run of non-whitespace bytes.
pub open spec fn single_token(k: Seq<u8>) -> bool {
    k.len() > 0 && forall|i: int| 0 <= i < k.len() ==> !is_ws(#[trigger] k[i])
}

/// A value the log carries unchanged: words joined by single spaces.
pub open spec fn normal_value(v: Seq<u8>) -> bool {
    tokens(v).len() > 0 && join_spaced(tokens(v)) == v
}

proof fn lemma_scan_concat(s: Seq<u8>, t: Seq<u8>)
    requires
        scan(s).1.len() == 0,
    ensures
        scan(s + t) == (scan(s).0 + scan(t).0, scan(t).1),
    decreases t.len(),
{
    if t.len() == 0 {
        assert(s + t =~= s);
        assert(scan(s).0 + scan(t).0 =~= scan(s).0);
        assert(scan(s).1 =~= scan(t).1);
    } else {
        assert((s + t).drop_last() =~= s + t.drop_last());
        assert((s + t).last() == t.last());
        lemma_scan_concat(s, t.drop_last());
        let (d, c) = scan(t.drop_last());
        if is_ws(t.last()) && c.len() > 0 {
            assert(scan(s).0 + d.push(c) =~= (scan(s).0 + d).push(c));
        }
    }
}

proof fn lemma_scan_word(k: Seq<u8>)
    requires
        forall|i: int| 0 <= i < k.len() ==> !is_ws(#[trigger] k[i]),
    ensures
        scan(k) == (Seq::<Seq<u8>>::empty(), k),
    decreases k.len(),
{
    if k.len() == 0 {
        assert(scan(k).1 =~= k);
    } else {
        assert(!is_ws(k[k.len() - 1]));
        lemma_scan_word(k.drop_last());
        assert(k.drop_last().push(k.last()) =~= k);
    }
}

/// Scanning a word followed by a separator finishes that word.
proof fn lemma_scan_word_sep(k: Seq<u8>, sep: u8)
    requires
        single_token(k),
        is_ws(sep),
    ensures
        scan(k.push(sep)) == (seq![k], Seq::<u8>::empty()),
{
    lemma_scan_word(k);
    assert(k.push(sep).drop_last() =~= k);
    assert(Seq::<Seq<u8>>::empty().push(k) =~= seq![k]);
}

/// A formatted log line reads back as the mutation it records, when the key
/// is a single word and the value is words joined by single spaces.
pub proof fn law_line_round_trip(m: MutationView)
    requires
        match m {
            MutationView::Put(k, v) => single_token(k) && normal_value(v) && k.len()
                <= MAX_FIELD_LEN && v.len() <= MAX_FIELD_LEN,
            MutationView::Delete(k) => single_token(k) && k.len() <= MAX_FIELD_LEN,
        },
    ensures
        parse_line(line_of(m)) == Some(m),
{
    let sp = seq![32u8];
    match m {
        MutationView::Put(k, v) => {
            let w = set_word();
            assert(single_token(w));
            lemma_scan_word_sep(w, 32u8);
            lemma_scan_word_sep(k, 32u8);
            let vn = v + seq![10u8];
            assert(vn.drop_last() =~= v);
            assert(scan(vn).1.len() == 0);
            let rest = k.push(32u8) + vn;
            lemma_scan_concat(k.push(32u8), vn);
            let line = w.push(32u8) + rest;
            assert(line =~= line_of(m));
            lemma_scan_concat(w.push(32u8), rest);
            let (dv, cv) = scan(v);
            let tv = tokens(v);
            assert(scan(vn).0 == tv);
            let ts = tokens(line);
            assert(ts =~= seq![w] + (seq![k] + tv));
            assert(ts.skip(2) =~= tv);
            assert(ts[1] == k);
        },
        MutationView::Delete(k) => {
            let w = delete_word();
            assert(single_token(w));
            lemma_scan_word_sep(w, 32u8);
            lemma_scan_word_sep(k, 32u8);
            let nl = seq![10u8];
            assert(scan(nl).1.len() == 0) by {
                assert(nl.drop_last() =~= Seq::<u8>::empty());
            }
            assert(scan(nl).0.len() == 0) by {
                assert(nl.drop_last() =~= Seq::<u8>::empty());
                assert(scan(nl.drop_last()).0.len() == 0);
                assert(nl.last() == 10u8);
            }
            let rest = k.push(32u8) + nl;
            lemma_scan_concat(k.push(32u8), nl);
            let line = w.push(32u8) + rest;
            assert(line =~= line_of(m));
            lemma_scan_concat(w.push(32u8), rest);
            let ts = tokens(line);
            assert(ts =~= seq![w, k]);
            assert(w != set_word()) by {
                assert(w.len() != set_word().len());
            }
        },
    }
}

/// The last logged value of a key is what replaying the log gives back, so a
/// set that reached the log survives a crash of the process.
pub proof fn law_logged_set_survives(before: Seq<Seq<u8>>, k: Seq<u8>, v: Seq<u8>)
    requires
        single_token(k),
        normal_value(v),
        k.len() <= MAX_FIELD_LEN,
        v.len() <= MAX_FIELD_LEN,
    ensures
        replay_batch(before.push(line_of(MutationView::Put(k, v)))).contains_key(k),
        replay_batch(before.push(line_of(MutationView::Put(k, v))))[k] == Some(v),
{
    law_line_round_trip(MutationView::Put(k, v));
    let lines = before.push(line_of(MutationView::Put(k, v)));
    assert(lines.drop_last() =~= before);
}

/// A delete that reached the log leaves a tombstone for its key in the batch
/// the next flush writes, so older SSTable files cannot bring the key back.
pub proof fn law_logged_delete_marks(before: Seq<Seq<u8>>, k: Seq<u8>)
    requires
        single_token(k),
        k.len() <= MAX_FIELD_LEN,
    ensures
        replay_batch(before.push(line_of(MutationView::Delete(k)))).contains_key(k),
        replay_batch(before.push(line_of(MutationView::Delete(k))))[k] is None,
{
    law_line_round_trip(MutationView::Delete(k));
    let lines = before.push(line_of(MutationView::Delete(k)));
    assert(lines.drop_last() =~= before);
}

/// Whether `b` is one non-empty word without whitespace.
pub fn is_single_token(b: &[u8]) -> (r: bool)
    ensures
        r == single_token(b@),
{
    if b.len() == 0 {
        return false;
    }
    let mut i: usize = 0;
    while i < b.len()
        invariant
            i <= b@.len(),
            forall|j: int| 0 <= j < i ==> !is_ws(#[trigger] b@[j]),
        decreases b.len() - i,
    {
        let c = b[i];
        if c == 32 || c == 9 || c == 10 || c == 11 || c == 12 || c == 13 {
            return false;
        }
        i = i + 1;
    }
    true
}

/// Scanning words joined by single spaces leaves all but the last finished.
proof fn lemma_scan_joined(ws: Seq<Seq<u8>>)
    requires
        ws.len() > 0,
        forall|i: int| 0 <= i < ws.len() ==> single_token(#[trigger] ws[i]),
    ensures
        scan(join_spaced(ws)) == (ws.drop_last(), ws.last()),
    decreases ws.len(),
{
    if ws.len() == 1 {
        assert(single_token(ws[0]));
        lemma_scan_word(ws[0]);
        assert(ws.drop_last() =~= Seq::<Seq<u8>>::empty());
    } else {
        let front = ws.drop_last();
        assert forall|i: int| 0 <= i < front.len() implies single_token(#[trigger] front[i]) by {
            assert(front[i] == ws[i]);
        }
        lemma_scan_joined(front);
        let head = join_spaced(front) + seq![32u8];
        assert(head.drop_last() =~= join_spaced(front));
        assert(head.last() == 32u8);
        assert(single_token(front.last()));
        assert(front.drop_last().push(front.last()) =~= front);
        assert(scan(head) == (front, Seq::<u8>::empty()));
        assert(single_token(ws.last()));
        lemma_scan_word(ws.last());
        lemma_scan_concat(head, ws.last());
        assert(join_spaced(ws) =~= head + ws.last());
        assert(front + Seq::<Seq<u8>>::empty() =~= front);
    }
}

/// Words joined by single spaces form a value the log carries unchanged.
pub proof fn lemma_joined_is_normal(ws: Seq<Seq<u8>>)
    requires
        ws.len() > 0,
        forall|i: int| 0 <= i < ws.len() ==> single_token(#[trigger] ws[i]),
    ensures
        tokens(join_spaced(ws)) == ws,
        normal_value(join_spaced(ws)),
{
    lemma_scan_joined(ws);
    assert(single_token(ws.last()));
    assert(ws.drop_last().push(ws.last()) =~= ws);
}

/// The key a mutation is about.
pub open spec fn mutation_key(m: MutationView) -> Seq<u8> {
    match m {
        MutationView::Put(k, _) => k,
        MutationView::Delete(k) => k,
    }
}

/// `line` is a mutation of key `k`.
pub open spec fn mentions(line: Seq<u8>, k: Seq<u8>) -> bool {
    parse_line(line) matches Some(m) && mutation_key(m) == k
}

/// The last logged SET of a key decides what replaying the log gives for it:
/// lines after it that are about other keys, or are no mutation at all, leave
/// it alone. So every key set through the log before a crash comes back.
pub proof fn law_last_set_survives(lines: Seq<Seq<u8>>, i: int, k: Seq<u8>, v: Seq<u8>)
    requires
        0 <= i < lines.len(),
        lines[i] == line_of(MutationView::Put(k, v)),
        single_token(k),
        normal_value(v),
        k.len() <= MAX_FIELD_LEN,
        v.len() <= MAX_FIELD_LEN,
        forall|j: int| i < j < lines.len() ==> !mentions(#[trigger] lines[j], k),
    ensures
        replay_batch(lines).contains_key(k),
        replay_batch(lines)[k] == Some(v),
    decreases lines.len(),
{
    let front = lines.drop_last();
    if i == lines.len() - 1 {
        assert(front.push(lines.last()) =~= lines);
        law_logged_set_survives(front, k, v);
    } else {
        assert forall|j: int| i < j < front.len() implies !mentions(#[trigger] front[j], k) by {
            assert(front[j] == lines[j]);
        }
        law_last_set_survives(front, i, k, v);
        assert(!mentions(lines[lines.len() - 1], k));
    }
}

} // verus!
