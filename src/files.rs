//! File names of the log segments and SSTables, which log segments are old
//! enough to flush, and the newest-first order of the SSTable files.
use chrono::{Datelike, Timelike};
use vstd::prelude::*;

use crate::order::{lemma_lex_asymmetric, lemma_lex_total, lemma_lex_transitive, lex_lt};
use crate::table::extend_bytes;

verus! {

/// A local wall-clock time, to the minute.
#[derive(Debug, Clone, Copy, PartialEq, Eq)]
pub struct MinuteStamp {
    pub year: i32,
    pub month: u32,
    pub day: u32,
    pub hour: u32,
    pub minute: u32,
}

impl MinuteStamp {
    pub open spec fn wf(&self) -> bool {
        1 <= self.month <= 12 && 1 <= self.day <= 31 && self.hour < 24 && self.minute < 60
    }
}

/// Relies on chrono's `From<SystemTime> for DateTime<Local>` and the
/// `Datelike` / `Timelike` accessors, which document month 1..=12, day 1..=31,
/// hour 0..=23, minute 0..=59. Unlike `Local::now`, the conversion accepts
/// clocks before the Unix epoch; it panics only where the local time-zone data
/// is itself broken.
#[verifier::external_body]
fn local_now() -> (r: MinuteStamp)
    ensures
        r.wf(),
{
    let now = chrono::DateTime::<chrono::Local>::from(std::time::SystemTime::now());
    MinuteStamp {
        year: now.year(),
        month: now.month(),
        day: now.day(),
        hour: now.hour(),
        minute: now.minute(),
    }
}

/// Relies on chrono's `From<SystemTime> for DateTime<Utc>` and
/// `DateTime::timestamp`: seconds since the Unix epoch, negative for a clock
/// before it, whatever the clock says.
#[verifier::external_body]
fn unix_now() -> (r: i64) {
    chrono::DateTime::<chrono::Utc>::from(std::time::SystemTime::now()).timestamp()
}

/// ASCII decimal digits of `n`, without leading zeros.
pub open spec fn decimal(n: nat) -> Seq<u8>
    decreases n,
{
    if n < 10 {
        seq![(48 + n) as u8]
    } else {
        decimal(n / 10).push((48 + n % 10) as u8)
    }
}

/// `n` in exactly `w` decimal digits, zero-padded (the high digits dropped).
pub open spec fn padded(n: nat, w: nat) -> Seq<u8>
    decreases w,
{
    if w == 0 {
        Seq::empty()
    } else {
        padded(n / 10, (w - 1) as nat).push((48 + n % 10) as u8)
    }
}

fn push_decimal(out: &mut Vec<u8>, n: u64)
    ensures
        final(out)@ == old(out)@ + decimal(n as nat),
    decreases n,
{
    if n >= 10 {
        push_decimal(out, n / 10);
    }
    out.push((48 + n % 10) as u8);
    proof {
        if n < 10 {
            assert(n % 10 == n);
        }
        assert(final(out)@ =~= old(out)@ + decimal(n as nat));
    }
}

fn push_padded(out: &mut Vec<u8>, n: u64, w: u64)
    ensures
        final(out)@ == old(out)@ + padded(n as nat, w as nat),
    decreases w,
{
    if w > 0 {
        push_padded(out, n / 10, w - 1);
        out.push((48 + n % 10) as u8);
    }
    assert(final(out)@ =~= old(out)@ + padded(n as nat, w as nat));
}

/// "wal_"
pub open spec fn wal_prefix() -> Seq<u8> {
    seq![119u8, 97, 108, 95]
}

/// ".log"
pub open spec fn log_suffix() -> Seq<u8> {
    seq![46u8, 108, 111, 103]
}

/// ".db"
pub open spec fn db_suffix() -> Seq<u8> {
    seq![46u8, 100, 98]
}

/// "compacted_"
pub open spec fn compacted_prefix() -> Seq<u8> {
    seq![99u8, 111, 109, 112, 97, 99, 116, 101, 100, 95]
}

/// `wal_YYYY-MM-DD HH:MM:00.log`: the segment that writes made during minute `t` go to.
pub open spec fn segment_name(t: MinuteStamp) -> Seq<u8> {
    wal_prefix() + padded(t.year as nat, 4) + seq![45u8] + padded(t.month as nat, 2) + seq![45u8]
        + padded(t.day as nat, 2) + seq![32u8] + padded(t.hour as nat, 2) + seq![58u8] + padded(
        t.minute as nat,
        2,
    ) + seq![58u8, 48, 48] + log_suffix()
}

/// `<ts>.db`, or `compacted_<ts>.db`.
pub open spec fn sstable_name(ts: nat, compacted: bool) -> Seq<u8> {
    (if compacted {
        compacted_prefix()
    } else {
        Seq::empty()
    }) + decimal(ts) + db_suffix()
}

/// The name of the log segment for minute `t`; `None` for a year outside 0..=9999,
/// which four digits cannot write.
pub fn segment_file_name(t: &MinuteStamp) -> (r: Option<Vec<u8>>)
    requires
        t.wf(),
    ensures
        r is Some <==> 0 <= t.year <= 9999,
        r matches Some(n) ==> n@ == segment_name(*t),
{
    if t.year < 0 || t.year > 9999 {
        return None;
    }
    let mut out: Vec<u8> = Vec::new();
    let pre: [u8; 4] = [119u8, 97, 108, 95];
    extend_bytes(&mut out, pre.as_slice());
    push_padded(&mut out, t.year as u64, 4);
    out.push(45u8);
    push_padded(&mut out, t.month as u64, 2);
    out.push(45u8);
    push_padded(&mut out, t.day as u64, 2);
    out.push(32u8);
    push_padded(&mut out, t.hour as u64, 2);
    out.push(58u8);
    push_padded(&mut out, t.minute as u64, 2);
    out.push(58u8);
    out.push(48u8);
    out.push(48u8);
    let suf: [u8; 4] = [46u8, 108, 111, 103];
    extend_bytes(&mut out, suf.as_slice());
    assert(pre@ =~= wal_prefix());
    assert(suf@ =~= log_suffix());
    assert(out@ =~= segment_name(*t));
    Some(out)
}

/// The name of the log segment that a write made now goes to.
pub fn current_segment_name() -> (r: Option<Vec<u8>>)
    ensures
        r matches Some(n) ==> exists|t: MinuteStamp| t.wf() && n@ == segment_name(t),
{
    let t = local_now();
    segment_file_name(&t)
}

/// The name of an SSTable file written at Unix time `ts`.
pub fn sstable_file_name(ts: u64, compacted: bool) -> (r: Vec<u8>)
    ensures
        r@ == sstable_name(ts as nat, compacted),
{
    let mut out: Vec<u8> = Vec::new();
    if compacted {
        let pre: [u8; 10] = [99u8, 111, 109, 112, 97, 99, 116, 101, 100, 95];
        extend_bytes(&mut out, pre.as_slice());
        assert(pre@ =~= compacted_prefix());
    }
    push_decimal(&mut out, ts);
    let suf: [u8; 3] = [46u8, 100, 98];
    extend_bytes(&mut out, suf.as_slice());
    assert(suf@ =~= db_suffix());
    assert(out@ =~= sstable_name(ts as nat, compacted));
    out
}

/// A fresh name for an SSTable file written now; `None` when the clock reads
/// before the Unix epoch.
pub fn fresh_sstable_name(compacted: bool) -> (r: Option<Vec<u8>>)
    ensures
        r matches Some(n) ==> exists|ts: nat| n@ == sstable_name(ts, compacted),
{
    let ts = unix_now();
    if ts < 0 {
        return None;
    }
    Some(sstable_file_name(ts as u64, compacted))
}

/// A log segment created at `created` is old enough to flush at `now` when it
/// is strictly older than `max_age` (all in seconds).
pub fn segment_is_aged(created: u64, now: u64, max_age: u64) -> (r: bool)
    ensures
        r == (created + max_age < now),
{
    now > max_age && created < now - max_age
}

/// `name` ends with ".db".
pub open spec fn is_sstable_name(name: Seq<u8>) -> bool {
    name.len() >= 3 && name.subrange(name.len() - 3, name.len() as int) == db_suffix()
}

/// A file listed in the data directory: its name and modification time.
pub type FileStamp = (Seq<u8>, u64);

/// `a` is read before `b`: it is newer, or as new with a name that sorts no later.
pub open spec fn reads_before(a: FileStamp, b: FileStamp) -> bool {
    a.1 > b.1 || (a.1 == b.1 && !lex_lt(b.0, a.0))
}

proof fn lemma_reads_before_transitive(a: FileStamp, b: FileStamp, c: FileStamp)
    requires
        reads_before(a, b),
        reads_before(b, c),
    ensures
        reads_before(a, c),
{
    if a.1 == b.1 && b.1 == c.1 {
        if lex_lt(c.0, a.0) {
            if a.0 == b.0 {
            } else {
                lemma_lex_total(a.0, b.0);
                if lex_lt(a.0, b.0) {
                    if c.0 == b.0 {
                    } else {
                        lemma_lex_total(b.0, c.0);
                        lemma_lex_transitive(c.0, a.0, b.0);
                    }
                }
            }
        }
    }
}

proof fn lemma_reads_before_total(a: FileStamp, b: FileStamp)
    ensures
        reads_before(a, b) || reads_before(b, a),
{
    if a.1 == b.1 {
        lemma_lex_asymmetric(a.0, b.0);
    }
}

fn ends_with_db(name: &[u8]) -> (r: bool)
    ensures
        r == is_sstable_name(name@),
{
    let n = name.len();
    if n < 3 {
        return false;
    }
    let r = name[n - 3] == 46u8 && name[n - 2] == 100u8 && name[n - 1] == 98u8;
    assert(r == (name@.subrange(n - 3, n as int) =~= db_suffix()));
    r
}

pub open spec fn stamps_view(v: Seq<(Vec<u8>, u64)>) -> Seq<FileStamp> {
    v.map_values(|e: (Vec<u8>, u64)| (e.0@, e.1))
}

/// The SSTable files among `files` (names ending in ".db"), as positions into
/// `files`, in the order reads consult them: newest first, ties by name.
pub fn newest_first(files: &[(Vec<u8>, u64)]) -> (r: Vec<usize>)
    ensures
        forall|a: int| 0 <= a < r@.len() ==> (#[trigger] r@[a]) < files@.len() && is_sstable_name(
            files@[r@[a] as int].0@,
        ),
        forall|i: int| 0 <= i < files@.len() && is_sstable_name(#[trigger] files@[i].0@) ==> r@.contains(i as usize),
        forall|a: int, b: int| 0 <= a < b < r@.len() ==> r@[a] != r@[b],
        forall|a: int, b: int|
            0 <= a < b < r@.len() ==> reads_before(
                stamps_view(files@)[#[trigger] r@[a] as int],
                stamps_view(files@)[#[trigger] r@[b] as int],
            ),
{
    let ghost fs = stamps_view(files@);
    let mut out: Vec<usize> = Vec::new();
    let mut i: usize = 0;
    while i < files.len()
        invariant
            fs == stamps_view(files@),
            i <= files@.len(),
            forall|a: int| 0 <= a < out@.len() ==> (#[trigger] out@[a]) < i && is_sstable_name(
                files@[out@[a] as int].0@,
            ),
            forall|x: int| 0 <= x < i && is_sstable_name(#[trigger] files@[x].0@) ==> out@.contains(x as usize),
            forall|a: int, b: int| 0 <= a < b < out@.len() ==> out@[a] != out@[b],
            forall|a: int, b: int|
                0 <= a < b < out@.len() ==> reads_before(
                    fs[#[trigger] out@[a] as int],
                    fs[#[trigger] out@[b] as int],
                ),
        decreases files.len() - i,
    {
        if ends_with_db(files[i].0.as_slice()) {
            let ghost me = fs[i as int];
            assert(me == (files@[i as int].0@, files@[i as int].1));
            // first position whose file reads after this one
            let mut p: usize = 0;
            while p < out.len()
                invariant
                    fs == stamps_view(files@),
                    i < files@.len(),
                    me == fs[i as int],
                    p <= out@.len(),
                    forall|a: int| 0 <= a < out@.len() ==> (#[trigger] out@[a]) < i,
                    forall|a: int| 0 <= a < p ==> reads_before(fs[#[trigger] out@[a] as int], me),
                ensures
                    p <= out@.len(),
                    forall|a: int| 0 <= a < p ==> reads_before(fs[#[trigger] out@[a] as int], me),
                    p < out@.len() ==> reads_before(me, fs[out@[p as int] as int]),
                decreases out.len() - p,
            {
                let j = out[p];
                let ghost other = fs[j as int];
                assert(other == (files@[j as int].0@, files@[j as int].1));
                let (tj, ti) = (files[j].1, files[i].1);
                if tj < ti {
                    break;
                }
                if tj == ti {
                    let c = crate::order::compare_keys(files[j].0.as_slice(), files[i].0.as_slice());
                    if c > 0 {
                        proof {
                            lemma_lex_asymmetric(other.0, me.0);
                        }
                        break;
                    }
                }
                p = p + 1;
            }
            let ghost before = out@;
            out.insert(p, i);
            proof {
                assert(out@ == before.insert(p as int, i));
                if p < before.len() {
                    lemma_reads_before_total(me, fs[before[p as int] as int]);
                }
                assert forall|a: int, b: int| 0 <= a < b < out@.len() implies reads_before(
                    fs[#[trigger] out@[a] as int],
                    fs[#[trigger] out@[b] as int],
                ) by {
                    if a < p && b == p {
                    } else if a == p && b > p {
                        if b - 1 > p {
                            lemma_reads_before_transitive(me, fs[before[p as int] as int], fs[before[b - 1] as int]);
                        }
                    } else if a < p && b > p {
                        if b - 1 > a {
                        }
                    }
                }
                assert forall|x: int| 0 <= x < i + 1 && is_sstable_name(#[trigger] files@[x].0@) implies out@.contains(x as usize) by {
                    if x < i {
                        let a = choose|a: int| 0 <= a < before.len() && before[a] == x as usize;
                        if a < p {
                            assert(out@[a] == x as usize);
                        } else {
                            assert(out@[a + 1] == x as usize);
                        }
                    } else {
                        assert(out@[p as int] == x as usize);
                    }
                }
            }
        }
        i = i + 1;
    }
    out
}

} // verus!
