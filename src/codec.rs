//! The SSTable file format.
//!
//! ```text
//! HEADER : "MINIDBSS" | version 1 | 7 reserved zero bytes
//! DATA   : per record, in ascending key order:
//!          key_len u32 | key | tombstone u8 | (if 0) value_len u32 | value
//! INDEX  : per record, same order: key_len u32 | key | record_offset u64
//! FOOTER : index_offset u64 | "MINIDIDX"
//! ```
//! All integers are big-endian.
use vstd::prelude::*;

use crate::error::DbError;
use crate::order::{compare_keys, lemma_lex_transitive, lex_lt};
use crate::table::{extend_bytes, copy_bytes, all_fit, record_fits, sorted_keys, valid_records, Entry, RecordView, SortedTable, entries_view};

verus! {

pub const HEADER_LEN: usize = 16;

pub const FOOTER_LEN: usize = 16;

/// Big-endian encoding of a `u32`.
pub open spec fn be32(n: u32) -> Seq<u8> {
    seq![(n >> 24u32) as u8, (n >> 16u32) as u8, (n >> 8u32) as u8, n as u8]
}

/// Big-endian encoding of a `u64`.
pub open spec fn be64(n: u64) -> Seq<u8> {
    seq![
        (n >> 56u64) as u8,
        (n >> 48u64) as u8,
        (n >> 40u64) as u8,
        (n >> 32u64) as u8,
        (n >> 24u64) as u8,
        (n >> 16u64) as u8,
        (n >> 8u64) as u8,
        n as u8,
    ]
}

/// The `u32` that four big-endian bytes stand for.
pub open spec fn dec32(b: Seq<u8>) -> u32 {
    ((b[0] as u32) << 24u32) | ((b[1] as u32) << 16u32) | ((b[2] as u32) << 8u32) | (b[3] as u32)
}

/// The `u64` that eight big-endian bytes stand for.
pub open spec fn dec64(b: Seq<u8>) -> u64 {
    ((b[0] as u64) << 56u64) | ((b[1] as u64) << 48u64) | ((b[2] as u64) << 40u64) | ((b[3] as u64)
        << 32u64) | ((b[4] as u64) << 24u64) | ((b[5] as u64) << 16u64) | ((b[6] as u64) << 8u64)
        | (b[7] as u64)
}

pub proof fn lemma_dec32_be32(n: u32)
    ensures
        dec32(be32(n)) == n,
{
    let b = be32(n);
    let (b0, b1, b2, b3) = (b[0], b[1], b[2], b[3]);
    assert(b0 == (n >> 24u32) as u8 && b1 == (n >> 16u32) as u8 && b2 == (n >> 8u32) as u8 && b3
        == n as u8);
    assert(b0 == (n >> 24u32) as u8 && b1 == (n >> 16u32) as u8 && b2 == (n >> 8u32) as u8 && b3
        == n as u8 ==> ((b0 as u32) << 24u32) | ((b1 as u32) << 16u32) | ((b2 as u32) << 8u32) | (
    b3 as u32) == n) by (bit_vector);
}

pub proof fn lemma_dec64_be64(n: u64)
    ensures
        dec64(be64(n)) == n,
{
    let b = be64(n);
    let (b0, b1, b2, b3, b4, b5, b6, b7) = (b[0], b[1], b[2], b[3], b[4], b[5], b[6], b[7]);
    assert(b0 == (n >> 56u64) as u8 && b1 == (n >> 48u64) as u8 && b2 == (n >> 40u64) as u8 && b3
        == (n >> 32u64) as u8 && b4 == (n >> 24u64) as u8 && b5 == (n >> 16u64) as u8 && b6 == (n
        >> 8u64) as u8 && b7 == n as u8);
    assert(b0 == (n >> 56u64) as u8 && b1 == (n >> 48u64) as u8 && b2 == (n >> 40u64) as u8 && b3
        == (n >> 32u64) as u8 && b4 == (n >> 24u64) as u8 && b5 == (n >> 16u64) as u8 && b6 == (n
        >> 8u64) as u8 && b7 == n as u8 ==> ((b0 as u64) << 56u64) | ((b1 as u64) << 48u64) | ((
    b2 as u64) << 40u64) | ((b3 as u64) << 32u64) | ((b4 as u64) << 24u64) | ((b5 as u64)
        << 16u64) | ((b6 as u64) << 8u64) | (b7 as u64) == n) by (bit_vector);
}

/// "MINIDBSS", the version byte 1, and seven reserved bytes.
pub open spec fn header_with(reserved: Seq<u8>) -> Seq<u8> {
    seq![77u8, 73, 78, 73, 68, 66, 83, 83, 1] + reserved
}

/// Seven zero bytes: the reserved part of every header this library writes.
pub open spec fn zero_reserved() -> Seq<u8> {
    seq![0u8, 0, 0, 0, 0, 0, 0]
}

/// The header this library writes.
pub open spec fn header_bytes() -> Seq<u8> {
    header_with(zero_reserved())
}

/// "MINIDIDX", the last eight bytes of every table.
pub open spec fn footer_magic() -> Seq<u8> {
    seq![77u8, 73, 78, 73, 68, 73, 68, 88]
}

/// The DATA bytes of one record.
pub open spec fn record_bytes(r: RecordView) -> Seq<u8> {
    be32(r.0.len() as u32) + r.0 + match r.1 {
        None => seq![1u8],
        Some(v) => seq![0u8] + be32(v.len() as u32) + v,
    }
}

/// The DATA section for a sequence of records.
pub open spec fn data_bytes(s: Seq<RecordView>) -> Seq<u8>
    decreases s.len(),
{
    if s.len() == 0 {
        Seq::empty()
    } else {
        record_bytes(s[0]) + data_bytes(s.drop_first())
    }
}

/// Where record `i` of `s` starts in the table file.
pub open spec fn record_offset(s: Seq<RecordView>, i: int) -> int {
    HEADER_LEN + data_bytes(s.take(i)).len()
}

/// The INDEX entries of the first `i` records of `s`.
pub open spec fn index_bytes(s: Seq<RecordView>, i: int) -> Seq<u8>
    decreases i,
{
    if i <= 0 {
        Seq::empty()
    } else {
        index_bytes(s, i - 1) + be32(s[i - 1].0.len() as u32) + s[i - 1].0 + be64(
            record_offset(s, i - 1) as u64,
        )
    }
}

/// A complete file for a sequence of records, with the given reserved header bytes.
pub open spec fn image_with(s: Seq<RecordView>, reserved: Seq<u8>) -> Seq<u8> {
    header_with(reserved) + data_bytes(s) + index_bytes(s, s.len() as int) + be64(
        (HEADER_LEN + data_bytes(s).len()) as u64,
    ) + footer_magic()
}

/// The file this library writes for a sequence of records.
pub open spec fn table_image(s: Seq<RecordView>) -> Seq<u8> {
    image_with(s, zero_reserved())
}

/// Where the INDEX of the table for `s` starts.
pub open spec fn index_offset(s: Seq<RecordView>) -> int {
    HEADER_LEN + data_bytes(s).len()
}

/// `p` is a well-formed table and reserved header bytes whose file is `b`.
pub open spec fn image_of(p: (Seq<RecordView>, Seq<u8>), b: Seq<u8>) -> bool {
    p.1.len() == 7 && valid_records(p.0) && image_with(p.0, p.1) == b
}

/// `b` is the file of some well-formed table, whatever its reserved header bytes.
pub open spec fn is_table_image(b: Seq<u8>) -> bool {
    exists|p: (Seq<RecordView>, Seq<u8>)| image_of(p, b)
}

/// The records that a table file holds, if it is one.
pub open spec fn decode_image(b: Seq<u8>) -> Option<Seq<RecordView>> {
    if is_table_image(b) {
        Some((choose|p: (Seq<RecordView>, Seq<u8>)| image_of(p, b)).0)
    } else {
        None
    }
}

pub proof fn lemma_data_push(s: Seq<RecordView>, r: RecordView)
    ensures
        data_bytes(s.push(r)) == data_bytes(s) + record_bytes(r),
    decreases s.len(),
{
    if s.len() == 0 {
        assert(s.push(r).drop_first() =~= Seq::<RecordView>::empty());
        assert(s.push(r)[0] == r);
        assert(data_bytes(s.push(r).drop_first()) == Seq::<u8>::empty());
        assert(data_bytes(s) == Seq::<u8>::empty());
        assert(data_bytes(s.push(r)) =~= data_bytes(s) + record_bytes(r));
    } else {
        assert(s.push(r).drop_first() =~= s.drop_first().push(r));
        lemma_data_push(s.drop_first(), r);
        assert(s.push(r)[0] == s[0]);
        assert(data_bytes(s.push(r)) =~= data_bytes(s) + record_bytes(r));
    }
}

pub proof fn lemma_data_take(s: Seq<RecordView>, i: int)
    requires
        0 <= i < s.len(),
    ensures
        data_bytes(s.take(i + 1)) == data_bytes(s.take(i)) + record_bytes(s[i]),
{
    assert(s.take(i + 1) =~= s.take(i).push(s[i]));
    lemma_data_push(s.take(i), s[i]);
}

pub proof fn lemma_data_split(s: Seq<RecordView>, i: int)
    requires
        0 <= i <= s.len(),
    ensures
        data_bytes(s) == data_bytes(s.take(i)) + data_bytes(s.skip(i)),
    decreases i,
{
    if i == 0 {
        assert(s.take(0) =~= Seq::<RecordView>::empty());
        assert(s.skip(0) =~= s);
        assert(data_bytes(s) =~= Seq::<u8>::empty() + data_bytes(s));
    } else {
        lemma_data_split(s.drop_first(), i - 1);
        assert(s.drop_first().take(i - 1) =~= s.take(i).drop_first());
        assert(s.drop_first().skip(i - 1) =~= s.skip(i));
        assert(s.take(i)[0] == s[0]);
        assert(data_bytes(s) =~= data_bytes(s.take(i)) + data_bytes(s.skip(i)));
    }
}

/// The record at `i` starts the DATA that remains from `i` on.
pub proof fn lemma_data_skip(s: Seq<RecordView>, i: int)
    requires
        0 <= i < s.len(),
    ensures
        data_bytes(s.skip(i)) == record_bytes(s[i]) + data_bytes(s.skip(i + 1)),
{
    assert(s.skip(i).drop_first() =~= s.skip(i + 1));
    assert(s.skip(i)[0] == s[i]);
}

/// Appends the big-endian bytes of `n`.
fn push_be32(out: &mut Vec<u8>, n: u32)
    ensures
        final(out)@ == old(out)@ + be32(n),
{
    out.push((n >> 24u32) as u8);
    out.push((n >> 16u32) as u8);
    out.push((n >> 8u32) as u8);
    out.push(n as u8);
    assert(final(out)@ =~= old(out)@ + be32(n));
}

fn push_be64(out: &mut Vec<u8>, n: u64)
    ensures
        final(out)@ == old(out)@ + be64(n),
{
    out.push((n >> 56u64) as u8);
    out.push((n >> 48u64) as u8);
    out.push((n >> 40u64) as u8);
    out.push((n >> 32u64) as u8);
    out.push((n >> 24u64) as u8);
    out.push((n >> 16u64) as u8);
    out.push((n >> 8u64) as u8);
    out.push(n as u8);
    assert(final(out)@ =~= old(out)@ + be64(n));
}

fn push_record(out: &mut Vec<u8>, e: &Entry)
    requires
        record_fits(e@),
    ensures
        final(out)@ == old(out)@ + record_bytes(e@),
{
    let ghost start = out@;
    push_be32(out, e.key.len() as u32);
    extend_bytes(out, e.key.as_slice());
    match &e.value {
        None => {
            out.push(1u8);
        },
        Some(v) => {
            out.push(0u8);
            push_be32(out, v.len() as u32);
            extend_bytes(out, v.as_slice());
        },
    }
    assert(out@ =~= start + record_bytes(e@));
}

/// Writes the SSTable file for a well-formed table: header, records in key
/// order, the key index, and the footer.
pub fn encode_table(t: &SortedTable) -> (r: Vec<u8>)
    requires
        t.wf(),
    ensures
        r@ == table_image(t@),
{
    let ghost s = t@;
    let ents = t.entries();
    let mut out: Vec<u8> = Vec::new();
    out.push(77u8);
    out.push(73u8);
    out.push(78u8);
    out.push(73u8);
    out.push(68u8);
    out.push(66u8);
    out.push(83u8);
    out.push(83u8);
    out.push(1u8);
    out.push(0u8);
    out.push(0u8);
    out.push(0u8);
    out.push(0u8);
    out.push(0u8);
    out.push(0u8);
    out.push(0u8);
    assert(out@ =~= header_bytes());
    let mut offsets: Vec<u64> = Vec::new();
    let mut i: usize = 0;
    while i < ents.len()
        invariant
            entries_view(ents@) == s,
            valid_records(s),
            i <= s.len(),
            out@ == header_bytes() + data_bytes(s.take(i as int)),
            offsets@.len() == i,
            forall|j: int| 0 <= j < i ==> offsets@[j] as int == record_offset(s, j),
        decreases ents.len() - i,
    {
        assert(ents@[i as int]@ == s[i as int]);
        assert(out@.len() == record_offset(s, i as int));
        offsets.push(out.len() as u64);
        push_record(&mut out, &ents[i]);
        proof {
            lemma_data_take(s, i as int);
        }
        i = i + 1;
    }
    assert(s.take(s.len() as int) =~= s);
    let index_start = out.len() as u64;
    let ghost data_end = out@;
    let mut i: usize = 0;
    while i < ents.len()
        invariant
            entries_view(ents@) == s,
            valid_records(s),
            i <= s.len(),
            offsets@.len() == s.len(),
            forall|j: int| 0 <= j < s.len() ==> offsets@[j] as int == record_offset(s, j),
            out@ == data_end + index_bytes(s, i as int),
        decreases ents.len() - i,
    {
        assert(ents@[i as int]@ == s[i as int]);
        let k = &ents[i].key;
        assert(record_fits(s[i as int]));
        push_be32(&mut out, k.len() as u32);
        extend_bytes(&mut out, k.as_slice());
        push_be64(&mut out, offsets[i]);
        proof {
            assert(index_bytes(s, i + 1) == index_bytes(s, i as int) + be32(s[i as int].0.len() as u32)
                + s[i as int].0 + be64(record_offset(s, i as int) as u64));
            assert(out@ =~= data_end + index_bytes(s, i + 1));
        }
        i = i + 1;
    }
    push_be64(&mut out, index_start);
    out.push(77u8);
    out.push(73u8);
    out.push(78u8);
    out.push(73u8);
    out.push(68u8);
    out.push(73u8);
    out.push(68u8);
    out.push(88u8);
    assert(out@ =~= table_image(s));
    out
}

fn read_be32(b: &[u8], pos: usize) -> (r: u32)
    requires
        pos + 4 <= b@.len(),
    ensures
        r == dec32(b@.subrange(pos as int, pos + 4)),
{
    ((b[pos] as u32) << 24u32) | ((b[pos + 1] as u32) << 16u32) | ((b[pos + 2] as u32) << 8u32) | (
    b[pos + 3] as u32)
}

fn read_be64(b: &[u8], pos: usize) -> (r: u64)
    requires
        pos + 8 <= b@.len(),
    ensures
        r == dec64(b@.subrange(pos as int, pos + 8)),
{
    ((b[pos] as u64) << 56u64) | ((b[pos + 1] as u64) << 48u64) | ((b[pos + 2] as u64) << 40u64) | ((
    b[pos + 3] as u64) << 32u64) | ((b[pos + 4] as u64) << 24u64) | ((b[pos + 5] as u64) << 16u64)
        | ((b[pos + 6] as u64) << 8u64) | (b[pos + 7] as u64)
}

/// Byte-for-byte equality.
pub fn bytes_equal(a: &[u8], b: &[u8]) -> (r: bool)
    ensures
        r == (a@ == b@),
{
    if a.len() != b.len() {
        return false;
    }
    let mut i: usize = 0;
    while i < a.len()
        invariant
            a@.len() == b@.len(),
            i <= a@.len(),
            a@.take(i as int) == b@.take(i as int),
        decreases a.len() - i,
    {
        if a[i] != b[i] {
            return false;
        }
        assert(a@.take(i + 1) =~= a@.take(i as int).push(a@[i as int]));
        assert(b@.take(i + 1) =~= b@.take(i as int).push(b@[i as int]));
        i = i + 1;
    }
    assert(a@ =~= a@.take(i as int));
    assert(b@ =~= b@.take(i as int));
    true
}

proof fn lemma_image_layout(s: Seq<RecordView>, reserved: Seq<u8>)
    requires
        reserved.len() == 7,
    ensures
        ({
            let img = image_with(s, reserved);
            &&& img.len() == HEADER_LEN + data_bytes(s).len() + index_bytes(s, s.len() as int).len()
                + FOOTER_LEN
            &&& img.subrange(0, 9) == header_with(reserved).subrange(0, 9)
            &&& img.subrange(9, 16) == reserved
            &&& img.subrange(HEADER_LEN as int, index_offset(s)) == data_bytes(s)
            &&& img.subrange(HEADER_LEN as int, img.len() as int) == table_image(s).subrange(
                HEADER_LEN as int,
                table_image(s).len() as int,
            )
            &&& img.subrange(img.len() - 16, img.len() - 8) == be64(index_offset(s) as u64)
            &&& img.subrange(img.len() - 8, img.len() as int) == footer_magic()
        }),
{
    let img = image_with(s, reserved);
    let t = table_image(s);
    assert(img.subrange(0, 9) =~= header_with(reserved).subrange(0, 9));
    assert(img.subrange(9, 16) =~= reserved);
    assert(img.subrange(HEADER_LEN as int, index_offset(s)) =~= data_bytes(s));
    assert(img.subrange(HEADER_LEN as int, img.len() as int) =~= t.subrange(
        HEADER_LEN as int,
        t.len() as int,
    ));
    assert(img.subrange(img.len() - 16, img.len() - 8) =~= be64(index_offset(s) as u64));
    assert(img.subrange(img.len() - 8, img.len() as int) =~= footer_magic());
}

/// The file written for `s` and one with other reserved bytes differ only there.
proof fn lemma_same_outside_reserved(s: Seq<RecordView>, reserved: Seq<u8>)
    requires
        reserved.len() == 7,
    ensures
        ({
            let (a, b) = (table_image(s), image_with(s, reserved));
            &&& a.len() == b.len()
            &&& a.subrange(0, 9) == b.subrange(0, 9)
            &&& a.subrange(HEADER_LEN as int, a.len() as int) == b.subrange(HEADER_LEN as int, b.len() as int)
        }),
{
    lemma_image_layout(s, reserved);
    lemma_image_layout(s, zero_reserved());
}

/// A file that matches the one written for `t` outside the reserved header
/// bytes is a file of `t`.
proof fn lemma_reserved_free(t: Seq<RecordView>, b: Seq<u8>)
    requires
        valid_records(t),
        table_image(t).len() == b.len(),
        table_image(t).subrange(0, 9) == b.subrange(0, 9),
        table_image(t).subrange(HEADER_LEN as int, b.len() as int) == b.subrange(HEADER_LEN as int, b.len() as int),
    ensures
        image_of((t, b.subrange(9, 16)), b),
{
    let res = b.subrange(9, 16);
    lemma_image_layout(t, res);
    lemma_image_layout(t, zero_reserved());
    let img = image_with(t, res);
    assert(header_with(res).subrange(0, 9) =~= header_with(zero_reserved()).subrange(0, 9));
    assert(img.subrange(0, 9) == b.subrange(0, 9));
    assert(img.subrange(16, img.len() as int) == b.subrange(16, b.len() as int));
    assert(b =~= b.subrange(0, 9) + b.subrange(9, 16) + b.subrange(16, b.len() as int));
    assert(img =~= img.subrange(0, 9) + img.subrange(9, 16) + img.subrange(16, img.len() as int));
    assert(img =~= b);
}

/// Reads the record that starts at `pos`, which must end by `end`. Where the
/// bytes there are those of a known record, that record is what comes back.
fn parse_record(b: &[u8], pos: usize, end: usize, Ghost(expected): Ghost<Option<RecordView>>) -> (r:
    Result<(Entry, usize), DbError>)
    requires
        pos < end <= b@.len(),
        expected matches Some(rec) ==> record_fits(rec) && pos + record_bytes(rec).len() <= end
            && b@.subrange(pos as int, pos + record_bytes(rec).len()) == record_bytes(rec),
    ensures
        r matches Ok((e, q)) ==> pos < q <= end && record_fits(e@),
        r matches Err(e) ==> e is SSTableReadFailed,
        expected matches Some(rec) ==> (r matches Ok((e, q)) && e@ == rec && q == pos
            + record_bytes(rec).len()),
{
    let ghost rec = expected->Some_0;
    let ghost rb = record_bytes(rec);
    let ghost known = expected is Some;
    proof {
        if known {
            assert(rb.subrange(0, 4) =~= be32(rec.0.len() as u32));
            lemma_dec32_be32(rec.0.len() as u32);
            assert(b@.subrange(pos as int, pos + 4) =~= rb.subrange(0, 4));
        }
    }
    if end - pos < 4 {
        return Err(DbError::SSTableReadFailed("truncated record".to_string()));
    }
    let klen = read_be32(b, pos) as usize;
    let p = pos + 4;
    if end - p <= klen {
        return Err(DbError::SSTableReadFailed("truncated key".to_string()));
    }
    let key = copy_bytes(&b[p..p + klen]);
    proof {
        if known {
            assert(key@ =~= rb.subrange(4, 4 + klen));
            assert(rb.subrange(4, 4 + klen) =~= rec.0);
            assert(b@[p + klen] == rb[4 + klen]);
        }
    }
    let flag = b[p + klen];
    let p = p + klen + 1;
    if flag == 1 {
        proof {
            if known && rec.1 is Some {
                assert(rb[4 + klen] == 0u8);
            }
        }
        let e = Entry { key, value: None };
        return Ok((e, p));
    } else if flag != 0 {
        return Err(DbError::SSTableReadFailed("bad tombstone flag".to_string()));
    }
    proof {
        if known && rec.1 is None {
            assert(rb[4 + klen] == 1u8);
        }
    }
    let ghost vv = rec.1->Some_0;
    proof {
        if known {
            assert(b@.subrange(p as int, p + 4) =~= rb.subrange(5 + klen, 9 + klen));
            assert(rb.subrange(5 + klen, 9 + klen) =~= be32(vv.len() as u32));
            lemma_dec32_be32(vv.len() as u32);
        }
    }
    if end - p < 4 {
        return Err(DbError::SSTableReadFailed("truncated record".to_string()));
    }
    let vlen = read_be32(b, p) as usize;
    let p2 = p + 4;
    if end - p2 < vlen {
        return Err(DbError::SSTableReadFailed("truncated value".to_string()));
    }
    let v = copy_bytes(&b[p2..p2 + vlen]);
    proof {
        if known {
            assert(v@ =~= rb.subrange(9 + klen, 9 + klen + vlen));
            assert(rb.subrange(9 + klen, 9 + klen + vlen) =~= vv);
        }
    }
    let e = Entry { key, value: Some(v) };
    Ok((e, p2 + vlen))
}

/// Reads a whole SSTable file back into its records. Succeeds exactly on the
/// files laid out as `encode_table` writes them, whatever their reserved header
/// bytes, and then returns the records they hold.
pub fn decode_table(b: &[u8]) -> (r: Result<SortedTable, DbError>)
    ensures
        r is Ok <==> is_table_image(b@),
        r matches Ok(t) ==> t.wf() && image_with(t@, b@.subrange(9, 16)) == b@ && decode_image(b@)
            == Some(t@),
        r matches Err(e) ==> e is SSTableReadFailed,
{
    let ghost valid = is_table_image(b@);
    let ghost p = choose|p: (Seq<RecordView>, Seq<u8>)| image_of(p, b@);
    let ghost s = p.0;
    let ghost rsv = p.1;
    let n = b.len();
    proof {
        if valid {
            lemma_image_layout(s, rsv);
        }
    }
    if n < HEADER_LEN + FOOTER_LEN {
        return Err(DbError::SSTableReadFailed("file too short".to_string()));
    }
    let idx64 = read_be64(b, n - 16);
    proof {
        if valid {
            lemma_dec64_be64(index_offset(s) as u64);
        }
    }
    if idx64 < HEADER_LEN as u64 || idx64 > (n - FOOTER_LEN) as u64 {
        return Err(DbError::SSTableReadFailed("index offset out of range".to_string()));
    }
    let idx = idx64 as usize;
    let mut entries: Vec<Entry> = Vec::new();
    let mut pos: usize = HEADER_LEN;
    proof {
        if valid {
            assert(s.skip(0) =~= s);
        }
    }
    while pos < idx
        invariant
            n == b@.len(),
            HEADER_LEN <= pos <= idx <= n - FOOTER_LEN,
            valid_records(entries_view(entries@)),
            valid == is_table_image(b@),
            valid ==> image_of(p, b@) && s == p.0 && rsv == p.1,
            valid ==> entries@.len() <= s.len() && entries_view(entries@) == s.take(entries@.len() as int)
                && b@.subrange(pos as int, idx as int) == data_bytes(s.skip(entries@.len() as int)),
        decreases idx - pos,
    {
        let ghost j = entries@.len() as int;
        let ghost rec = s[j];
        let ghost rb = record_bytes(rec);
        proof {
            if valid {
                if j == s.len() {
                    assert(s.skip(j) =~= Seq::<RecordView>::empty());
                    assert(b@.subrange(pos as int, idx as int).len() == 0);
                }
                assert(j < s.len());
                lemma_data_skip(s, j);
                assert(record_fits(rec));
                let rest = data_bytes(s.skip(j + 1));
                assert(b@.subrange(pos as int, idx as int) == rb + rest);
                assert(idx - pos == rb.len() + rest.len());
                assert((rb + rest).subrange(0, rb.len() as int) =~= rb);
                assert(b@.subrange(pos as int, pos + rb.len()) =~= b@.subrange(
                    pos as int,
                    idx as int,
                ).subrange(0, rb.len() as int));
            }
        }
        let ghost expected = if valid { Some(rec) } else { None };
        let (e, q) = match parse_record(b, pos, idx, Ghost(expected)) {
            Ok(x) => x,
            Err(err) => {
                proof {
                    if valid {
                        assert(expected == Some(rec));
                    }
                }
                return Err(err);
            },
        };
        let len = entries.len();
        if len > 0 {
            let c = compare_keys(entries[len - 1].key.as_slice(), e.key.as_slice());
            proof {
                if valid {
                    assert(entries_view(entries@)[len - 1] == s[len - 1]);
                    assert(entries@[len - 1]@ == entries_view(entries@)[len - 1]);
                    assert(e@ == s[len as int]);
                    assert(lex_lt(s[len - 1].0, s[len as int].0));
                }
            }
            if c >= 0 {
                return Err(DbError::SSTableReadFailed("keys out of order".to_string()));
            }
        }
        let ghost before = entries_view(entries@);
        entries.push(e);
        proof {
            let after = entries_view(entries@);
            assert(after =~= before.push(e@));
            assert forall|a: int, c: int| 0 <= a < c < after.len() implies lex_lt(
                #[trigger] after[a].0,
                #[trigger] after[c].0,
            ) by {
                if c == after.len() - 1 && a < c - 1 {
                    lemma_lex_transitive(after[a].0, after[c - 1].0, after[c].0);
                }
            }
            assert(all_fit(after)) by {
                assert forall|a: int| 0 <= a < after.len() implies record_fits(#[trigger] after[a]) by {
                    if a < after.len() - 1 {
                        assert(after[a] == before[a]);
                    }
                }
            }
            if valid {
                assert(s.take(j + 1) =~= s.take(j).push(rec));
                assert(b@.subrange(q as int, idx as int) =~= b@.subrange(pos as int, idx as int).subrange(
                    rb.len() as int,
                    idx - pos,
                ));
            }
        }
        pos = q;
    }
    proof {
        if valid {
            let j = entries@.len() as int;
            if j < s.len() {
                lemma_data_skip(s, j);
            }
            assert(s.take(s.len() as int) =~= s);
        }
    }
    let t = SortedTable::from_sorted(entries);
    let enc = encode_table(&t);
    proof {
        if valid {
            assert(t@ == s);
            lemma_same_outside_reserved(s, rsv);
        }
    }
    // the reserved header bytes are free; everything else must match
    let same = enc.len() == n && bytes_equal(&enc.as_slice()[0..9], &b[0..9]) && bytes_equal(
        &enc.as_slice()[HEADER_LEN..n],
        &b[HEADER_LEN..n],
    );
    if same {
        proof {
            lemma_reserved_free(t@, b@);
        }
        Ok(t)
    } else {
        Err(DbError::SSTableReadFailed("header, index or footer do not match the records".to_string()))
    }
}

/// A record's bytes determine the record, and where it ends.
proof fn lemma_record_prefix(r1: RecordView, r2: RecordView, t1: Seq<u8>, t2: Seq<u8>)
    requires
        record_fits(r1),
        record_fits(r2),
        record_bytes(r1) + t1 == record_bytes(r2) + t2,
    ensures
        r1 == r2,
        t1 == t2,
{
    let b1 = record_bytes(r1);
    let b2 = record_bytes(r2);
    let all = b1 + t1;
    assert(all.subrange(0, 4) =~= be32(r1.0.len() as u32));
    assert(all.subrange(0, 4) =~= be32(r2.0.len() as u32));
    lemma_dec32_be32(r1.0.len() as u32);
    lemma_dec32_be32(r2.0.len() as u32);
    let kl = r1.0.len() as int;
    assert(kl == r2.0.len());
    assert(all.subrange(4, 4 + kl) =~= r1.0);
    assert(all.subrange(4, 4 + kl) =~= r2.0);
    assert(all[4 + kl] == b1[4 + kl]);
    assert(all[4 + kl] == b2[4 + kl]);
    match r1.1 {
        None => {
            assert(r2.1 is None);
            assert(b1 =~= b2);
        },
        Some(v1) => {
            let v2 = r2.1->Some_0;
            assert(all.subrange(5 + kl, 9 + kl) =~= be32(v1.len() as u32));
            assert(all.subrange(5 + kl, 9 + kl) =~= be32(v2.len() as u32));
            lemma_dec32_be32(v1.len() as u32);
            lemma_dec32_be32(v2.len() as u32);
            let vl = v1.len() as int;
            assert(all.subrange(9 + kl, 9 + kl + vl) =~= v1);
            assert(all.subrange(9 + kl, 9 + kl + vl) =~= v2);
            assert(b1 =~= b2);
        },
    }
    assert(t1 =~= all.subrange(b1.len() as int, all.len() as int));
    assert(t2 =~= all.subrange(b2.len() as int, all.len() as int));
}

/// Distinct record sequences have distinct DATA sections.
pub proof fn lemma_data_injective(s1: Seq<RecordView>, s2: Seq<RecordView>)
    requires
        all_fit(s1),
        all_fit(s2),
        data_bytes(s1) == data_bytes(s2),
    ensures
        s1 == s2,
    decreases s1.len(),
{
    if s1.len() == 0 || s2.len() == 0 {
        if s1.len() > 0 {
            assert(data_bytes(s1).len() > 0);
        }
        if s2.len() > 0 {
            assert(data_bytes(s2).len() > 0);
        }
        assert(s1 =~= s2);
    } else {
        assert(record_fits(s1[0]));
        assert(record_fits(s2[0]));
        lemma_record_prefix(s1[0], s2[0], data_bytes(s1.drop_first()), data_bytes(s2.drop_first()));
        assert(all_fit(s1.drop_first()));
        assert(all_fit(s2.drop_first()));
        lemma_data_injective(s1.drop_first(), s2.drop_first());
        assert(s1 =~= seq![s1[0]] + s1.drop_first());
        assert(s2 =~= seq![s2[0]] + s2.drop_first());
    }
}

/// Reading back the file written for a table gives exactly that table's
/// records, tombstones included.
pub proof fn law_round_trip(s: Seq<RecordView>)
    requires
        valid_records(s),
        table_image(s).len() <= usize::MAX,
    ensures
        is_table_image(table_image(s)),
        decode_image(table_image(s)) == Some(s),
{
    let img = table_image(s);
    assert(image_of((s, zero_reserved()), img));
    let p2 = choose|p: (Seq<RecordView>, Seq<u8>)| image_of(p, img);
    let s2 = p2.0;
    lemma_image_layout(s, zero_reserved());
    lemma_image_layout(s2, p2.1);
    lemma_dec64_be64(index_offset(s) as u64);
    lemma_dec64_be64(index_offset(s2) as u64);
    assert(index_offset(s) == index_offset(s2));
    lemma_data_injective(s, s2);
}

/// The file for a table ends with "MINIDIDX"; the eight bytes before it give
/// where the INDEX starts; the INDEX fills exactly the bytes from there up to
/// the footer; and every record sits at the offset its INDEX entry names.
#[verifier::rlimit(40)]
pub proof fn law_footer_integrity(s: Seq<RecordView>)
    requires
        valid_records(s),
        table_image(s).len() <= usize::MAX,
    ensures
        ({
            let img = table_image(s);
            &&& img.subrange(img.len() - 8, img.len() as int) == footer_magic()
            &&& dec64(img.subrange(img.len() - 16, img.len() - 8)) == index_offset(s)
            &&& img.subrange(index_offset(s), img.len() - 16) == index_bytes(s, s.len() as int)
            &&& img.len() - FOOTER_LEN - index_offset(s) == index_bytes(s, s.len() as int).len()
            &&& forall|i: int|
                0 <= i < s.len() ==> img.subrange(
                    record_offset(s, i),
                    record_offset(s, i) + record_bytes(s[i]).len(),
                ) == record_bytes(#[trigger] s[i])
        }),
{
    let img = table_image(s);
    lemma_image_layout(s, zero_reserved());
    lemma_dec64_be64(index_offset(s) as u64);
    assert(img.subrange(index_offset(s), img.len() - 16) =~= index_bytes(s, s.len() as int));
    assert forall|i: int| 0 <= i < s.len() implies img.subrange(
        record_offset(s, i),
        record_offset(s, i) + record_bytes(s[i]).len(),
    ) == record_bytes(#[trigger] s[i]) by {
        lemma_data_split(s, i);
        lemma_data_skip(s, i);
        let d = data_bytes(s);
        let pre = data_bytes(s.take(i));
        assert(d == pre + (record_bytes(s[i]) + data_bytes(s.skip(i + 1))));
        assert(img.subrange(record_offset(s, i), record_offset(s, i) + record_bytes(s[i]).len())
            =~= record_bytes(s[i]));
    }
}

/// Every table file holds its keys in strictly increasing order, and its DATA
/// and its INDEX are written from one and the same sequence of records, so the
/// INDEX lists the DATA's keys in the same order.
pub proof fn law_sstable_key_order(b: Seq<u8>)
    requires
        is_table_image(b),
    ensures
        decode_image(b) is Some,
        sorted_keys(decode_image(b)->Some_0),
        b == header_with(b.subrange(9, 16)) + data_bytes(decode_image(b)->Some_0) + index_bytes(
            decode_image(b)->Some_0,
            (decode_image(b)->Some_0).len() as int,
        ) + be64(index_offset(decode_image(b)->Some_0) as u64) + footer_magic(),
{
    let p = choose|p: (Seq<RecordView>, Seq<u8>)| image_of(p, b);
    lemma_image_layout(p.0, p.1);
}

} // verus!
