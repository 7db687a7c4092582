//! Binary codec for fixed-layout record tables: a fixed-size header, an
//! array of equal-size records of little-endian 32-bit words, and a raw
//! string pool.

use crate::util::bytes_range;
use vstd::prelude::*;

verus! {

broadcast use vstd::arithmetic::mul::group_mul_basics;

/// Number of bytes occupied by the serialized header: the 4-byte magic tag
/// followed by four little-endian 32-bit fields.
pub const HEADER_SIZE: usize = 20;

/// Header of a binary record table.
#[derive(Debug, Clone, Copy)]
pub struct DbcHeader {
    pub magic: [u8; 4],
    pub record_count: u32,
    pub field_count: u32,
    pub record_size: u32,
    pub string_block_size: u32,
}

/// The required 4-byte magic tag, `WDBC`, as a predicate on a byte sequence.
pub open spec fn is_magic(s: Seq<u8>) -> bool {
    &&& s.len() == 4
    &&& s[0] == 0x57u8
    &&& s[1] == 0x44u8
    &&& s[2] == 0x42u8
    &&& s[3] == 0x43u8
}

/// The little-endian 32-bit word formed by the four bytes of `s` starting
/// at `off`.
pub open spec fn le32_at(s: Seq<u8>, off: int) -> u32
    recommends
        0 <= off,
        off + 4 <= s.len(),
{
    (s[off] + s[off + 1] * 0x100 + s[off + 2] * 0x1_0000 + s[off + 3] * 0x100_0000) as u32
}

/// Byte `k` (0 = least significant) of the little-endian encoding of `w`.
pub open spec fn le32_byte(w: u32, k: int) -> u8
    recommends
        0 <= k < 4,
{
    if k == 0 {
        (w % 0x100) as u8
    } else if k == 1 {
        ((w / 0x100) % 0x100) as u8
    } else if k == 2 {
        ((w / 0x1_0000) % 0x100) as u8
    } else {
        (w / 0x100_0000) as u8
    }
}

/// Reassembling a word from four bytes and taking it apart again are
/// mutually inverse.
pub proof fn lemma_le32_roundtrip(w: u32, b0: u8, b1: u8, b2: u8, b3: u8)
    requires
        w == b0 + b1 * 0x100 + b2 * 0x1_0000 + b3 * 0x100_0000,
    ensures
        le32_byte(w, 0) == b0,
        le32_byte(w, 1) == b1,
        le32_byte(w, 2) == b2,
        le32_byte(w, 3) == b3,
{
    assert(w == b0 as u32 + b1 as u32 * 0x100 + b2 as u32 * 0x1_0000 + b3 as u32 * 0x100_0000
        ==> w % 0x100 == b0 as u32 && (w / 0x100) % 0x100 == b1 as u32 && (w / 0x1_0000) % 0x100
        == b2 as u32 && w / 0x100_0000 == b3 as u32) by (bit_vector);
}

/// Reads the little-endian word at `off`.
fn le32_read(bytes: &Vec<u8>, off: usize) -> (w: u32)
    requires
        off + 4 <= bytes.len(),
    ensures
        w == le32_at(bytes@, off as int),
{
    let b0 = bytes[off];
    let b1 = bytes[off + 1];
    let b2 = bytes[off + 2];
    let b3 = bytes[off + 3];
    b0 as u32 + b1 as u32 * 0x100 + b2 as u32 * 0x1_0000 + b3 as u32 * 0x100_0000
}

/// Appends the four little-endian bytes of `w` to `out`.
fn le32_push(out: &mut Vec<u8>, w: u32)
    ensures
        final(out)@.len() == old(out)@.len() + 4,
        forall|k: int|
            0 <= k < 4 ==> final(out)@[old(out)@.len() + k] == le32_byte(w, k),
        forall|p: int| 0 <= p < old(out)@.len() ==> final(out)@[p] == old(out)@[p],
        final(out)@.subrange(0, old(out)@.len() as int) == old(out)@,
{
    let ghost n = out@.len() as int;
    out.push((w % 0x100) as u8);
    out.push(((w / 0x100) % 0x100) as u8);
    out.push(((w / 0x1_0000) % 0x100) as u8);
    out.push((w / 0x100_0000) as u8);
    proof {
        assert(out@.subrange(0, n) =~= old(out)@);
    }
}

/// Structural failures of the codec.  Decoding fails on a truncated or
/// malformed stream; encoding fails when a record does not have exactly
/// the header's field count.
#[derive(Debug, Clone, Copy, PartialEq, Eq, Structural)]
pub enum DbcError {
    /// Fewer bytes than the fixed header size.
    TruncatedHeader,
    /// The first four bytes are not the required magic tag.
    BadMagic,
    /// The stated record size has no room for the stated field count.
    RecordSizeTooSmall,
    /// The stream ends before all record bytes.
    TruncatedRecords,
    /// The stream ends before all string-pool bytes.
    TruncatedPool,
    /// A record's length differs from the header's field count.
    RecordLengthMismatch,
}

/// Record count stated by the header bytes.
pub open spec fn spec_record_count(bytes: Seq<u8>) -> u32 {
    le32_at(bytes, 4)
}

/// Field count stated by the header bytes.
pub open spec fn spec_field_count(bytes: Seq<u8>) -> u32 {
    le32_at(bytes, 8)
}

/// Record size in bytes stated by the header bytes.
pub open spec fn spec_record_size(bytes: Seq<u8>) -> u32 {
    le32_at(bytes, 12)
}

/// String-pool size in bytes stated by the header bytes.
pub open spec fn spec_pool_size(bytes: Seq<u8>) -> u32 {
    le32_at(bytes, 16)
}

/// Offset one past the last record byte.
pub open spec fn records_end(bytes: Seq<u8>) -> int {
    HEADER_SIZE + spec_record_count(bytes) * spec_record_size(bytes)
}

/// A byte stream decodes successfully exactly when it holds a full header
/// with the magic tag, the record size leaves room for the fields, and all
/// record and pool bytes are present.
pub open spec fn decode_ok(bytes: Seq<u8>) -> bool {
    &&& bytes.len() >= HEADER_SIZE
    &&& is_magic(bytes.subrange(0, 4))
    &&& 4 * spec_field_count(bytes) <= spec_record_size(bytes)
    &&& bytes.len() >= records_end(bytes)
    &&& bytes.len() >= records_end(bytes) + spec_pool_size(bytes)
}

/// The error reported for a stream that does not decode: the first check
/// that fails, in the order the stream is read.
pub open spec fn decode_err(bytes: Seq<u8>) -> DbcError {
    if bytes.len() < HEADER_SIZE {
        DbcError::TruncatedHeader
    } else if !is_magic(bytes.subrange(0, 4)) {
        DbcError::BadMagic
    } else if 4 * spec_field_count(bytes) > spec_record_size(bytes) {
        DbcError::RecordSizeTooSmall
    } else if bytes.len() < records_end(bytes) {
        DbcError::TruncatedRecords
    } else {
        DbcError::TruncatedPool
    }
}

/// The records held in a decodable byte stream: `record_count` records of
/// `field_count` little-endian words each, one record every `record_size`
/// bytes.
pub open spec fn table_records(bytes: Seq<u8>) -> Seq<Seq<u32>> {
    Seq::new(
        spec_record_count(bytes) as nat,
        |i: int|
            Seq::new(
                spec_field_count(bytes) as nat,
                |j: int| le32_at(bytes, HEADER_SIZE + i * spec_record_size(bytes) + 4 * j),
            ),
    )
}

/// The string pool held in a decodable byte stream: the `string_block_size`
/// bytes after the records, taken verbatim.
pub open spec fn table_pool(bytes: Seq<u8>) -> Seq<u8> {
    bytes.subrange(records_end(bytes), records_end(bytes) + spec_pool_size(bytes))
}

/// Decodes a byte stream into its header, records and string pool.
///
/// Succeeds exactly on streams satisfying `decode_ok`; the result is then
/// fully determined by the stream: the header's fields are the five header
/// words, the records are `table_records` and the pool is `table_pool`.
/// On any other stream it returns `decode_err`.  Trailing bytes beyond the
/// pool are ignored.
pub fn decode_dbc(bytes: &Vec<u8>) -> (r: Result<(DbcHeader, Vec<Vec<u32>>, Vec<u8>), DbcError>)
    ensures
        match r {
            Ok((h, recs, pool)) => {
                &&& decode_ok(bytes@)
                &&& is_magic(h.magic@)
                &&& h.record_count == spec_record_count(bytes@)
                &&& h.field_count == spec_field_count(bytes@)
                &&& h.record_size == spec_record_size(bytes@)
                &&& h.string_block_size == spec_pool_size(bytes@)
                &&& recs.deep_view() == table_records(bytes@)
                &&& pool@ == table_pool(bytes@)
            },
            Err(e) => !decode_ok(bytes@) && e == decode_err(bytes@),
        },
{
    if bytes.len() < HEADER_SIZE {
        return Err(DbcError::TruncatedHeader);
    }
    let magic_ok = bytes[0] == 0x57 && bytes[1] == 0x44 && bytes[2] == 0x42 && bytes[3] == 0x43;
    proof {
        assert(bytes@.subrange(0, 4)[0] == bytes@[0]);
        assert(bytes@.subrange(0, 4)[1] == bytes@[1]);
        assert(bytes@.subrange(0, 4)[2] == bytes@[2]);
        assert(bytes@.subrange(0, 4)[3] == bytes@[3]);
    }
    if !magic_ok {
        return Err(DbcError::BadMagic);
    }
    let record_count = le32_read(bytes, 4);
    let field_count = le32_read(bytes, 8);
    let record_size = le32_read(bytes, 12);
    let string_block_size = le32_read(bytes, 16);
    if (record_size as u64) < 4 * (field_count as u64) {
        return Err(DbcError::RecordSizeTooSmall);
    }
    let len64 = bytes.len() as u64;
    proof {
        assert((record_count as u64) * (record_size as u64) <= 0xffff_ffffu64 * 0xffff_ffffu64)
            by (nonlinear_arith)
            requires
                record_count as u64 <= 0xffff_ffffu64,
                record_size as u64 <= 0xffff_ffffu64,
        ;
    }
    let rec_bytes: u64 = (record_count as u64) * (record_size as u64);
    if len64 - (HEADER_SIZE as u64) < rec_bytes {
        return Err(DbcError::TruncatedRecords);
    }
    if len64 - (HEADER_SIZE as u64) - rec_bytes < string_block_size as u64 {
        return Err(DbcError::TruncatedPool);
    }
    let rc = record_count as usize;
    let fc = field_count as usize;
    let rs = record_size as usize;
    let header = DbcHeader {
        magic: [0x57u8, 0x44u8, 0x42u8, 0x43u8],
        record_count,
        field_count,
        record_size,
        string_block_size,
    };
    proof {
        assert(header.magic@[0] == 0x57u8);
        assert(header.magic@[1] == 0x44u8);
        assert(header.magic@[2] == 0x42u8);
        assert(header.magic@[3] == 0x43u8);
    }
    let mut records: Vec<Vec<u32>> = Vec::new();
    let mut base: usize = HEADER_SIZE;
    for i in 0..rc
        invariant
            rc == spec_record_count(bytes@),
            fc == spec_field_count(bytes@),
            rs == spec_record_size(bytes@),
            4 * fc <= rs,
            HEADER_SIZE + rc * rs <= bytes.len(),
            base == HEADER_SIZE + i * rs,
            records.deep_view().len() == i,
            forall|ii: int|
                0 <= ii < i ==> records.deep_view()[ii] == #[trigger] table_records(bytes@)[ii],
    {
        proof {
            assert((i + 1) * rs <= rc * rs) by (nonlinear_arith)
                requires
                    0 <= i,
                    i + 1 <= rc,
                    0 <= rs,
            ;
            assert(i * rs + rs == (i + 1) * rs) by (nonlinear_arith);
        }
        let mut rec: Vec<u32> = Vec::new();
        for j in 0..fc
            invariant
                4 * fc <= rs,
                base + rs <= bytes.len(),
                rec@.len() == j,
                forall|jj: int| 0 <= jj < j ==> rec@[jj] == le32_at(bytes@, base + 4 * jj),
        {
            let w = le32_read(bytes, base + 4 * j);
            rec.push(w);
        }
        proof {
            assert(rec.deep_view() =~= table_records(bytes@)[i as int]);
        }
        records.push(rec);
        base = base + rs;
    }
    proof {
        assert(records.deep_view() =~= table_records(bytes@));
    }
    let pool = bytes_range(bytes, base, base + string_block_size as usize);
    proof {
        assert(pool@ =~= table_pool(bytes@));
    }
    Ok((header, records, pool))
}

proof fn lemma_word_pos(i: int, j: int, fc: int)
    ensures
        (i * fc + j) * 4 == i * (4 * fc) + 4 * j,
{
    assert((i * fc + j) * 4 == i * (4 * fc) + 4 * j) by (nonlinear_arith);
}

proof fn lemma_word_pos_bound(ii: int, jx: int, i: int, fc: int)
    requires
        0 <= ii < i,
        0 <= jx < fc,
    ensures
        (ii * fc + jx) * 4 + 4 <= i * (4 * fc),
{
    assert((ii * fc + jx) * 4 + 4 <= i * (4 * fc)) by (nonlinear_arith)
        requires
            0 <= ii < i,
            0 <= jx < fc,
    ;
}

/// A record set can be encoded exactly when every record has the header's
/// field count.
pub open spec fn encode_ok(recs: Seq<Seq<u32>>, field_count: u32) -> bool {
    forall|i: int| 0 <= i < recs.len() ==> (#[trigger] recs[i]).len() == field_count
}

/// Encodes a table back into bytes: the header (with record count and pool
/// size recomputed from the records and pool actually supplied), then each
/// record's words, then the pool, all little-endian with no padding.
///
/// Fails exactly when some record's length differs from the header's field
/// count.  On success every output byte is pinned down by the arguments.
pub fn encode_dbc(header: &DbcHeader, records: &Vec<Vec<u32>>, pool: &Vec<u8>) -> (r: Result<
    Vec<u8>,
    DbcError,
>)
    requires
        records.len() <= u32::MAX,
        pool.len() <= u32::MAX,
    ensures
        match r {
            Ok(out) => {
                &&& encode_ok(records.deep_view(), header.field_count)
                &&& out@.len() == HEADER_SIZE + records@.len() * (4 * header.field_count)
                    + pool@.len()
                &&& forall|k: int| 0 <= k < 4 ==> out@[k] == header.magic@[k]
                &&& forall|k: int|
                    0 <= k < 4 ==> out@[4 + k] == #[trigger] le32_byte(records@.len() as u32, k)
                &&& forall|k: int|
                    0 <= k < 4 ==> out@[8 + k] == #[trigger] le32_byte(header.field_count, k)
                &&& forall|k: int|
                    0 <= k < 4 ==> out@[12 + k] == #[trigger] le32_byte(header.record_size, k)
                &&& forall|k: int|
                    0 <= k < 4 ==> out@[16 + k] == #[trigger] le32_byte(pool@.len() as u32, k)
                &&& forall|i: int, j: int, k: int|
                    0 <= i < records@.len() && 0 <= j < header.field_count && 0 <= k < 4
                        ==> out@[HEADER_SIZE + (i * header.field_count + j) * 4 + k]
                        == #[trigger] le32_byte(records.deep_view()[i][j], k)
                &&& forall|p: int|
                    0 <= p < pool@.len() ==> out@[HEADER_SIZE + records@.len() * (4
                        * header.field_count) + p] == #[trigger] pool@[p]
            },
            Err(e) => {
                &&& e == DbcError::RecordLengthMismatch
                &&& !encode_ok(records.deep_view(), header.field_count)
            },
        },
{
    let rl = records.len();
    let fc = header.field_count;
    for i in 0..rl
        invariant
            rl == records@.len(),
            fc == header.field_count,
            forall|ii: int| 0 <= ii < i ==> (#[trigger] records.deep_view()[ii]).len() == fc,
    {
        if records[i].len() != fc as usize {
            proof {
                assert(records.deep_view()[i as int].len() == records@[i as int]@.len());
            }
            return Err(DbcError::RecordLengthMismatch);
        }
        proof {
            assert(records.deep_view()[i as int].len() == records@[i as int]@.len());
        }
    }
    let mut out: Vec<u8> = Vec::new();
    out.push(header.magic[0]);
    out.push(header.magic[1]);
    out.push(header.magic[2]);
    out.push(header.magic[3]);
    le32_push(&mut out, rl as u32);
    le32_push(&mut out, fc);
    le32_push(&mut out, header.record_size);
    le32_push(&mut out, pool.len() as u32);
    proof {
        assert(out@.len() == HEADER_SIZE);
    }
    let ghost header_out = out@;
    proof {
        assert(forall|k: int| 0 <= k < 4 ==> header_out[k] == header.magic@[k]);
        assert(forall|k: int| 0 <= k < 4 ==> header_out[4 + k] == #[trigger] le32_byte(rl as u32, k));
        assert(forall|k: int| 0 <= k < 4 ==> header_out[8 + k] == #[trigger] le32_byte(fc, k));
        assert(forall|k: int|
            0 <= k < 4 ==> header_out[12 + k] == #[trigger] le32_byte(header.record_size, k));
        assert(forall|k: int|
            0 <= k < 4 ==> header_out[16 + k] == #[trigger] le32_byte(pool@.len() as u32, k));
    }
    for i in 0..rl
        invariant
            rl == records@.len(),
            fc == header.field_count,
            encode_ok(records.deep_view(), fc),
            out@.len() == HEADER_SIZE + i * (4 * fc),
            header_out.len() == HEADER_SIZE,
            forall|p: int| 0 <= p < HEADER_SIZE ==> out@[p] == header_out[p],
            forall|ii: int, j: int, k: int|
                0 <= ii < i && 0 <= j < fc && 0 <= k < 4 ==> out@[HEADER_SIZE + (ii * fc + j) * 4
                    + k] == le32_byte(records.deep_view()[ii][j], k),
    {
        let rec = &records[i];
        proof {
            assert(records.deep_view()[i as int].len() == rec@.len());
        }
        let ghost rec_start = out@.len() as int;
        for j in 0..fc as usize
            invariant
                rl == records@.len(),
                fc == header.field_count,
                0 <= i < rl,
                rec@ == records@[i as int]@,
                rec@.len() == fc,
                rec_start == HEADER_SIZE + i * (4 * fc),
                out@.len() == rec_start + 4 * j,
                header_out.len() == HEADER_SIZE,
                forall|p: int| 0 <= p < HEADER_SIZE ==> out@[p] == header_out[p],
                forall|ii: int, jx: int, k: int|
                    0 <= ii < i && 0 <= jx < fc && 0 <= k < 4 ==> out@[HEADER_SIZE + (ii * fc + jx)
                        * 4 + k] == le32_byte(records.deep_view()[ii][jx], k),
                forall|jj: int, k: int|
                    0 <= jj < j && 0 <= k < 4 ==> out@[rec_start + 4 * jj + k] == le32_byte(
                        records.deep_view()[i as int][jj],
                        k,
                    ),
        {
            proof {
                assert(records.deep_view()[i as int][j as int] == rec@[j as int]);
            }
            le32_push(&mut out, rec[j]);
            proof {
                assert forall|ii: int, jx: int, k: int|
                    0 <= ii < i && 0 <= jx < fc && 0 <= k < 4 implies out@[HEADER_SIZE + (ii * fc
                    + jx) * 4 + k] == le32_byte(records.deep_view()[ii][jx], k) by {
                    lemma_word_pos_bound(ii, jx, i as int, fc as int);
                }
            }
        }
        proof {
            assert forall|j2: int, k: int|
                0 <= j2 < fc && 0 <= k < 4 implies out@[HEADER_SIZE + (i * fc + j2) * 4 + k]
                == le32_byte(records.deep_view()[i as int][j2], k) by {
                lemma_word_pos(i as int, j2, fc as int);
            }
            assert(i * (4 * fc) + 4 * fc == (i + 1) * (4 * fc)) by (nonlinear_arith);
        }
    }
    let ghost body_end = out@.len() as int;
    for p in 0..pool.len()
        invariant
            out@.len() == body_end + p,
            body_end == HEADER_SIZE + rl * (4 * fc),
            rl == records@.len(),
            fc == header.field_count,
            header_out.len() == HEADER_SIZE,
            forall|q: int| 0 <= q < HEADER_SIZE ==> out@[q] == header_out[q],
            forall|ii: int, j: int, k: int|
                0 <= ii < rl && 0 <= j < fc && 0 <= k < 4 ==> out@[HEADER_SIZE + (ii * fc + j) * 4
                    + k] == le32_byte(records.deep_view()[ii][j], k),
            forall|pp: int| 0 <= pp < p ==> out@[body_end + pp] == pool@[pp],
    {
        out.push(pool[p]);
        proof {
            assert forall|ii: int, j: int, k: int|
                0 <= ii < rl && 0 <= j < fc && 0 <= k < 4 implies out@[HEADER_SIZE + (ii * fc + j)
                * 4 + k] == le32_byte(records.deep_view()[ii][j], k) by {
                lemma_word_pos_bound(ii, j, rl as int, fc as int);
            }
        }
    }
    proof {
        assert forall|k: int| 0 <= k < 4 implies out@[k] == header.magic@[k] by {
            assert(out@[k] == header_out[k]);
            assert(header_out[k] == header.magic@[k]);
        }
    }
    Ok(out)
}

/// Round trip: a table decoded from a byte stream and encoded again with
/// no patch operations reproduces the original bytes exactly, provided the
/// stream is exact: its record size is four bytes per field and nothing
/// follows the string pool.
///
/// `out` is characterized by the clauses of `encode_dbc`'s postcondition,
/// instantiated with the header, records and pool that `decode_dbc`'s
/// postcondition gives for `bytes`.
pub proof fn lemma_round_trip(bytes: Seq<u8>, out: Seq<u8>)
    requires
        decode_ok(bytes),
        spec_record_size(bytes) == 4 * spec_field_count(bytes),
        bytes.len() == records_end(bytes) + spec_pool_size(bytes),
        out.len() == HEADER_SIZE + table_records(bytes).len() * (4 * spec_field_count(bytes))
            + table_pool(bytes).len(),
        forall|k: int| 0 <= k < 4 ==> out[k] == bytes[k],
        forall|k: int|
            0 <= k < 4 ==> out[4 + k] == #[trigger] le32_byte(
                table_records(bytes).len() as u32,
                k,
            ),
        forall|k: int| 0 <= k < 4 ==> out[8 + k] == #[trigger] le32_byte(spec_field_count(bytes), k),
        forall|k: int|
            0 <= k < 4 ==> out[12 + k] == #[trigger] le32_byte(spec_record_size(bytes), k),
        forall|k: int|
            0 <= k < 4 ==> out[16 + k] == #[trigger] le32_byte(table_pool(bytes).len() as u32, k),
        forall|i: int, j: int, k: int|
            0 <= i < table_records(bytes).len() && 0 <= j < spec_field_count(bytes) && 0 <= k < 4
                ==> out[HEADER_SIZE + (i * spec_field_count(bytes) + j) * 4 + k]
                == #[trigger] le32_byte(table_records(bytes)[i][j], k),
        forall|p: int|
            0 <= p < table_pool(bytes).len() ==> out[HEADER_SIZE + table_records(bytes).len() * (4
                * spec_field_count(bytes)) + p] == #[trigger] table_pool(bytes)[p],
    ensures
        out == bytes,
{
    let rc = spec_record_count(bytes) as int;
    let fc = spec_field_count(bytes) as int;
    let rs = spec_record_size(bytes) as int;
    let sbs = spec_pool_size(bytes) as int;
    assert(rc * (4 * fc) == rc * rs) by (nonlinear_arith)
        requires
            rs == 4 * fc,
    ;
    assert(out.len() == bytes.len());
    lemma_le32_word(bytes, 4);
    lemma_le32_word(bytes, 8);
    lemma_le32_word(bytes, 12);
    lemma_le32_word(bytes, 16);
    assert(table_records(bytes).len() as u32 == spec_record_count(bytes));
    assert(table_pool(bytes).len() as u32 == spec_pool_size(bytes));
    assert forall|p: int| 0 <= p < HEADER_SIZE implies out[p] == bytes[p] by {
        if p < 4 {
        } else if p < 8 {
            let k = p - 4;
            assert(out[4 + k] == le32_byte(table_records(bytes).len() as u32, k));
            assert(le32_byte(le32_at(bytes, 4), k) == bytes[4 + k]);
        } else if p < 12 {
            let k = p - 8;
            assert(out[8 + k] == le32_byte(spec_field_count(bytes), k));
            assert(le32_byte(le32_at(bytes, 8), k) == bytes[8 + k]);
        } else if p < 16 {
            let k = p - 12;
            assert(out[12 + k] == le32_byte(spec_record_size(bytes), k));
            assert(le32_byte(le32_at(bytes, 12), k) == bytes[12 + k]);
        } else {
            let k = p - 16;
            assert(out[16 + k] == le32_byte(table_pool(bytes).len() as u32, k));
            assert(le32_byte(le32_at(bytes, 16), k) == bytes[16 + k]);
        }
    }
    assert forall|p: int| HEADER_SIZE <= p < HEADER_SIZE + rc * rs implies out[p] == bytes[p] by {
        let q = p - HEADER_SIZE;
        let i = q / rs;
        let r = q % rs;
        let j = r / 4;
        let k = r % 4;
        assert(rs > 0) by (nonlinear_arith)
            requires
                0 <= q < rc * rs,
                rc >= 0,
                rs >= 0,
        ;
        vstd::arithmetic::div_mod::lemma_fundamental_div_mod(q, rs);
        vstd::arithmetic::div_mod::lemma_mod_bound(q, rs);
        vstd::arithmetic::div_mod::lemma_fundamental_div_mod(r, 4);
        vstd::arithmetic::div_mod::lemma_mod_bound(r, 4);
        assert(0 <= i && i < rc) by (nonlinear_arith)
            requires
                q == rs * i + r,
                0 <= r < rs,
                0 <= q < rc * rs,
                rs > 0,
        ;
        assert(0 <= j && j < fc) by (nonlinear_arith)
            requires
                r == 4 * j + k,
                0 <= k < 4,
                0 <= r < rs,
                rs == 4 * fc,
        ;
        let pos = HEADER_SIZE + i * rs + 4 * j;
        assert(p == pos + k);
        assert((i * fc + j) * 4 == i * rs + 4 * j) by (nonlinear_arith)
            requires
                rs == 4 * fc,
        ;
        assert(pos + 4 <= HEADER_SIZE + rc * rs) by (nonlinear_arith)
            requires
                i < rc,
                j < fc,
                rs == 4 * fc,
                0 <= i,
                0 <= j,
                pos == HEADER_SIZE + i * rs + 4 * j,
        ;
        assert(table_records(bytes)[i][j] == le32_at(bytes, pos));
        lemma_le32_word(bytes, pos);
        assert(out[HEADER_SIZE + (i * fc + j) * 4 + k] == le32_byte(table_records(bytes)[i][j], k));
        assert(out[p] == le32_byte(le32_at(bytes, pos), k));
        assert(out[p] == bytes[pos + k]);
    }
    assert forall|p: int|
        HEADER_SIZE + rc * rs <= p < bytes.len() implies out[p] == bytes[p] by {
        let pp = p - (HEADER_SIZE + rc * rs);
        assert(out[HEADER_SIZE + rc * (4 * fc) + pp] == table_pool(bytes)[pp]);
        assert(table_pool(bytes)[pp] == bytes[records_end(bytes) + pp]);
    }
    assert(out =~= bytes);
}

/// The four bytes at `off` are the little-endian bytes of the word read
/// there.
pub proof fn lemma_le32_word(s: Seq<u8>, off: int)
    requires
        0 <= off,
        off + 4 <= s.len(),
    ensures
        forall|k: int| 0 <= k < 4 ==> #[trigger] le32_byte(le32_at(s, off), k) == s[off + k],
{
    let w = le32_at(s, off);
    assert(w == s[off] + s[off + 1] * 0x100 + s[off + 2] * 0x1_0000 + s[off + 3] * 0x100_0000);
    lemma_le32_roundtrip(w, s[off], s[off + 1], s[off + 2], s[off + 3]);
    assert forall|k: int| 0 <= k < 4 implies #[trigger] le32_byte(le32_at(s, off), k) == s[off
        + k] by {
        if k == 0 {
        } else if k == 1 {
        } else if k == 2 {
        } else {
        }
    }
}

} // verus!
