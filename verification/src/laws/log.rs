//! The log: sizes, the layout of its bytes, and what is read from any bytes.

use crate::bytes::{
    le_bytes, lemma_fixed_width, lemma_le_bytes_len, lemma_le_bytes_of_nat, lemma_number_at,
    u16_at, u32_at, u64_at,
};
use crate::crc::crc32;
use crate::engine::{prepares, Pending, State};
use crate::error::Error;
use crate::types::{stored_value, Key, Row, SeqNum, Value};
use crate::wal::{
    aligned, check_header, frame, frame_at, frame_len, frame_read, frame_with, header_flags,
    header_page, log_end, log_from, log_image, loggable, payload_bytes, payload_len, payload_row,
    record_rows, replayed, WalOp, WalRecord,
};
use vstd::prelude::*;

verus! {

// ---------------------------------------------------------------------------
// Sizes
// ---------------------------------------------------------------------------

/// Rounding up to pages gives whole pages and adds less than one; nothing takes one
/// page.
pub proof fn law_rounding_adds_less_than_a_page(n: int)
    requires
        n >= 0,
    ensures
        aligned(n) % 4096 == 0,
        n > 0 ==> n <= aligned(n) < n + 4096,
        n == 0 ==> aligned(n) == 4096,
{
}

/// Larger is not smaller after rounding.
pub proof fn law_rounding_is_monotonic(m: int, n: int)
    requires
        0 <= m <= n,
    ensures
        aligned(m) <= aligned(n),
{
}

/// The bytes of a value; a delete has none.
pub proof fn law_stored_value(v: Seq<u8>)
    ensures
        stored_value(Some(v)) == v,
        stored_value(None) == Seq::<u8>::empty(),
{
}

/// A frame is 25 bytes, the key and the value, rounded up to pages.
pub proof fn law_frame_size(key: Seq<u8>, seq: u64, value: Seq<u8>)
    ensures
        frame_len((key, (seq, Some(value)))) == aligned((25 + key.len() + value.len()) as int),
        frame_len((key, (seq, None))) == aligned((25 + key.len()) as int),
        frame((key, (seq, Some(value)))).len() == aligned((25 + key.len() + value.len()) as int),
        frame((key, (seq, None))).len() == aligned((25 + key.len()) as int),
{
    crate::wal::law_frame_len((key, (seq, Some(value))));
    crate::wal::law_frame_len((key, (seq, None)));
}

/// A write can be logged iff it has a key, and 25 bytes, key and value are at most
/// 16 MiB.
pub proof fn law_what_can_be_logged(key: Seq<u8>, seq: u64, value: Seq<u8>)
    ensures
        loggable((key, (seq, Some(value)))) <==> key.len() > 0 && 25 + key.len() + value.len()
            <= 16777216,
        loggable((key, (seq, None))) <==> key.len() > 0 && 25 + key.len() <= 16777216,
{
}

/// A put is accepted iff the key is not empty, the log is open, and 25 bytes, key
/// and value are at most 16 MiB.
pub proof fn law_put_is_accepted(
    state: State,
    key: Seq<u8>,
    value: Seq<u8>,
    r: Result<Pending, Error>,
)
    requires
        prepares(state, key, Some(value), r),
    ensures
        r is Ok <==> key.len() > 0 && state.log is Some && 25 + key.len() + value.len()
            <= 16777216,
        key.len() == 0 ==> r is Err && r->Err_0 == Error::EmptyKey,
        key.len() > 0 && state.log is None ==> r is Err && r->Err_0 == Error::WalCorrupt(
            "WAL no inicializado",
        ),
        key.len() > 0 && state.log is Some && 25 + key.len() + value.len() > 16777216 && aligned(
            (25 + key.len() + value.len()) as int,
        ) <= usize::MAX ==> r is Err && r->Err_0 == (Error::WalRecordTooLarge {
            size: aligned((25 + key.len() + value.len()) as int) as usize,
            max: 16777216,
        }),
{
}

/// A delete is accepted iff the key is not empty, the log is open, and 25 bytes and
/// the key are at most 16 MiB.
pub proof fn law_delete_is_accepted(state: State, key: Seq<u8>, r: Result<Pending, Error>)
    requires
        prepares(state, key, None, r),
    ensures
        r is Ok <==> key.len() > 0 && state.log is Some && 25 + key.len() <= 16777216,
        key.len() == 0 ==> r is Err && r->Err_0 == Error::EmptyKey,
        key.len() > 0 && state.log is None ==> r is Err && r->Err_0 == Error::WalCorrupt(
            "WAL no inicializado",
        ),
        key.len() > 0 && state.log is Some && 25 + key.len() > 16777216 && aligned(
            (25 + key.len()) as int,
        ) <= usize::MAX ==> r is Err && r->Err_0 == (Error::WalRecordTooLarge {
            size: aligned((25 + key.len()) as int) as usize,
            max: 16777216,
        }),
{
}

// ---------------------------------------------------------------------------
// Operations and records
// ---------------------------------------------------------------------------

/// An operation stands for its key and its value, or for a delete of its key.
pub proof fn law_operation_as_write(key: Key, value: Value, seq: SeqNum)
    ensures
        (WalOp::Put { key, value }).row(seq) == (key@, (seq@, Some(value@))),
        (WalOp::Delete { key }).row(seq) == (key@, (seq@, None::<Seq<u8>>)),
        (WalRecord { seq, op: WalOp::Put { key, value } })@ == (key@, (seq@, Some(value@))),
        (WalRecord { seq, op: WalOp::Delete { key } })@ == (key@, (seq@, None::<Seq<u8>>)),
{
}

/// Records stand for as many writes, in order.
pub proof fn law_records_as_writes(records: Seq<WalRecord>, i: int)
    requires
        0 <= i < records.len(),
    ensures
        record_rows(records).len() == records.len(),
        record_rows(records)[i] == records[i]@,
{
}

// ---------------------------------------------------------------------------
// Payloads
// ---------------------------------------------------------------------------

/// Where the parts of a payload lie: number, kind, the two lengths, key, value.
pub proof fn law_payload_layout(row: Row)
    requires
        row.0.len() <= u32::MAX,
        stored_value(row.1.1).len() <= u32::MAX,
    ensures
        ({
            let p = payload_bytes(row);
            let k = row.0.len() as int;
            let v = stored_value(row.1.1);
            &&& p.len() == 17 + k + v.len()
            &&& payload_len(row) == p.len()
            &&& u64_at(p, 0) == row.1.0
            &&& p[8] == if row.1.1 is Some {
                1u8
            } else {
                2u8
            }
            &&& u32_at(p, 9) == k
            &&& u32_at(p, 13) == v.len()
            &&& p.subrange(17, 17 + k) == row.0
            &&& p.subrange(17 + k, p.len() as int) == v
        }),
{
    let p = payload_bytes(row);
    let k = row.0.len() as int;
    let v = stored_value(row.1.1);
    lemma_le_bytes_len(row.1.0 as nat, 8);
    lemma_le_bytes_len(row.0.len(), 4);
    lemma_le_bytes_len(v.len(), 4);
    assert(p.subrange(0, 8) =~= le_bytes(row.1.0 as nat, 8));
    assert(p.subrange(9, 13) =~= le_bytes(row.0.len(), 4));
    assert(p.subrange(13, 17) =~= le_bytes(v.len(), 4));
    assert(p.subrange(17, 17 + k) =~= row.0);
    assert(p.subrange(17 + k, p.len() as int) =~= v);
    lemma_number_at(p, 0, row.1.0 as nat, 8);
    lemma_number_at(p, 9, row.0.len(), 4);
    lemma_number_at(p, 13, v.len(), 4);
}

/// What is read from a payload is what was written into it: no other bytes read as
/// the same write.
pub proof fn law_payload_is_what_it_says(src: Seq<u8>, row: Row)
    requires
        payload_row(src) == Ok::<Row, Error>(row),
    ensures
        payload_bytes(row) == src,
        row.0.len() > 0,
{
    let k = u32_at(src, 9) as int;
    let v = stored_value(row.1.1);
    lemma_fixed_width(src, 0);
    lemma_fixed_width(src, 9);
    lemma_fixed_width(src, 13);
    lemma_le_bytes_of_nat(src.subrange(0, 8));
    lemma_le_bytes_of_nat(src.subrange(9, 13));
    lemma_le_bytes_of_nat(src.subrange(13, 17));
    assert(row.0 =~= src.subrange(17, 17 + k));
    assert(v =~= src.subrange(17 + k, src.len() as int));
    assert(payload_bytes(row) =~= src.subrange(0, 8) + seq![src[8]] + src.subrange(9, 13)
        + src.subrange(13, 17) + src.subrange(17, 17 + k) + src.subrange(17 + k, src.len() as int));
    assert(payload_bytes(row) =~= src);
}

/// Which bytes are no payload, and what is wrong with them.
pub proof fn law_payload_refusals(src: Seq<u8>)
    ensures
        src.len() < 17 ==> payload_row(src) == Err::<Row, Error>(
            Error::WalCorrupt("payload corto"),
        ),
        src.len() >= 17 && 17 + u32_at(src, 9) + u32_at(src, 13) != src.len() ==> payload_row(src)
            == Err::<Row, Error>(Error::WalCorrupt("longitudes de clave/valor")),
        src.len() >= 17 && 17 + u32_at(src, 9) + u32_at(src, 13) == src.len() ==> {
            &&& u32_at(src, 9) == 0 ==> payload_row(src) == Err::<Row, Error>(Error::EmptyKey)
            &&& u32_at(src, 9) > 0 && src[8] != 1 && src[8] != 2 ==> payload_row(src) == Err::<
                Row,
                Error,
            >(Error::WalCorrupt("kind desconocido"))
            &&& u32_at(src, 9) > 0 && src[8] == 2 && u32_at(src, 13) > 0 ==> payload_row(src)
                == Err::<Row, Error>(Error::WalCorrupt("delete con valor"))
            &&& u32_at(src, 9) > 0 && (src[8] == 1 || (src[8] == 2 && u32_at(src, 13) == 0))
                ==> payload_row(src) is Ok
        },
{
}

// ---------------------------------------------------------------------------
// Frames
// ---------------------------------------------------------------------------

/// Where the parts of a frame lie: CRC, length, payload, zeros up to the page.
pub proof fn law_frame_layout(payload: Seq<u8>, crc: u32)
    requires
        payload.len() <= u32::MAX,
    ensures
        ({
            let f = frame_with(payload, crc);
            let n = payload.len() as int;
            &&& f.len() == aligned(8 + n)
            &&& u32_at(f, 0) == crc
            &&& u32_at(f, 4) == n
            &&& f.subrange(8, 8 + n) == payload
            &&& forall|i: int| 8 + n <= i < f.len() ==> #[trigger] f[i] == 0
        }),
{
    let f = frame_with(payload, crc);
    let n = payload.len() as int;
    lemma_le_bytes_len(crc as nat, 4);
    lemma_le_bytes_len(payload.len(), 4);
    assert(f.subrange(0, 4) =~= le_bytes(crc as nat, 4));
    assert(f.subrange(4, 8) =~= le_bytes(payload.len(), 4));
    assert(f.subrange(8, 8 + n) =~= payload);
    lemma_number_at(f, 0, crc as nat, 4);
    lemma_number_at(f, 4, payload.len(), 4);
}

/// The frame of a write holds its payload under the payload's CRC.
pub proof fn law_frame_of_a_write(row: Row)
    ensures
        frame(row) == frame_with(payload_bytes(row), crc32(payload_bytes(row))),
{
}

/// What is read at an offset of any bytes, when the CRC-32 of the payload there is
/// `crc`: the end of the log, a write with the offset behind it, or an error.
pub proof fn law_frame_reading(log: Seq<u8>, off: int, crc: u32)
    requires
        0 <= off,
    ensures
        ({
            let len = u32_at(log, off + 4) as int;
            let next = off + aligned(8 + len);
            let payload = log.subrange(off + 8, off + 8 + len);
            let r = frame_read(log, off, crc);
            let whole = off + 4096 <= log.len() && len > 0 && next <= log.len();
            &&& !whole ==> r == Ok::<Option<(Row, int)>, Error>(None)
            &&& whole && 8 + len > 16777216 ==> r is Err && r->Err_0 == (Error::WalRecordTooLarge {
                size: aligned(8 + len) as usize,
                max: 16777216,
            })
            &&& whole && 8 + len <= 16777216 && crc != u32_at(log, off) ==> r == Ok::<
                Option<(Row, int)>,
                Error,
            >(None)
            &&& whole && 8 + len <= 16777216 && crc == u32_at(log, off) ==> match payload_row(
                payload,
            ) {
                Ok(row) => r == Ok::<Option<(Row, int)>, Error>(Some((row, next))),
                Err(e) => r == Err::<Option<(Row, int)>, Error>(e),
            }
        }),
{
    reveal(frame_read);
}

/// The CRC that counts is that of the payload's bytes.
pub proof fn law_frame_at(log: Seq<u8>, off: int)
    ensures
        frame_at(log, off) == frame_read(
            log,
            off,
            crc32(log.subrange(off + 8, off + 8 + u32_at(log, off + 4))),
        ),
{
}

/// A log is read frame by frame: to its end, or to the first error.
pub proof fn law_log_reading(log: Seq<u8>, off: int)
    ensures
        match frame_at(log, off) {
            Ok(None) => log_from(log, off) == Ok::<(Seq<Row>, int), Error>((seq![], off)),
            Err(e) => log_from(log, off) == Err::<(Seq<Row>, int), Error>(e),
            Ok(Some((row, next))) => match log_from(log, next) {
                Ok((rest, end)) => log_from(log, off) == Ok::<(Seq<Row>, int), Error>(
                    (seq![row] + rest, end),
                ),
                Err(e) => log_from(log, off) == Err::<(Seq<Row>, int), Error>(e),
            },
        },
{
    reveal(frame_read);
}

/// A replay reads the file up to the end of the log, from the first page on.
pub proof fn law_replay_reading(image: Seq<u8>, end: int)
    requires
        0 <= end,
    ensures
        ({
            let log = image.take(
                if end < image.len() {
                    end
                } else {
                    image.len() as int
                },
            );
            match log_from(log, 4096) {
                Ok((rows, _)) => replayed(image, end) == Ok::<Seq<Row>, Error>(rows),
                Err(e) => replayed(image, end) == Err::<Seq<Row>, Error>(e),
            }
        }),
{
    assert(image.take(image.len() as int) =~= image);
    if end < image.len() {
        assert(image.take(end) =~= image.subrange(0, end));
    }
}

// ---------------------------------------------------------------------------
// The header
// ---------------------------------------------------------------------------

/// The header page, byte by byte: `NSDB`, version 1, whether the file is open for
/// direct I/O, the CRC of these 8 bytes, zeros.
pub proof fn law_header_layout(direct: bool)
    ensures
        ({
            let page = header_page(header_flags(direct));
            let flag = if direct {
                1u8
            } else {
                0u8
            };
            &&& page.len() == 4096
            &&& page.take(8) == seq![78u8, 83u8, 68u8, 66u8, 1u8, 0u8, flag, 0u8]
            &&& u32_at(page, 8) == crc32(page.take(8))
            &&& forall|i: int| 12 <= i < 4096 ==> #[trigger] page[i] == 0
        }),
{
    let flags = header_flags(direct);
    let page = header_page(flags);
    let head = crate::wal::header_head(flags);
    reveal_with_fuel(le_bytes, 3);
    lemma_le_bytes_len(1, 2);
    lemma_le_bytes_len(flags as nat, 2);
    lemma_le_bytes_len(crc32(head) as nat, 4);
    let flag = if direct {
        1u8
    } else {
        0u8
    };
    assert(head =~= seq![78u8, 83u8, 68u8, 66u8, 1u8, 0u8, flag, 0u8]);
    assert(page.take(8) =~= head);
    assert(page.subrange(8, 12) =~= le_bytes(crc32(head) as nat, 4));
    lemma_number_at(page, 8, crc32(head) as nat, 4);
}

/// A log begins with a page: `NSDB`, version 1, and in bytes 8 to 11 the CRC of the
/// first 8 bytes. What is missing first is the error.
pub proof fn law_header_check(bytes: Seq<u8>, crc: u32)
    ensures
        ({
            let r = check_header(bytes, crc);
            let magic = bytes[0] == 78 && bytes[1] == 83 && bytes[2] == 68 && bytes[3] == 66;
            &&& bytes.len() < 4096 ==> r == Err::<(), Error>(Error::WalCorrupt("cabecera truncada"))
            &&& bytes.len() >= 4096 && !magic ==> r == Err::<(), Error>(
                Error::WalCorrupt("magic inválida"),
            )
            &&& bytes.len() >= 4096 && magic && u16_at(bytes, 4) != 1 ==> r == Err::<(), Error>(
                Error::UnsupportedWalVersion(u16_at(bytes, 4)),
            )
            &&& bytes.len() >= 4096 && magic && u16_at(bytes, 4) == 1 && u32_at(bytes, 8) != crc
                ==> r == Err::<(), Error>(Error::WalCorrupt("checksum de cabecera"))
            &&& bytes.len() >= 4096 && magic && u16_at(bytes, 4) == 1 && u32_at(bytes, 8) == crc
                ==> r == Ok::<(), Error>(())
        }),
{
    if bytes.len() >= 4096 {
        let head = bytes.subrange(0, 4);
        let magic = seq![78u8, 83u8, 68u8, 66u8];
        assert(crate::wal::WAL_MAGIC@ =~= magic);
        assert(head[0] == bytes[0] && head[1] == bytes[1] && head[2] == bytes[2] && head[3]
            == bytes[3]);
        if bytes[0] == 78 && bytes[1] == 83 && bytes[2] == 68 && bytes[3] == 66 {
            assert(head =~= magic);
        } else {
            assert(magic[0] == 78 && magic[1] == 83 && magic[2] == 68 && magic[3] == 66);
        }
    }
}

/// Opening a log checks its header against the CRC of the first 8 bytes and finds
/// the end behind its last frame.
pub proof fn law_opening_a_log(image: Seq<u8>)
    ensures
        match check_header(image, crc32(image.subrange(0, 8))) {
            Err(e) => log_end(image) == Err::<int, Error>(e),
            Ok(_) => match log_from(image, 4096) {
                Err(e) => log_end(image) == Err::<int, Error>(e),
                Ok((_, end)) => log_end(image) == Ok::<int, Error>(end),
            },
        },
{
}

/// A log of writes is the header page and a frame for each write, in order.
pub proof fn law_log_layout(flags: u16, rows: Seq<Row>, row: Row)
    ensures
        log_image(flags, seq![]) == header_page(flags),
        log_image(flags, rows.push(row)) == log_image(flags, rows) + frame(row),
{
    assert(crate::wal::frame_pieces(seq![]) =~= seq![]);
    assert(log_image(flags, seq![]) =~= header_page(flags));
    crate::wal::law_append_extends_log(flags, rows, row);
}

} // verus!
