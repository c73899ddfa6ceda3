//! Write-ahead log: pages of 4096 bytes.
//!
//! The first page is a header. After it come frames: CRC-32, payload length,
//! payload, and zeros up to the next page. Direct I/O asks that the address, the
//! length and the file offset of a transfer are all multiples of the page size,
//! so every frame takes whole pages.
//!
//! A write is logged before the table in memory sees it: a crash between the two
//! loses nothing, because the log is replayed. A crash in the middle of a write
//! leaves a frame that is cut short or whose CRC does not match; the log ends
//! there.

use crate::bytes::{
    bytes_equal, capped, joined, le_bytes, lemma_joined_push, lemma_joined_split,
    lemma_le_bytes_len, lemma_number_at, push_all, push_le, read_u16, read_u32, read_u64, u16_at,
    u32_at, u64_at, zeros,
};
use crate::crc::{crc32, crc_of};
use crate::error::Error;
use crate::types::{stored_value, Key, Row, SeqNum, Value};
use vstd::prelude::*;
use vstd::slice::slice_subrange;
use vstd::slice::slice_to_vec;

verus! {

/// The page size.
pub const WAL_ALIGN: usize = 4096;

/// `NSDB`, at the beginning of the file.
pub const WAL_MAGIC: [u8; 4] = [78, 83, 68, 66];

/// The format version.
pub const WAL_VERSION: u16 = 1;

/// Bit 0 of [`WALHeader::flags`]: the file was opened for direct I/O.
pub const WAL_FLAG_DIRECT: u16 = 1;

/// The largest frame, header and padding included.
pub const MAX_RECORD_BYTES: usize = 16777216;

/// Kind of a payload that stores a value.
pub const KIND_PUT: u8 = 1;

/// Kind of a payload that deletes a key.
pub const KIND_DELETE: u8 = 2;

/// Bytes of a frame before its payload: CRC-32 and payload length.
pub const FRAME_HEADER: usize = 8;

/// Bytes of a payload before its key.
pub const PAYLOAD_HEADER: usize = 17;

/// The error code that Linux gives for an invalid argument.
pub const EINVAL: i32 = 22;

/// The error code that Linux gives for an operation that is not supported.
pub const EOPNOTSUPP: i32 = 95;

// ---------------------------------------------------------------------------
// Records
// ---------------------------------------------------------------------------

/// A logged operation.
#[derive(Debug, Clone, Eq, PartialEq)]
pub enum WalOp {
    /// Stores a value.
    Put {
        /// The key.
        key: Key,
        /// The value.
        value: Value,
    },
    /// Deletes a key.
    Delete {
        /// The key.
        key: Key,
    },
}

impl WalOp {
    /// The key of the operation.
    pub open spec fn spec_key(self) -> Seq<u8> {
        match self {
            WalOp::Put { key, value: _ } => key@,
            WalOp::Delete { key } => key@,
        }
    }

    /// The value that the operation stores; `None` is a delete.
    pub open spec fn spec_value(self) -> Option<Seq<u8>> {
        match self {
            WalOp::Put { key: _, value } => Some(value@),
            WalOp::Delete { key: _ } => None,
        }
    }

    /// The operation as a write with number `seq`.
    pub open spec fn row(self, seq: SeqNum) -> Row {
        (self.spec_key(), (seq@, self.spec_value()))
    }
}

/// A record read from the log.
#[derive(Debug, Clone, Eq, PartialEq)]
pub struct WalRecord {
    /// The number of the write.
    pub seq: SeqNum,
    /// The operation.
    pub op: WalOp,
}

impl View for WalRecord {
    type V = Row;

    open spec fn view(&self) -> Row {
        self.op.row(self.seq)
    }
}

/// The writes that `records` stand for.
pub open spec fn record_rows(records: Seq<WalRecord>) -> Seq<Row> {
    Seq::new(records.len(), |i: int| records[i]@)
}

/// The payload of a write: number, kind, the two lengths, key and value.
pub open spec fn payload_bytes(row: Row) -> Seq<u8> {
    le_bytes(row.1.0 as nat, 8) + seq![
        if row.1.1 is Some {
            KIND_PUT
        } else {
            KIND_DELETE
        },
    ] + le_bytes(row.0.len(), 4) + le_bytes(stored_value(row.1.1).len(), 4) + row.0 + stored_value(
        row.1.1,
    )
}

/// The number of bytes of a payload.
pub open spec fn payload_len(row: Row) -> nat {
    PAYLOAD_HEADER as nat + row.0.len() + stored_value(row.1.1).len()
}

/// The write that a payload stands for.
pub open spec fn payload_row(src: Seq<u8>) -> Result<Row, Error> {
    if src.len() < PAYLOAD_HEADER {
        Err(Error::WalCorrupt("payload corto"))
    } else {
        let seq = u64_at(src, 0);
        let key_end = PAYLOAD_HEADER + u32_at(src, 9);
        let val_end = key_end + u32_at(src, 13);
        if val_end != src.len() {
            Err(Error::WalCorrupt("longitudes de clave/valor"))
        } else if key_end == PAYLOAD_HEADER {
            Err(Error::EmptyKey)
        } else {
            let key = src.subrange(PAYLOAD_HEADER as int, key_end);
            if src[8] == KIND_PUT {
                Ok((key, (seq, Some(src.subrange(key_end, val_end)))))
            } else if src[8] == KIND_DELETE {
                if val_end != key_end {
                    Err(Error::WalCorrupt("delete con valor"))
                } else {
                    Ok((key, (seq, None)))
                }
            } else {
                Err(Error::WalCorrupt("kind desconocido"))
            }
        }
    }
}

// ---------------------------------------------------------------------------
// Frames
// ---------------------------------------------------------------------------

/// `n` rounded up to whole pages, at least one.
pub open spec fn aligned(n: int) -> int {
    if n == 0 {
        WAL_ALIGN as int
    } else {
        (n + WAL_ALIGN - 1) / (WAL_ALIGN as int) * WAL_ALIGN
    }
}

/// The bytes of a frame with the given payload and CRC.
pub open spec fn frame_with(payload: Seq<u8>, crc: u32) -> Seq<u8> {
    le_bytes(crc as nat, 4) + le_bytes(payload.len(), 4) + payload + zeros(
        (aligned(FRAME_HEADER + payload.len()) - FRAME_HEADER - payload.len()) as nat,
    )
}

/// The frame of a write.
pub open spec fn frame(row: Row) -> Seq<u8> {
    frame_with(payload_bytes(row), crc32(payload_bytes(row)))
}

/// The number of bytes of the frame of a write.
pub open spec fn frame_len(row: Row) -> int {
    aligned((FRAME_HEADER + payload_len(row)) as int)
}

/// The write has a key, and its frame is not too large.
pub open spec fn loggable(row: Row) -> bool {
    row.0.len() > 0 && frame_len(row) <= MAX_RECORD_BYTES
}

/// The frames of `rows`, one after the other.
pub open spec fn frames(rows: Seq<Row>) -> Seq<u8> {
    joined(frame_pieces(rows))
}

/// The frame of each row.
pub open spec fn frame_pieces(rows: Seq<Row>) -> Seq<Seq<u8>> {
    Seq::new(rows.len(), |i: int| frame(rows[i]))
}

/// The length of the payload of the frame at `off`, if a whole frame may be there.
/// A frame that runs past the end of the file is none, however long it claims to
/// be; one that lies in the file but exceeds the limit is an error.
pub open spec fn frame_slot(log: Seq<u8>, off: int) -> Result<Option<int>, Error> {
    let len = u32_at(log, off + 4);
    let framed = aligned(FRAME_HEADER + len);
    if off + WAL_ALIGN > log.len() {
        Ok(None)
    } else if len == 0 {
        Ok(None)
    } else if off + framed > log.len() {
        Ok(None)
    } else if framed > MAX_RECORD_BYTES {
        Err(Error::WalRecordTooLarge { size: framed as usize, max: MAX_RECORD_BYTES })
    } else {
        Ok(Some(len as int))
    }
}

/// The write in the frame at `off` and the offset after the frame, when the CRC-32
/// of the payload is `crc`; `None` if the log ends at `off`.
#[verifier::opaque]
pub open spec fn frame_read(log: Seq<u8>, off: int, crc: u32) -> Result<Option<(Row, int)>, Error> {
    match frame_slot(log, off) {
        Err(e) => Err(e),
        Ok(None) => Ok(None),
        Ok(Some(len)) => if crc != u32_at(log, off) {
            Ok(None)
        } else {
            match payload_row(log.subrange(off + FRAME_HEADER, off + FRAME_HEADER + len)) {
                Err(e) => Err(e),
                Ok(row) => Ok(Some((row, off + aligned(FRAME_HEADER + len)))),
            }
        },
    }
}

/// The payload of the frame at `off`.
pub open spec fn frame_payload(log: Seq<u8>, off: int) -> Seq<u8> {
    log.subrange(off + FRAME_HEADER, off + FRAME_HEADER + u32_at(log, off + 4))
}

/// The write in the frame at `off` and the offset after the frame; `None` if the
/// log ends at `off`.
pub open spec fn frame_at(log: Seq<u8>, off: int) -> Result<Option<(Row, int)>, Error> {
    frame_read(log, off, crc32(frame_payload(log, off)))
}

/// The writes of the frames from `off` on, and the offset at which the log ends.
pub open spec fn log_from(log: Seq<u8>, off: int) -> Result<(Seq<Row>, int), Error>
    decreases log.len() - off,
    via log_from_ends
{
    match frame_at(log, off) {
        Err(e) => Err(e),
        Ok(None) => Ok((seq![], off)),
        Ok(Some((row, next))) => match log_from(log, next) {
            Err(e) => Err(e),
            Ok((rest, end)) => Ok((seq![row] + rest, end)),
        },
    }
}

#[via_fn]
proof fn log_from_ends(log: Seq<u8>, off: int) {
    reveal(frame_read);
}

// ---------------------------------------------------------------------------
// The header page
// ---------------------------------------------------------------------------

/// The header page.
#[derive(Clone, Copy)]
pub struct WALHeader {
    /// `NSDB`.
    pub magic: [u8; 4],
    /// Format version.
    pub version: u16,
    /// Flags, see [`WAL_FLAG_DIRECT`].
    pub flags: u16,
    /// CRC-32 of the 8 bytes before it.
    pub checksum: u32,
    /// Zeros up to the end of the page.
    pub _pad: [u8; 4084],
}

/// The flags of a log that is opened for direct I/O, or not.
pub open spec fn header_flags(direct: bool) -> u16 {
    if direct {
        WAL_FLAG_DIRECT
    } else {
        0
    }
}

/// The part of the header that the checksum covers.
pub open spec fn header_head(flags: u16) -> Seq<u8> {
    WAL_MAGIC@ + le_bytes(WAL_VERSION as nat, 2) + le_bytes(flags as nat, 2)
}

/// The header page with checksum `crc`.
pub open spec fn header_with(flags: u16, crc: u32) -> Seq<u8> {
    header_head(flags) + le_bytes(crc as nat, 4) + zeros(4084)
}

/// The header page.
pub open spec fn header_page(flags: u16) -> Seq<u8> {
    header_with(flags, crc32(header_head(flags)))
}

/// Whether `bytes` begin with a header page, when the CRC-32 of the first 8 bytes
/// is `crc`.
pub open spec fn check_header(bytes: Seq<u8>, crc: u32) -> Result<(), Error> {
    if bytes.len() < WAL_ALIGN {
        Err(Error::WalCorrupt("cabecera truncada"))
    } else if bytes.subrange(0, 4) != WAL_MAGIC@ {
        Err(Error::WalCorrupt("magic inválida"))
    } else if u16_at(bytes, 4) != WAL_VERSION {
        Err(Error::UnsupportedWalVersion(u16_at(bytes, 4)))
    } else if u32_at(bytes, 8) != crc {
        Err(Error::WalCorrupt("checksum de cabecera"))
    } else {
        Ok(())
    }
}

/// Whether a file is a log, and at which offset the log ends.
pub open spec fn log_end(image: Seq<u8>) -> Result<int, Error> {
    match check_header(image, crc32(image.subrange(0, 8))) {
        Err(e) => Err(e),
        Ok(_) => match log_from(image, WAL_ALIGN as int) {
            Err(e) => Err(e),
            Ok((_, end)) => Ok(end),
        },
    }
}

/// A log of `rows`: the header page and the frames.
pub open spec fn log_image(flags: u16, rows: Seq<Row>) -> Seq<u8> {
    header_page(flags) + frames(rows)
}

// ---------------------------------------------------------------------------
// Encoding
// ---------------------------------------------------------------------------

/// `n` rounded up to whole pages, at least one.
pub fn align_up(n: usize) -> (r: usize)
    requires
        aligned(n as int) <= usize::MAX,
    ensures
        r == aligned(n as int),
        r % 4096 == 0,
        r >= n,
        r >= WAL_ALIGN,
        n > 0 ==> r < n + 4096,
        n == 0 ==> r == 4096,
{
    if n == 0 {
        WAL_ALIGN
    } else {
        ((n - 1) / WAL_ALIGN + 1) * WAL_ALIGN
    }
}

/// The bytes of a frame with a payload of `payload` bytes; the largest machine
/// word if they are more than that.
fn framed_size(payload: usize) -> (r: usize)
    ensures
        r == capped(aligned(FRAME_HEADER + payload)),
{
    match FRAME_HEADER.checked_add(payload) {
        Some(n) => if n > usize::MAX - 4095 {
            if n % 4096 == 0 {
                n
            } else {
                usize::MAX
            }
        } else {
            align_up(n)
        },
        None => usize::MAX,
    }
}

/// The bytes of the payload of `op`; the largest machine word if they are more
/// than that.
pub fn payload_size(op: &WalOp) -> (r: usize)
    ensures
        r == capped(PAYLOAD_HEADER + op.spec_key().len() + stored_value(op.spec_value()).len()),
{
    let (key_len, value_len): (usize, usize) = match op {
        WalOp::Put { key, value } => (key.len(), value.len()),
        WalOp::Delete { key } => (key.len(), 0),
    };
    PAYLOAD_HEADER.saturating_add(key_len).saturating_add(value_len)
}

/// A length as a field of four bytes.
fn u32_from_usize(n: usize) -> (r: Result<u32, Error>)
    ensures
        match r {
            Ok(len) => len == n,
            Err(e) => n > u32::MAX && e == (Error::WalRecordTooLarge {
                size: n,
                max: u32::MAX as usize,
            }),
        },
{
    if n > 0xFFFF_FFFF {
        return Err(Error::WalRecordTooLarge { size: n, max: 0xFFFF_FFFF });
    }
    Ok(n as u32)
}

/// Appends the payload of a write to `dst`.
pub fn encode_payload(dst: &mut Vec<u8>, seq: SeqNum, op: &WalOp) -> (r: Result<(), Error>)
    ensures
        match r {
            Ok(_) => {
                &&& op.spec_key().len() <= u32::MAX
                &&& stored_value(op.spec_value()).len() <= u32::MAX
                &&& final(dst)@ == old(dst)@ + payload_bytes(op.row(seq))
            },
            Err(e) => {
                &&& final(dst)@ == old(dst)@
                &&& op.spec_key().len() > u32::MAX ==> e == (Error::WalRecordTooLarge {
                    size: op.spec_key().len() as usize,
                    max: u32::MAX as usize,
                })
                &&& op.spec_key().len() <= u32::MAX ==> stored_value(op.spec_value()).len() > u32::MAX
                    && e == (Error::WalRecordTooLarge {
                    size: stored_value(op.spec_value()).len() as usize,
                    max: u32::MAX as usize,
                })
            },
        },
{
    let empty: [u8; 0] = [];
    let (kind, key, value): (u8, &[u8], &[u8]) = match op {
        WalOp::Put { key, value } => (KIND_PUT, key.as_bytes(), value.as_bytes()),
        WalOp::Delete { key } => (KIND_DELETE, key.as_bytes(), &empty),
    };
    assert(value@ =~= stored_value(op.spec_value()));
    let key_len: u32 = u32_from_usize(key.len())?;
    let value_len: u32 = u32_from_usize(value.len())?;
    push_le(dst, seq.get(), 8);
    dst.push(kind);
    push_le(dst, key_len as u64, 4);
    push_le(dst, value_len as u64, 4);
    push_all(dst, key);
    push_all(dst, value);
    assert(dst@ =~= old(dst)@ + payload_bytes(op.row(seq)));
    Ok(())
}

/// The write that a payload stands for.
pub fn decode_payload(src: &[u8]) -> (r: Result<WalRecord, Error>)
    ensures
        match r {
            Ok(record) => payload_row(src@) == Ok::<Row, Error>(record@),
            Err(e) => payload_row(src@) == Err::<Row, Error>(e),
        },
{
    if src.len() < PAYLOAD_HEADER {
        return Err(Error::WalCorrupt("payload corto"));
    }
    let seq = SeqNum::new(read_u64(src, 0));
    let kind: u8 = src[8];
    let key_len: usize = read_u32(src, 9) as usize;
    let value_len: usize = read_u32(src, 13) as usize;
    let rest: usize = src.len() - PAYLOAD_HEADER;
    if key_len > rest || value_len != rest - key_len {
        return Err(Error::WalCorrupt("longitudes de clave/valor"));
    }
    let key_end: usize = PAYLOAD_HEADER + key_len;
    let key = Key::from_vec(slice_to_vec(slice_subrange(src, PAYLOAD_HEADER, key_end)))?;
    if kind == KIND_PUT {
        let value = Value::from_vec(slice_to_vec(slice_subrange(src, key_end, src.len())));
        Ok(WalRecord { seq, op: WalOp::Put { key, value } })
    } else if kind == KIND_DELETE {
        if value_len != 0 {
            return Err(Error::WalCorrupt("delete con valor"));
        }
        Ok(WalRecord { seq, op: WalOp::Delete { key } })
    } else {
        Err(Error::WalCorrupt("kind desconocido"))
    }
}

/// The frame of a payload with CRC-32 `crc`.
pub fn encode_frame(payload: &[u8], crc: u32) -> (out: Vec<u8>)
    requires
        aligned(FRAME_HEADER + payload@.len()) <= MAX_RECORD_BYTES,
    ensures
        out@ == frame_with(payload@, crc),
        out@.len() == aligned(FRAME_HEADER + payload@.len()),
{
    let framed: usize = align_up(FRAME_HEADER + payload.len());
    let mut out: Vec<u8> = Vec::new();
    push_le(&mut out, crc as u64, 4);
    push_le(&mut out, payload.len() as u64, 4);
    push_all(&mut out, payload);
    let ghost body = out@;
    proof {
        lemma_le_bytes_len(crc as nat, 4);
        lemma_le_bytes_len(payload@.len(), 4);
        assert(body + zeros(0) =~= body);
    }
    while out.len() < framed
        invariant
            body.len() <= out@.len() <= framed,
            out@ == body + zeros((out@.len() - body.len()) as nat),
        decreases framed - out@.len(),
    {
        let ghost n = (out@.len() - body.len()) as nat;
        out.push(0);
        assert(out@ =~= body + zeros((n + 1) as nat));
    }
    out
}

// ---------------------------------------------------------------------------
// Reading frames
// ---------------------------------------------------------------------------

/// The length of the payload of the frame at `off`, if a whole frame may be there.
fn find_frame(log: &[u8], off: usize) -> (r: Result<Option<usize>, Error>)
    ensures
        match r {
            Ok(Some(len)) => frame_slot(log@, off as int) == Ok::<Option<int>, Error>(
                Some(len as int),
            ),
            Ok(None) => frame_slot(log@, off as int) == Ok::<Option<int>, Error>(None),
            Err(e) => frame_slot(log@, off as int) == Err::<Option<int>, Error>(e),
        },
{
    if off > log.len() || log.len() - off < WAL_ALIGN {
        return Ok(None);
    }
    let left: usize = log.len() - off;
    let len: usize = read_u32(log, off + 4) as usize;
    if len == 0 {
        return Ok(None);
    }
    let framed: usize = framed_size(len);
    if framed == usize::MAX || framed > left {
        return Ok(None);
    }
    if framed > MAX_RECORD_BYTES {
        return Err(Error::WalRecordTooLarge { size: framed, max: MAX_RECORD_BYTES });
    }
    Ok(Some(len))
}

/// The record in the frame at `off` and the offset after the frame, when the
/// CRC-32 of the payload is `crc`; `None` if the log ends at `off`.
pub fn read_frame(log: &[u8], off: usize, crc: u32) -> (r: Result<
    Option<(WalRecord, usize)>,
    Error,
>)
    ensures
        match r {
            Ok(Some((record, next))) => frame_read(log@, off as int, crc) == Ok::<
                Option<(Row, int)>,
                Error,
            >(Some((record@, next as int))) && off < next <= log@.len(),
            Ok(None) => frame_read(log@, off as int, crc) == Ok::<Option<(Row, int)>, Error>(None),
            Err(e) => frame_read(log@, off as int, crc) == Err::<Option<(Row, int)>, Error>(e),
        },
{
    proof {
        reveal(frame_read);
    }
    let len: usize = match find_frame(log, off)? {
        Some(len) => len,
        None => {
            return Ok(None);
        },
    };
    assert(off + aligned(FRAME_HEADER + len) <= log.len());
    if read_u32(log, off) != crc {
        return Ok(None);
    }
    let start: usize = off + FRAME_HEADER;
    let record = decode_payload(slice_subrange(log, start, start + len))?;
    Ok(Some((record, off + align_up(FRAME_HEADER + len))))
}

/// The record in the frame at `off` and the offset after the frame; `None` if the
/// log ends at `off`.
pub fn read_one(log: &[u8], off: usize) -> (r: Result<Option<(WalRecord, usize)>, Error>)
    ensures
        match r {
            Ok(Some((record, next))) => frame_at(log@, off as int) == Ok::<
                Option<(Row, int)>,
                Error,
            >(Some((record@, next as int))) && off < next <= log@.len(),
            Ok(None) => frame_at(log@, off as int) == Ok::<Option<(Row, int)>, Error>(None),
            Err(e) => frame_at(log@, off as int) == Err::<Option<(Row, int)>, Error>(e),
        },
{
    proof {
        reveal(frame_read);
    }
    let len: usize = match find_frame(log, off)? {
        Some(len) => len,
        None => {
            return Ok(None);
        },
    };
    assert(off + aligned(FRAME_HEADER + len) <= log.len());
    let start: usize = off + FRAME_HEADER;
    let crc: u32 = crc_of(slice_subrange(log, start, start + len));
    read_frame(log, off, crc)
}

/// The records from the first frame on, and the offset at which the log ends.
fn read_log(log: &[u8]) -> (r: Result<(Vec<WalRecord>, usize), Error>)
    requires
        WAL_ALIGN <= log@.len(),
    ensures
        match r {
            Ok((records, end)) => log_from(log@, WAL_ALIGN as int) == Ok::<(Seq<Row>, int), Error>(
                (record_rows(records@), end as int),
            ) && end <= log@.len(),
            Err(e) => log_from(log@, WAL_ALIGN as int) == Err::<(Seq<Row>, int), Error>(e),
        },
{
    let mut records: Vec<WalRecord> = Vec::new();
    let mut off: usize = WAL_ALIGN;
    let ghost total = log_from(log@, WAL_ALIGN as int);
    proof {
        assert(record_rows(records@) =~= seq![]);
        if total is Ok {
            assert(record_rows(records@) + total->Ok_0.0 =~= total->Ok_0.0);
        }
    }
    loop
        invariant
            off <= log@.len(),
            total == log_from(log@, WAL_ALIGN as int),
            match log_from(log@, off as int) {
                Ok((rest, end)) => total == Ok::<(Seq<Row>, int), Error>(
                    (record_rows(records@) + rest, end),
                ),
                Err(e) => total == Err::<(Seq<Row>, int), Error>(e),
            },
        decreases log@.len() - off,
    {
        match read_one(log, off)? {
            None => {
                assert(record_rows(records@) + seq![] =~= record_rows(records@));
                return Ok((records, off));
            },
            Some((record, next)) => {
                let ghost before = record_rows(records@);
                let ghost row = record@;
                records.push(record);
                proof {
                    assert(record_rows(records@) =~= before.push(row));
                    if log_from(log@, next as int) is Ok {
                        let rest = log_from(log@, next as int)->Ok_0.0;
                        assert(before + (seq![row] + rest) =~= before.push(row) + rest);
                    }
                }
                off = next;
            },
        }
    }
}

// ---------------------------------------------------------------------------
// The log
// ---------------------------------------------------------------------------

/// A transfer to the file: these bytes at this offset.
pub struct WalWrite {
    /// Offset in the file, a multiple of the page size.
    pub offset: u64,
    /// Whole pages.
    pub bytes: Vec<u8>,
}

/// The end of a log, and whether its file is open for direct I/O. The file itself
/// is the caller's.
pub struct Wal {
    offset: u64,
    direct: bool,
}

impl Wal {
    /// The log begins after the header page and ends at a page.
    pub closed spec fn wf(self) -> bool {
        &&& self.offset >= WAL_ALIGN
        &&& self.offset % 4096 == 0
    }

    /// The offset of the next frame.
    pub closed spec fn spec_offset(self) -> u64 {
        self.offset
    }

    /// The file is open for direct I/O.
    pub closed spec fn spec_direct(self) -> bool {
        self.direct
    }

    /// What being well-formed means for the offset.
    pub proof fn lemma_wf(self)
        requires
            self.wf(),
        ensures
            self.spec_offset() >= WAL_ALIGN,
            self.spec_offset() % 4096 == 0,
    {
    }

    /// A new log, and the header page to be written at offset 0.
    pub fn create(direct: bool) -> (r: (Self, WalWrite))
        ensures
            r.0.wf(),
            r.0.spec_offset() == WAL_ALIGN,
            r.0.spec_direct() == direct,
            r.1.offset == 0,
            r.1.bytes@ == header_page(header_flags(direct)),
            r.1.bytes@.len() == WAL_ALIGN,
    {
        let flags: u16 = if direct {
            WAL_FLAG_DIRECT
        } else {
            0
        };
        let crc: u32 = crc_of(header_prefix(flags).as_slice());
        let page = write_header(flags, crc);
        (Wal { offset: 4096, direct }, WalWrite { offset: 0, bytes: page })
    }

    /// Opens the log in a file that holds `image`: checks the header and finds the
    /// end.
    pub fn open(image: &[u8], direct: bool) -> (r: Result<Self, Error>)
        ensures
            match r {
                Ok(wal) => {
                    &&& wal.wf()
                    &&& log_end(image@) == Ok::<int, Error>(wal.spec_offset() as int)
                    &&& wal.spec_direct() == direct
                    &&& wal.spec_offset() <= image@.len()
                },
                Err(e) => log_end(image@) == Err::<int, Error>(e),
            },
    {
        if image.len() < WAL_ALIGN {
            return Err(Error::WalCorrupt("cabecera truncada"));
        }
        let crc: u32 = crc_of(slice_subrange(image, 0, 8));
        read_header(image, crc)?;
        let end: usize = scan_end(image)?;
        Ok(Wal { offset: end as u64, direct })
    }

    /// `true` iff the file is open for direct I/O.
    pub fn is_direct(&self) -> (r: bool)
        ensures
            r == self.spec_direct(),
    {
        self.direct
    }

    /// The offset of the next frame, a multiple of the page size.
    pub fn offset(&self) -> (r: u64)
        requires
            self.wf(),
        ensures
            r == self.spec_offset(),
            r % 4096 == 0,
    {
        self.offset
    }

    /// The frame of a write, to be written at the end of the log. Once it is on
    /// disk, [`Wal::appended`] moves the end.
    pub fn append(&self, seq: SeqNum, op: &WalOp) -> (r: Result<WalWrite, Error>)
        ensures
            r is Ok <==> 25 + op.spec_key().len() + stored_value(op.spec_value()).len() <= 16777216,
            match r {
                Ok(write) => {
                    &&& frame_len(op.row(seq)) <= MAX_RECORD_BYTES
                    &&& loggable(op.row(seq))
                    &&& write.offset == self.spec_offset()
                    &&& write.bytes@ == frame(op.row(seq))
                    &&& write.bytes@.len() == frame_len(op.row(seq))
                },
                Err(e) => {
                    &&& frame_len(op.row(seq)) > MAX_RECORD_BYTES
                    &&& e == (Error::WalRecordTooLarge {
                        size: capped(frame_len(op.row(seq))) as usize,
                        max: MAX_RECORD_BYTES,
                    })
                },
            },
    {
        let ghost row = op.row(seq);
        proof {
            lemma_payload_len(row);
            match op {
                WalOp::Put { key, value: _ } => {
                    use_type_invariant(key);
                },
                WalOp::Delete { key } => {
                    use_type_invariant(key);
                },
            }
        }
        let framed: usize = framed_size(payload_size(op));
        if framed > MAX_RECORD_BYTES {
            return Err(Error::WalRecordTooLarge { size: framed, max: MAX_RECORD_BYTES });
        }
        let mut payload: Vec<u8> = Vec::new();
        encode_payload(&mut payload, seq, op)?;
        assert(payload@ =~= payload_bytes(row));
        let crc: u32 = crc_of(payload.as_slice());
        let bytes = encode_frame(payload.as_slice(), crc);
        Ok(WalWrite { offset: self.offset, bytes })
    }

    /// The frame that [`Wal::append`] gave is on disk: the log ends after it.
    pub fn appended(&mut self, write: &WalWrite)
        requires
            old(self).wf(),
            write.bytes@.len() % 4096 == 0,
            old(self).spec_offset() + write.bytes@.len() <= u64::MAX,
        ensures
            final(self).wf(),
            final(self).spec_offset() == old(self).spec_offset() + write.bytes@.len(),
            final(self).spec_direct() == old(self).spec_direct(),
    {
        self.offset = self.offset + write.bytes.len() as u64;
    }

    /// The records of the log, in order, when the file holds `image`: those of the
    /// frames up to the end of the log. A frame that is cut short or whose CRC
    /// does not match ends it earlier.
    pub fn replay(&self, image: &[u8]) -> (r: Result<Vec<WalRecord>, Error>)
        requires
            self.wf(),
        ensures
            match r {
                Ok(records) => replayed(image@, self.spec_offset() as int) == Ok::<
                    Seq<Row>,
                    Error,
                >(record_rows(records@)),
                Err(e) => replayed(image@, self.spec_offset() as int) == Err::<Seq<Row>, Error>(e),
            },
    {
        let end: usize = if self.offset < image.len() as u64 {
            self.offset as usize
        } else {
            image.len()
        };
        let log = slice_subrange(image, 0, end);
        assert(image@.subrange(0, image@.len() as int) =~= image@);
        if log.len() < WAL_ALIGN {
            let none: Vec<WalRecord> = Vec::new();
            proof {
                assert(record_rows(none@) =~= seq![]);
                law_log_ends_with_file(log@, WAL_ALIGN as int);
            }
            return Ok(none);
        }
        match read_log(log) {
            Ok((records, _)) => Ok(records),
            Err(e) => Err(e),
        }
    }
}

/// The writes of a log that ends at offset `end` of a file that holds `image`.
pub open spec fn replayed(image: Seq<u8>, end: int) -> Result<Seq<Row>, Error> {
    let log = if end < image.len() {
        image.subrange(0, end)
    } else {
        image
    };
    match log_from(log, WAL_ALIGN as int) {
        Ok((rows, _)) => Ok(rows),
        Err(e) => Err(e),
    }
}

/// The part of the header that the checksum covers.
fn header_prefix(flags: u16) -> (out: Vec<u8>)
    ensures
        out@ == header_head(flags),
{
    let mut out: Vec<u8> = Vec::new();
    push_all(&mut out, &WAL_MAGIC);
    push_le(&mut out, WAL_VERSION as u64, 2);
    push_le(&mut out, flags as u64, 2);
    assert(out@ =~= header_head(flags));
    out
}

/// The header page with checksum `crc`.
pub fn write_header(flags: u16, crc: u32) -> (page: Vec<u8>)
    ensures
        page@ == header_with(flags, crc),
        page@.len() == WAL_ALIGN,
{
    let header = WALHeader {
        magic: WAL_MAGIC,
        version: WAL_VERSION,
        flags,
        checksum: crc,
        _pad: [0; 4084],
    };
    assert(header._pad@ =~= zeros(4084));
    let mut page: Vec<u8> = Vec::new();
    push_all(&mut page, &header.magic);
    push_le(&mut page, header.version as u64, 2);
    push_le(&mut page, header.flags as u64, 2);
    push_le(&mut page, header.checksum as u64, 4);
    push_all(&mut page, &header._pad);
    proof {
        lemma_le_bytes_len(WAL_VERSION as nat, 2);
        lemma_le_bytes_len(flags as nat, 2);
        lemma_le_bytes_len(crc as nat, 4);
        assert(page@ =~= header_with(flags, crc));
    }
    page
}

/// Checks the header page of a file that holds `image`, when the CRC-32 of its
/// first 8 bytes is `crc`.
pub fn read_header(image: &[u8], crc: u32) -> (r: Result<(), Error>)
    ensures
        r == check_header(image@, crc),
{
    if image.len() < WAL_ALIGN {
        return Err(Error::WalCorrupt("cabecera truncada"));
    }
    if !bytes_equal(slice_subrange(image, 0, 4), &WAL_MAGIC) {
        return Err(Error::WalCorrupt("magic inválida"));
    }
    let version: u16 = read_u16(image, 4);
    if version != WAL_VERSION {
        return Err(Error::UnsupportedWalVersion(version));
    }
    if read_u32(image, 8) != crc {
        return Err(Error::WalCorrupt("checksum de cabecera"));
    }
    Ok(())
}

/// The offset at which the log in `image` ends, a multiple of the page size.
fn scan_end(image: &[u8]) -> (r: Result<usize, Error>)
    requires
        WAL_ALIGN <= image@.len(),
    ensures
        match r {
            Ok(end) => {
                &&& log_from(image@, WAL_ALIGN as int) matches Ok((_, e)) && e == end
                &&& WAL_ALIGN <= end <= image@.len()
                &&& end % 4096 == 0
            },
            Err(e) => log_from(image@, WAL_ALIGN as int) == Err::<(Seq<Row>, int), Error>(e),
        },
{
    let (_, end) = read_log(image)?;
    proof {
        law_log_ends_at_page(image@, WAL_ALIGN as int);
    }
    Ok(end)
}

// ---------------------------------------------------------------------------
// Decisions around the file
// ---------------------------------------------------------------------------

/// Refuses a transfer that direct I/O would not take: address, length and offset
/// must be multiples of the page size.
pub fn check_aligned_slice(address: usize, len: usize, offset: u64) -> (r: Result<(), Error>)
    ensures
        r == if address % 4096 == 0 && len % 4096 == 0 && offset % 4096 == 0 {
            Ok::<(), Error>(())
        } else {
            Err(Error::Unaligned { required: WAL_ALIGN })
        },
{
    if address % WAL_ALIGN != 0 || len % WAL_ALIGN != 0 || offset % 4096 != 0 {
        return Err(Error::Unaligned { required: WAL_ALIGN });
    }
    Ok(())
}

/// The file system does not offer direct I/O, going by the error code of `open`.
pub fn direct_unsupported(code: Option<i32>) -> (r: bool)
    ensures
        r == (code == Some(EINVAL) || code == Some(EOPNOTSUPP)),
{
    match code {
        Some(c) => c == EINVAL || c == EOPNOTSUPP,
        None => false,
    }
}

/// A log that should exist does not.
pub fn create_missing(not_found: bool, create: bool) -> (r: bool)
    ensures
        r == (!create && not_found),
{
    !create && not_found
}

/// Whether a failed `open` is tried again without direct I/O.
pub fn open_again(code: Option<i32>, not_found: bool, create: bool) -> (r: bool)
    ensures
        r == ((code == Some(EINVAL) || code == Some(EOPNOTSUPP)) && !(!create && not_found)),
{
    direct_unsupported(code) && !create_missing(not_found, create)
}

// ---------------------------------------------------------------------------
// Laws
// ---------------------------------------------------------------------------

proof fn lemma_payload_len(row: Row)
    ensures
        payload_bytes(row).len() == payload_len(row),
{
    lemma_le_bytes_len(row.1.0 as nat, 8);
    lemma_le_bytes_len(row.0.len(), 4);
    lemma_le_bytes_len(stored_value(row.1.1).len(), 4);
}

/// A log ends at a page if it begins at one, and not before it begins.
pub proof fn law_log_ends_at_page(log: Seq<u8>, off: int)
    requires
        off % 4096 == 0,
    ensures
        log_from(log, off) matches Ok((_, end)) ==> end % 4096 == 0 && off <= end,
        off <= log.len() ==> (log_from(log, off) matches Ok((_, end)) ==> end <= log.len()),
    decreases log.len() - off,
{
    reveal(frame_read);
    if let Ok(Some((_, next))) = frame_at(log, off) {
        law_log_ends_at_page(log, next);
    }
}

/// A payload survives being written and read back.
pub proof fn law_payload_roundtrip(row: Row)
    requires
        0 < row.0.len() <= u32::MAX,
        stored_value(row.1.1).len() <= u32::MAX,
    ensures
        payload_row(payload_bytes(row)) == Ok::<Row, Error>(row),
{
    let src = payload_bytes(row);
    let key = row.0;
    let value = stored_value(row.1.1);
    let k = key.len() as int;
    let v = value.len() as int;
    lemma_payload_len(row);
    lemma_le_bytes_len(row.1.0 as nat, 8);
    lemma_le_bytes_len(key.len(), 4);
    lemma_le_bytes_len(value.len(), 4);
    assert(src.subrange(0, 8) =~= le_bytes(row.1.0 as nat, 8));
    assert(src.subrange(9, 13) =~= le_bytes(key.len(), 4));
    assert(src.subrange(13, 17) =~= le_bytes(value.len(), 4));
    assert(src.subrange(17, 17 + k) =~= key);
    assert(src.subrange(17 + k, 17 + k + v) =~= value);
    lemma_number_at(src, 0, row.1.0 as nat, 8);
    lemma_number_at(src, 9, key.len(), 4);
    lemma_number_at(src, 13, value.len(), 4);
}

/// A frame takes whole pages.
pub proof fn law_frame_len(row: Row)
    ensures
        frame(row).len() == frame_len(row),
        frame_len(row) % 4096 == 0,
        frame_len(row) >= WAL_ALIGN,
{
    lemma_payload_len(row);
    lemma_le_bytes_len(crc32(payload_bytes(row)) as nat, 4);
    lemma_le_bytes_len(payload_bytes(row).len(), 4);
}

/// A frame that was written is read back, wherever it lies in the file and
/// whatever is before and after it.
pub proof fn law_frame_roundtrip(before: Seq<u8>, row: Row, after: Seq<u8>)
    requires
        loggable(row),
    ensures
        frame_at(before + frame(row) + after, before.len() as int) == Ok::<
            Option<(Row, int)>,
            Error,
        >(Some((row, before.len() + frame_len(row)))),
{
    reveal(frame_read);
    let log = before + frame(row) + after;
    let off = before.len() as int;
    let payload = payload_bytes(row);
    let n = payload.len() as int;
    let crc = crc32(payload);
    lemma_payload_len(row);
    law_frame_len(row);
    lemma_le_bytes_len(crc as nat, 4);
    lemma_le_bytes_len(payload.len(), 4);
    assert(log.subrange(off, off + 4) =~= le_bytes(crc as nat, 4));
    assert(log.subrange(off + 4, off + 8) =~= le_bytes(payload.len(), 4));
    assert(log.subrange(off + 8, off + 8 + n) =~= payload);
    lemma_number_at(log, off, crc as nat, 4);
    lemma_number_at(log, off + 4, payload.len(), 4);
    law_payload_roundtrip(row);
}

/// A log of `rows` followed by `tail` reads as `rows` and then as what `tail`
/// holds at its place.
pub proof fn law_log_reads_back(head: Seq<u8>, rows: Seq<Row>, tail: Seq<u8>)
    requires
        forall|i: int| 0 <= i < rows.len() ==> loggable(#[trigger] rows[i]),
    ensures
        ({
            let log = head + frames(rows) + tail;
            let end = (head.len() + frames(rows).len()) as int;
            log_from(log, head.len() as int) == match log_from(log, end) {
                Ok((more, last)) => Ok::<(Seq<Row>, int), Error>((rows + more, last)),
                Err(e) => Err(e),
            }
        }),
    decreases rows.len(),
{
    let log = head + frames(rows) + tail;
    let end = (head.len() + frames(rows).len()) as int;
    if rows.len() == 0 {
        assert(frame_pieces(rows) =~= seq![]);
        if let Ok((more, _)) = log_from(log, end) {
            assert(rows + more =~= more);
        }
    } else {
        let first = rows[0];
        let rest = rows.skip(1);
        lemma_frames_first(rows);
        assert(log =~= head + frame(first) + (frames(rest) + tail));
        law_frame_roundtrip(head, first, frames(rest) + tail);
        law_frame_len(first);
        let longer = head + frame(first);
        assert forall|i: int| 0 <= i < rest.len() implies loggable(#[trigger] rest[i]) by {
            assert(rest[i] == rows[i + 1]);
        }
        law_log_reads_back(longer, rest, tail);
        assert(longer + frames(rest) + tail =~= log);
        if let Ok((more, _)) = log_from(log, end) {
            assert(seq![first] + (rest + more) =~= rows + more);
        }
    }
}

proof fn lemma_frames_first(rows: Seq<Row>)
    requires
        rows.len() > 0,
    ensures
        frames(rows) == frame(rows[0]) + frames(rows.skip(1)),
{
    let pieces = frame_pieces(rows);
    lemma_joined_split(pieces, 1);
    assert(pieces.take(1) =~= Seq::empty().push(frame(rows[0])));
    lemma_joined_push(seq![], frame(rows[0]));
    assert(joined(seq![]) + frame(rows[0]) =~= frame(rows[0]));
    assert(pieces.skip(1) =~= frame_pieces(rows.skip(1)));
}

/// Appending a frame to a log of `rows` gives the log of one row more.
pub proof fn law_append_extends_log(flags: u16, rows: Seq<Row>, row: Row)
    ensures
        log_image(flags, rows) + frame(row) == log_image(flags, rows.push(row)),
{
    lemma_joined_push(frame_pieces(rows), frame(row));
    assert(frame_pieces(rows.push(row)) =~= frame_pieces(rows).push(frame(row)));
    assert(log_image(flags, rows) + frame(row) =~= log_image(flags, rows.push(row)));
}

/// The header page passes its own check.
pub proof fn law_header_roundtrip(flags: u16, rest: Seq<u8>)
    ensures
        header_page(flags).len() == WAL_ALIGN,
        ({
            let image = header_page(flags) + rest;
            check_header(image, crc32(image.subrange(0, 8))) == Ok::<(), Error>(())
        }),
{
    let image = header_page(flags) + rest;
    let crc = crc32(header_head(flags));
    lemma_le_bytes_len(WAL_VERSION as nat, 2);
    lemma_le_bytes_len(flags as nat, 2);
    lemma_le_bytes_len(crc as nat, 4);
    assert(image.subrange(0, 8) =~= header_head(flags));
    assert(image.subrange(0, 4) =~= WAL_MAGIC@);
    assert(image.subrange(4, 6) =~= le_bytes(WAL_VERSION as nat, 2));
    assert(image.subrange(8, 12) =~= le_bytes(crc as nat, 4));
    lemma_number_at(image, 4, WAL_VERSION as nat, 2);
    lemma_number_at(image, 8, crc as nat, 4);
}

/// Where the file ends before another page, the log ends.
pub proof fn law_log_ends_with_file(log: Seq<u8>, off: int)
    requires
        off + WAL_ALIGN > log.len(),
    ensures
        log_from(log, off) == Ok::<(Seq<Row>, int), Error>((seq![], off)),
{
    reveal(frame_read);
}

/// A log that was written is opened after its last frame and replays exactly the
/// writes that were appended, in order.
pub proof fn law_replay_after_reopen(flags: u16, rows: Seq<Row>)
    requires
        forall|i: int| 0 <= i < rows.len() ==> loggable(#[trigger] rows[i]),
    ensures
        log_end(log_image(flags, rows)) == Ok::<int, Error>(log_image(flags, rows).len() as int),
        replayed(log_image(flags, rows), log_image(flags, rows).len() as int) == Ok::<
            Seq<Row>,
            Error,
        >(rows),
{
    let image = log_image(flags, rows);
    let any: Row = (seq![0u8], (0, None));
    assert(frame(any).take(0) =~= seq![]);
    law_torn_append(flags, rows, any, seq![]);
    assert(image + seq![] =~= image);
}

/// A crash in the middle of an append loses only that append: whatever proper
/// part of the frame reached the file, the log ends before it and replays the
/// writes before it.
pub proof fn law_torn_append(flags: u16, rows: Seq<Row>, row: Row, torn: Seq<u8>)
    requires
        forall|i: int| 0 <= i < rows.len() ==> loggable(#[trigger] rows[i]),
        loggable(row),
        torn.len() < frame_len(row),
        torn == frame(row).take(torn.len() as int),
    ensures
        log_end(log_image(flags, rows) + torn) == Ok::<int, Error>(
            log_image(flags, rows).len() as int,
        ),
        replayed(log_image(flags, rows) + torn, log_image(flags, rows).len() as int) == Ok::<
            Seq<Row>,
            Error,
        >(rows),
{
    let head = header_page(flags);
    let image = log_image(flags, rows);
    let log = image + torn;
    let end = image.len() as int;
    law_header_roundtrip(flags, frames(rows) + torn);
    assert(log =~= head + (frames(rows) + torn));
    law_log_reads_back(head, rows, torn);
    law_log_reads_back(head, rows, seq![]);
    assert(head + frames(rows) + seq![] =~= image);
    law_log_ends_with_file(image, end);
    if end + WAL_ALIGN > log.len() {
        law_log_ends_with_file(log, end);
    } else {
        lemma_torn_frame(image, row, torn);
    }
    assert(rows + seq![] =~= rows);
    if torn.len() == 0 {
        assert(log =~= image);
    } else {
        assert(log.subrange(0, end) =~= image);
    }
}

proof fn lemma_torn_frame(before: Seq<u8>, row: Row, torn: Seq<u8>)
    requires
        loggable(row),
        WAL_ALIGN <= torn.len() < frame_len(row),
        torn == frame(row).take(torn.len() as int),
    ensures
        log_from(before + torn, before.len() as int) == Ok::<(Seq<Row>, int), Error>(
            (seq![], before.len() as int),
        ),
{
    reveal(frame_read);
    let log = before + torn;
    let off = before.len() as int;
    let payload = payload_bytes(row);
    lemma_payload_len(row);
    law_frame_len(row);
    lemma_le_bytes_len(crc32(payload) as nat, 4);
    lemma_le_bytes_len(payload.len(), 4);
    assert(log.subrange(off + 4, off + 8) =~= torn.subrange(4, 8));
    assert(torn.subrange(4, 8) =~= frame(row).subrange(4, 8));
    assert(frame(row).subrange(4, 8) =~= le_bytes(payload.len(), 4));
    lemma_number_at(log, off + 4, payload.len(), 4);
}

/// A page of zeros ends the log.
pub proof fn law_zero_page_ends_log(before: Seq<u8>, after: Seq<u8>)
    ensures
        log_from(before + zeros(4096) + after, before.len() as int) == Ok::<
            (Seq<Row>, int),
            Error,
        >((seq![], before.len() as int)),
{
    reveal(frame_read);
    let log = before + zeros(4096) + after;
    let off = before.len() as int;
    assert(log.subrange(off + 4, off + 8) =~= zeros(4));
    lemma_zeros_are_zero();
    lemma_number_at(log, off + 4, 0, 4);
}

proof fn lemma_zeros_are_zero()
    ensures
        le_bytes(0, 4) == zeros(4),
{
    reveal_with_fuel(le_bytes, 5);
    assert(le_bytes(0, 4) =~= zeros(4));
}

/// A frame that runs past the end of the file ends the log, however long it claims
/// to be.
pub proof fn law_truncated_frame_ends_log(log: Seq<u8>, off: int)
    requires
        off + aligned(FRAME_HEADER + u32_at(log, off + 4)) > log.len(),
    ensures
        log_from(log, off) == Ok::<(Seq<Row>, int), Error>((seq![], off)),
{
    reveal(frame_read);
}

/// A frame whose stored CRC is not that of its payload ends the log.
pub proof fn law_bad_crc_ends_log(log: Seq<u8>, off: int)
    requires
        frame_slot(log, off) is Ok,
        u32_at(log, off) != crc32(frame_payload(log, off)),
    ensures
        log_from(log, off) == Ok::<(Seq<Row>, int), Error>((seq![], off)),
{
    reveal(frame_read);
}

/// A frame ends at a later page of the file.
proof fn lemma_frame_next(log: Seq<u8>, off: int)
    requires
        off % 4096 == 0,
    ensures
        frame_at(log, off) matches Ok(Some((_, next))) ==> off < next <= log.len() && next % 4096
            == 0,
{
    reveal(frame_read);
}

/// What the log holds before its end does not depend on what follows the end.
#[verifier::rlimit(40)]
pub proof fn law_log_is_local(log: Seq<u8>, off: int, end: int, other: Seq<u8>)
    requires
        0 <= off <= log.len(),
        off % 4096 == 0,
        log_from(log, off) is Ok,
        log_from(log, off)->Ok_0.1 == end,
        end <= other.len(),
        other.take(end) == log.take(end),
    ensures
        log_from(other, off) == match log_from(other, end) {
            Ok((more, last)) => Ok::<(Seq<Row>, int), Error>(
                (log_from(log, off)->Ok_0.0 + more, last),
            ),
            Err(e) => Err(e),
        },
    decreases log.len() - off,
{
    law_log_ends_at_page(log, off);
    match frame_at(log, off) {
        Ok(Some((row, next))) => {
            lemma_frame_next(log, off);
            law_log_ends_at_page(log, next);
            lemma_frame_is_local(log, off, other, end);
            law_log_is_local(log, next, end, other);
            if let Ok((more, _)) = log_from(other, end) {
                let rest = log_from(log, next)->Ok_0.0;
                assert(seq![row] + (rest + more) =~= (seq![row] + rest) + more);
            }
        },
        _ => {
            if let Ok((more, _)) = log_from(other, end) {
                assert(Seq::<Row>::empty() + more =~= more);
            }
        },
    }
}

proof fn lemma_frame_is_local(log: Seq<u8>, off: int, other: Seq<u8>, end: int)
    requires
        0 <= off,
        frame_at(log, off) matches Ok(Some((_, next))) && next <= end,
        end <= log.len(),
        end <= other.len(),
        other.take(end) == log.take(end),
    ensures
        frame_at(other, off) == frame_at(log, off),
{
    reveal(frame_read);
    let len = u32_at(log, off + 4);
    lemma_same_part(log, other, end, off, off + 4);
    lemma_same_part(log, other, end, off + 4, off + 8);
    lemma_same_part(log, other, end, off + 8, off + 8 + len);
}

proof fn lemma_same_part(a: Seq<u8>, b: Seq<u8>, end: int, i: int, j: int)
    requires
        0 <= i <= j <= end,
        end <= a.len(),
        end <= b.len(),
        a.take(end) == b.take(end),
    ensures
        a.subrange(i, j) == b.subrange(i, j),
{
    assert(a.subrange(i, j) =~= a.take(end).subrange(i, j));
    assert(b.subrange(i, j) =~= b.take(end).subrange(i, j));
}

/// A file after `bytes` were written at `off`.
pub open spec fn written(file: Seq<u8>, off: int, bytes: Seq<u8>) -> Seq<u8> {
    if off + bytes.len() < file.len() {
        file.take(off) + bytes + file.skip(off + bytes.len())
    } else {
        file.take(off) + bytes
    }
}

/// After a recovery, a write that is appended at the end of the log is replayed
/// after the writes that were recovered, whatever a torn write had left there. An
/// opening of the file reads the same writes, and then what is left behind the new
/// frame; where that is no frame, it finds the end of the log behind the new frame.
pub proof fn law_append_after_recovery(file: Seq<u8>, row: Row)
    requires
        log_end(file) is Ok,
        loggable(row),
    ensures
        ({
            let end = log_end(file)->Ok_0;
            let rows = replayed(file, end)->Ok_0;
            let after = written(file, end, frame(row));
            let new_end = end + frame_len(row);
            &&& replayed(file, end) is Ok
            &&& replayed(after, new_end) == Ok::<Seq<Row>, Error>(rows.push(row))
            &&& log_from(after, WAL_ALIGN as int) == match log_from(after, new_end) {
                Ok((more, last)) => Ok::<(Seq<Row>, int), Error>((rows.push(row) + more, last)),
                Err(e) => Err(e),
            }
            &&& log_end(after) == match log_from(after, new_end) {
                Ok((_, last)) => Ok::<int, Error>(last),
                Err(e) => Err(e),
            }
            &&& log_from(after, new_end) == Ok::<(Seq<Row>, int), Error>((seq![], new_end))
                ==> log_end(after) == Ok::<int, Error>(new_end)
        }),
{
    let end = log_end(file)->Ok_0;
    let page = WAL_ALIGN as int;
    law_log_ends_at_page(file, page);
    law_frame_len(row);
    // What was there before, read up to its end.
    let old_log = if end < file.len() {
        file.subrange(0, end)
    } else {
        file
    };
    assert(old_log =~= file.take(end));
    assert(old_log.take(end) =~= file.take(end));
    law_log_is_local(file, page, end, old_log);
    law_log_ends_with_file(old_log, end);
    let rows = log_from(file, page)->Ok_0.0;
    assert(rows + seq![] =~= rows);
    // What is there after the write, read up to the new end.
    let after = written(file, end, frame(row));
    let new_end = end + frame_len(row);
    let new_log = if new_end < after.len() {
        after.subrange(0, new_end)
    } else {
        after
    };
    assert(new_log =~= file.take(end) + frame(row));
    assert(new_log.take(end) =~= file.take(end));
    law_log_is_local(file, page, end, new_log);
    law_frame_roundtrip(file.take(end), row, seq![]);
    assert(file.take(end) + frame(row) + seq![] =~= new_log);
    law_log_ends_with_file(new_log, new_end);
    assert(seq![row] + Seq::<Row>::empty() =~= seq![row]);
    assert(rows + seq![row] =~= rows.push(row));
    // The whole file after the write.
    let left = after.skip(new_end);
    assert(after =~= file.take(end) + frame(row) + left);
    assert(after.take(end) =~= file.take(end));
    law_log_is_local(file, page, end, after);
    law_frame_roundtrip(file.take(end), row, left);
    if let Ok((more, _)) = log_from(after, new_end) {
        assert(rows + (seq![row] + more) =~= rows.push(row) + more);
    }
    lemma_same_part(file, after, end, 0, 4);
    lemma_same_part(file, after, end, 0, 8);
    lemma_same_part(file, after, end, 4, 6);
    lemma_same_part(file, after, end, 8, 12);
}

/// The writes that are read from a log have keys.
pub proof fn law_logged_keys_are_not_empty(log: Seq<u8>, off: int)
    requires
        log_from(log, off) is Ok,
    ensures
        forall|i: int|
            0 <= i < log_from(log, off)->Ok_0.0.len() ==> (#[trigger] log_from(
                log,
                off,
            )->Ok_0.0[i]).0.len() > 0,
    decreases log.len() - off,
{
    reveal(frame_read);
    if let Ok(Some((row, next))) = frame_at(log, off) {
        law_logged_keys_are_not_empty(log, next);
        let rest = log_from(log, next)->Ok_0.0;
        let rows = log_from(log, off)->Ok_0.0;
        assert forall|i: int| 0 <= i < rows.len() implies (#[trigger] rows[i]).0.len() > 0 by {
            if i > 0 {
                assert(rows[i] == rest[i - 1]);
            }
        }
    }
}

} // verus!
