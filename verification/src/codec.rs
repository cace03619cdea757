//! The binary layout of one record, and how a record is written and read.
//!
//! A record is a header of thirteen bytes followed by its payload:
//!
//! | field     | width        | meaning                                  |
//! |-----------|--------------|------------------------------------------|
//! | state     | 1 byte       | 0 while unprocessed, otherwise processed |
//! | timestamp | 8 bytes      | seconds since the epoch, little-endian   |
//! | size      | 4 bytes      | payload length in bytes, little-endian   |
//! | payload   | `size` bytes | UTF-8 text                               |
//!
//! Records follow each other with no padding; the end of the log is the
//! only terminator.

use crate::endian::{push_u32_le, push_u64_le, read_u32_le, read_u64_le};
use crate::endian::{u32_from_le, u32_le, u64_from_le, u64_le};
use vstd::prelude::*;
use vstd::utf8::{decode_utf8, encode_utf8, valid_utf8};

verus! {

/// The largest payload, in bytes, that a record may carry (256 KiB).
pub const MAX_MESSAGE_SIZE: usize = 262144;

/// The number of bytes in front of a record's payload.
pub const HEADER_SIZE: usize = 13;

/// The state byte of a record that no consumer has taken yet.
pub const UNPROCESSED: u8 = 0;

/// The state byte that a consumer writes when it takes a record.
pub const PROCESSED: u8 = 1;

/// Why an operation on the log gave no result.
#[derive(Debug, Clone, Copy, PartialEq, Eq, Structural)]
pub enum QueueError {
    /// The message is longer than `MAX_MESSAGE_SIZE` bytes.
    MessageTooLarge,
    /// A header declares a payload longer than `MAX_MESSAGE_SIZE` bytes.
    CorruptRecord,
    /// The log ends before the payload that a header declares.
    TruncatedPayload,
    /// The payload is not valid UTF-8.
    InvalidEncoding,
}

/// The three fixed fields in front of a payload.
#[derive(Debug, Clone, Copy, PartialEq, Eq, Structural)]
pub struct Header {
    pub state: u8,
    pub timestamp: u64,
    pub size: u32,
}

/// What reading a header at some offset finds.
#[derive(Debug, Clone, Copy, PartialEq, Eq, Structural)]
pub enum HeaderRead {
    /// Fewer than thirteen bytes are left: the scan is over.
    EndOfLog,
    /// The declared size is over the limit; the record cannot be trusted.
    Corrupt,
    /// A header whose declared size is within the limit.
    Header(Header),
}

/// One whole record, as decoding hands it out.
#[derive(Debug, PartialEq, Eq)]
pub struct Record {
    pub state: u8,
    pub timestamp: u64,
    pub payload: Vec<u8>,
}

/// A state byte other than zero marks a record that was consumed.
pub open spec fn is_processed(state: u8) -> bool {
    state != 0
}

/// The thirteen bytes of a header.
pub open spec fn header_bytes(h: Header) -> Seq<u8> {
    seq![h.state] + u64_le(h.timestamp) + u32_le(h.size)
}

/// The bytes of a whole record: header, then payload.
pub open spec fn record_bytes(state: u8, timestamp: u64, payload: Seq<u8>) -> Seq<u8> {
    header_bytes(Header { state, timestamp, size: payload.len() as u32 }) + payload
}

/// Whether thirteen bytes are there to be read at offset `at`.
pub open spec fn has_header(log: Seq<u8>, at: int) -> bool {
    0 <= at && at + 13 <= log.len()
}

/// The header fields that the thirteen bytes at offset `at` stand for.
pub open spec fn header_at(log: Seq<u8>, at: int) -> Header
    recommends
        has_header(log, at),
{
    Header {
        state: log[at],
        timestamp: u64_from_le(log.subrange(at + 1, at + 9)) as u64,
        size: u32_from_le(log.subrange(at + 9, at + 13)) as u32,
    }
}

/// What reading a header at offset `at` finds: the end of the log where
/// any of the three fields is cut short, a corrupt record where the size
/// is over the limit, the header otherwise.
pub open spec fn read_header(log: Seq<u8>, at: int) -> HeaderRead {
    if !has_header(log, at) {
        HeaderRead::EndOfLog
    } else if header_at(log, at).size > MAX_MESSAGE_SIZE {
        HeaderRead::Corrupt
    } else {
        HeaderRead::Header(header_at(log, at))
    }
}

/// The offset just behind the record that starts at `at` with header `h`.
pub open spec fn end_of_record(at: int, h: Header) -> int {
    at + 13 + h.size
}

/// The payload bytes of the record that starts at `at` with header `h`.
pub open spec fn payload_at(log: Seq<u8>, at: int, h: Header) -> Seq<u8>
    recommends
        end_of_record(at, h) <= log.len(),
{
    log.subrange(at + 13, end_of_record(at, h))
}

/// A record's header is thirteen bytes long and the whole record is
/// thirteen bytes longer than its payload.
pub proof fn lemma_record_len(state: u8, timestamp: u64, payload: Seq<u8>)
    ensures
        header_bytes(Header { state, timestamp, size: payload.len() as u32 }).len() == 13,
        record_bytes(state, timestamp, payload).len() == 1 + 8 + 4 + payload.len(),
{
}

/// Reading a record back where it was written gives the fields that were
/// written, whatever follows it and whatever stands in front of it.
pub proof fn lemma_read_written(
    before: Seq<u8>,
    state: u8,
    timestamp: u64,
    payload: Seq<u8>,
    after: Seq<u8>,
)
    requires
        payload.len() <= MAX_MESSAGE_SIZE,
    ensures
        ({
            let log = before + record_bytes(state, timestamp, payload) + after;
            let at = before.len() as int;
            let h = Header { state, timestamp, size: payload.len() as u32 };
            &&& read_header(log, at) == HeaderRead::Header(h)
            &&& end_of_record(at, h) == at + 13 + payload.len()
            &&& end_of_record(at, h) <= log.len()
            &&& payload_at(log, at, h) == payload
            &&& log.subrange(at, end_of_record(at, h)) == record_bytes(state, timestamp, payload)
        }),
{
    let log = before + record_bytes(state, timestamp, payload) + after;
    let at = before.len() as int;
    let h = Header { state, timestamp, size: payload.len() as u32 };
    crate::endian::lemma_u64_round_trip(timestamp);
    crate::endian::lemma_u32_round_trip(h.size);
    assert(log.subrange(at + 1, at + 9) =~= u64_le(timestamp));
    assert(log.subrange(at + 9, at + 13) =~= u32_le(h.size));
    assert(log[at] == state);
    assert(payload_at(log, at, h) =~= payload);
    assert(log.subrange(at, end_of_record(at, h)) =~= record_bytes(state, timestamp, payload));
}

/// Writes one record: state, timestamp, payload length and payload, in
/// that order.
pub fn encode_record(state: u8, timestamp: u64, payload: &[u8]) -> (out: Vec<u8>)
    requires
        payload@.len() <= MAX_MESSAGE_SIZE,
    ensures
        out@ == record_bytes(state, timestamp, payload@),
        out@.len() == 1 + 8 + 4 + payload@.len(),
{
    let mut out: Vec<u8> = Vec::new();
    out.push(state);
    push_u64_le(&mut out, timestamp);
    push_u32_le(&mut out, payload.len() as u32);
    let ghost head = out@;
    let mut i: usize = 0;
    while i < payload.len()
        invariant
            i <= payload@.len(),
            out@ == head + payload@.subrange(0, i as int),
        decreases payload@.len() - i,
    {
        out.push(payload[i]);
        i = i + 1;
        assert(out@ =~= head + payload@.subrange(0, i as int));
    }
    assert(payload@.subrange(0, i as int) =~= payload@);
    assert(head =~= header_bytes(
        Header { state, timestamp, size: payload@.len() as u32 },
    ));
    out
}

/// Frames a text message as an unprocessed record with the given
/// timestamp.
///
/// A message whose UTF-8 encoding is longer than `MAX_MESSAGE_SIZE` bytes
/// is refused; every other message is framed.
pub fn encode_message(mssg: &str, timestamp: u64) -> (r: Result<Vec<u8>, QueueError>)
    ensures
        encode_utf8(mssg@).len() <= MAX_MESSAGE_SIZE ==> (r matches Ok(record) && record@
            == record_bytes(UNPROCESSED, timestamp, encode_utf8(mssg@))),
        encode_utf8(mssg@).len() > MAX_MESSAGE_SIZE ==> r == Err::<Vec<u8>, QueueError>(
            QueueError::MessageTooLarge,
        ),
{
    let bytes: &[u8] = mssg.as_bytes();
    if bytes.len() > MAX_MESSAGE_SIZE {
        return Err(QueueError::MessageTooLarge);
    }
    Ok(encode_record(UNPROCESSED, timestamp, bytes))
}

/// Reads the header at `offset`.
///
/// A header that is cut short by the end of the log is the end of the
/// log. A declared size over the limit is a corrupt record: nothing is
/// read behind such a header.
pub fn decode_header(log: &[u8], offset: u64) -> (r: HeaderRead)
    ensures
        r == read_header(log@, offset as int),
{
    let len: usize = log.len();
    if (len as u64) < offset {
        return HeaderRead::EndOfLog;
    }
    let at: usize = offset as usize;
    if len - at < HEADER_SIZE {
        return HeaderRead::EndOfLog;
    }
    let state: u8 = log[at];
    let timestamp: u64 = read_u64_le(log, at + 1);
    let size: u32 = read_u32_le(log, at + 9);
    proof {
        crate::endian::lemma_u64_bytes_round_trip(log@.subrange(at + 1, at + 9));
        crate::endian::lemma_u32_bytes_round_trip(log@.subrange(at + 9, at + 13));
    }
    if size as usize > MAX_MESSAGE_SIZE {
        HeaderRead::Corrupt
    } else {
        HeaderRead::Header(Header { state, timestamp, size })
    }
}

/// Copies the bytes `from..to` of the log.
pub fn copy_range(log: &[u8], from: usize, to: usize) -> (out: Vec<u8>)
    requires
        from <= to <= log@.len(),
    ensures
        out@ == log@.subrange(from as int, to as int),
{
    let mut out: Vec<u8> = Vec::new();
    let mut i: usize = from;
    while i < to
        invariant
            from <= i <= to <= log@.len(),
            out@ == log@.subrange(from as int, i as int),
        decreases to - i,
    {
        out.push(log[i]);
        i = i + 1;
        assert(out@ =~= log@.subrange(from as int, i as int));
    }
    out
}

/// Reads the whole record at `offset`: header, then exactly as many
/// payload bytes as the header declares.
///
/// `Ok(None)` is the end of the log. The payload is not interpreted.
pub fn decode_record(log: &[u8], offset: u64) -> (r: Result<Option<Record>, QueueError>)
    ensures
        match read_header(log@, offset as int) {
            HeaderRead::EndOfLog => r == Ok::<Option<Record>, QueueError>(None),
            HeaderRead::Corrupt => r == Err::<Option<Record>, QueueError>(
                QueueError::CorruptRecord,
            ),
            HeaderRead::Header(h) => if end_of_record(offset as int, h) > log@.len() {
                r == Err::<Option<Record>, QueueError>(QueueError::TruncatedPayload)
            } else {
                &&& r matches Ok(Some(rec))
                &&& rec.state == h.state
                &&& rec.timestamp == h.timestamp
                &&& rec.payload@ == payload_at(log@, offset as int, h)
            },
        },
{
    match decode_header(log, offset) {
        HeaderRead::EndOfLog => Ok(None),
        HeaderRead::Corrupt => Err(QueueError::CorruptRecord),
        HeaderRead::Header(h) => {
            let at: usize = offset as usize;
            let rest: usize = log.len() - at - HEADER_SIZE;
            if h.size as usize > rest {
                Err(QueueError::TruncatedPayload)
            } else {
                let start: usize = at + HEADER_SIZE;
                let payload = copy_range(log, start, start + h.size as usize);
                Ok(Some(Record { state: h.state, timestamp: h.timestamp, payload }))
            }
        },
    }
}

/// `String::from_utf8` of std: it gives the text exactly when the bytes
/// are well-formed UTF-8, and the text is then the one that the bytes
/// encode. The bytes are not changed or repaired.
#[verifier::external_body]
fn string_from_utf8(bytes: Vec<u8>) -> (r: Option<String>)
    ensures
        r is Some <==> valid_utf8(bytes@),
        r matches Some(s) ==> s@ == decode_utf8(bytes@),
{
    String::from_utf8(bytes).ok()
}

/// Interprets a payload as text.
pub fn decode_text(payload: Vec<u8>) -> (r: Result<String, QueueError>)
    ensures
        valid_utf8(payload@) ==> (r matches Ok(s) && s@ == decode_utf8(payload@)),
        !valid_utf8(payload@) ==> r == Err::<String, QueueError>(QueueError::InvalidEncoding),
{
    match string_from_utf8(payload) {
        Some(s) => Ok(s),
        None => Err(QueueError::InvalidEncoding),
    }
}

} // verus!
