//! The queue store: appending, consuming and compacting on the log's bytes.
//!
//! A `Queue` holds an image of the log. The program around it loads the
//! image from the backing file and writes back what an operation changed:
//! the bytes that `enqueue` appended, the one state byte that `dequeue`
//! set, or the whole image after `purge`.

use crate::codec::{copy_range, decode_header, decode_text, encode_message};
use crate::codec::{end_of_record, is_processed, payload_at, read_header, record_bytes};
use crate::codec::{Header, HeaderRead, QueueError};
use crate::codec::{HEADER_SIZE, MAX_MESSAGE_SIZE, PROCESSED, UNPROCESSED};
use vstd::prelude::*;
use vstd::utf8::{decode_utf8, encode_utf8, valid_utf8};

verus! {

/// Where a scan for the first unprocessed record ends.
#[derive(Debug, Clone, Copy, PartialEq, Eq, Structural)]
pub enum Located {
    /// The log ended first: there is nothing to consume.
    Empty,
    /// A header on the way declares a size over the limit.
    Corrupt,
    /// An unprocessed record was found, but the log ends inside its payload.
    Truncated,
    /// An unprocessed record with its whole payload starts at this offset.
    At(usize, Header),
}

/// Where a scan that starts at offset `at` ends.
///
/// The scan reads one header after the other. It steps over each
/// processed record by the size that the record declares and stops at the
/// first header that cannot be read, that is corrupt, or that belongs to
/// an unprocessed record. A processed record that reaches to the end of
/// the log or beyond it ends the scan: no header can follow it.
pub open spec fn first_unprocessed(log: Seq<u8>, at: int) -> Located
    decreases log.len() - at,
{
    match read_header(log, at) {
        HeaderRead::EndOfLog => Located::Empty,
        HeaderRead::Corrupt => Located::Corrupt,
        HeaderRead::Header(h) => if is_processed(h.state) {
            if end_of_record(at, h) < log.len() {
                first_unprocessed(log, end_of_record(at, h))
            } else {
                Located::Empty
            }
        } else if end_of_record(at, h) > log.len() {
            Located::Truncated
        } else {
            Located::At(at as usize, h)
        },
    }
}

/// What compaction keeps of the log from offset `at` on: the bytes of each
/// whole unprocessed record, in order, up to the first place where no
/// whole record can be read.
pub open spec fn compacted(log: Seq<u8>, at: int) -> Seq<u8>
    decreases log.len() - at,
{
    match read_header(log, at) {
        HeaderRead::EndOfLog => Seq::empty(),
        HeaderRead::Corrupt => Seq::empty(),
        HeaderRead::Header(h) => if end_of_record(at, h) > log.len() {
            Seq::empty()
        } else if is_processed(h.state) {
            compacted(log, end_of_record(at, h))
        } else {
            log.subrange(at, end_of_record(at, h)) + compacted(log, end_of_record(at, h))
        },
    }
}

/// Compaction never yields more bytes than the log holds behind `at`.
pub proof fn lemma_compacted_len(log: Seq<u8>, at: int)
    requires
        0 <= at,
    ensures
        compacted(log, at).len() <= if at <= log.len() {
            log.len() - at
        } else {
            0
        },
    decreases log.len() - at,
{
    match read_header(log, at) {
        HeaderRead::Header(h) => {
            if end_of_record(at, h) <= log.len() {
                lemma_compacted_len(log, end_of_record(at, h));
            }
        },
        _ => {},
    }
}

/// Scans from `offset` for the first unprocessed record.
///
/// A record that is found lies at or behind `offset` and wholly inside the
/// log.
pub fn find_unprocessed(log: &[u8], offset: u64) -> (r: Located)
    ensures
        r == first_unprocessed(log@, offset as int),
        r matches Located::At(at, h) ==> {
            &&& offset <= at
            &&& read_header(log@, at as int) == HeaderRead::Header(h)
            &&& h.state == UNPROCESSED
            &&& end_of_record(at as int, h) <= log@.len() <= usize::MAX
        },
{
    let mut at: u64 = offset;
    loop
        invariant
            offset <= at,
            first_unprocessed(log@, at as int) == first_unprocessed(log@, offset as int),
        decreases log@.len() - at,
    {
        match decode_header(log, at) {
            HeaderRead::EndOfLog => {
                return Located::Empty;
            },
            HeaderRead::Corrupt => {
                return Located::Corrupt;
            },
            HeaderRead::Header(h) => {
                let start: usize = at as usize;
                let rest: usize = log.len() - start - HEADER_SIZE;
                if h.state != UNPROCESSED {
                    if h.size as usize >= rest {
                        return Located::Empty;
                    }
                    at = at + 13 + h.size as u64;
                } else if h.size as usize > rest {
                    return Located::Truncated;
                } else {
                    return Located::At(start, h);
                }
            },
        }
    }
}

/// Rewrites the log without its processed records.
pub fn compact(log: &[u8]) -> (out: Vec<u8>)
    ensures
        out@ == compacted(log@, 0),
        out@.len() <= log@.len(),
{
    let mut out: Vec<u8> = Vec::new();
    let mut at: usize = 0;
    proof {
        lemma_compacted_len(log@, 0);
    }
    loop
        invariant
            at <= log@.len(),
            out@ + compacted(log@, at as int) == compacted(log@, 0),
            compacted(log@, 0).len() <= log@.len(),
        decreases log@.len() - at,
    {
        match decode_header(log, at as u64) {
            HeaderRead::EndOfLog => {
                assert(out@ + Seq::<u8>::empty() =~= out@);
                return out;
            },
            HeaderRead::Corrupt => {
                assert(out@ + Seq::<u8>::empty() =~= out@);
                return out;
            },
            HeaderRead::Header(h) => {
                let rest: usize = log.len() - at - HEADER_SIZE;
                if h.size as usize > rest {
                    assert(out@ + Seq::<u8>::empty() =~= out@);
                    return out;
                }
                let next: usize = at + HEADER_SIZE + h.size as usize;
                if h.state == UNPROCESSED {
                    let ghost kept = out@;
                    let mut i: usize = at;
                    while i < next
                        invariant
                            at <= i <= next <= log@.len(),
                            out@ == kept + log@.subrange(at as int, i as int),
                        decreases next - i,
                    {
                        out.push(log[i]);
                        i = i + 1;
                        assert(out@ =~= kept + log@.subrange(at as int, i as int));
                    }
                    assert(out@ + compacted(log@, next as int) =~= kept + compacted(
                        log@,
                        at as int,
                    ));
                }
                at = next;
            },
        }
    }
}

/// A queue of text messages kept in one append-only log.
pub struct Queue {
    file: String,
    log: Vec<u8>,
}

impl View for Queue {
    type V = Seq<u8>;

    /// The bytes of the log.
    closed spec fn view(&self) -> Seq<u8> {
        self.log@
    }
}

impl Queue {
    /// The path that names the backing file.
    pub closed spec fn path(&self) -> Seq<char> {
        self.file@
    }

    /// A queue on the given path whose log does not exist yet.
    pub fn new(file: &str) -> (q: Queue)
        ensures
            q.path() == file@,
            q@ == Seq::<u8>::empty(),
    {
        Queue { file: file.to_owned(), log: Vec::new() }
    }

    /// A queue on the given path with the log as it was read.
    pub fn with_log(file: &str, log: Vec<u8>) -> (q: Queue)
        ensures
            q.path() == file@,
            q@ == log@,
    {
        Queue { file: file.to_owned(), log }
    }

    /// The path that names the backing file.
    pub fn file(&self) -> (name: &str)
        ensures
            name@ == self.path(),
    {
        self.file.as_str()
    }

    /// The log's bytes.
    pub fn log(&self) -> (bytes: &Vec<u8>)
        ensures
            bytes@ == self@,
    {
        &self.log
    }

    /// The log's length in bytes.
    pub fn len(&self) -> (n: usize)
        ensures
            n == self@.len(),
    {
        self.log.len()
    }

    /// Appends one unprocessed record that carries `mssg` and `timestamp`.
    ///
    /// A message of more than `MAX_MESSAGE_SIZE` bytes is refused and the
    /// log stays as it is. The log is not searched.
    pub fn enqueue(&mut self, mssg: &str, timestamp: u64) -> (r: Result<(), QueueError>)
        ensures
            final(self).path() == old(self).path(),
            encode_utf8(mssg@).len() <= MAX_MESSAGE_SIZE ==> r == Ok::<(), QueueError>(())
                && final(self)@ == old(self)@ + record_bytes(
                UNPROCESSED,
                timestamp,
                encode_utf8(mssg@),
            ),
            encode_utf8(mssg@).len() > MAX_MESSAGE_SIZE ==> r == Err::<(), QueueError>(
                QueueError::MessageTooLarge,
            ) && final(self)@ == old(self)@,
    {
        let record: Vec<u8> = match encode_message(mssg, timestamp) {
            Ok(record) => record,
            Err(e) => {
                return Err(e);
            },
        };
        let ghost before = self.log@;
        let mut i: usize = 0;
        while i < record.len()
            invariant
                i <= record@.len(),
                self.file == old(self).file,
                self.log@ == before + record@.subrange(0, i as int),
            decreases record@.len() - i,
        {
            self.log.push(record[i]);
            i = i + 1;
            assert(self.log@ =~= before + record@.subrange(0, i as int));
        }
        assert(record@.subrange(0, i as int) =~= record@);
        Ok(())
    }

    /// Takes the first unprocessed record at or behind `offset`.
    ///
    /// The scan steps over processed records. Where it finds an
    /// unprocessed record with its whole payload, it sets that record's
    /// state byte and hands out the timestamp and the text; the state byte
    /// is set even where the payload turns out not to be text. In every
    /// other case the log stays as it is. No byte is ever removed.
    pub fn dequeue(&mut self, offset: u64) -> (r: Result<Option<(u64, String)>, QueueError>)
        ensures
            final(self).path() == old(self).path(),
            final(self)@.len() == old(self)@.len(),
            match first_unprocessed(old(self)@, offset as int) {
                Located::Empty => {
                    &&& r == Ok::<Option<(u64, String)>, QueueError>(None)
                    &&& final(self)@ == old(self)@
                },
                Located::Corrupt => {
                    &&& r == Err::<Option<(u64, String)>, QueueError>(QueueError::CorruptRecord)
                    &&& final(self)@ == old(self)@
                },
                Located::Truncated => {
                    &&& r == Err::<Option<(u64, String)>, QueueError>(
                        QueueError::TruncatedPayload,
                    )
                    &&& final(self)@ == old(self)@
                },
                Located::At(at, h) => {
                    let payload = payload_at(old(self)@, at as int, h);
                    &&& final(self)@ == old(self)@.update(at as int, PROCESSED)
                    &&& valid_utf8(payload) ==> (r matches Ok(Some(taken)) && taken.0
                        == h.timestamp && taken.1@ == decode_utf8(payload))
                    &&& !valid_utf8(payload) ==> r == Err::<Option<(u64, String)>, QueueError>(
                        QueueError::InvalidEncoding,
                    )
                },
            },
    {
        match find_unprocessed(self.log.as_slice(), offset) {
            Located::Empty => Ok(None),
            Located::Corrupt => Err(QueueError::CorruptRecord),
            Located::Truncated => Err(QueueError::TruncatedPayload),
            Located::At(at, h) => {
                let start: usize = at + HEADER_SIZE;
                let payload = copy_range(self.log.as_slice(), start, start + h.size as usize);
                self.log[at] = PROCESSED;
                match decode_text(payload) {
                    Ok(text) => Ok(Some((h.timestamp, text))),
                    Err(e) => Err(e),
                }
            },
        }
    }

    /// Drops every processed record from the log and keeps the
    /// unprocessed ones as they are, in their order.
    pub fn purge(&mut self)
        ensures
            final(self).path() == old(self).path(),
            final(self)@ == compacted(old(self)@, 0),
            final(self)@.len() <= old(self)@.len(),
    {
        let kept = compact(self.log.as_slice());
        self.log = kept;
    }
}

} // verus!
