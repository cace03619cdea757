//! What holds of a log that is a sequence of whole records.
//!
//! The operations of the store are stated on bytes and cover every byte
//! string. Here the log is seen as the sequence of entries that its bytes
//! encode, and the operations are shown to do on the entries what their
//! names say: append one, take the first pending one, drop the consumed
//! ones.

use crate::codec::{end_of_record, is_processed, payload_at, read_header, record_bytes};
use crate::codec::{lemma_read_written, lemma_record_len};
use crate::codec::{Header, HeaderRead, MAX_MESSAGE_SIZE, PROCESSED, UNPROCESSED};
use crate::store::{compacted, first_unprocessed, Located};
use vstd::prelude::*;
use vstd::utf8::{decode_utf8, encode_utf8, valid_utf8};

verus! {

/// One record of the log, as a value.
pub struct Entry {
    pub state: u8,
    pub timestamp: u64,
    pub payload: Seq<u8>,
}

/// The bytes that encode an entry.
pub open spec fn entry_bytes(e: Entry) -> Seq<u8> {
    record_bytes(e.state, e.timestamp, e.payload)
}

/// The header that stands in front of an entry's payload.
pub open spec fn entry_header(e: Entry) -> Header {
    Header { state: e.state, timestamp: e.timestamp, size: e.payload.len() as u32 }
}

/// The entry with its state byte set to processed.
pub open spec fn consumed(e: Entry) -> Entry {
    Entry { state: PROCESSED, timestamp: e.timestamp, payload: e.payload }
}

/// Whether no consumer has taken the entry yet.
pub open spec fn is_pending(e: Entry) -> bool {
    !is_processed(e.state)
}

/// Every payload is within the size limit.
pub open spec fn well_formed(entries: Seq<Entry>) -> bool {
    forall|i: int|
        0 <= i < entries.len() ==> (#[trigger] entries[i]).payload.len() <= MAX_MESSAGE_SIZE
}

/// The log that holds the given entries, one behind the other.
pub open spec fn log_of(entries: Seq<Entry>) -> Seq<u8>
    decreases entries.len(),
{
    if entries.len() == 0 {
        Seq::empty()
    } else {
        log_of(entries.drop_last()) + entry_bytes(entries.last())
    }
}

/// The offset at which entry number `k` starts.
pub open spec fn offset_of(entries: Seq<Entry>, k: int) -> int {
    log_of(entries.take(k)).len() as int
}

/// The entries that are still pending, in their order.
pub open spec fn pending(entries: Seq<Entry>) -> Seq<Entry> {
    entries.filter(|e: Entry| is_pending(e))
}

/// The index of the first pending entry at or behind index `k`, or the
/// number of entries where there is none.
pub open spec fn next_pending(entries: Seq<Entry>, k: int) -> int
    decreases entries.len() - k,
{
    if k < 0 || k >= entries.len() {
        entries.len() as int
    } else if is_pending(entries[k]) {
        k
    } else {
        next_pending(entries, k + 1)
    }
}

/// The log of two runs of entries is the log of the first followed by
/// the log of the second.
pub proof fn lemma_log_of_concat(a: Seq<Entry>, b: Seq<Entry>)
    ensures
        log_of(a + b) == log_of(a) + log_of(b),
    decreases b.len(),
{
    if b.len() == 0 {
        assert(a + b =~= a);
        assert(log_of(a) + log_of(b) =~= log_of(a));
    } else {
        lemma_log_of_concat(a, b.drop_last());
        assert((a + b).drop_last() =~= a + b.drop_last());
        assert((a + b).last() == b.last());
        assert(log_of(a + b) =~= log_of(a) + log_of(b));
    }
}

/// The log of one entry is that entry's bytes.
pub proof fn lemma_log_of_single(e: Entry)
    ensures
        log_of(seq![e]) == entry_bytes(e),
{
    let s = seq![e];
    assert(s.drop_last() =~= Seq::<Entry>::empty());
    assert(log_of(s.drop_last()) =~= Seq::<u8>::empty());
    assert(log_of(s) =~= entry_bytes(e));
}

/// Entry number `k` stands in the log between the entries in front of it
/// and those behind it, and the next entry starts where it ends.
pub proof fn lemma_entry_in_log(entries: Seq<Entry>, k: int)
    requires
        0 <= k < entries.len(),
    ensures
        log_of(entries) == log_of(entries.take(k)) + entry_bytes(entries[k]) + log_of(
            entries.skip(k + 1),
        ),
        offset_of(entries, k + 1) == offset_of(entries, k) + 13 + entries[k].payload.len(),
        offset_of(entries, k + 1) <= log_of(entries).len(),
        offset_of(entries, entries.len() as int) == log_of(entries).len(),
{
    let front = entries.take(k);
    let one = seq![entries[k]];
    let back = entries.skip(k + 1);
    assert(entries =~= front + one + back);
    assert(entries.take(k + 1) =~= front + one);
    assert(entries.take(entries.len() as int) =~= entries);
    lemma_log_of_single(entries[k]);
    lemma_log_of_concat(front, one);
    lemma_log_of_concat(front + one, back);
    lemma_record_len(entries[k].state, entries[k].timestamp, entries[k].payload);
}

/// Appending a record to the log appends an entry to the entries.
pub proof fn law_enqueue_appends(entries: Seq<Entry>, timestamp: u64, payload: Seq<u8>)
    ensures
        log_of(entries) + record_bytes(UNPROCESSED, timestamp, payload) == log_of(
            entries.push(Entry { state: UNPROCESSED, timestamp, payload }),
        ),
{
    let e = Entry { state: UNPROCESSED, timestamp, payload };
    assert(entries.push(e) =~= entries + seq![e]);
    lemma_log_of_single(e);
    lemma_log_of_concat(entries, seq![e]);
}

/// A scan that starts at an entry's offset ends at the first pending entry
/// at or behind it, and reports the end of the log where none is pending.
pub proof fn law_scan_finds_first_pending(entries: Seq<Entry>, k: int)
    requires
        well_formed(entries),
        0 <= k <= entries.len(),
        log_of(entries).len() <= usize::MAX,
    ensures
        ({
            let j = next_pending(entries, k);
            let found = first_unprocessed(log_of(entries), offset_of(entries, k));
            &&& k <= j <= entries.len()
            &&& j == entries.len() ==> found == Located::Empty
            &&& j < entries.len() ==> found == Located::At(
                offset_of(entries, j) as usize,
                entry_header(entries[j]),
            )
            &&& j < entries.len() ==> payload_at(
                log_of(entries),
                offset_of(entries, j),
                entry_header(entries[j]),
            ) == entries[j].payload
        }),
    decreases entries.len() - k,
{
    let log = log_of(entries);
    let at = offset_of(entries, k);
    if k == entries.len() {
        assert(entries.take(k) =~= entries);
    } else {
        let e = entries[k];
        lemma_entry_in_log(entries, k);
        lemma_read_written(
            log_of(entries.take(k)),
            e.state,
            e.timestamp,
            e.payload,
            log_of(entries.skip(k + 1)),
        );
        let h = entry_header(e);
        assert(read_header(log, at) == HeaderRead::Header(h));
        assert(end_of_record(at, h) == offset_of(entries, k + 1));
        if is_processed(e.state) {
            law_scan_finds_first_pending(entries, k + 1);
        }
    }
}

/// Setting the state byte of entry number `k` in the log marks that entry
/// as consumed and leaves every other entry as it was.
pub proof fn law_dequeue_marks_entry(entries: Seq<Entry>, k: int)
    requires
        0 <= k < entries.len(),
    ensures
        log_of(entries).update(offset_of(entries, k), PROCESSED) == log_of(
            entries.update(k, consumed(entries[k])),
        ),
{
    let e = entries[k];
    let marked = entries.update(k, consumed(e));
    lemma_entry_in_log(entries, k);
    lemma_entry_in_log(marked, k);
    assert(marked.take(k) =~= entries.take(k));
    assert(marked.skip(k + 1) =~= entries.skip(k + 1));
    lemma_record_len(e.state, e.timestamp, e.payload);
    assert(entry_bytes(consumed(e)) =~= entry_bytes(e).update(0, PROCESSED));
    assert(log_of(entries).update(offset_of(entries, k), PROCESSED) =~= log_of(marked));
}

/// Compaction keeps exactly the pending entries, each with its bytes as
/// they were, in their order.
pub proof fn law_purge_keeps_pending(entries: Seq<Entry>)
    requires
        well_formed(entries),
    ensures
        compacted(log_of(entries), 0) == log_of(pending(entries)),
{
    lemma_compacted_from(entries, 0);
    assert(entries.skip(0) =~= entries);
    assert(entries.take(0) =~= Seq::<Entry>::empty());
}

/// Compaction from an entry's offset keeps the pending entries at and
/// behind it.
proof fn lemma_compacted_from(entries: Seq<Entry>, k: int)
    requires
        well_formed(entries),
        0 <= k <= entries.len(),
    ensures
        compacted(log_of(entries), offset_of(entries, k)) == log_of(pending(entries.skip(k))),
    decreases entries.len() - k,
{
    let log = log_of(entries);
    let at = offset_of(entries, k);
    let keep = |e: Entry| is_pending(e);
    reveal_with_fuel(Seq::filter, 2);
    if k == entries.len() {
        assert(entries.take(k) =~= entries);
        assert(entries.skip(k) =~= Seq::<Entry>::empty());
    } else {
        let e = entries[k];
        lemma_entry_in_log(entries, k);
        lemma_read_written(
            log_of(entries.take(k)),
            e.state,
            e.timestamp,
            e.payload,
            log_of(entries.skip(k + 1)),
        );
        lemma_compacted_from(entries, k + 1);
        let rest = entries.skip(k + 1);
        assert(entries.skip(k) =~= seq![e] + rest);
        Seq::filter_distributes_over_add(seq![e], rest, keep);
        assert(seq![e].drop_last() =~= Seq::<Entry>::empty());
        if is_pending(e) {
            assert(seq![e].filter(keep) =~= seq![e]);
            lemma_log_of_concat(seq![e], rest.filter(keep));
            lemma_log_of_single(e);
        } else {
            assert(seq![e].filter(keep) =~= Seq::<Entry>::empty());
            assert(seq![e].filter(keep) + rest.filter(keep) =~= rest.filter(keep));
        }
    }
}

/// A message that is appended to a log whose entries are all consumed is
/// the next one to be taken: the scan from the start finds it where it was
/// appended, with its timestamp, and its payload is the text's encoding,
/// which decodes to the text.
pub proof fn law_round_trip(entries: Seq<Entry>, timestamp: u64, text: Seq<char>)
    requires
        well_formed(entries),
        forall|i: int| 0 <= i < entries.len() ==> is_processed((#[trigger] entries[i]).state),
        encode_utf8(text).len() <= MAX_MESSAGE_SIZE,
        log_of(entries).len() + 13 + encode_utf8(text).len() <= usize::MAX,
    ensures
        ({
            let payload = encode_utf8(text);
            let log = log_of(entries) + record_bytes(UNPROCESSED, timestamp, payload);
            let h = Header { state: UNPROCESSED, timestamp, size: payload.len() as u32 };
            &&& first_unprocessed(log, 0) == Located::At(log_of(entries).len() as usize, h)
            &&& payload_at(log, log_of(entries).len() as int, h) == payload
            &&& valid_utf8(payload)
            &&& decode_utf8(payload) == text
        }),
{
    let payload = encode_utf8(text);
    let e = Entry { state: UNPROCESSED, timestamp, payload };
    let all = entries.push(e);
    law_enqueue_appends(entries, timestamp, payload);
    lemma_record_len(UNPROCESSED, timestamp, payload);
    assert(all.take(0) =~= Seq::<Entry>::empty());
    assert(all.take(entries.len() as int) =~= entries);
    assert forall|i: int| 0 <= i < all.len() implies (#[trigger] all[i]).payload.len()
        <= MAX_MESSAGE_SIZE by {
        if i < entries.len() {
            assert(all[i] == entries[i]);
        }
    }
    lemma_next_pending_pushed(entries, e, 0);
    law_scan_finds_first_pending(all, 0);
    vstd::utf8::encode_utf8_valid_utf8(text);
    vstd::utf8::encode_utf8_decode_utf8(text);
}

/// A pending entry behind consumed ones is the first pending one.
proof fn lemma_next_pending_pushed(entries: Seq<Entry>, e: Entry, k: int)
    requires
        0 <= k <= entries.len(),
        forall|i: int| 0 <= i < entries.len() ==> is_processed((#[trigger] entries[i]).state),
        is_pending(e),
    ensures
        next_pending(entries.push(e), k) == entries.len(),
    decreases entries.len() - k,
{
    let all = entries.push(e);
    if k < entries.len() {
        assert(all[k] == entries[k]);
        lemma_next_pending_pushed(entries, e, k + 1);
    } else {
        assert(all[k] == e);
    }
}

/// In front of the first pending entry every entry is consumed.
pub proof fn lemma_next_pending(entries: Seq<Entry>, k: int)
    requires
        0 <= k <= entries.len(),
    ensures
        ({
            let j = next_pending(entries, k);
            &&& k <= j <= entries.len()
            &&& forall|i: int| k <= i < j ==> is_processed((#[trigger] entries[i]).state)
            &&& j < entries.len() ==> is_pending(entries[j])
        }),
    decreases entries.len() - k,
{
    if k < entries.len() && !is_pending(entries[k]) {
        lemma_next_pending(entries, k + 1);
    }
}

/// Entries that are all consumed leave nothing pending.
proof fn lemma_none_pending(entries: Seq<Entry>)
    requires
        forall|i: int| 0 <= i < entries.len() ==> is_processed((#[trigger] entries[i]).state),
    ensures
        pending(entries) == Seq::<Entry>::empty(),
    decreases entries.len(),
{
    reveal(Seq::filter);
    if entries.len() > 0 {
        let front = entries.drop_last();
        assert forall|i: int| 0 <= i < front.len() implies is_processed(
            (#[trigger] front[i]).state,
        ) by {
            assert(front[i] == entries[i]);
        }
        lemma_none_pending(front);
        assert(is_processed(entries.last().state));
    }
}

/// The pending entries are the first pending entry followed by what is
/// pending behind it.
proof fn lemma_pending_split(entries: Seq<Entry>)
    requires
        next_pending(entries, 0) < entries.len(),
    ensures
        pending(entries) == seq![entries[next_pending(entries, 0)]] + pending(
            entries.skip(next_pending(entries, 0) + 1),
        ),
{
    let j = next_pending(entries, 0);
    let keep = |e: Entry| is_pending(e);
    lemma_next_pending(entries, 0);
    let front = entries.take(j);
    let one = seq![entries[j]];
    let back = entries.skip(j + 1);
    assert(entries =~= front + one + back);
    lemma_none_pending(front);
    Seq::filter_distributes_over_add(front, one, keep);
    Seq::filter_distributes_over_add(front + one, back, keep);
    reveal_with_fuel(Seq::filter, 2);
    assert(one.drop_last() =~= Seq::<Entry>::empty());
    assert(one.filter(keep) =~= one);
    assert(pending(entries) =~= one + pending(back));
}

/// Messages leave in the order in which they came: the entry that the scan
/// from the start finds is the first of the pending entries, and once it
/// is marked as consumed the pending entries are the rest of them, in
/// their order.
pub proof fn law_first_in_first_out(entries: Seq<Entry>)
    requires
        next_pending(entries, 0) < entries.len(),
    ensures
        ({
            let j = next_pending(entries, 0);
            let after = entries.update(j, consumed(entries[j]));
            &&& pending(entries).len() > 0
            &&& pending(entries)[0] == entries[j]
            &&& pending(after) == pending(entries).drop_first()
            &&& next_pending(after, 0) == next_pending(entries, j + 1)
        }),
{
    let j = next_pending(entries, 0);
    let after = entries.update(j, consumed(entries[j]));
    let keep = |e: Entry| is_pending(e);
    lemma_next_pending(entries, 0);
    lemma_pending_split(entries);
    let front = entries.take(j);
    let one = seq![consumed(entries[j])];
    let back = entries.skip(j + 1);
    assert(after =~= front + one + back);
    lemma_none_pending(front);
    Seq::filter_distributes_over_add(front, one, keep);
    Seq::filter_distributes_over_add(front + one, back, keep);
    reveal_with_fuel(Seq::filter, 2);
    assert(one.drop_last() =~= Seq::<Entry>::empty());
    assert(one.filter(keep) =~= Seq::<Entry>::empty());
    assert(pending(after) =~= pending(back));
    assert(pending(entries).drop_first() =~= pending(back));
    lemma_next_pending_behind(entries, after, j, 0);
}

/// Two runs of entries that agree behind index `j`, and hold only
/// consumed entries up to it, have their next pending entry at the same
/// index.
proof fn lemma_next_pending_behind(a: Seq<Entry>, b: Seq<Entry>, j: int, k: int)
    requires
        a.len() == b.len(),
        0 <= k <= j + 1 <= a.len(),
        forall|i: int| 0 <= i <= j ==> is_processed((#[trigger] b[i]).state),
        forall|i: int| j < i < a.len() ==> a[i] == b[i],
    ensures
        next_pending(b, k) == next_pending(a, j + 1),
    decreases a.len() - k,
{
    if k <= j {
        assert(is_processed(b[k].state));
        lemma_next_pending_behind(a, b, j, k + 1);
    } else {
        lemma_next_pending_agree(a, b, k);
    }
}

/// Two runs of entries that agree from index `k` on have their next
/// pending entry at the same index.
proof fn lemma_next_pending_agree(a: Seq<Entry>, b: Seq<Entry>, k: int)
    requires
        a.len() == b.len(),
        0 <= k <= a.len(),
        forall|i: int| k <= i < a.len() ==> a[i] == b[i],
    ensures
        next_pending(b, k) == next_pending(a, k),
    decreases a.len() - k,
{
    if k < a.len() {
        assert(a[k] == b[k]);
        lemma_next_pending_agree(a, b, k + 1);
    }
}

/// The log of an entry appended to others is their log followed by the
/// entry's bytes, which are thirteen more than its payload.
proof fn lemma_log_of_push(entries: Seq<Entry>, e: Entry)
    ensures
        log_of(entries.push(e)) == log_of(entries) + entry_bytes(e),
        log_of(entries.push(e)).len() == log_of(entries).len() + 13 + e.payload.len(),
{
    assert(entries.push(e).drop_last() =~= entries);
    lemma_record_len(e.state, e.timestamp, e.payload);
}

/// The pending entries take no more room than all of them: less where an
/// entry is consumed, and some where an entry is pending.
proof fn lemma_pending_log_len(entries: Seq<Entry>)
    ensures
        log_of(pending(entries)).len() <= log_of(entries).len(),
        (exists|i: int| 0 <= i < entries.len() && is_processed((#[trigger] entries[i]).state))
            ==> log_of(pending(entries)).len() < log_of(entries).len(),
        (exists|i: int| 0 <= i < entries.len() && is_pending(#[trigger] entries[i])) ==> log_of(
            pending(entries),
        ).len() >= 13,
    decreases entries.len(),
{
    reveal(Seq::filter);
    if entries.len() > 0 {
        let front = entries.drop_last();
        let last = entries.last();
        lemma_pending_log_len(front);
        assert(entries =~= front.push(last));
        lemma_log_of_push(front, last);
        if is_pending(last) {
            lemma_log_of_push(pending(front), last);
        }
        if exists|i: int| 0 <= i < entries.len() && is_processed((#[trigger] entries[i]).state) {
            let i = choose|i: int|
                0 <= i < entries.len() && is_processed((#[trigger] entries[i]).state);
            if i < front.len() {
                assert(front[i] == entries[i]);
            }
        }
    }
}

/// Compaction never makes the log longer. It makes the log shorter where
/// an entry was consumed, and leaves it non-empty where an entry is
/// pending.
pub proof fn law_purge_shrinks(entries: Seq<Entry>)
    requires
        well_formed(entries),
    ensures
        compacted(log_of(entries), 0).len() <= log_of(entries).len(),
        (exists|i: int| 0 <= i < entries.len() && is_processed((#[trigger] entries[i]).state))
            ==> compacted(log_of(entries), 0).len() < log_of(entries).len(),
        (exists|i: int| 0 <= i < entries.len() && is_pending(#[trigger] entries[i]))
            ==> compacted(log_of(entries), 0).len() > 0,
{
    law_purge_keeps_pending(entries);
    lemma_pending_log_len(entries);
}

/// A log that holds no byte has nothing to take, from whatever offset the
/// scan starts.
pub proof fn law_empty_log_has_nothing(offset: int)
    ensures
        first_unprocessed(Seq::<u8>::empty(), offset) == Located::Empty,
{
}

} // verus!
