//! Garbage collection of the value log.
//!
//! A cycle reads a chunk of records from the tail of the log, appends the
//! records that are still live to the end of the log, moves the tail past
//! the chunk and punches the chunk out of the file.  The new offsets of the
//! moved records are not applied to the tables at once: they are published,
//! and the next write of the engine takes them over together with the new
//! cursors.  Until then the engine observes the cursors it knew.
use crate::codec::{lemma_le_bytes_of_value, lemma_pow256_widths};
use crate::entry::bytes_to_vec;
use crate::err::StorageEngineError;
use crate::v_log::{chunk_from, chunk_records, chunk_taken, parse_record, punched, record_views, LogParsed, LogRecord, ValueLog, ValueLogEntry};
use vstd::prelude::*;

verus! {

/// A record that a cycle has moved: its key and where its value lies now.
#[derive(Debug)]
pub struct GcUpdatedEntry {
    pub key: Vec<u8>,
    pub val_offset: usize,
    pub created_at: i64,
}

/// The mathematical value of a [`GcUpdatedEntry`].
pub struct MovedRecord {
    pub key: Seq<u8>,
    pub val_offset: int,
    pub created_at: i64,
}

impl View for GcUpdatedEntry {
    type V = MovedRecord;

    open spec fn view(&self) -> MovedRecord {
        MovedRecord { key: self.key@, val_offset: self.val_offset as int, created_at: self.created_at }
    }
}

/// The values of the moved records, in order.
pub open spec fn moved_views(s: Seq<GcUpdatedEntry>) -> Seq<MovedRecord> {
    s.map_values(|e: GcUpdatedEntry| e@)
}

/// The offset of the record numbered `k` of a chunk that starts at `start`.
pub open spec fn record_offset(records: Seq<LogRecord>, start: int, k: int) -> int
    decreases k,
{
    if k <= 0 {
        start
    } else {
        record_offset(records, start, k - 1) + records[k - 1].size()
    }
}

/// A record is live when it is no tombstone and the tables point at it:
/// `lookup` is the value offset that a lookup of its key gives.
pub open spec fn is_live(r: LogRecord, offset: int, lookup: Option<u32>) -> bool {
    !r.is_tombstone && offset <= u32::MAX && lookup == Some(offset as u32)
}

/// The bytes that a cycle appends for the first `k` records of a chunk: the
/// encodings of the live ones, in order.
pub open spec fn moved_bytes(records: Seq<LogRecord>, lookups: Seq<Option<u32>>, start: int, k: int) -> Seq<u8>
    decreases k,
{
    if k <= 0 {
        Seq::empty()
    } else {
        let before = moved_bytes(records, lookups, start, k - 1);
        if is_live(records[k - 1], record_offset(records, start, k - 1), lookups[k - 1]) {
            before + records[k - 1].bytes()
        } else {
            before
        }
    }
}

/// The live ones among the first `k` records of a chunk, each with the
/// offset at which it lies once it is appended to a log of `base` bytes.
pub open spec fn moved(records: Seq<LogRecord>, lookups: Seq<Option<u32>>, start: int, base: int, k: int) -> Seq<MovedRecord>
    decreases k,
{
    if k <= 0 {
        Seq::empty()
    } else {
        let before = moved(records, lookups, start, base, k - 1);
        if is_live(records[k - 1], record_offset(records, start, k - 1), lookups[k - 1]) {
            before.push(
                MovedRecord {
                    key: records[k - 1].key,
                    val_offset: base + moved_bytes(records, lookups, start, k - 1).len(),
                    created_at: records[k - 1].created_at,
                },
            )
        } else {
            before
        }
    }
}

/// What holds of every chunk: its records can be written again, they take
/// as many bytes as the chunk says, and the chunk ends within the log.
pub proof fn lemma_chunk(data: Seq<u8>, pos: int, budget: int)
    requires
        0 <= pos,
        chunk_from(data, pos, budget) is Some,
    ensures
        forall|i: int| 0 <= i < chunk_records(data, pos, budget).len() ==> (#[trigger] chunk_records(data, pos, budget)[i]).writable(),
        chunk_taken(data, pos, budget) == record_offset(chunk_records(data, pos, budget), 0, chunk_records(data, pos, budget).len() as int),
        0 <= chunk_taken(data, pos, budget),
        chunk_records(data, pos, budget).len() > 0 ==> pos + chunk_taken(data, pos, budget) <= data.len(),
        chunk_records(data, pos, budget).len() == 0 ==> chunk_taken(data, pos, budget) == 0,
    decreases data.len() - pos,
{
    let records = chunk_records(data, pos, budget);
    if budget > 0 {
        match parse_record(data, pos) {
            LogParsed::Record(r, next) => {
                let rest = chunk_records(data, next, budget - (next - pos));
                assert(records =~= seq![r] + rest);
                assert(records[0] == r);
                lemma_chunk(data, next, budget - (next - pos));
                lemma_le_bytes_of_value(data.subrange(pos, pos + 4));
                lemma_le_bytes_of_value(data.subrange(pos + 4, pos + 8));
                lemma_pow256_widths();
                assert(r.writable());
                assert forall|i: int| 0 <= i < records.len() implies (#[trigger] records[i]).writable() by {
                    if i > 0 {
                        assert(records[i] == rest[i - 1]);
                    }
                }
                lemma_record_offset_shift(r, rest, rest.len() as int);
                assert((seq![r] + rest).len() == rest.len() + 1);
            },
            _ => {},
        }
    }
}

/// A chunk exceeds its budget by less than the size of a record: where
/// every record of the chunk takes at most `bound` bytes, the chunk takes
/// at most the budget and `bound` bytes together.
pub proof fn lemma_chunk_budget(data: Seq<u8>, pos: int, budget: int, bound: int)
    requires
        0 <= pos,
        0 <= bound,
        chunk_from(data, pos, budget) is Some,
        forall|i: int| 0 <= i < chunk_records(data, pos, budget).len() ==> (#[trigger] chunk_records(data, pos, budget)[i]).size() <= bound,
    ensures
        budget >= 0 ==> chunk_taken(data, pos, budget) <= budget + bound,
        budget < 0 ==> chunk_taken(data, pos, budget) == 0,
    decreases data.len() - pos,
{
    let records = chunk_records(data, pos, budget);
    if budget > 0 {
        match parse_record(data, pos) {
            LogParsed::Record(r, next) => {
                let rest = chunk_records(data, next, budget - (next - pos));
                assert(records =~= seq![r] + rest);
                assert(records[0] == r);
                assert forall|i: int| 0 <= i < rest.len() implies (#[trigger] rest[i]).size() <= bound by {
                    assert(records[i + 1] == rest[i]);
                }
                lemma_chunk_budget(data, next, budget - (next - pos), bound);
            },
            _ => {},
        }
    }
}

/// Offsets within a chunk that begins with one more record are larger by
/// that record's size.
pub proof fn lemma_record_offset_shift(first: LogRecord, rest: Seq<LogRecord>, k: int)
    requires
        0 <= k <= rest.len(),
    ensures
        record_offset(seq![first] + rest, 0, k + 1) == first.size() + record_offset(rest, 0, k),
    decreases k,
{
    let all = seq![first] + rest;
    if k > 0 {
        lemma_record_offset_shift(first, rest, k - 1);
        assert(all[k] == rest[k - 1]);
    } else {
        assert(all[0] == first);
        assert(record_offset(all, 0, 0) == 0);
    }
}

/// Offsets within a chunk grow with the start of the chunk.
pub proof fn lemma_record_offset_start(records: Seq<LogRecord>, start: int, k: int)
    requires
        0 <= k,
    ensures
        record_offset(records, start, k) == start + record_offset(records, 0, k),
        record_offset(records, 0, k) >= 0,
    decreases k,
{
    if k > 0 {
        lemma_record_offset_start(records, start, k - 1);
    }
}

/// Offsets within a chunk are monotone.
pub proof fn lemma_record_offset_monotone(records: Seq<LogRecord>, start: int, a: int, b: int)
    requires
        0 <= a <= b,
    ensures
        record_offset(records, start, a) <= record_offset(records, start, b),
    decreases b,
{
    if a < b {
        lemma_record_offset_monotone(records, start, a, b - 1);
    }
}

/// What is appended for the live records is no longer than the records
/// looked at.
pub proof fn lemma_moved_bytes_len(records: Seq<LogRecord>, lookups: Seq<Option<u32>>, start: int, k: int)
    requires
        0 <= k,
    ensures
        moved_bytes(records, lookups, start, k).len() <= record_offset(records, 0, k),
    decreases k,
{
    if k > 0 {
        lemma_moved_bytes_len(records, lookups, start, k - 1);
        crate::v_log::lemma_record_bytes_len(records[k - 1]);
    }
}

/// What a cycle did, for the caller to repeat on the file.
#[derive(Clone, Copy, Debug, PartialEq, Eq, Structural)]
pub struct GcReport {
    /// Where the punched stretch starts: the tail before the cycle.
    pub punch_start: usize,
    /// How many bytes were punched: the bytes of the chunk.
    pub punch_length: usize,
    /// How many records were moved to the end of the log.
    pub moved: usize,
}

/// The garbage collector: the value log with the collector's cursors, the
/// cursors that the engine observes, and what the last cycles have moved
/// and not yet handed over.
#[derive(Debug)]
pub struct GC {
    /// The log; its cursors advance with every cycle.
    pub gc_log: ValueLog,
    /// The head that the engine observes.
    pub vlog_head_offset: usize,
    /// The tail that the engine observes.
    pub vlog_tail_offset: usize,
    /// The records moved since the engine last took them over.
    pub gc_updated_entries: Vec<GcUpdatedEntry>,
    /// The end of the stretch punched last.
    pub punch_marker: usize,
}

impl GC {
    /// The log's size counter is right, its cursors are in order, and the
    /// log stays within what four bytes address.
    pub open spec fn wf(&self) -> bool {
        self.gc_log.wf() && self.gc_log.cursors_in_order()
    }

    /// A collector for `gc_log`; the engine observes the log's cursors as
    /// they are.
    pub fn new(gc_log: ValueLog) -> (gc: Self)
        requires
            gc_log.wf(),
            gc_log.cursors_in_order(),
        ensures
            gc.wf(),
            gc.gc_log == gc_log,
            gc.vlog_head_offset == gc_log.head_offset,
            gc.vlog_tail_offset == gc_log.tail_offset,
            gc.gc_updated_entries@.len() == 0,
            gc.punch_marker == gc_log.tail_offset,
    {
        let head: usize = gc_log.head_offset;
        let tail: usize = gc_log.tail_offset;
        Self { gc_log, vlog_head_offset: head, vlog_tail_offset: tail, gc_updated_entries: Vec::new(), punch_marker: tail }
    }

    /// The offsets of the records of a chunk that starts at `start`.
    pub fn chunk_offsets(entries: &Vec<ValueLogEntry>, start: usize) -> (offsets: Vec<usize>)
        requires
            record_offset(record_views(entries@), start as int, entries@.len() as int) <= usize::MAX,
        ensures
            offsets@.len() == entries@.len(),
            forall|i: int| 0 <= i < offsets@.len() ==> #[trigger] offsets@[i] == record_offset(record_views(entries@), start as int, i),
    {
        let mut offsets: Vec<usize> = Vec::new();
        let mut offset: usize = start;
        let mut i: usize = 0;
        let ghost views = record_views(entries@);
        while i < entries.len()
            invariant
                i <= entries@.len(),
                views == record_views(entries@),
                offsets@.len() == i,
                offset == record_offset(views, start as int, i as int),
                record_offset(views, start as int, entries@.len() as int) <= usize::MAX,
                forall|j: int| 0 <= j < i ==> #[trigger] offsets@[j] == record_offset(views, start as int, j),
            decreases entries@.len() - i,
        {
            proof {
                lemma_record_offset_monotone(views, start as int, i + 1, entries@.len() as int);
                assert(views[i as int] == entries@[i as int]@);
            }
            offsets.push(offset);
            offset = offset + 17 + entries[i].key.len() + entries[i].value.len();
            i += 1;
        }
        offsets
    }

    /// One cycle over the chunk of `bytes_to_collect` bytes at the tail.
    /// `lookups` holds, for each record of the chunk in order, the value
    /// offset that a lookup of the record's key gives at present.
    ///
    /// The live records are appended to the log in order, as records that
    /// are no tombstones, and are added to the moved records with their new
    /// offsets; the tail moves past the chunk, the head to the end of the
    /// log; the chunk is punched out, and the punch marker set to its end.
    /// The cursors that the engine observes stay as they are.
    ///
    /// A log that ends inside a record of the chunk is refused with
    /// `UnexpectedEOF`, another number of lookups than the chunk has records
    /// with `GcLookupMismatchError`, and a log that may outgrow what four
    /// bytes address with `TableSizeOverflowError`.  A refusal changes
    /// nothing.
    pub fn gc_once(&mut self, bytes_to_collect: usize, lookups: &Vec<Option<u32>>) -> (r: Result<GcReport, StorageEngineError>)
        requires
            old(self).wf(),
        ensures
            final(self).wf(),
            final(self).vlog_head_offset == old(self).vlog_head_offset,
            final(self).vlog_tail_offset == old(self).vlog_tail_offset,
            r is Err ==> *final(self) == *old(self),
            match chunk_from(old(self).gc_log.log(), old(self).gc_log.tail_offset as int, bytes_to_collect as int) {
                None => r matches Err(StorageEngineError::UnexpectedEOF),
                Some(chunk) => if lookups@.len() != chunk.0.len() {
                    r matches Err(StorageEngineError::GcLookupMismatchError)
                } else if old(self).gc_log.size + chunk.1 > u32::MAX {
                    r matches Err(StorageEngineError::TableSizeOverflowError)
                } else {
                    &&& r matches Ok(report)
                    &&& report.punch_start == old(self).gc_log.tail_offset
                    &&& report.punch_length == chunk.1
                    &&& final(self).gc_log.tail_offset == old(self).gc_log.tail_offset + chunk.1
                    &&& final(self).gc_log.head_offset == final(self).gc_log.size
                    &&& final(self).punch_marker == final(self).gc_log.tail_offset
                    &&& final(self).gc_log.log() == punched(
                        old(self).gc_log.log() + moved_bytes(chunk.0, lookups@, old(self).gc_log.tail_offset as int, chunk.0.len() as int),
                        old(self).gc_log.tail_offset as int,
                        chunk.1,
                    )
                    &&& moved_views(final(self).gc_updated_entries@) == moved_views(old(self).gc_updated_entries@) + moved(
                        chunk.0,
                        lookups@,
                        old(self).gc_log.tail_offset as int,
                        old(self).gc_log.size as int,
                        chunk.0.len() as int,
                    )
                    &&& report.moved == final(self).gc_updated_entries@.len() - old(self).gc_updated_entries@.len()
                },
            },
    {
        let ghost log_before = self.gc_log.log();
        let ghost updates_before = moved_views(self.gc_updated_entries@);
        let tail: usize = self.gc_log.tail_offset;
        let base: usize = self.gc_log.size;
        let (entries, consumed) = match self.gc_log.read_chunk_to_garbage_collect(bytes_to_collect) {
            Ok(chunk) => chunk,
            Err(_) => {
                return Err(StorageEngineError::UnexpectedEOF);
            },
        };
        if lookups.len() != entries.len() {
            return Err(StorageEngineError::GcLookupMismatchError);
        }
        let ghost records = record_views(entries@);
        let n: usize = entries.len();
        proof {
            lemma_chunk(log_before, tail as int, bytes_to_collect as int);
            lemma_record_offset_start(records, tail as int, n as int);
        }
        if base > u32::MAX as usize || consumed > u32::MAX as usize - base {
            return Err(StorageEngineError::TableSizeOverflowError);
        }
        let mut offset: usize = tail;
        let mut moved_count: usize = 0;
        let mut i: usize = 0;
        proof {
            assert(self.gc_log.log() =~= log_before + moved_bytes(records, lookups@, tail as int, 0));
            assert(moved_views(self.gc_updated_entries@) =~= updates_before + moved(records, lookups@, tail as int, base as int, 0));
        }
        while i < n
            invariant
                i <= n,
                n == entries@.len(),
                n == lookups@.len(),
                records == record_views(entries@),
                forall|j: int| 0 <= j < records.len() ==> (#[trigger] records[j]).writable(),
                self.gc_log.wf(),
                self.gc_log.tail_offset == tail,
                self.gc_log.head_offset == old(self).gc_log.head_offset,
                self.gc_log.content.path == old(self).gc_log.content.path,
                self.vlog_head_offset == old(self).vlog_head_offset,
                self.vlog_tail_offset == old(self).vlog_tail_offset,
                self.punch_marker == old(self).punch_marker,
                base == log_before.len(),
                base + consumed <= u32::MAX,
                consumed == record_offset(records, 0, n as int),
                offset == record_offset(records, tail as int, i as int),
                offset == tail + record_offset(records, 0, i as int),
                tail <= base,
                n > 0 ==> tail + consumed <= base,
                self.gc_log.log() == log_before + moved_bytes(records, lookups@, tail as int, i as int),
                moved_views(self.gc_updated_entries@) == updates_before + moved(records, lookups@, tail as int, base as int, i as int),
                moved_count == self.gc_updated_entries@.len() - old(self).gc_updated_entries@.len(),
                moved_count <= i,
            decreases n - i,
        {
            let e = &entries[i];
            proof {
                assert(records[i as int] == e@);
                assert(records[i as int].writable());
                lemma_record_offset_monotone(records, 0, i + 1, n as int);
                lemma_record_offset_start(records, tail as int, i as int);
                lemma_moved_bytes_len(records, lookups@, tail as int, i as int);
            }
            let live: bool = !e.is_tombstone && match lookups[i] {
                Some(found) => found as usize == offset,
                None => false,
            };
            if live {
                let ghost log_now = self.gc_log.log();
                let ghost updates_now = moved_views(self.gc_updated_entries@);
                let appended = self.gc_log.append(e.key.as_slice(), e.value.as_slice(), e.created_at, false);
                let new_offset: usize = match appended {
                    Ok(o) => o,
                    Err(_) => {
                        proof {
                            assert(false);
                        }
                        base
                    },
                };
                self.gc_updated_entries.push(GcUpdatedEntry { key: bytes_to_vec(e.key.as_slice()), val_offset: new_offset, created_at: e.created_at });
                moved_count = moved_count + 1;
                proof {
                    let r = records[i as int];
                    assert((LogRecord { key: e.key@, value: e.value@, created_at: e.created_at, is_tombstone: false }) == r);
                    assert(self.gc_log.log() =~= log_before + (moved_bytes(records, lookups@, tail as int, i as int) + r.bytes()));
                    assert(new_offset == base + moved_bytes(records, lookups@, tail as int, i as int).len());
                    assert(moved_views(self.gc_updated_entries@) =~= updates_now.push(MovedRecord { key: r.key, val_offset: new_offset as int, created_at: r.created_at }));
                    assert(updates_before + moved(records, lookups@, tail as int, base as int, i as int).push(MovedRecord { key: r.key, val_offset: new_offset as int, created_at: r.created_at })
                        =~= (updates_before + moved(records, lookups@, tail as int, base as int, i as int)).push(MovedRecord { key: r.key, val_offset: new_offset as int, created_at: r.created_at }));
                }
            }
            offset = offset + 17 + e.key.len() + e.value.len();
            i += 1;
        }
        let new_tail: usize = tail + consumed;
        self.gc_log.content.file.punch_holes(tail, consumed);
        self.gc_log.set_tail(new_tail);
        let size: usize = self.gc_log.size;
        self.gc_log.set_head(size);
        self.punch_marker = new_tail;
        Ok(GcReport { punch_start: tail, punch_length: consumed, moved: moved_count })
    }

    /// Hands the moved records over to the engine and lets the engine
    /// observe the log's cursors as they are now; to be called before a
    /// write is applied.
    pub fn sync(&mut self) -> (updates: Vec<GcUpdatedEntry>)
        ensures
            updates == old(self).gc_updated_entries,
            final(self).gc_updated_entries@.len() == 0,
            final(self).vlog_head_offset == old(self).gc_log.head_offset,
            final(self).vlog_tail_offset == old(self).gc_log.tail_offset,
            final(self).gc_log == old(self).gc_log,
            final(self).punch_marker == old(self).punch_marker,
    {
        let mut updates: Vec<GcUpdatedEntry> = Vec::new();
        std::mem::swap(&mut updates, &mut self.gc_updated_entries);
        self.vlog_head_offset = self.gc_log.head_offset;
        self.vlog_tail_offset = self.gc_log.tail_offset;
        updates
    }
}

/// A cycle moves the tail by less than its budget and the size of a record
/// together: where every record of the chunk takes at most `bound` bytes,
/// the chunk takes at most `bytes_to_collect + bound` bytes, and so the
/// tail that the engine observes after its next write lies at most that
/// far beyond the tail before the cycle.
pub proof fn lemma_tail_advance_is_bounded(log: Seq<u8>, tail: int, bytes_to_collect: int, bound: int)
    requires
        0 <= tail,
        0 <= bytes_to_collect,
        0 <= bound,
        chunk_from(log, tail, bytes_to_collect) is Some,
        forall|i: int| 0 <= i < chunk_records(log, tail, bytes_to_collect).len() ==> (#[trigger] chunk_records(log, tail, bytes_to_collect)[i]).size() <= bound,
    ensures
        0 <= chunk_taken(log, tail, bytes_to_collect) <= bytes_to_collect + bound,
{
    lemma_chunk(log, tail, bytes_to_collect);
    lemma_chunk_budget(log, tail, bytes_to_collect, bound);
}

impl GC {
    /// Whether the collector is well formed.
    pub fn is_valid(&self) -> (ok: bool)
        ensures
            ok == self.wf(),
    {
        self.gc_log.is_valid() && self.gc_log.has_cursors_in_order()
    }
}

} // verus!
