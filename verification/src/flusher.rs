//! The flush: a sealed in-memory table becomes a sorted table in a bucket,
//! its key range and its membership filter are registered, and listeners
//! are told.
use crate::bucket_coordinator::{fresh_bucket_id, BucketMap, BucketMapView, Placement};
use crate::clock::creation_stamp;
use crate::err::StorageEngineError;
use crate::filter::{filter_views, sort_by_hotness, sorted_by_hotness, BloomFilter, BloomFilterView};
use crate::key_range::{KeyRange, KeyRangeView, RangeView};
use crate::keys::{key_le, lemma_key_lt_total};
use crate::memtable::InMemoryTable;
use crate::skip_index::ordered_entries;

use crate::table_format::{buildable, fits_blocks, sparse_index_of, table_data};
use async_broadcast::{Sender, TrySendError};
use indexmap::IndexMap;
use vstd::prelude::*;

verus! {

/// What is broadcast when a flush is done.
pub type FlushSignal = u8;

/// The signal of a finished flush.
pub const FLUSH_SIGNAL: u8 = 1;

#[verifier::external_type_specification]
#[verifier::external_body]
#[verifier::reject_recursive_types(K)]
#[verifier::reject_recursive_types(V)]
#[verifier::reject_recursive_types(S)]
pub struct ExIndexMap<K, V, S>(IndexMap<K, V, S>);

#[verifier::external_type_specification]
#[verifier::external_body]
#[verifier::reject_recursive_types(T)]
pub struct ExSender<T>(Sender<T>);

/// The ids of the tables in a registry, in the order they were entered.
pub uninterp spec fn registry_ids(registry: IndexMap<Vec<u8>, InMemoryTable>) -> Seq<Seq<u8>>;

/// `IndexMap::new`: a fresh map holds nothing.
#[verifier::external_body]
pub(crate) fn registry_new() -> (registry: IndexMap<Vec<u8>, InMemoryTable>)
    ensures
        registry_ids(registry) == Seq::<Seq<u8>>::empty(),
{
    IndexMap::new()
}

/// `IndexMap::insert`: a key that the map holds keeps its place; a new key
/// is put last.
#[verifier::external_body]
pub(crate) fn registry_insert(registry: &mut IndexMap<Vec<u8>, InMemoryTable>, id: Vec<u8>, table: InMemoryTable)
    ensures
        registry_ids(*final(registry)) == (if registry_ids(*old(registry)).contains(id@) {
            registry_ids(*old(registry))
        } else {
            registry_ids(*old(registry)).push(id@)
        }),
{
    registry.insert(id, table);
}

/// `IndexMap::shift_remove`: the key leaves the map and the keys after it
/// move up, keeping their order; the value is returned where the map held
/// the key.
#[verifier::external_body]
pub(crate) fn registry_shift_remove(registry: &mut IndexMap<Vec<u8>, InMemoryTable>, id: &Vec<u8>) -> (removed: Option<InMemoryTable>)
    ensures
        removed is Some <==> registry_ids(*old(registry)).contains(id@),
        registry_ids(*final(registry)) == registry_ids(*old(registry)).filter(|k: Seq<u8>| k != id@),
{
    registry.shift_remove(id)
}

/// How an attempt to broadcast ended.
#[derive(Clone, Copy, Debug, PartialEq, Eq, Structural)]
pub enum BroadcastOutcome {
    /// The message was queued.
    Sent,
    /// The channel was full.
    Full,
    /// The channel was closed.
    Closed,
    /// The channel had no active receiver.
    Inactive,
}

/// `Sender::try_broadcast`: queues the signal unless the channel is full,
/// closed or without an active receiver.  Nothing is claimed of which of
/// these it is.
#[verifier::external_body]
pub(crate) fn try_broadcast_signal(sender: &Sender<u8>, signal: u8) -> (outcome: BroadcastOutcome) {
    match sender.try_broadcast(signal) {
        Ok(_) => BroadcastOutcome::Sent,
        Err(TrySendError::Full(_)) => BroadcastOutcome::Full,
        Err(TrySendError::Closed(_)) => BroadcastOutcome::Closed,
        Err(TrySendError::Inactive(_)) => BroadcastOutcome::Inactive,
    }
}

/// The error that an attempt to broadcast amounts to, if any: a full
/// channel is an overflow, a closed or inactive one a lost listener.
pub open spec fn signal_error_of(outcome: BroadcastOutcome) -> Option<StorageEngineError> {
    match outcome {
        BroadcastOutcome::Sent => None,
        BroadcastOutcome::Full => Some(StorageEngineError::FlushSignalOverflowError),
        BroadcastOutcome::Closed => Some(StorageEngineError::FlushSignalClosedError),
        BroadcastOutcome::Inactive => Some(StorageEngineError::FlushSignalClosedError),
    }
}

/// The error that an attempt to broadcast amounts to, if any.
pub fn signal_error(outcome: BroadcastOutcome) -> (e: Option<StorageEngineError>)
    ensures
        e == signal_error_of(outcome),
{
    match outcome {
        BroadcastOutcome::Sent => None,
        BroadcastOutcome::Full => Some(StorageEngineError::FlushSignalOverflowError),
        BroadcastOutcome::Closed => Some(StorageEngineError::FlushSignalClosedError),
        BroadcastOutcome::Inactive => Some(StorageEngineError::FlushSignalClosedError),
    }
}

/// The smallest key of an index that holds one.
pub open spec fn smallest_key_of(index: Map<Seq<u8>, (u32, u64, bool)>) -> Seq<u8> {
    choose|k: Seq<u8>| index.dom().contains(k) && forall|o: Seq<u8>| index.dom().contains(o) ==> key_le(k, o)
}

/// The largest key of an index that holds one.
pub open spec fn biggest_key_of(index: Map<Seq<u8>, (u32, u64, bool)>) -> Seq<u8> {
    choose|k: Seq<u8>| index.dom().contains(k) && forall|o: Seq<u8>| index.dom().contains(o) ==> key_le(o, k)
}

/// An index has one smallest and one largest key at most.
pub proof fn lemma_extreme_keys(index: Map<Seq<u8>, (u32, u64, bool)>, smallest: Seq<u8>, biggest: Seq<u8>)
    requires
        index.dom().contains(smallest),
        forall|o: Seq<u8>| index.dom().contains(o) ==> key_le(smallest, o),
        index.dom().contains(biggest),
        forall|o: Seq<u8>| index.dom().contains(o) ==> key_le(o, biggest),
    ensures
        smallest == smallest_key_of(index),
        biggest == biggest_key_of(index),
{
    let s = smallest_key_of(index);
    let b = biggest_key_of(index);
    assert(key_le(smallest, s) && key_le(s, smallest));
    assert(key_le(biggest, b) && key_le(b, biggest));
    lemma_key_lt_total(smallest, s);
    lemma_key_lt_total(biggest, b);
}

/// What a flush hands on to its listeners.
#[derive(Debug)]
pub struct FlushUpdateMsg {
    pub flushed_memtable_id: Vec<u8>,
    pub buckets: BucketMap,
    pub bloom_filters: Vec<BloomFilter>,
    pub key_range: KeyRange,
}

/// How a flush ended.
#[derive(Debug)]
pub enum FlushResponse {
    /// The table was placed; its files are to be written, and the
    /// notification may have been lost.
    Success { table_id: Vec<u8>, placement: Placement, signal_error: Option<StorageEngineError> },
    /// The table was not placed, and nothing has changed.
    Failed { reason: StorageEngineError },
}

/// The state that flushes work on.
pub struct Flusher {
    pub read_only_memtable: IndexMap<Vec<u8>, InMemoryTable>,
    pub bucket_map: BucketMap,
    pub bloom_filters: Vec<BloomFilter>,
    pub key_range: KeyRange,
    pub use_ttl: bool,
    pub entry_ttl: u64,
}

/// The mathematical value of a [`Flusher`].
pub struct FlusherView {
    pub read_only_memtable: Seq<Seq<u8>>,
    pub bucket_map: BucketMapView,
    pub bloom_filters: Seq<BloomFilterView>,
    pub key_range: KeyRangeView,
    pub use_ttl: bool,
    pub entry_ttl: u64,
}

impl View for Flusher {
    type V = FlusherView;

    open spec fn view(&self) -> FlusherView {
        FlusherView {
            read_only_memtable: registry_ids(self.read_only_memtable),
            bucket_map: self.bucket_map@,
            bloom_filters: filter_views(self.bloom_filters@),
            key_range: self.key_range@,
            use_ttl: self.use_ttl,
            entry_ttl: self.entry_ttl,
        }
    }
}

impl FlusherView {
    /// Buckets and key ranges are well formed.
    pub open spec fn wf(self) -> bool {
        self.bucket_map.wf() && self.key_range.wf()
    }

    /// The state after the table with the records `index`, the size `size`
    /// and the filter `filter` has been flushed at `created_at`, with
    /// `fresh_id` at hand for a new bucket; nothing where the table is
    /// refused: an empty table, one that cannot be written, one that cannot
    /// be placed.
    ///
    /// The table is placed with hotness 1; its key range is set under the
    /// path of its data file; its filter is bound to it and entered into
    /// the list of filters, which is then sorted hottest first.
    #[verifier::opaque]
    pub open spec fn flushed(self, index: Map<Seq<u8>, (u32, u64, bool)>, size: usize, filter: BloomFilterView, created_at: u64, fresh_id: u128) -> Option<FlusherView> {
        let records = ordered_entries(index);
        let data_len = table_data(records).len() as usize;
        let path = self.bucket_map.placed_path(size, data_len, 1, created_at, fresh_id);
        if index.dom() =~= Set::empty() || !buildable(records) {
            None
        } else {
            match self.bucket_map.placed(size, data_len, 1, created_at, fresh_id) {
                None => None,
                Some(bucket_map) => Some(
                    FlusherView {
                        bucket_map,
                        key_range: self.key_range.with_range(
                            path.data_file_path,
                            RangeView { smallest_key: smallest_key_of(index), biggest_key: biggest_key_of(index), sstable: path },
                        ),
                        bloom_filters: sorted_by_hotness(self.bloom_filters.push(BloomFilterView { sstable_path: Some(path), ..filter })),
                        ..self
                    },
                ),
            }
        }
    }
}

impl Flusher {
    /// A flusher over the given state.
    pub fn new(read_only_memtable: IndexMap<Vec<u8>, InMemoryTable>, bucket_map: BucketMap, bloom_filters: Vec<BloomFilter>, key_range: KeyRange, use_ttl: bool, entry_ttl: u64) -> (f: Self)
        ensures
            f.read_only_memtable == read_only_memtable,
            f.bucket_map == bucket_map,
            f.bloom_filters == bloom_filters,
            f.key_range == key_range,
            f.use_ttl == use_ttl,
            f.entry_ttl == entry_ttl,
    {
        Self { read_only_memtable, bucket_map, bloom_filters, key_range, use_ttl, entry_ttl }
    }

    /// A flusher without tables, buckets under `dir`.
    pub fn empty(dir: String, use_ttl: bool, entry_ttl: u64) -> (f: Self)
        ensures
            f@.wf(),
            f@.read_only_memtable.len() == 0,
            f@.bucket_map.buckets.len() == 0,
            f@.bucket_map.dir == dir@,
            f@.bloom_filters.len() == 0,
            f@.key_range.paths.len() == 0,
    {
        let f = Self { read_only_memtable: registry_new(), bucket_map: BucketMap::new(dir), bloom_filters: Vec::new(), key_range: KeyRange::new(), use_ttl, entry_ttl };
        proof {
            assert(f@.bloom_filters =~= Seq::<BloomFilterView>::empty());
        }
        f
    }

    /// Enters a sealed table into the registry of tables that wait to be
    /// flushed: under an id that the registry holds, in that id's place;
    /// else last.
    pub fn register(&mut self, table_id: Vec<u8>, table: InMemoryTable)
        ensures
            final(self)@ == (FlusherView {
                read_only_memtable: if old(self)@.read_only_memtable.contains(table_id@) {
                    old(self)@.read_only_memtable
                } else {
                    old(self)@.read_only_memtable.push(table_id@)
                },
                ..old(self)@
            }),
    {
        registry_insert(&mut self.read_only_memtable, table_id, table);
    }

    /// Flushes a sealed table as of `created_at`, with `fresh_id` at hand
    /// for a new bucket: the table is placed with hotness 1, its key range
    /// and its filter are registered, and the filters are sorted hottest
    /// first.  Returns where the table was placed and the images of its
    /// files.
    ///
    /// An empty table is refused with `FailedToInsertToBucket`; a table
    /// that cannot be written or placed, with the error of
    /// [`BucketMap::insert_table_at`].  A refusal changes nothing.
    pub fn flush_at(&mut self, table: &InMemoryTable, created_at: u64, fresh_id: u128) -> (r: Result<Placement, StorageEngineError>)
        requires
            old(self)@.wf(),
        ensures
            final(self)@.wf(),
            final(self)@.read_only_memtable == old(self)@.read_only_memtable,
            match old(self)@.flushed(table.index(), table.size, table.bloom_filter@, created_at, fresh_id) {
                Some(after) => {
                    &&& r matches Ok(p)
                    &&& final(self)@ == after
                    &&& p.image.data@ == table_data(ordered_entries(table.index()))
                    &&& p.image.sparse_index@ == sparse_index_of(ordered_entries(table.index()))
                    &&& p.sstable_path@ == old(self)@.bucket_map.placed_path(table.size, p.image.data@.len() as usize, 1, created_at, fresh_id)
                    &&& p.bucket_created == (old(self)@.bucket_map.first_fit(table.size as int) < 0)
                },
                None => r is Err && final(self)@ == old(self)@,
            },
            table.index().dom() =~= Set::<Seq<u8>>::empty() ==> r matches Err(StorageEngineError::FailedToInsertToBucket(_)),
            !(table.index().dom() =~= Set::<Seq<u8>>::empty()) && !buildable(ordered_entries(table.index())) ==> (r matches Err(e) && e == (if fits_blocks(ordered_entries(table.index())) {
                StorageEngineError::TableSizeOverflowError
            } else {
                StorageEngineError::BlockIsFullError
            })),
            !(table.index().dom() =~= Set::<Seq<u8>>::empty()) && buildable(ordered_entries(table.index())) ==> (r is Err ==> r matches Err(StorageEngineError::FailedToInsertToBucket(_))),
            !(table.index().dom() =~= Set::<Seq<u8>>::empty()) && buildable(ordered_entries(table.index())) && old(self)@.bucket_map.buckets.len() == 0 ==> r is Ok,
    {
        proof {
            reveal(FlusherView::flushed);
        }
        if table.is_empty() {
            return Err(StorageEngineError::FailedToInsertToBucket("Cannot flush an empty table".to_owned()));
        }
        let mut table_bloom_filter = table.bloom_filter.clone();
        let table_biggest_key = match table.find_biggest_key() {
            Ok(k) => k,
            Err(e) => {
                return Err(e);
            },
        };
        let table_smallest_key = match table.find_smallest_key() {
            Ok(k) => k,
            Err(e) => {
                return Err(e);
            },
        };
        proof {
            lemma_extreme_keys(table.index(), table_smallest_key@, table_biggest_key@);
            crate::table_laws::lemma_data_len(ordered_entries(table.index()));
        }
        let hotness: u64 = 1;
        let placement = match self.bucket_map.insert_table_at(table, hotness, created_at, fresh_id) {
            Ok(p) => p,
            Err(e) => {
                return Err(e);
            },
        };
        let data_file_path = placement.sstable_path.get_data_file_path();
        self.key_range.set(data_file_path, table_smallest_key, table_biggest_key, placement.sstable_path.clone());
        table_bloom_filter.set_sstable_path(placement.sstable_path.clone());
        let ghost pushed = filter_views(self.bloom_filters@).push(table_bloom_filter@);
        let mut filters: Vec<BloomFilter> = Vec::new();
        std::mem::swap(&mut filters, &mut self.bloom_filters);
        filters.push(table_bloom_filter);
        proof {
            assert(filter_views(filters@) =~= pushed);
        }
        self.bloom_filters = sort_by_hotness(filters);
        Ok(placement)
    }

    /// Flushes a sealed table as [`Flusher::flush_at`] does with the
    /// present time and a random id.
    pub fn flush(&mut self, table: &InMemoryTable) -> (r: Result<Placement, StorageEngineError>)
        requires
            old(self)@.wf(),
        ensures
            final(self)@.wf(),
            final(self)@.read_only_memtable == old(self)@.read_only_memtable,
            r is Err ==> final(self)@ == old(self)@,
            table.index().dom() =~= Set::<Seq<u8>>::empty() ==> r matches Err(StorageEngineError::FailedToInsertToBucket(_)),
            !buildable(ordered_entries(table.index())) ==> r is Err,
            !(table.index().dom() =~= Set::<Seq<u8>>::empty()) && buildable(ordered_entries(table.index())) && old(self)@.bucket_map.buckets.len() == 0 ==> r is Ok,
            r matches Ok(p) ==> {
                &&& p.image.data@ == table_data(ordered_entries(table.index()))
                &&& p.image.sparse_index@ == sparse_index_of(ordered_entries(table.index()))
                &&& exists|created_at: u64, fresh_id: u128| #[trigger] old(self)@.flushed(table.index(), table.size, table.bloom_filter@, created_at, fresh_id) == Some(final(self)@)
            },
    {
        let created_at: u64 = creation_stamp();
        let fresh_id: u128 = fresh_bucket_id();
        self.flush_at(table, created_at, fresh_id)
    }

    /// Flushes a sealed table and, when that is done, takes it out of the
    /// registry of tables that wait to be flushed and broadcasts the flush
    /// signal.  A notification that cannot be queued is reported with the
    /// success; it does not undo the flush.
    pub fn flush_handler(&mut self, table_id: Vec<u8>, table_to_flush: &InMemoryTable, flush_signal_sender: &Sender<u8>) -> (r: FlushResponse)
        requires
            old(self)@.wf(),
        ensures
            final(self)@.wf(),
            r is Failed ==> final(self)@ == old(self)@,
            table_to_flush.index().dom() =~= Set::<Seq<u8>>::empty() ==> r is Failed,
            !buildable(ordered_entries(table_to_flush.index())) ==> r is Failed,
            !(table_to_flush.index().dom() =~= Set::<Seq<u8>>::empty()) && buildable(ordered_entries(table_to_flush.index())) && old(self)@.bucket_map.buckets.len() == 0 ==> r is Success,
            r matches FlushResponse::Success { table_id: id, placement, signal_error } ==> {
                &&& id == table_id
                &&& placement.image.data@ == table_data(ordered_entries(table_to_flush.index()))
                &&& placement.image.sparse_index@ == sparse_index_of(ordered_entries(table_to_flush.index()))
                &&& exists|created_at: u64, fresh_id: u128| #[trigger] old(self)@.flushed(table_to_flush.index(), table_to_flush.size, table_to_flush.bloom_filter@, created_at, fresh_id) == Some(FlusherView { read_only_memtable: old(self)@.read_only_memtable, ..final(self)@ })
                &&& final(self)@.read_only_memtable == old(self)@.read_only_memtable.filter(|k: Seq<u8>| k != table_id@)
            },
    {
        let ghost before = self@;
        match self.flush(table_to_flush) {
            Ok(placement) => {
                let ghost mid = self@;
                let _ = registry_shift_remove(&mut self.read_only_memtable, &table_id);
                let outcome = try_broadcast_signal(flush_signal_sender, FLUSH_SIGNAL);
                proof {
                    assert(mid == (FlusherView { read_only_memtable: before.read_only_memtable, ..self@ }));
                }
                FlushResponse::Success { table_id, placement, signal_error: signal_error(outcome) }
            },
            Err(reason) => FlushResponse::Failed { reason },
        }
    }
}

impl Flusher {
    /// Whether buckets and key ranges are well formed.
    pub fn is_valid(&self) -> (ok: bool)
        ensures
            ok == self@.wf(),
    {
        self.bucket_map.is_valid() && self.key_range.is_valid()
    }
}

} // verus!
