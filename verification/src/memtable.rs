//! A sealed in-memory table: the records that a flush turns into a sorted
//! table, with the membership filter built over their keys.
use crate::entry::{entry_views, Entry, EntryView};
use crate::err::StorageEngineError;
use crate::filter::BloomFilter;
use crate::keys::key_le;
use crate::skip_index::{skipmap_back, skipmap_contents, skipmap_front, skipmap_get, skipmap_insert, skipmap_new, IndexValue};
use crate::sst::{index_size, share_index, size_of_index, ProvideSizeInBytes};
use crate::table_format::entries_map;
use crossbeam_skiplist::SkipMap;
use std::sync::Arc;
use vstd::prelude::*;

verus! {

/// A sealed in-memory table.
#[derive(Debug)]
pub struct InMemoryTable {
    pub entries: Arc<SkipMap<Vec<u8>, IndexValue>>,
    pub bloom_filter: BloomFilter,
    pub size: usize,
}

impl ProvideSizeInBytes for InMemoryTable {
    open spec fn index_view(&self) -> Map<Seq<u8>, (u32, u64, bool)> {
        skipmap_contents(*self.entries)
    }

    open spec fn size_view(&self) -> usize {
        self.size
    }

    fn get_index(&self) -> (index: Arc<SkipMap<Vec<u8>, IndexValue>>) {
        share_index(&self.entries)
    }

    fn size(&self) -> (n: usize) {
        self.size
    }
}

impl InMemoryTable {
    /// The records, as a map from key to value pointer.
    pub open spec fn index(&self) -> Map<Seq<u8>, (u32, u64, bool)> {
        skipmap_contents(*self.entries)
    }

    /// The table of the given records, inserted in order, so that of
    /// records with the same key the last one counts; its size is that of
    /// its records as a sorted table would hold them.
    pub fn from_records(records: &Vec<Entry>, bloom_filter: BloomFilter) -> (t: Self)
        ensures
            t.index() == entries_map(entry_views(records@)),
            t.size == index_size(t.index()),
            t.bloom_filter@ == bloom_filter@,
    {
        let mut entries: SkipMap<Vec<u8>, IndexValue> = skipmap_new();
        let mut i: usize = 0;
        let ghost views = entry_views(records@);
        proof {
            assert(views.take(0) =~= Seq::<EntryView>::empty());
        }
        while i < records.len()
            invariant
                i <= records@.len(),
                views == entry_views(records@),
                skipmap_contents(entries) == entries_map(views.take(i as int)),
            decreases records@.len() - i,
        {
            let e = records[i].duplicate();
            proof {
                assert(views.take(i + 1).drop_last() =~= views.take(i as int));
                assert(views.take(i + 1).last() == e@);
            }
            let Entry { key, val_offset, created_at, is_tombstone } = e;
            skipmap_insert(&mut entries, key, (val_offset, created_at, is_tombstone));
            i += 1;
        }
        proof {
            assert(views.take(records@.len() as int) =~= views);
        }
        let size: usize = size_of_index(&entries);
        Self { entries: Arc::new(entries), bloom_filter, size }
    }

    /// Whether the table holds no record.
    pub fn is_empty(&self) -> (b: bool)
        ensures
            b <==> self.index().dom() =~= Set::empty(),
    {
        skipmap_front(&self.entries).is_none()
    }

    /// The largest key, or `BiggestKeyIndexError` for a table without records.
    pub fn find_biggest_key(&self) -> (r: Result<Vec<u8>, StorageEngineError>)
        ensures
            r is Err <==> self.index().dom() =~= Set::empty(),
            r matches Err(e) ==> e == StorageEngineError::BiggestKeyIndexError,
            r matches Ok(k) ==> self.index().dom().contains(k@) && forall|o: Seq<u8>| self.index().dom().contains(o) ==> key_le(o, k@),
    {
        match skipmap_back(&self.entries) {
            Some(k) => Ok(k),
            None => Err(StorageEngineError::BiggestKeyIndexError),
        }
    }

    /// The smallest key, or `LowestKeyIndexError` for a table without records.
    pub fn find_smallest_key(&self) -> (r: Result<Vec<u8>, StorageEngineError>)
        ensures
            r is Err <==> self.index().dom() =~= Set::empty(),
            r matches Err(e) ==> e == StorageEngineError::LowestKeyIndexError,
            r matches Ok(k) ==> self.index().dom().contains(k@) && forall|o: Seq<u8>| self.index().dom().contains(o) ==> key_le(k@, o),
    {
        match skipmap_front(&self.entries) {
            Some(k) => Ok(k),
            None => Err(StorageEngineError::LowestKeyIndexError),
        }
    }

    /// The value that the table holds for `key`.
    pub fn get(&self, key: &[u8]) -> (r: Option<(u32, u64, bool)>)
        ensures
            r == (if self.index().dom().contains(key@) {
                Some(self.index()[key@])
            } else {
                None
            }),
    {
        skipmap_get(&self.entries, key)
    }
}

} // verus!
