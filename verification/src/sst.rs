//! Sorted tables: an immutable pair of files, the data file with the records
//! by ascending key and the sparse index with one entry per block.
//!
//! A table is written from its in-memory index in one pass and never changed
//! afterwards.  The functions here compute and read file images; putting the
//! images on disk and fetching them is the caller's part.
use crate::block::{Block, BLOCK_SIZE};
use crate::clock::creation_stamp;
use crate::entry::{entry_views, read_entry, Entry, EntryView};
use crate::err::StorageEngineError;
use crate::keys::{key_order, lemma_key_lt_total, KeyOrder};
use crate::paths::{data_file_name, data_file_name_of, index_file_name, index_file_name_of, join_path, joined};
use crate::skip_index::{lemma_listing_is_ordered, ordered_entries, skipmap_back, skipmap_contents, skipmap_entries, skipmap_front, skipmap_get, skipmap_insert, skipmap_new, IndexValue};
use crate::sparse_index::{RangeOffset, SparseIndex};
use crate::table_format::{block_fill, buildable, entries_map, fits_blocks, index_records, offset_of, parse_all, scan_get, scan_range, select_range, sparse_index_of, starts_block, table_data};
use crate::table_laws::{lemma_data_push, lemma_offset_monotone};
use crossbeam_skiplist::SkipMap;
use std::cmp::Ordering;
use std::sync::Arc;
use vstd::prelude::*;

verus! {

/// `Arc::clone`: another handle to the same index.
#[verifier::external_body]
pub(crate) fn share_index(index: &Arc<SkipMap<Vec<u8>, IndexValue>>) -> (shared: Arc<SkipMap<Vec<u8>, IndexValue>>)
    ensures
        shared == *index,
{
    Arc::clone(index)
}

/// What a bucket needs of a table that is to be placed in it: the records
/// and their size in bytes.
pub trait ProvideSizeInBytes {
    /// The records, as a map from key to value pointer.
    spec fn index_view(&self) -> Map<Seq<u8>, (u32, u64, bool)>;

    /// The size in bytes.
    spec fn size_view(&self) -> usize;

    /// A handle to the records.
    fn get_index(&self) -> (index: Arc<SkipMap<Vec<u8>, IndexValue>>)
        ensures
            skipmap_contents(*index) == self.index_view(),
    ;

    /// The size of the records in bytes.
    fn size(&self) -> (n: usize)
        ensures
            n == self.size_view(),
    ;
}

/// Where a table lies on disk, how often its bucket has been written to
/// since it joined, and how large its data file is.
#[derive(Debug)]
pub struct SSTablePath {
    pub dir: String,
    pub data_file_path: String,
    pub index_file_path: String,
    pub hotness: u64,
    /// The size of the data file in bytes, once it is written.
    pub size: usize,
}

/// The mathematical value of an [`SSTablePath`].
pub struct SSTablePathView {
    pub dir: Seq<char>,
    pub data_file_path: Seq<char>,
    pub index_file_path: Seq<char>,
    pub hotness: u64,
    pub size: usize,
}

impl View for SSTablePath {
    type V = SSTablePathView;

    open spec fn view(&self) -> SSTablePathView {
        SSTablePathView {
            dir: self.dir@,
            data_file_path: self.data_file_path@,
            index_file_path: self.index_file_path@,
            hotness: self.hotness,
            size: self.size,
        }
    }
}

/// A hotness count raised by one; the count stops at the largest number.
pub open spec fn raised(hotness: u64) -> u64 {
    if hotness < u64::MAX {
        (hotness + 1) as u64
    } else {
        u64::MAX
    }
}

impl Clone for SSTablePath {
    fn clone(&self) -> (copy: Self)
        ensures
            copy == *self,
            copy@ == self@,
    {
        SSTablePath {
            dir: self.dir.clone(),
            data_file_path: self.data_file_path.clone(),
            index_file_path: self.index_file_path.clone(),
            hotness: self.hotness,
            size: self.size,
        }
    }
}

impl SSTablePath {
    /// The path of a table that has not been used or written yet.
    pub fn new(dir: String, data_file_path: String, index_file_path: String) -> (p: Self)
        ensures
            p.dir == dir,
            p.data_file_path == data_file_path,
            p.index_file_path == index_file_path,
            p.hotness == 0,
            p.size == 0,
    {
        Self { data_file_path, index_file_path, dir, hotness: 0, size: 0 }
    }

    /// Counts one more use; the count stops at the largest number.
    pub fn increase_hotness(&mut self)
        ensures
            final(self)@ == (SSTablePathView { hotness: raised(old(self).hotness), ..old(self)@ }),
            final(self).dir == old(self).dir,
            final(self).data_file_path == old(self).data_file_path,
            final(self).index_file_path == old(self).index_file_path,
            final(self).size == old(self).size,
    {
        if self.hotness < u64::MAX {
            self.hotness += 1;
        }
    }

    /// The path of the data file.
    pub fn get_data_file_path(&self) -> (p: String)
        ensures
            p == self.data_file_path,
    {
        self.data_file_path.clone()
    }

    /// The path of the data file, by which the table is known.
    pub fn get_path(&self) -> (p: String)
        ensures
            p == self.data_file_path,
    {
        self.data_file_path.clone()
    }

    /// The hotness count.
    pub fn get_hotness(&self) -> (h: u64)
        ensures
            h == self.hotness,
    {
        self.hotness
    }
}

/// The images of a table's two files.
#[derive(Debug)]
pub struct TableImage {
    /// The bytes of the data file.
    pub data: Vec<u8>,
    /// The sparse index; `SparseIndex::write_to_file` gives its bytes.
    pub sparse_index: SparseIndex,
}

/// A sorted table: its place on disk and its records in memory.
#[derive(Debug)]
pub struct SSTable {
    pub data_file_path: String,
    pub index_file_path: String,
    pub sstable_dir: String,
    pub entries: Arc<SkipMap<Vec<u8>, IndexValue>>,
    pub created_at: u64,
    pub size: usize,
}

/// The size in bytes of the records of an index: the sum of their encoded
/// sizes, or the largest number where the sum exceeds it.
pub open spec fn index_size(index: Map<Seq<u8>, (u32, u64, bool)>) -> usize {
    let total = offset_of(ordered_entries(index), ordered_entries(index).len() as int);
    if total > usize::MAX {
        usize::MAX
    } else {
        total as usize
    }
}

/// The size in bytes of the records of an index: the sum of their encoded
/// sizes, or the largest number where the sum exceeds it.
pub fn size_of_index(index: &SkipMap<Vec<u8>, IndexValue>) -> (total: usize)
    ensures
        total == index_size(skipmap_contents(*index)),
{
    let entries: Vec<Entry> = skipmap_entries(index);
    let ghost views = entry_views(entries@);
    proof {
        lemma_listing_is_ordered(views, skipmap_contents(*index));
    }
    let mut total: usize = 0;
    let mut i: usize = 0;
    while i < entries.len()
        invariant
            i <= entries@.len(),
            views == entry_views(entries@),
            total == (if offset_of(views, i as int) > usize::MAX { usize::MAX } else { offset_of(views, i as int) as usize }),
        decreases entries@.len() - i,
    {
        let klen: usize = entries[i].key.len();
        proof {
            assert(views[i as int].size() == klen + 17);
            lemma_offset_monotone(views, 0, i as int);
        }
        let room: usize = usize::MAX - total;
        if room < 17 || klen > room - 17 {
            total = usize::MAX;
        } else {
            total = total + klen + 17;
        }
        i += 1;
    }
    total
}

impl ProvideSizeInBytes for SSTable {
    open spec fn index_view(&self) -> Map<Seq<u8>, (u32, u64, bool)> {
        skipmap_contents(*self.entries)
    }

    open spec fn size_view(&self) -> usize {
        self.size
    }

    fn get_index(&self) -> (index: Arc<SkipMap<Vec<u8>, IndexValue>>) {
        share_index(&self.entries)
    }

    fn size(&self) -> (n: usize) {
        self.size
    }
}

impl SSTable {
    /// The records, as a map from key to value pointer.
    pub open spec fn index(&self) -> Map<Seq<u8>, (u32, u64, bool)> {
        skipmap_contents(*self.entries)
    }

    /// An empty table in directory `dir`, created at `created_at`, with its
    /// files named after that time.
    pub fn with_timestamp(dir: String, created_at: u64) -> (t: SSTable)
        ensures
            t.sstable_dir == dir,
            t.created_at == created_at,
            t.data_file_path@ == joined(dir@, data_file_name_of(created_at)),
            t.index_file_path@ == joined(dir@, index_file_name_of(created_at)),
            t.index() == Map::<Seq<u8>, (u32, u64, bool)>::empty(),
            t.size == 0,
    {
        let data_name = data_file_name(created_at);
        let index_name = index_file_name(created_at);
        let data_file_path = join_path(dir.as_str(), data_name.as_str());
        let index_file_path = join_path(dir.as_str(), index_name.as_str());
        SSTable {
            data_file_path,
            index_file_path,
            sstable_dir: dir,
            entries: Arc::new(skipmap_new()),
            created_at,
            size: 0,
        }
    }

    /// An empty table in directory `dir`, created now.
    pub fn new(dir: String) -> (t: SSTable)
        ensures
            t.sstable_dir == dir,
            t.data_file_path@ == joined(dir@, data_file_name_of(t.created_at)),
            t.index_file_path@ == joined(dir@, index_file_name_of(t.created_at)),
            t.index() == Map::<Seq<u8>, (u32, u64, bool)>::empty(),
            t.size == 0,
    {
        let created_at: u64 = creation_stamp();
        SSTable::with_timestamp(dir, created_at)
    }

    /// A table for files that exist already; its records are not loaded.
    pub fn new_with_exisiting_file_path(dir: String, data_file_path: String, index_file_path: String) -> (t: SSTable)
        ensures
            t.sstable_dir == dir,
            t.data_file_path == data_file_path,
            t.index_file_path == index_file_path,
            t.index() == Map::<Seq<u8>, (u32, u64, bool)>::empty(),
            t.size == 0,
    {
        SSTable {
            data_file_path,
            index_file_path,
            sstable_dir: dir,
            entries: Arc::new(skipmap_new()),
            created_at: creation_stamp(),
            size: 0,
        }
    }

    /// The largest key, or `BiggestKeyIndexError` for a table without records.
    pub fn find_biggest_key(&self) -> (r: Result<Vec<u8>, StorageEngineError>)
        ensures
            r is Err <==> self.index().dom() =~= Set::empty(),
            r matches Err(e) ==> e == StorageEngineError::BiggestKeyIndexError,
            r matches Ok(k) ==> self.index().dom().contains(k@) && forall|o: Seq<u8>| self.index().dom().contains(o) ==> crate::keys::key_le(o, k@),
    {
        match skipmap_back(&self.entries) {
            Some(k) => Ok(k),
            None => Err(StorageEngineError::BiggestKeyIndexError),
        }
    }

    /// The smallest key, or `LowestKeyIndexError` for a table without records.
    pub fn find_smallest_key(&self) -> (r: Result<Vec<u8>, StorageEngineError>)
        ensures
            r is Err <==> self.index().dom() =~= Set::empty(),
            r matches Err(e) ==> e == StorageEngineError::LowestKeyIndexError,
            r matches Ok(k) ==> self.index().dom().contains(k@) && forall|o: Seq<u8>| self.index().dom().contains(o) ==> crate::keys::key_le(k@, o),
    {
        match skipmap_front(&self.entries) {
            Some(k) => Ok(k),
            None => Err(StorageEngineError::LowestKeyIndexError),
        }
    }

    /// Appends a staged block to the image of the data file and enters its
    /// first key into the sparse index under the offset at which the block
    /// starts.  A block that would start beyond what four bytes address is
    /// refused with `TableSizeOverflowError`, and nothing changes.
    pub fn write_block(file: &mut Vec<u8>, block: &Block, sparse_index: &mut SparseIndex) -> (r: Result<(), StorageEngineError>)
        requires
            block.wf(),
            block.data@.len() > 0,
            old(sparse_index).wf(),
        ensures
            final(sparse_index).wf(),
            final(sparse_index).file_path == old(sparse_index).file_path,
            r is Err <==> old(file)@.len() > u32::MAX,
            r matches Err(e) ==> e == StorageEngineError::TableSizeOverflowError && final(file)@ == old(file)@ && final(sparse_index)@ == old(sparse_index)@,
            r is Ok ==> final(file)@ == old(file)@ + block.data@,
            r is Ok ==> final(sparse_index)@ == old(sparse_index)@.push((block.first_key@, old(file)@.len() as u32)),
    {
        let offset: usize = file.len();
        if offset > u32::MAX as usize {
            return Err(StorageEngineError::TableSizeOverflowError);
        }
        let first_key: Vec<u8> = crate::entry::bytes_to_vec(block.first_key.as_slice());
        sparse_index.insert(first_key.len() as u32, first_key, offset as u32);
        block.write_to_file(file);
        Ok(())
    }

    /// The images of the table's files: the records by ascending key, packed
    /// into blocks, and the sparse index over the blocks.  A record too large
    /// for a block is refused with `BlockIsFullError`; otherwise a table whose
    /// data file would exceed what four bytes address is refused with
    /// `TableSizeOverflowError`.
    pub fn write_to_file(&self) -> (r: Result<TableImage, StorageEngineError>)
        ensures
            r is Ok <==> buildable(ordered_entries(self.index())),
            r matches Ok(image) ==> {
                &&& image.data@ == table_data(ordered_entries(self.index()))
                &&& image.sparse_index@ == sparse_index_of(ordered_entries(self.index()))
                &&& image.sparse_index.wf()
                &&& image.sparse_index.file_path == self.index_file_path
            },
            r matches Err(e) ==> e == (if fits_blocks(ordered_entries(self.index())) {
                StorageEngineError::TableSizeOverflowError
            } else {
                StorageEngineError::BlockIsFullError
            }),
    {
        let entries: Vec<Entry> = skipmap_entries(&self.entries);
        let ghost views = entry_views(entries@);
        let n: usize = entries.len();
        proof {
            lemma_listing_is_ordered(views, self.index());
        }
        let mut c: usize = 0;
        while c < n
            invariant
                n == entries@.len(),
                views == entry_views(entries@),
                views == ordered_entries(self.index()),
                c <= n,
                forall|i: int| 0 <= i < c ==> (#[trigger] views[i]).size() <= BLOCK_SIZE,
            decreases n - c,
        {
            if entries[c].key.len() > BLOCK_SIZE - 17 {
                proof {
                    assert(views[c as int].size() > BLOCK_SIZE);
                }
                return Err(StorageEngineError::BlockIsFullError);
            }
            c += 1;
        }
        let mut file: Vec<u8> = Vec::new();
        let mut sparse_index = SparseIndex::new(self.index_file_path.clone());
        let mut current_block = Block::new();
        let ghost mut start: int = 0;
        let mut k: usize = 0;
        proof {
            assert(views.take(0) =~= Seq::<EntryView>::empty());
        }
        while k < n
            invariant
                n == entries@.len(),
                views == entry_views(entries@),
                views == ordered_entries(self.index()),
                fits_blocks(views),
                0 <= start <= k <= n,
                current_block.wf(),
                sparse_index.wf(),
                sparse_index.file_path == self.index_file_path,
                file@.len() == offset_of(views, start),
                file@ + current_block.data@ == table_data(views.take(k as int)),
                current_block.data@.len() == block_fill(views, k as int),
                offset_of(views, start) + block_fill(views, k as int) == offset_of(views, k as int),
                k == 0 ==> sparse_index@ == Seq::<(Seq<u8>, u32)>::empty(),
                k > 0 ==> current_block.data@.len() > 0 && current_block.first_key@ == views[start].key,
                k > 0 ==> index_records(views, k as int) == sparse_index@.push((views[start].key, offset_of(views, start) as u32)),
            decreases n - k,
        {
            let e = &entries[k];
            proof {
                assert(views[k as int] == e@);
                assert(views[k as int].size() <= BLOCK_SIZE);
                lemma_data_push(views, k as int);
                crate::entry::lemma_entry_bytes_len(e@);
            }
            let entry_size: usize = e.key.len() + 17;
            if current_block.is_full(entry_size) {
                match SSTable::write_block(&mut file, &current_block, &mut sparse_index) {
                    Err(_) => {
                        proof {
                            lemma_offset_monotone(views, start, n as int);
                        }
                        return Err(StorageEngineError::TableSizeOverflowError);
                    },
                    Ok(_) => {},
                }
                current_block = Block::new();
                proof {
                    start = k as int;
                    assert(file@ + current_block.data@ =~= file@);
                }
            }
            let ghost before = current_block.data@;
            let ghost records_before = index_records(views, k as int);
            let set = current_block.set_entry(e.key.as_slice(), e.val_offset, e.created_at, e.is_tombstone);
            proof {
                assert(set is Ok);
                assert(file@ + current_block.data@ =~= (file@ + before) + e@.bytes());
                assert(index_records(views, k + 1) == (if starts_block(views, k as int) {
                    records_before.push((views[k as int].key, offset_of(views, k as int) as u32))
                } else {
                    records_before
                }));
                if k == 0 {
                    assert(records_before =~= Seq::<(Seq<u8>, u32)>::empty());
                }
            }
            k += 1;
        }
        if current_block.data.len() > 0 {
            match SSTable::write_block(&mut file, &current_block, &mut sparse_index) {
                Err(_) => {
                    proof {
                        lemma_offset_monotone(views, start, n as int);
                    }
                    return Err(StorageEngineError::TableSizeOverflowError);
                },
                Ok(_) => {},
            }
        }
        proof {
            assert(views.take(n as int) =~= views);
            assert(file@ == table_data(views));
            crate::table_laws::lemma_data_len(views);
        }
        if file.len() > u32::MAX as usize {
            return Err(StorageEngineError::TableSizeOverflowError);
        }
        Ok(TableImage { data: file, sparse_index })
    }

    /// A point read in the image of a data file: reading record after record
    /// from `start_offset`, the value of the first record with the key;
    /// nothing once the end of the file or a larger key is reached;
    /// `UnexpectedEOF` where the file ends inside a record.
    pub fn get(data: &[u8], start_offset: u32, searched_key: &[u8]) -> (r: Result<Option<(u32, u64, bool)>, StorageEngineError>)
        ensures
            r == scan_get(data@, start_offset as int, searched_key@),
    {
        let mut pos: usize = start_offset as usize;
        loop
            invariant
                scan_get(data@, start_offset as int, searched_key@) == scan_get(data@, pos as int, searched_key@),
            decreases data@.len() - pos,
        {
            match read_entry(data, pos) {
                Err(_) => {
                    return Err(StorageEngineError::UnexpectedEOF);
                },
                Ok(None) => {
                    return Ok(None);
                },
                Ok(Some((entry, next))) => {
                    proof {
                        lemma_key_lt_total(searched_key@, entry.key@);
                    }
                    match key_order(searched_key, entry.key.as_slice()) {
                        KeyOrder::Equal => {
                            return Ok(Some((entry.val_offset, entry.created_at, entry.is_tombstone)));
                        },
                        KeyOrder::Less => {
                            return Ok(None);
                        },
                        KeyOrder::Greater => {
                            pos = next;
                        },
                    }
                },
            }
        }
    }

    /// A range read in the image of a data file: the records from
    /// `start_offset` on, up to and including the first that ends at or
    /// beyond `end_offset`, or up to the end of the file; `UnexpectedEOF`
    /// where the file ends inside a record.
    pub fn range(data: &[u8], range_offset: RangeOffset) -> (r: Result<Vec<Entry>, StorageEngineError>)
        ensures
            r is Ok <==> scan_range(data@, range_offset.start_offset as int, range_offset.end_offset as int) is Ok,
            r matches Ok(found) ==> Ok::<Seq<EntryView>, StorageEngineError>(entry_views(found@)) == scan_range(data@, range_offset.start_offset as int, range_offset.end_offset as int),
            r matches Err(e) ==> e == StorageEngineError::UnexpectedEOF,
    {
        let mut entries: Vec<Entry> = Vec::new();
        let mut pos: usize = range_offset.start_offset as usize;
        let end: usize = range_offset.end_offset as usize;
        let ghost whole = scan_range(data@, range_offset.start_offset as int, range_offset.end_offset as int);
        proof {
            assert(entry_views(entries@) =~= Seq::<EntryView>::empty());
            match scan_range(data@, pos as int, end as int) {
                Ok(rest) => {
                    assert(entry_views(entries@) + rest =~= rest);
                },
                Err(_) => {},
            }
        }
        loop
            invariant
                end == range_offset.end_offset,
                whole == scan_range(data@, range_offset.start_offset as int, range_offset.end_offset as int),
                whole == (match scan_range(data@, pos as int, end as int) {
                    Ok(rest) => Ok::<Seq<EntryView>, StorageEngineError>(entry_views(entries@) + rest),
                    Err(err) => Err(err),
                }),
            decreases data@.len() - pos,
        {
            match read_entry(data, pos) {
                Err(_) => {
                    return Err(StorageEngineError::UnexpectedEOF);
                },
                Ok(None) => {
                    proof {
                        assert(entry_views(entries@) + Seq::<EntryView>::empty() =~= entry_views(entries@));
                    }
                    return Ok(entries);
                },
                Ok(Some((entry, next))) => {
                    let ghost before = entry_views(entries@);
                    let ghost e = entry@;
                    entries.push(entry);
                    proof {
                        assert(entry_views(entries@) =~= before.push(e));
                        assert(before + seq![e] =~= before.push(e));
                        match scan_range(data@, next as int, end as int) {
                            Ok(rest) => {
                                assert(before + (seq![e] + rest) =~= before.push(e) + rest);
                            },
                            Err(_) => {},
                        }
                    }
                    if next >= end {
                        return Ok(entries);
                    }
                    pos = next;
                },
            }
        }
    }

    /// A copy of the records whose keys lie from `lo` to `hi`, both
    /// included, in their order: what a range read keeps of the blocks it
    /// has read.
    pub fn select_key_range(found: &Vec<Entry>, lo: &[u8], hi: &[u8]) -> (kept: Vec<Entry>)
        ensures
            entry_views(kept@) == select_range(entry_views(found@), lo@, hi@),
    {
        let mut kept: Vec<Entry> = Vec::new();
        let mut i: usize = 0;
        let ghost views = entry_views(found@);
        proof {
            reveal(Seq::filter);
            assert(views.take(0) =~= Seq::<EntryView>::empty());
            assert(entry_views(kept@) =~= select_range(views.take(0), lo@, hi@));
        }
        while i < found.len()
            invariant
                i <= found@.len(),
                views == entry_views(found@),
                entry_views(kept@) == select_range(views.take(i as int), lo@, hi@),
            decreases found@.len() - i,
        {
            let e = &found[i];
            let low = key_order(lo, e.key.as_slice());
            let high = key_order(e.key.as_slice(), hi);
            proof {
                reveal(Seq::filter);
                lemma_key_lt_total(lo@, e.key@);
                lemma_key_lt_total(e.key@, hi@);
                assert(views.take(i + 1).drop_last() =~= views.take(i as int));
                assert(views.take(i + 1).last() == e@);
            }
            let below: bool = match low {
                KeyOrder::Greater => true,
                _ => false,
            };
            let above: bool = match high {
                KeyOrder::Greater => true,
                _ => false,
            };
            if !below && !above {
                let ghost before = entry_views(kept@);
                kept.push(e.duplicate());
                proof {
                    assert(entry_views(kept@) =~= before.push(e@));
                }
            }
            i += 1;
        }
        proof {
            assert(views.take(found@.len() as int) =~= views);
        }
        kept
    }

    /// The value that the in-memory index holds for `key`.
    pub fn get_value_from_entries(&self, key: &[u8]) -> (r: Option<(u32, u64, bool)>)
        ensures
            r == (if self.index().dom().contains(key@) {
                Some(self.index()[key@])
            } else {
                None
            }),
    {
        skipmap_get(&self.entries, key)
    }

    /// How two offsets stand to each other.
    pub fn compare_offsets(offset_a: usize, offset_b: usize) -> (r: Ordering)
        ensures
            r == (if offset_a < offset_b {
                Ordering::Less
            } else if offset_a == offset_b {
                Ordering::Equal
            } else {
                Ordering::Greater
            }),
    {
        if offset_a < offset_b {
            Ordering::Less
        } else if offset_a == offset_b {
            Ordering::Equal
        } else {
            Ordering::Greater
        }
    }

    /// Replaces the records and sets the size to theirs.
    pub fn set_entries(&mut self, entries: Arc<SkipMap<Vec<u8>, IndexValue>>)
        ensures
            final(self).index() == skipmap_contents(*entries),
            final(self).size == index_size(skipmap_contents(*entries)),
            final(self).data_file_path == old(self).data_file_path,
            final(self).index_file_path == old(self).index_file_path,
            final(self).sstable_dir == old(self).sstable_dir,
            final(self).created_at == old(self).created_at,
    {
        self.entries = entries;
        self.set_sst_size_from_entries();
    }

    /// A handle to the records.
    pub fn get_entries(&self) -> (index: Arc<SkipMap<Vec<u8>, IndexValue>>)
        ensures
            skipmap_contents(*index) == self.index(),
    {
        share_index(&self.entries)
    }

    /// Sets the size to that of the records: the sum of their encoded sizes,
    /// or the largest number where the sum exceeds it.
    pub fn set_sst_size_from_entries(&mut self)
        ensures
            final(self).size == index_size(old(self).index()),
            final(self).index() == old(self).index(),
            final(self).data_file_path == old(self).data_file_path,
            final(self).index_file_path == old(self).index_file_path,
            final(self).sstable_dir == old(self).sstable_dir,
            final(self).created_at == old(self).created_at,
    {
        self.size = size_of_index(&self.entries);
    }

    /// The size of the records in bytes.
    pub fn size(&self) -> (n: usize)
        ensures
            n == self.size,
    {
        self.size
    }

    /// The path of the data file, by which the table is known.
    pub fn get_path(&self) -> (p: String)
        ensures
            p == self.data_file_path,
    {
        self.data_file_path.clone()
    }

    /// Rebuilds a table from the image of its data file; `data` is `None`
    /// where no data file exists, and then there is no table.  Of records
    /// with the same key the last one counts.  A file that ends inside a
    /// record is refused with `UnexpectedEOF`.
    pub fn from_file(dir: String, data_file_path: String, index_file_path: String, data: Option<&[u8]>) -> (r: Result<Option<SSTable>, StorageEngineError>)
        ensures
            data is None ==> r matches Ok(None),
            data matches Some(bytes) ==> match parse_all(bytes@, 0) {
                Some(records) => {
                    &&& r matches Ok(Some(t))
                    &&& t.index() == entries_map(records)
                    &&& t.size == bytes@.len()
                    &&& t.sstable_dir == dir
                    &&& t.data_file_path == data_file_path
                    &&& t.index_file_path == index_file_path
                },
                None => r matches Err(StorageEngineError::UnexpectedEOF),
            },
    {
        let bytes: &[u8] = match data {
            None => {
                return Ok(None);
            },
            Some(bytes) => bytes,
        };
        let mut entries: SkipMap<Vec<u8>, IndexValue> = skipmap_new();
        let mut pos: usize = 0;
        let ghost mut seen: Seq<EntryView> = Seq::empty();
        proof {
            match parse_all(bytes@, 0) {
                Some(rest) => {
                    assert(seen + rest =~= rest);
                },
                None => {},
            }
        }
        loop
            invariant
                data == Some(bytes),
                skipmap_contents(entries) == entries_map(seen),
                parse_all(bytes@, 0) == (match parse_all(bytes@, pos as int) {
                    Some(rest) => Some(seen + rest),
                    None => None,
                }),
            ensures
                parse_all(bytes@, 0) == Some(seen),
            decreases bytes@.len() - pos,
        {
            match read_entry(bytes, pos) {
                Err(_) => {
                    return Err(StorageEngineError::UnexpectedEOF);
                },
                Ok(None) => {
                    proof {
                        assert(seen + Seq::<EntryView>::empty() =~= seen);
                    }
                    break;
                },
                Ok(Some((entry, next))) => {
                    let ghost e = entry@;
                    proof {
                        match parse_all(bytes@, next as int) {
                            Some(rest) => {
                                assert(seen + (seq![e] + rest) =~= seen.push(e) + rest);
                            },
                            None => {},
                        }
                        assert(seen.push(e).drop_last() =~= seen);
                        seen = seen.push(e);
                    }
                    let Entry { key, val_offset, created_at, is_tombstone } = entry;
                    skipmap_insert(&mut entries, key, (val_offset, created_at, is_tombstone));
                    pos = next;
                },
            }
        }
        Ok(Some(SSTable {
            data_file_path,
            index_file_path,
            sstable_dir: dir,
            entries: Arc::new(entries),
            created_at: creation_stamp(),
            size: bytes.len(),
        }))
    }
}

} // verus!
