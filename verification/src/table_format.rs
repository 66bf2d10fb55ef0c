//! The layout of a table on disk, stated over the sorted records it is built
//! from: the data file, the sparse index, and what the read paths return.
use crate::block::BLOCK_SIZE;
use crate::entry::{parse_at, EntryView, Parsed};
use crate::err::StorageEngineError;
use crate::keys::{key_le, key_lt};

use crate::sparse_index::{lookup_offset, range_offsets};
use vstd::prelude::*;

verus! {

/// The offset in the data file of the record numbered `k`: the sizes of the
/// records before it, summed.
pub open spec fn offset_of(entries: Seq<EntryView>, k: int) -> int
    decreases k,
{
    if k <= 0 {
        0
    } else {
        offset_of(entries, k - 1) + entries[k - 1].size()
    }
}

/// The data file: the encodings of the records one after the other.
pub open spec fn table_data(entries: Seq<EntryView>) -> Seq<u8>
    decreases entries.len(),
{
    if entries.len() == 0 {
        Seq::empty()
    } else {
        table_data(entries.drop_last()) + entries.last().bytes()
    }
}

/// The bytes staged in the current block when record `k` is offered to it.
pub open spec fn block_fill(entries: Seq<EntryView>, k: int) -> int
    decreases k,
{
    if k <= 0 {
        0
    } else {
        let fill = block_fill(entries, k - 1);
        let size = entries[k - 1].size() as int;
        if fill + size > BLOCK_SIZE {
            size
        } else {
            fill + size
        }
    }
}

/// Record `k` is the first of its block: it is the first record of all, or
/// the block before it had no room for it.
pub open spec fn starts_block(entries: Seq<EntryView>, k: int) -> bool {
    k == 0 || block_fill(entries, k) + entries[k].size() > BLOCK_SIZE
}

/// The sparse index over the first `k` records: key and offset of each
/// record that starts a block.
pub open spec fn index_records(entries: Seq<EntryView>, k: int) -> Seq<(Seq<u8>, u32)>
    decreases k,
{
    if k <= 0 {
        Seq::empty()
    } else {
        let before = index_records(entries, k - 1);
        if starts_block(entries, k - 1) {
            before.push((entries[k - 1].key, offset_of(entries, k - 1) as u32))
        } else {
            before
        }
    }
}

/// The sparse index of the whole table.
pub open spec fn sparse_index_of(entries: Seq<EntryView>) -> Seq<(Seq<u8>, u32)> {
    index_records(entries, entries.len() as int)
}

/// Every record fits into a block.
pub open spec fn fits_blocks(entries: Seq<EntryView>) -> bool {
    forall|i: int| 0 <= i < entries.len() ==> (#[trigger] entries[i]).size() <= BLOCK_SIZE
}

/// The table can be written: every record fits into a block and the data
/// file stays within what a four-byte offset addresses.
pub open spec fn buildable(entries: Seq<EntryView>) -> bool {
    fits_blocks(entries) && offset_of(entries, entries.len() as int) <= u32::MAX
}

/// What a point read returns: reading record after record from `pos`, the
/// value of the first record with the key; nothing once the end or a larger
/// key is reached; an error where the file ends inside a record.
pub open spec fn scan_get(data: Seq<u8>, pos: int, key: Seq<u8>) -> Result<Option<(u32, u64, bool)>, StorageEngineError>
    decreases data.len() - pos,
{
    match parse_at(data, pos) {
        Parsed::End => Ok(None),
        Parsed::Truncated => Err(StorageEngineError::UnexpectedEOF),
        Parsed::Record(e, next) => {
            if e.key == key {
                Ok(Some(e.value()))
            } else if key_lt(key, e.key) {
                Ok(None)
            } else {
                scan_get(data, next, key)
            }
        },
    }
}

/// What a range read returns: the records from `pos` on, up to and including
/// the first that ends at or beyond `end`, or up to the end of the file.
pub open spec fn scan_range(data: Seq<u8>, pos: int, end: int) -> Result<Seq<EntryView>, StorageEngineError>
    decreases data.len() - pos,
{
    match parse_at(data, pos) {
        Parsed::End => Ok(Seq::empty()),
        Parsed::Truncated => Err(StorageEngineError::UnexpectedEOF),
        Parsed::Record(e, next) => {
            if next >= end {
                Ok(seq![e])
            } else {
                match scan_range(data, next, end) {
                    Ok(rest) => Ok(seq![e] + rest),
                    Err(err) => Err(err),
                }
            }
        },
    }
}

/// All records of a data file from `pos` on, or nothing where the file ends
/// inside a record.
pub open spec fn parse_all(data: Seq<u8>, pos: int) -> Option<Seq<EntryView>>
    decreases data.len() - pos,
{
    match parse_at(data, pos) {
        Parsed::End => Some(Seq::empty()),
        Parsed::Truncated => None,
        Parsed::Record(e, next) => match parse_all(data, next) {
            Some(rest) => Some(seq![e] + rest),
            None => None,
        },
    }
}

/// The index that inserting the records in order builds: a later record
/// replaces an earlier one with the same key.
pub open spec fn entries_map(entries: Seq<EntryView>) -> Map<Seq<u8>, (u32, u64, bool)>
    decreases entries.len(),
{
    if entries.len() == 0 {
        Map::empty()
    } else {
        entries_map(entries.drop_last()).insert(entries.last().key, entries.last().value())
    }
}

/// Whether a key lies between two bounds, both included.
pub open spec fn in_key_range(key: Seq<u8>, lo: Seq<u8>, hi: Seq<u8>) -> bool {
    key_le(lo, key) && key_le(key, hi)
}

/// The records whose keys lie between the bounds, in their order.
pub open spec fn select_range(entries: Seq<EntryView>, lo: Seq<u8>, hi: Seq<u8>) -> Seq<EntryView> {
    entries.filter(|e: EntryView| in_key_range(e.key, lo, hi))
}

/// The point-read path: the sparse index gives the block, the data file is
/// read from there.
pub open spec fn point_read(data: Seq<u8>, records: Seq<(Seq<u8>, u32)>, key: Seq<u8>) -> Result<Option<(u32, u64, bool)>, StorageEngineError> {
    match lookup_offset(records, key) {
        Some(offset) => scan_get(data, offset as int, key),
        None => Ok(None),
    }
}

/// The range-read path: the sparse index gives the blocks, the data file is
/// read across them, and the records outside the bounds are dropped.
pub open spec fn range_read(data: Seq<u8>, records: Seq<(Seq<u8>, u32)>, lo: Seq<u8>, hi: Seq<u8>) -> Result<Seq<EntryView>, StorageEngineError> {
    let offsets = range_offsets(records, lo, hi);
    match scan_range(data, offsets.start_offset as int, offsets.end_offset as int) {
        Ok(found) => Ok(select_range(found, lo, hi)),
        Err(err) => Err(err),
    }
}

} // verus!
