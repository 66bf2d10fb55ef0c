//! The sparse index of a table: for each block of the data file, the key of
//! its first record and the offset at which the block starts.
//!
//! In the index file a record is the key's length in four bytes, the key and
//! the block offset in four bytes, numbers little-endian, in block order.
use crate::codec::{le_bytes, le_value, put_u32, read_u32};
use crate::entry::{append_bytes, copy_range};
use crate::err::StorageEngineError;
use crate::keys::{key_le, key_lt, key_order, KeyOrder, lemma_key_lt_total};
use vstd::prelude::*;

verus! {

/// Where a block starts: the key of its first record and its offset.
#[derive(Debug)]
pub struct SparseIndexEntry {
    pub key_prefix: u32,
    pub key: Vec<u8>,
    pub offset: u32,
}

/// The part of a data file that a range of keys lies in.
#[derive(Clone, Copy, Debug, PartialEq, Eq, Structural)]
pub struct RangeOffset {
    /// Where to start reading.
    pub start_offset: u32,
    /// Reading stops once it has reached this offset.
    pub end_offset: u32,
}

/// The block starts of one table, in file order.
#[derive(Debug)]
pub struct SparseIndex {
    pub entries: Vec<SparseIndexEntry>,
    pub file_path: String,
}

/// The mathematical value of a sparse index: key and offset of each block.
pub type IndexRecords = Seq<(Seq<u8>, u32)>;

/// The offset of the last block whose first key is at most `key`.
pub open spec fn lookup_offset(records: Seq<(Seq<u8>, u32)>, key: Seq<u8>) -> Option<u32>
    decreases records.len(),
{
    if records.len() == 0 {
        None
    } else if key_le(records.last().0, key) {
        Some(records.last().1)
    } else {
        lookup_offset(records.drop_last(), key)
    }
}

/// The offset of the first block whose first key is beyond `key`.
pub open spec fn upper_offset(records: Seq<(Seq<u8>, u32)>, key: Seq<u8>) -> Option<u32>
    decreases records.len(),
{
    if records.len() == 0 {
        None
    } else if key_lt(key, records[0].0) {
        Some(records[0].1)
    } else {
        upper_offset(records.drop_first(), key)
    }
}

/// The part of the data file to read for the keys from `lo` to `hi`: from the
/// last block that starts at or before `lo` (the first block where none does)
/// up to the first block that starts beyond `hi` (the end where none does).
pub open spec fn range_offsets(records: Seq<(Seq<u8>, u32)>, lo: Seq<u8>, hi: Seq<u8>) -> RangeOffset {
    RangeOffset {
        start_offset: match lookup_offset(records, lo) {
            Some(o) => o,
            None => if records.len() > 0 { records[0].1 } else { 0 },
        },
        end_offset: match upper_offset(records, hi) {
            Some(o) => o,
            None => u32::MAX,
        },
    }
}

/// The bytes of an index file holding `records`.
pub open spec fn index_bytes(records: Seq<(Seq<u8>, u32)>) -> Seq<u8>
    decreases records.len(),
{
    if records.len() == 0 {
        Seq::empty()
    } else {
        index_bytes(records.drop_last()) + le_bytes(records.last().0.len(), 4) + records.last().0 + le_bytes(records.last().1 as nat, 4)
    }
}

/// The records that the index file `data` holds from `pos` on, or nothing
/// where the file ends inside a record.
pub open spec fn parse_index(data: Seq<u8>, pos: int) -> Option<Seq<(Seq<u8>, u32)>>
    decreases data.len() - pos,
{
    if pos < 0 || pos >= data.len() {
        Some(Seq::empty())
    } else if pos + 4 > data.len() {
        None
    } else {
        let klen = le_value(data.subrange(pos, pos + 4)) as int;
        if pos + 8 + klen > data.len() {
            None
        } else {
            let record = (data.subrange(pos + 4, pos + 4 + klen), le_value(data.subrange(pos + 4 + klen, pos + 8 + klen)) as u32);
            match parse_index(data, pos + 8 + klen) {
                Some(rest) => Some(seq![record] + rest),
                None => None,
            }
        }
    }
}

impl View for SparseIndex {
    type V = Seq<(Seq<u8>, u32)>;

    open spec fn view(&self) -> Seq<(Seq<u8>, u32)> {
        Seq::new(self.entries@.len(), |i: int| (self.entries@[i].key@, self.entries@[i].offset))
    }
}

impl SparseIndex {
    /// Every record carries the length of its key.
    pub open spec fn wf(&self) -> bool {
        forall|i: int| 0 <= i < self.entries@.len() ==> (#[trigger] self.entries@[i]).key_prefix == self.entries@[i].key@.len()
    }

    /// An index without records, to be stored at `file_path`.
    pub fn new(file_path: String) -> (s: SparseIndex)
        ensures
            s@ == Seq::<(Seq<u8>, u32)>::empty(),
            s.file_path == file_path,
            s.wf(),
    {
        let s = SparseIndex { entries: Vec::new(), file_path };
        proof {
            assert(s@ =~= Seq::<(Seq<u8>, u32)>::empty());
        }
        s
    }

    /// Adds the start of the next block.
    pub fn insert(&mut self, key_prefix: u32, key: Vec<u8>, offset: u32)
        requires
            old(self).wf(),
            key_prefix == key@.len(),
        ensures
            final(self).wf(),
            final(self)@ == old(self)@.push((key@, offset)),
            final(self).file_path == old(self).file_path,
    {
        self.entries.push(SparseIndexEntry { key_prefix, key, offset });
        proof {
            assert(self@ =~= old(self)@.push((key@, offset)));
        }
    }

    /// Where to start reading for `searched_key`: the offset of the last
    /// block whose first key is at most the key, or nothing where every block
    /// starts beyond it.
    pub fn get(&self, searched_key: &[u8]) -> (r: Option<u32>)
        ensures
            r == lookup_offset(self@, searched_key@),
    {
        let mut i: usize = self.entries.len();
        proof {
            assert(self@.subrange(0, i as int) =~= self@);
        }
        while i > 0
            invariant
                i <= self.entries@.len(),
                lookup_offset(self@, searched_key@) == lookup_offset(self@.subrange(0, i as int), searched_key@),
            decreases i,
        {
            let rec = &self.entries[i - 1];
            let ord = key_order(rec.key.as_slice(), searched_key);
            proof {
                let cur = self@.subrange(0, i as int);
                assert(cur.last() == self@[i - 1]);
                assert(cur.drop_last() =~= self@.subrange(0, i - 1));
                lemma_key_lt_total(rec.key@, searched_key@);
            }
            match ord {
                KeyOrder::Greater => {},
                _ => {
                    return Some(rec.offset);
                },
            }
            i -= 1;
        }
        None
    }

    /// The offset of the first block that starts beyond `key`, if any.
    fn upper(&self, key: &[u8]) -> (r: Option<u32>)
        ensures
            r == upper_offset(self@, key@),
    {
        let mut i: usize = 0;
        proof {
            assert(self@.skip(0) =~= self@);
        }
        while i < self.entries.len()
            invariant
                i <= self.entries@.len(),
                upper_offset(self@, key@) == upper_offset(self@.skip(i as int), key@),
            decreases self.entries@.len() - i,
        {
            let rec = &self.entries[i];
            let ord = key_order(key, rec.key.as_slice());
            proof {
                let cur = self@.skip(i as int);
                assert(cur[0] == self@[i as int]);
                assert(cur.drop_first() =~= self@.skip(i + 1));
                lemma_key_lt_total(key@, rec.key@);
            }
            match ord {
                KeyOrder::Less => {
                    return Some(rec.offset);
                },
                _ => {},
            }
            i += 1;
        }
        None
    }

    /// The part of the data file to read for the keys from `start_key` to
    /// `end_key`.
    pub fn get_block_offset_range(&self, start_key: &[u8], end_key: &[u8]) -> (r: RangeOffset)
        ensures
            r == range_offsets(self@, start_key@, end_key@),
    {
        let start_offset: u32 = match self.get(start_key) {
            Some(o) => o,
            None => if self.entries.len() > 0 {
                self.entries[0].offset
            } else {
                0
            },
        };
        let end_offset: u32 = match self.upper(end_key) {
            Some(o) => o,
            None => u32::MAX,
        };
        RangeOffset { start_offset, end_offset }
    }

    /// The image of the index file.
    pub fn write_to_file(&self) -> (bytes: Vec<u8>)
        requires
            self.wf(),
        ensures
            bytes@ == index_bytes(self@),
    {
        let mut bytes: Vec<u8> = Vec::new();
        let mut i: usize = 0;
        proof {
            assert(self@.subrange(0, 0) =~= Seq::<(Seq<u8>, u32)>::empty());
        }
        while i < self.entries.len()
            invariant
                i <= self.entries@.len(),
                self.wf(),
                bytes@ == index_bytes(self@.subrange(0, i as int)),
            decreases self.entries@.len() - i,
        {
            let rec = &self.entries[i];
            proof {
                let next = self@.subrange(0, i + 1);
                assert(next.last() == self@[i as int]);
                assert(next.drop_last() =~= self@.subrange(0, i as int));
            }
            put_u32(&mut bytes, rec.key_prefix);
            append_bytes(&mut bytes, rec.key.as_slice());
            put_u32(&mut bytes, rec.offset);
            i += 1;
        }
        proof {
            assert(self@.subrange(0, i as int) =~= self@);
        }
        bytes
    }

    /// Reads an index file back.  A file that ends inside a record is
    /// refused with `UnexpectedEOF`.
    pub fn from_bytes(file_path: String, data: &[u8]) -> (r: Result<SparseIndex, StorageEngineError>)
        ensures
            r is Ok <==> parse_index(data@, 0) is Some,
            r matches Ok(s) ==> s.wf() && s.file_path == file_path && Some(s@) == parse_index(data@, 0),
            r matches Err(e) ==> e == StorageEngineError::UnexpectedEOF,
    {
        let mut index = SparseIndex::new(file_path);
        let n: usize = data.len();
        let mut pos: usize = 0;
        while pos < n
            invariant
                n == data@.len(),
                pos <= n,
                index.wf(),
                index.file_path == file_path,
                parse_index(data@, 0) == (match parse_index(data@, pos as int) {
                    Some(rest) => Some(index@ + rest),
                    None => None,
                }),
            decreases n - pos,
        {
            if n - pos < 4 {
                return Err(StorageEngineError::UnexpectedEOF);
            }
            let klen: usize = read_u32(data, pos) as usize;
            if n - pos - 4 < 4 || n - pos - 8 < klen {
                return Err(StorageEngineError::UnexpectedEOF);
            }
            let key: Vec<u8> = copy_range(data, pos + 4, pos + 4 + klen);
            let offset: u32 = read_u32(data, pos + 4 + klen);
            proof {
                let record = (key@, offset);
                let before = index@;
                match parse_index(data@, pos + 8 + klen) {
                    Some(rest) => {
                        assert(before + (seq![record] + rest) =~= before.push(record) + rest);
                    },
                    None => {},
                }
            }
            index.insert(klen as u32, key, offset);
            pos = pos + 8 + klen;
        }
        proof {
            assert(index@ + Seq::<(Seq<u8>, u32)>::empty() =~= index@);
        }
        Ok(index)
    }
}

impl SparseIndex {
    /// Whether every record carries the length of its key.
    pub fn is_valid(&self) -> (ok: bool)
        ensures
            ok == self.wf(),
    {
        let mut i: usize = 0;
        while i < self.entries.len()
            invariant
                i <= self.entries@.len(),
                forall|j: int| 0 <= j < i ==> (#[trigger] self.entries@[j]).key_prefix == self.entries@[j].key@.len(),
            decreases self.entries@.len() - i,
        {
            let e = &self.entries[i];
            if e.key.len() > u32::MAX as usize || e.key_prefix != e.key.len() as u32 {
                proof {
                    assert(self.entries@[i as int].key_prefix != self.entries@[i as int].key@.len());
                }
                return false;
            }
            i += 1;
        }
        true
    }
}

} // verus!
