//! One record of a table and its encoding in a data file.
//!
//! A record is written as the key's length in four bytes, the key, the value
//! offset in four bytes, the creation time in eight bytes and one byte that
//! is 1 for a tombstone; all numbers are little-endian.
use crate::codec::{le_bytes, le_value, lemma_le_bytes_len, lemma_le_value_of_bytes, lemma_pow256_widths, put_u32, put_u64, read_u32, read_u64};
use crate::err::StorageEngineError;
use vstd::prelude::*;

verus! {

/// Bytes of a record besides its key: two lengths of four bytes, a time of
/// eight bytes and the tombstone byte.
pub const ENTRY_OVERHEAD: usize = 17;

/// A record: a key, where its value lies in the value log, when it was
/// written and whether it deletes the key.
#[derive(Debug)]
pub struct Entry {
    pub key: Vec<u8>,
    pub val_offset: u32,
    pub created_at: u64,
    pub is_tombstone: bool,
}

/// The mathematical value of an [`Entry`].
pub struct EntryView {
    pub key: Seq<u8>,
    pub val_offset: u32,
    pub created_at: u64,
    pub is_tombstone: bool,
}

impl View for Entry {
    type V = EntryView;

    open spec fn view(&self) -> EntryView {
        EntryView {
            key: self.key@,
            val_offset: self.val_offset,
            created_at: self.created_at,
            is_tombstone: self.is_tombstone,
        }
    }
}

/// The values of a sequence of entries, in order.
pub open spec fn entry_views(s: Seq<Entry>) -> Seq<EntryView> {
    s.map_values(|e: Entry| e@)
}

impl EntryView {
    /// The number of bytes the record takes in a data file.
    pub open spec fn size(self) -> nat {
        self.key.len() + 17
    }

    /// The bytes of the record in a data file.
    pub open spec fn bytes(self) -> Seq<u8> {
        le_bytes(self.key.len(), 4) + self.key + le_bytes(self.val_offset as nat, 4) + le_bytes(
            self.created_at as nat,
            8,
        ) + seq![if self.is_tombstone { 1u8 } else { 0u8 }]
    }

    /// What the index keeps for the key.
    pub open spec fn value(self) -> (u32, u64, bool) {
        (self.val_offset, self.created_at, self.is_tombstone)
    }
}

/// What stands at a position of a data file.
pub enum Parsed {
    /// The position is at or beyond the end: nothing more to read.
    End,
    /// The file ends inside the record that starts here.
    Truncated,
    /// A whole record, and the position after it.
    Record(EntryView, int),
}

/// Reads the record that starts at `pos`.
pub open spec fn parse_at(data: Seq<u8>, pos: int) -> Parsed {
    if pos < 0 || pos >= data.len() {
        Parsed::End
    } else if pos + 4 > data.len() {
        Parsed::Truncated
    } else {
        let klen = le_value(data.subrange(pos, pos + 4)) as int;
        if pos + 17 + klen > data.len() {
            Parsed::Truncated
        } else {
            Parsed::Record(
                EntryView {
                    key: data.subrange(pos + 4, pos + 4 + klen),
                    val_offset: le_value(data.subrange(pos + 4 + klen, pos + 8 + klen)) as u32,
                    created_at: le_value(data.subrange(pos + 8 + klen, pos + 16 + klen)) as u64,
                    is_tombstone: data[pos + 16 + klen] == 1,
                },
                pos + 17 + klen,
            )
        }
    }
}

/// A record's encoding has the record's size.
pub proof fn lemma_entry_bytes_len(e: EntryView)
    ensures
        e.bytes().len() == e.size(),
{
    lemma_le_bytes_len(e.key.len(), 4);
    lemma_le_bytes_len(e.val_offset as nat, 4);
    lemma_le_bytes_len(e.created_at as nat, 8);
}

/// Reading where a record was written gives the record back, whatever
/// stands before and after it.
pub proof fn lemma_parse_written(data: Seq<u8>, pos: int, e: EntryView)
    requires
        0 <= pos,
        pos + e.size() <= data.len(),
        data.subrange(pos, pos + e.size()) == e.bytes(),
        e.key.len() <= u32::MAX,
    ensures
        parse_at(data, pos) == Parsed::Record(e, pos + e.size()),
{
    let klen = e.key.len() as int;
    let b = e.bytes();
    lemma_entry_bytes_len(e);
    lemma_le_bytes_len(e.key.len(), 4);
    lemma_le_bytes_len(e.val_offset as nat, 4);
    lemma_le_bytes_len(e.created_at as nat, 8);
    lemma_pow256_widths();
    lemma_le_value_of_bytes(e.key.len(), 4);
    lemma_le_value_of_bytes(e.val_offset as nat, 4);
    lemma_le_value_of_bytes(e.created_at as nat, 8);
    assert forall|i: int| 0 <= i < b.len() implies data[pos + i] == b[i] by {
        assert(data.subrange(pos, pos + e.size())[i] == data[pos + i]);
    }
    assert(data.subrange(pos, pos + 4) =~= le_bytes(e.key.len(), 4)) by {
        assert forall|i: int| 0 <= i < 4 implies data.subrange(pos, pos + 4)[i] == le_bytes(
            e.key.len(),
            4,
        )[i] by {
            assert(b[i] == le_bytes(e.key.len(), 4)[i]);
        }
    }
    assert(data.subrange(pos + 4, pos + 4 + klen) =~= e.key) by {
        assert forall|i: int| 0 <= i < klen implies data.subrange(pos + 4, pos + 4 + klen)[i]
            == e.key[i] by {
            assert(b[4 + i] == e.key[i]);
        }
    }
    assert(data.subrange(pos + 4 + klen, pos + 8 + klen) =~= le_bytes(e.val_offset as nat, 4)) by {
        assert forall|i: int| 0 <= i < 4 implies data.subrange(pos + 4 + klen, pos + 8 + klen)[i]
            == le_bytes(e.val_offset as nat, 4)[i] by {
            assert(b[4 + klen + i] == le_bytes(e.val_offset as nat, 4)[i]);
        }
    }
    assert(data.subrange(pos + 8 + klen, pos + 16 + klen) =~= le_bytes(e.created_at as nat, 8))
        by {
        assert forall|i: int| 0 <= i < 8 implies data.subrange(pos + 8 + klen, pos + 16 + klen)[i]
            == le_bytes(e.created_at as nat, 8)[i] by {
            assert(b[8 + klen + i] == le_bytes(e.created_at as nat, 8)[i]);
        }
    }
    assert(data[pos + 16 + klen] == b[16 + klen]);
}

/// Copies a slice of bytes into a vector of its own.
pub fn bytes_to_vec(s: &[u8]) -> (v: Vec<u8>)
    ensures
        v@ == s@,
{
    let mut v: Vec<u8> = Vec::new();
    let mut i: usize = 0;
    while i < s.len()
        invariant
            i <= s.len(),
            v@ == s@.subrange(0, i as int),
        decreases s.len() - i,
    {
        v.push(s[i]);
        proof {
            assert(v@ =~= s@.subrange(0, i + 1));
        }
        i += 1;
    }
    proof {
        assert(s@.subrange(0, s.len() as int) =~= s@);
    }
    v
}

/// Appends a slice of bytes to a buffer.
pub fn append_bytes(buf: &mut Vec<u8>, s: &[u8])
    ensures
        final(buf)@ == old(buf)@ + s@,
{
    let mut i: usize = 0;
    proof {
        assert(buf@ =~= old(buf)@ + s@.subrange(0, 0));
    }
    while i < s.len()
        invariant
            i <= s.len(),
            buf@ == old(buf)@ + s@.subrange(0, i as int),
        decreases s.len() - i,
    {
        buf.push(s[i]);
        proof {
            assert(buf@ =~= old(buf)@ + s@.subrange(0, i + 1));
        }
        i += 1;
    }
    proof {
        assert(s@.subrange(0, s.len() as int) =~= s@);
    }
}

/// Copies the bytes from `from` up to `to` into a vector of their own.
pub fn copy_range(data: &[u8], from: usize, to: usize) -> (v: Vec<u8>)
    requires
        from <= to <= data.len(),
    ensures
        v@ == data@.subrange(from as int, to as int),
{
    let mut v: Vec<u8> = Vec::new();
    let mut i: usize = from;
    proof {
        assert(v@ =~= data@.subrange(from as int, from as int));
    }
    while i < to
        invariant
            from <= i <= to,
            to <= data.len(),
            v@ == data@.subrange(from as int, i as int),
        decreases to - i,
    {
        v.push(data[i]);
        proof {
            assert(v@ =~= data@.subrange(from as int, i + 1));
        }
        i += 1;
    }
    v
}

impl Entry {
    /// A record of the given parts.
    pub fn new(key: Vec<u8>, val_offset: u32, created_at: u64, is_tombstone: bool) -> (e: Entry)
        ensures
            e@ == (EntryView { key: key@, val_offset, created_at, is_tombstone }),
    {
        Entry { key, val_offset, created_at, is_tombstone }
    }

    /// A copy of the record.
    pub fn duplicate(&self) -> (e: Entry)
        ensures
            e@ == self@,
    {
        Entry {
            key: bytes_to_vec(self.key.as_slice()),
            val_offset: self.val_offset,
            created_at: self.created_at,
            is_tombstone: self.is_tombstone,
        }
    }

    /// Appends the record's encoding to `buf`.
    pub fn write_to(&self, buf: &mut Vec<u8>)
        requires
            self.key.len() <= u32::MAX,
        ensures
            final(buf)@ == old(buf)@ + self@.bytes(),
    {
        let klen: u32 = self.key.len() as u32;
        put_u32(buf, klen);
        append_bytes(buf, self.key.as_slice());
        put_u32(buf, self.val_offset);
        put_u64(buf, self.created_at);
        buf.push(if self.is_tombstone { 1u8 } else { 0u8 });
        proof {
            assert(buf@ =~= old(buf)@ + self@.bytes());
        }
    }
}

/// Reads the record that starts at `pos` of a data file: `Ok(None)` at or
/// beyond the end, the record and the position after it where a whole record
/// stands, and `UnexpectedEOF` where the file ends inside the record.
pub fn read_entry(data: &[u8], pos: usize) -> (r: Result<Option<(Entry, usize)>, StorageEngineError>)
    ensures
        parse_at(data@, pos as int) is End <==> r == Ok::<Option<(Entry, usize)>, StorageEngineError>(None),
        parse_at(data@, pos as int) is Truncated <==> r is Err,
        r is Err ==> r == Err::<Option<(Entry, usize)>, StorageEngineError>(StorageEngineError::UnexpectedEOF),
        parse_at(data@, pos as int) matches Parsed::Record(e, next) ==> (r matches Ok(Some(p)) && p.0@ == e && p.1 == next),
{
    let n: usize = data.len();
    if pos >= n {
        return Ok(None);
    }
    if n - pos < 4 {
        return Err(StorageEngineError::UnexpectedEOF);
    }
    let klen: usize = read_u32(data, pos) as usize;
    if n - pos - 4 < 13 || n - pos - 17 < klen {
        return Err(StorageEngineError::UnexpectedEOF);
    }
    let key: Vec<u8> = copy_range(data, pos + 4, pos + 4 + klen);
    let val_offset: u32 = read_u32(data, pos + 4 + klen);
    let created_at: u64 = read_u64(data, pos + 8 + klen);
    let is_tombstone: bool = data[pos + 16 + klen] == 1;
    Ok(Some((Entry { key, val_offset, created_at, is_tombstone }, pos + 17 + klen)))
}

} // verus!
