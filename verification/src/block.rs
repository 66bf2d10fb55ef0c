//! A block: the unit in which a table's data file is laid out and indexed.
//!
//! Records are staged in a block until the next one would exceed the block
//! size; the block is then appended to the data file and its first key goes
//! into the sparse index.
use crate::entry::{append_bytes, bytes_to_vec, Entry, EntryView};
use crate::err::StorageEngineError;
use vstd::prelude::*;

verus! {

/// The number of bytes a block may hold.
pub const BLOCK_SIZE: usize = 4096;

/// A bounded buffer of encoded records.
#[derive(Debug)]
pub struct Block {
    /// The encoded records, in the order they were set.
    pub data: Vec<u8>,
    /// The key of the first record; empty while the block is.
    pub first_key: Vec<u8>,
    /// The number of records.
    pub entries_length: usize,
}

impl Block {
    /// The block keeps within its size, counts a record only with data, and
    /// its first key is that of a record it holds.
    pub open spec fn wf(&self) -> bool {
        &&& self.data@.len() <= BLOCK_SIZE
        &&& self.entries_length <= self.data@.len()
        &&& (self.data@.len() == 0 ==> self.first_key@.len() == 0 && self.entries_length == 0)
        &&& (self.data@.len() > 0 ==> self.first_key@.len() + 17 <= self.data@.len())
    }

    /// An empty block.
    pub fn new() -> (b: Block)
        ensures
            b.wf(),
            b.data@.len() == 0,
            b.first_key@.len() == 0,
            b.entries_length == 0,
    {
        Block { data: Vec::new(), first_key: Vec::new(), entries_length: 0 }
    }

    /// Whether a record of `entry_size` bytes would exceed the block size.
    pub fn is_full(&self, entry_size: usize) -> (full: bool)
        requires
            self.wf(),
        ensures
            full == (self.data@.len() + entry_size > BLOCK_SIZE),
    {
        entry_size > BLOCK_SIZE - self.data.len()
    }

    /// Appends a record.  A record that does not fit is refused with
    /// `BlockIsFullError` and leaves the block as it was.
    pub fn set_entry(&mut self, key: &[u8], value_offset: u32, created_at: u64, is_tombstone: bool) -> (r: Result<(), StorageEngineError>)
        requires
            old(self).wf(),
        ensures
            final(self).wf(),
            r is Err <==> old(self).data@.len() + key@.len() + 17 > BLOCK_SIZE,
            r is Err ==> *final(self) == *old(self) && r == Err::<(), StorageEngineError>(StorageEngineError::BlockIsFullError),
            r is Ok ==> final(self).data@ == old(self).data@ + (EntryView { key: key@, val_offset: value_offset, created_at, is_tombstone }).bytes(),
            r is Ok ==> final(self).entries_length == old(self).entries_length + 1,
            r is Ok ==> final(self).first_key@ == (if old(self).data@.len() == 0 { key@ } else { old(self).first_key@ }),
    {
        let room: usize = BLOCK_SIZE - self.data.len();
        if room < 17 || key.len() > room - 17 {
            return Err(StorageEngineError::BlockIsFullError);
        }
        let entry = Entry { key: bytes_to_vec(key), val_offset: value_offset, created_at, is_tombstone };
        proof {
            crate::entry::lemma_entry_bytes_len(entry@);
        }
        if self.data.len() == 0 {
            self.first_key = bytes_to_vec(key);
        }
        entry.write_to(&mut self.data);
        self.entries_length = self.entries_length + 1;
        Ok(())
    }

    /// The key of the first record, or nothing while the block is empty.
    pub fn get_first_key(&self) -> (r: Option<Vec<u8>>)
        requires
            self.wf(),
        ensures
            r is None <==> self.data@.len() == 0,
            r matches Some(k) ==> k@ == self.first_key@,
    {
        if self.data.len() == 0 {
            None
        } else {
            Some(bytes_to_vec(self.first_key.as_slice()))
        }
    }

    /// Appends the block's bytes to the image of a data file.
    pub fn write_to_file(&self, file: &mut Vec<u8>)
        ensures
            final(file)@ == old(file)@ + self.data@,
    {
        append_bytes(file, self.data.as_slice());
    }
}

impl Block {
    /// Whether the block is well formed.
    pub fn is_valid(&self) -> (ok: bool)
        ensures
            ok == self.wf(),
    {
        let n: usize = self.data.len();
        if n > BLOCK_SIZE || self.entries_length > n {
            return false;
        }
        if n == 0 {
            self.first_key.len() == 0 && self.entries_length == 0
        } else {
            self.first_key.len() <= n && n - self.first_key.len() >= 17
        }
    }
}

} // verus!
