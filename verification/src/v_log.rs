//! The value log: an append-only file that holds the values, while the
//! tables hold only the offsets at which they lie.
//!
//! A record is written as the key's length and the value's length in four
//! bytes each, the creation time in eight bytes, one byte that is 1 for a
//! tombstone, the key and the value; all numbers are little-endian.  The
//! garbage collector reads the log from its tail and marks with the head how
//! far it has vouched for the records.
use crate::codec::{le_bytes, le_value, lemma_le_bytes_len, lemma_le_value_of_bytes, lemma_pow256_widths, put_u32, put_u64, read_u32, read_u64};
use crate::entry::{append_bytes, bytes_to_vec, copy_range};
use crate::err::StorageEngineError;
use crate::paths::join_path;
use vstd::prelude::*;

verus! {

/// The name of the value log's file in the store's directory.
pub const VLOG_FILE_NAME: &'static str = "VLOG";

/// Bytes of a record besides key and value.
pub const VLOG_ENTRY_OVERHEAD: usize = 17;

/// A record of the value log.
#[derive(Debug)]
pub struct ValueLogEntry {
    pub ksize: usize,
    pub vsize: usize,
    pub key: Vec<u8>,
    pub value: Vec<u8>,
    /// The creation time in milliseconds since the Unix epoch.
    pub created_at: i64,
    pub is_tombstone: bool,
}

/// The mathematical value of a [`ValueLogEntry`].
pub struct LogRecord {
    pub key: Seq<u8>,
    pub value: Seq<u8>,
    pub created_at: i64,
    pub is_tombstone: bool,
}

impl View for ValueLogEntry {
    type V = LogRecord;

    open spec fn view(&self) -> LogRecord {
        LogRecord { key: self.key@, value: self.value@, created_at: self.created_at, is_tombstone: self.is_tombstone }
    }
}

/// The values of a sequence of records, in order.
pub open spec fn record_views(s: Seq<ValueLogEntry>) -> Seq<LogRecord> {
    s.map_values(|e: ValueLogEntry| e@)
}

/// A signed time as the unsigned number with the same 64 bits.
pub open spec fn time_bits(t: i64) -> nat {
    if t >= 0 {
        t as nat
    } else {
        (t + 0x1_0000_0000_0000_0000) as nat
    }
}

/// The signed time with the same 64 bits as an unsigned number.
pub open spec fn time_of_bits(bits: nat) -> i64 {
    if bits < 0x8000_0000_0000_0000 {
        bits as i64
    } else {
        (bits - 0x1_0000_0000_0000_0000) as i64
    }
}

impl LogRecord {
    /// The number of bytes the record takes in the log.
    pub open spec fn size(self) -> nat {
        17 + self.key.len() + self.value.len()
    }

    /// The bytes of the record in the log.
    pub open spec fn bytes(self) -> Seq<u8> {
        le_bytes(self.key.len(), 4) + le_bytes(self.value.len(), 4) + le_bytes(time_bits(self.created_at), 8) + seq![if self.is_tombstone { 1u8 } else { 0u8 }] + self.key + self.value
    }

    /// Key and value are short enough for their lengths to be written.
    pub open spec fn writable(self) -> bool {
        self.key.len() <= u32::MAX && self.value.len() <= u32::MAX
    }
}

/// What stands at a position of the log.
pub enum LogParsed {
    /// The position is at or beyond the end: nothing more to read.
    End,
    /// The log ends inside the record that starts here.
    Truncated,
    /// A whole record, and the position after it.
    Record(LogRecord, int),
}

/// Reads the record that starts at `pos`.
pub open spec fn parse_record(data: Seq<u8>, pos: int) -> LogParsed {
    if pos < 0 || pos >= data.len() {
        LogParsed::End
    } else if pos + 17 > data.len() {
        LogParsed::Truncated
    } else {
        let klen = le_value(data.subrange(pos, pos + 4)) as int;
        let vlen = le_value(data.subrange(pos + 4, pos + 8)) as int;
        if pos + 17 + klen + vlen > data.len() {
            LogParsed::Truncated
        } else {
            LogParsed::Record(
                LogRecord {
                    key: data.subrange(pos + 17, pos + 17 + klen),
                    value: data.subrange(pos + 17 + klen, pos + 17 + klen + vlen),
                    created_at: time_of_bits(le_value(data.subrange(pos + 8, pos + 16))),
                    is_tombstone: data[pos + 16] == 1,
                },
                pos + 17 + klen + vlen,
            )
        }
    }
}

/// What a read at `pos` returns: the value and the tombstone flag of the
/// record there; nothing at or beyond the end; an error where the log ends
/// inside the record.
pub open spec fn read_value(data: Seq<u8>, pos: int) -> Result<Option<(Seq<u8>, bool)>, StorageEngineError> {
    match parse_record(data, pos) {
        LogParsed::End => Ok(None),
        LogParsed::Truncated => Err(StorageEngineError::UnexpectedEOF),
        LogParsed::Record(r, _) => Ok(Some((r.value, r.is_tombstone))),
    }
}

/// All records from `pos` to the end of the log, or nothing where the log
/// ends inside a record.
pub open spec fn records_from(data: Seq<u8>, pos: int) -> Option<Seq<LogRecord>>
    decreases data.len() - pos,
{
    match parse_record(data, pos) {
        LogParsed::End => Some(Seq::empty()),
        LogParsed::Truncated => None,
        LogParsed::Record(r, next) => match records_from(data, next) {
            Some(rest) => Some(seq![r] + rest),
            None => None,
        },
    }
}

/// The records from `pos` on that a budget of `budget` bytes covers, and
/// the bytes they take: records are taken while the budget is not used up,
/// each of them whole, so that the last may exceed the budget.  Nothing
/// where the log ends inside a record.
pub open spec fn chunk_from(data: Seq<u8>, pos: int, budget: int) -> Option<(Seq<LogRecord>, int)>
    decreases data.len() - pos,
{
    if budget <= 0 {
        Some((Seq::empty(), 0))
    } else {
        match parse_record(data, pos) {
            LogParsed::End => Some((Seq::empty(), 0)),
            LogParsed::Truncated => None,
            LogParsed::Record(r, next) => match chunk_from(data, next, budget - (next - pos)) {
                Some((rest, taken)) => Some((seq![r] + rest, (next - pos) + taken)),
                None => None,
            },
        }
    }
}

/// The records of a chunk; none where the log ends inside a record.
pub open spec fn chunk_records(data: Seq<u8>, pos: int, budget: int) -> Seq<LogRecord> {
    match chunk_from(data, pos, budget) {
        Some(chunk) => chunk.0,
        None => Seq::empty(),
    }
}

/// The bytes that a chunk takes; 0 where the log ends inside a record.
pub open spec fn chunk_taken(data: Seq<u8>, pos: int, budget: int) -> int {
    match chunk_from(data, pos, budget) {
        Some(chunk) => chunk.1,
        None => 0,
    }
}

/// A record's encoding has the record's size.
pub proof fn lemma_record_bytes_len(r: LogRecord)
    ensures
        r.bytes().len() == r.size(),
{
    lemma_le_bytes_len(r.key.len(), 4);
    lemma_le_bytes_len(r.value.len(), 4);
    lemma_le_bytes_len(time_bits(r.created_at), 8);
}

/// Reading where a record was written gives the record back, whatever
/// stands before and after it.
pub proof fn lemma_parse_written_record(data: Seq<u8>, pos: int, r: LogRecord)
    requires
        0 <= pos,
        pos + r.size() <= data.len(),
        data.subrange(pos, pos + r.size()) == r.bytes(),
        r.writable(),
    ensures
        parse_record(data, pos) == LogParsed::Record(r, pos + r.size()),
{
    let klen = r.key.len() as int;
    let vlen = r.value.len() as int;
    let b = r.bytes();
    let bits = time_bits(r.created_at);
    lemma_record_bytes_len(r);
    lemma_le_bytes_len(r.key.len(), 4);
    lemma_le_bytes_len(r.value.len(), 4);
    lemma_le_bytes_len(bits, 8);
    lemma_pow256_widths();
    lemma_le_value_of_bytes(r.key.len(), 4);
    lemma_le_value_of_bytes(r.value.len(), 4);
    lemma_le_value_of_bytes(bits, 8);
    assert forall|i: int| 0 <= i < b.len() implies data[pos + i] == b[i] by {
        assert(data.subrange(pos, pos + r.size())[i] == data[pos + i]);
    }
    assert(data.subrange(pos, pos + 4) =~= le_bytes(r.key.len(), 4)) by {
        assert forall|i: int| 0 <= i < 4 implies data.subrange(pos, pos + 4)[i] == le_bytes(r.key.len(), 4)[i] by {
            assert(b[i] == le_bytes(r.key.len(), 4)[i]);
        }
    }
    assert(data.subrange(pos + 4, pos + 8) =~= le_bytes(r.value.len(), 4)) by {
        assert forall|i: int| 0 <= i < 4 implies data.subrange(pos + 4, pos + 8)[i] == le_bytes(r.value.len(), 4)[i] by {
            assert(b[4 + i] == le_bytes(r.value.len(), 4)[i]);
        }
    }
    assert(data.subrange(pos + 8, pos + 16) =~= le_bytes(bits, 8)) by {
        assert forall|i: int| 0 <= i < 8 implies data.subrange(pos + 8, pos + 16)[i] == le_bytes(bits, 8)[i] by {
            assert(b[8 + i] == le_bytes(bits, 8)[i]);
        }
    }
    assert(data[pos + 16] == b[16]);
    assert(data.subrange(pos + 17, pos + 17 + klen) =~= r.key) by {
        assert forall|i: int| 0 <= i < klen implies data.subrange(pos + 17, pos + 17 + klen)[i] == r.key[i] by {
            assert(b[17 + i] == r.key[i]);
        }
    }
    assert(data.subrange(pos + 17 + klen, pos + 17 + klen + vlen) =~= r.value) by {
        assert forall|i: int| 0 <= i < vlen implies data.subrange(pos + 17 + klen, pos + 17 + klen + vlen)[i] == r.value[i] by {
            assert(b[17 + klen + i] == r.value[i]);
        }
    }
    assert(time_of_bits(bits) == r.created_at);
}

/// A value can be read where it was appended: after a record that is no
/// tombstone has been appended to a log, a read at the offset where the log
/// ended before returns the record's value, not marked as deleted.
pub proof fn lemma_get_returns_appended_value(log: Seq<u8>, r: LogRecord)
    requires
        r.writable(),
        !r.is_tombstone,
    ensures
        read_value(log + r.bytes(), log.len() as int) == Ok::<Option<(Seq<u8>, bool)>, StorageEngineError>(Some((r.value, false))),
{
    lemma_get_returns_appended_record(log, r);
}

/// Whatever record is appended to a log, a read at the offset where the log
/// ended before returns its value and its tombstone flag.
pub proof fn lemma_get_returns_appended_record(log: Seq<u8>, r: LogRecord)
    requires
        r.writable(),
    ensures
        read_value(log + r.bytes(), log.len() as int) == Ok::<Option<(Seq<u8>, bool)>, StorageEngineError>(Some((r.value, r.is_tombstone))),
        parse_record(log + r.bytes(), log.len() as int) == LogParsed::Record(r, (log.len() + r.size()) as int),
{
    let after = log + r.bytes();
    lemma_record_bytes_len(r);
    assert(after.subrange(log.len() as int, (log.len() + r.size()) as int) =~= r.bytes());
    lemma_parse_written_record(after, log.len() as int, r);
}

/// Appending to a log does not change what is read before its old end.
pub proof fn lemma_append_keeps_records(log: Seq<u8>, more: Seq<u8>, pos: int)
    requires
        parse_record(log, pos) is Record,
    ensures
        parse_record(log + more, pos) == parse_record(log, pos),
{
    let after = log + more;
    let klen = le_value(log.subrange(pos, pos + 4)) as int;
    let vlen = le_value(log.subrange(pos + 4, pos + 8)) as int;
    assert(after.subrange(pos, pos + 4) =~= log.subrange(pos, pos + 4));
    assert(after.subrange(pos + 4, pos + 8) =~= log.subrange(pos + 4, pos + 8));
    assert(after.subrange(pos + 8, pos + 16) =~= log.subrange(pos + 8, pos + 16));
    assert(after.subrange(pos + 17, pos + 17 + klen) =~= log.subrange(pos + 17, pos + 17 + klen));
    assert(after.subrange(pos + 17 + klen, pos + 17 + klen + vlen) =~= log.subrange(pos + 17 + klen, pos + 17 + klen + vlen));
    assert(after[pos + 16] == log[pos + 16]);
}

impl ValueLogEntry {
    /// A record of the given parts.
    pub fn new(ksize: usize, vsize: usize, key: &[u8], value: &[u8], created_at: i64, is_tombstone: bool) -> (e: Self)
        ensures
            e@ == (LogRecord { key: key@, value: value@, created_at, is_tombstone }),
            e.ksize == ksize,
            e.vsize == vsize,
    {
        Self { ksize, vsize, key: bytes_to_vec(key), value: bytes_to_vec(value), created_at, is_tombstone }
    }

    /// The bytes of the record in the log.
    pub fn serialize(&self) -> (bytes: Vec<u8>)
        requires
            self@.writable(),
        ensures
            bytes@ == self@.bytes(),
    {
        let mut bytes: Vec<u8> = Vec::new();
        put_u32(&mut bytes, self.key.len() as u32);
        put_u32(&mut bytes, self.value.len() as u32);
        let bits: u64 = if self.created_at >= 0 {
            self.created_at as u64
        } else {
            ((self.created_at + i64::MAX) + 1) as u64 + 0x8000_0000_0000_0000u64
        };
        put_u64(&mut bytes, bits);
        bytes.push(if self.is_tombstone { 1u8 } else { 0u8 });
        append_bytes(&mut bytes, self.key.as_slice());
        append_bytes(&mut bytes, self.value.as_slice());
        proof {
            assert(bytes@ =~= self@.bytes());
        }
        bytes
    }
}

/// Reads the record that starts at `pos` of a log: `Ok(None)` at or beyond
/// the end, the record and the position after it where a whole record
/// stands, and `UnexpectedEOF` where the log ends inside the record.
pub fn read_record(data: &[u8], pos: usize) -> (r: Result<Option<(ValueLogEntry, usize)>, StorageEngineError>)
    ensures
        parse_record(data@, pos as int) is End <==> r matches Ok(None),
        parse_record(data@, pos as int) is Truncated <==> r is Err,
        r matches Err(e) ==> e == StorageEngineError::UnexpectedEOF,
        parse_record(data@, pos as int) matches LogParsed::Record(e, next) ==> (r matches Ok(Some(p)) && p.0@ == e && p.1 == next && p.0.ksize == e.key.len() && p.0.vsize == e.value.len()),
{
    let n: usize = data.len();
    if pos >= n {
        return Ok(None);
    }
    if n - pos < 17 {
        return Err(StorageEngineError::UnexpectedEOF);
    }
    let klen: usize = read_u32(data, pos) as usize;
    let vlen: usize = read_u32(data, pos + 4) as usize;
    let room: usize = n - pos - 17;
    if room < klen || room - klen < vlen {
        return Err(StorageEngineError::UnexpectedEOF);
    }
    let bits: u64 = read_u64(data, pos + 8);
    let created_at: i64 = if bits < 0x8000_0000_0000_0000u64 {
        bits as i64
    } else {
        ((bits - 0x8000_0000_0000_0000u64) as i64 - i64::MAX) - 1
    };
    let is_tombstone: bool = data[pos + 16] == 1;
    let key: Vec<u8> = copy_range(data, pos + 17, pos + 17 + klen);
    let value: Vec<u8> = copy_range(data, pos + 17 + klen, pos + 17 + klen + vlen);
    Ok(Some((ValueLogEntry { ksize: klen, vsize: vlen, key, value, created_at, is_tombstone }, pos + 17 + klen + vlen)))
}

/// A stretch of a file with its bytes set to zero, as a punched hole reads;
/// the file keeps its length.
pub open spec fn punched(data: Seq<u8>, offset: int, length: int) -> Seq<u8> {
    Seq::new(data.len(), |i: int| if offset <= i < offset + length { 0u8 } else { data[i] })
}

/// The image of the value log's file.
#[derive(Debug)]
pub struct VLogFileNode {
    pub data: Vec<u8>,
}

impl VLogFileNode {
    /// An empty file.
    pub fn new() -> (f: Self)
        ensures
            f.data@.len() == 0,
    {
        Self { data: Vec::new() }
    }

    /// Appends bytes to the file.
    pub fn write_all(&mut self, bytes: &[u8])
        ensures
            final(self).data@ == old(self).data@ + bytes@,
    {
        append_bytes(&mut self.data, bytes);
    }

    /// The value and the tombstone flag of the record at `start_offset`;
    /// nothing at or beyond the end of the file; `UnexpectedEOF` where the
    /// file ends inside the record.
    pub fn get(&self, start_offset: usize) -> (r: Result<Option<(Vec<u8>, bool)>, StorageEngineError>)
        ensures
            match read_value(self.data@, start_offset as int) {
                Ok(Some(found)) => r matches Ok(Some(p)) && p.0@ == found.0 && p.1 == found.1,
                Ok(None) => r matches Ok(None),
                Err(_) => r matches Err(StorageEngineError::UnexpectedEOF),
            },
    {
        match read_record(self.data.as_slice(), start_offset) {
            Err(_) => Err(StorageEngineError::UnexpectedEOF),
            Ok(None) => Ok(None),
            Ok(Some((entry, _))) => Ok(Some((entry.value, entry.is_tombstone))),
        }
    }

    /// All records from `start_offset` to the end of the file;
    /// `UnexpectedEOF` where the file ends inside a record.
    pub fn recover(&self, start_offset: usize) -> (r: Result<Vec<ValueLogEntry>, StorageEngineError>)
        ensures
            match records_from(self.data@, start_offset as int) {
                Some(records) => r matches Ok(found) && record_views(found@) == records,
                None => r matches Err(StorageEngineError::UnexpectedEOF),
            },
    {
        let mut found: Vec<ValueLogEntry> = Vec::new();
        let mut pos: usize = start_offset;
        let ghost whole = records_from(self.data@, start_offset as int);
        proof {
            assert(record_views(found@) =~= Seq::<LogRecord>::empty());
            match records_from(self.data@, pos as int) {
                Some(rest) => {
                    assert(record_views(found@) + rest =~= rest);
                },
                None => {},
            }
        }
        loop
            invariant
                whole == records_from(self.data@, start_offset as int),
                whole == (match records_from(self.data@, pos as int) {
                    Some(rest) => Some(record_views(found@) + rest),
                    None => None,
                }),
            decreases self.data@.len() - pos,
        {
            match read_record(self.data.as_slice(), pos) {
                Err(_) => {
                    return Err(StorageEngineError::UnexpectedEOF);
                },
                Ok(None) => {
                    proof {
                        assert(record_views(found@) + Seq::<LogRecord>::empty() =~= record_views(found@));
                    }
                    return Ok(found);
                },
                Ok(Some((entry, next))) => {
                    let ghost before = record_views(found@);
                    let ghost e = entry@;
                    found.push(entry);
                    proof {
                        assert(record_views(found@) =~= before.push(e));
                        match records_from(self.data@, next as int) {
                            Some(rest) => {
                                assert(before + (seq![e] + rest) =~= before.push(e) + rest);
                            },
                            None => {},
                        }
                    }
                    pos = next;
                },
            }
        }
    }

    /// The records from `offset` on that a budget of `bytes_to_collect`
    /// bytes covers, and the bytes they take; `UnexpectedEOF` where the file
    /// ends inside a record.
    pub fn read_chunk_to_garbage_collect(&self, bytes_to_collect: usize, offset: usize) -> (r: Result<(Vec<ValueLogEntry>, usize), StorageEngineError>)
        ensures
            match chunk_from(self.data@, offset as int, bytes_to_collect as int) {
                Some(chunk) => r matches Ok(found) && record_views(found.0@) == chunk.0 && found.1 == chunk.1,
                None => r matches Err(StorageEngineError::UnexpectedEOF),
            },
    {
        let mut found: Vec<ValueLogEntry> = Vec::new();
        let mut pos: usize = offset;
        let mut total: usize = 0;
        let ghost whole = chunk_from(self.data@, offset as int, bytes_to_collect as int);
        proof {
            assert(record_views(found@) =~= Seq::<LogRecord>::empty());
            match whole {
                Some(rest) => {
                    assert(record_views(found@) + rest.0 =~= rest.0);
                },
                None => {},
            }
        }
        while total < bytes_to_collect
            invariant
                whole == chunk_from(self.data@, offset as int, bytes_to_collect as int),
                offset <= pos,
                total == pos - offset,
                total > 0 ==> pos <= self.data@.len(),
                whole == (match chunk_from(self.data@, pos as int, bytes_to_collect - total) {
                    Some(rest) => Some((record_views(found@) + rest.0, total + rest.1)),
                    None => None,
                }),
            decreases self.data@.len() - pos,
        {
            match read_record(self.data.as_slice(), pos) {
                Err(_) => {
                    return Err(StorageEngineError::UnexpectedEOF);
                },
                Ok(None) => {
                    proof {
                        assert(record_views(found@) + Seq::<LogRecord>::empty() =~= record_views(found@));
                    }
                    return Ok((found, total));
                },
                Ok(Some((entry, next))) => {
                    let ghost before = record_views(found@);
                    let ghost e = entry@;
                    found.push(entry);
                    proof {
                        assert(record_views(found@) =~= before.push(e));
                        match chunk_from(self.data@, next as int, bytes_to_collect - total - (next - pos)) {
                            Some(rest) => {
                                assert(before + (seq![e] + rest.0) =~= before.push(e) + rest.0);
                            },
                            None => {},
                        }
                    }
                    total = total + (next - pos);
                    pos = next;
                },
            }
        }
        proof {
            assert(record_views(found@) + Seq::<LogRecord>::empty() =~= record_views(found@));
        }
        Ok((found, total))
    }

    /// Sets `length` bytes from `offset` on to zero, as far as the file
    /// reaches; the file keeps its length.
    pub fn punch_holes(&mut self, offset: usize, length: usize)
        ensures
            final(self).data@ == punched(old(self).data@, offset as int, length as int),
    {
        let n: usize = self.data.len();
        let mut i: usize = offset;
        let mut left: usize = length;
        proof {
            assert(self.data@ =~= punched(old(self).data@, offset as int, 0));
        }
        while i < n && left > 0
            invariant
                n == self.data@.len(),
                n == old(self).data@.len(),
                offset <= i,
                i - offset == length - left,
                left <= length,
                self.data@ == punched(old(self).data@, offset as int, i - offset),
            decreases left,
        {
            self.data.set(i, 0u8);
            proof {
                assert(self.data@ =~= punched(old(self).data@, offset as int, i + 1 - offset));
            }
            i += 1;
            left -= 1;
        }
        proof {
            assert(self.data@ =~= punched(old(self).data@, offset as int, length as int));
        }
    }
}

/// A file together with its path.
#[derive(Debug)]
pub struct VFile<F> {
    pub file: F,
    pub path: String,
}

impl<F> VFile<F> {
    /// The file `file` at `path`.
    pub fn new(path: String, file: F) -> (v: Self)
        ensures
            v.path == path,
            v.file == file,
    {
        Self { path, file }
    }
}

/// The value log and the two cursors of its garbage collection: the tail,
/// where the next collection starts to read, and the head, up to which the
/// collector has vouched for the records.
#[derive(Debug)]
pub struct ValueLog {
    pub content: VFile<VLogFileNode>,
    pub head_offset: usize,
    pub tail_offset: usize,
    pub size: usize,
}

impl ValueLog {
    /// The bytes of the log.
    pub open spec fn log(&self) -> Seq<u8> {
        self.content.file.data@
    }

    /// The size counter is the length of the log.
    pub open spec fn wf(&self) -> bool {
        self.size == self.log().len()
    }

    /// The cursors are in order: the tail is at most the head, and the head
    /// at most the size.
    pub open spec fn cursors_in_order(&self) -> bool {
        self.tail_offset <= self.head_offset <= self.size
    }

    /// An empty log, to be stored in the directory `dir`.
    pub fn new(dir: &str) -> (v: Self)
        ensures
            v.wf(),
            v.cursors_in_order(),
            v.log().len() == 0,
            v.head_offset == 0,
            v.tail_offset == 0,
            v.content.path@ == crate::paths::joined(dir@, VLOG_FILE_NAME@),
    {
        let file_path = join_path(dir, VLOG_FILE_NAME);
        Self { head_offset: 0, tail_offset: 0, content: VFile::new(file_path, VLogFileNode::new()), size: 0 }
    }

    /// Appends a record and returns the offset at which it starts, which is
    /// the size of the log before.  A key or a value longer than a four-byte
    /// length can say is refused with `RecordTooLargeError`, and the log
    /// stays as it was.
    pub fn append(&mut self, key: &[u8], value: &[u8], created_at: i64, is_tombstone: bool) -> (r: Result<usize, StorageEngineError>)
        requires
            old(self).wf(),
        ensures
            final(self).wf(),
            final(self).head_offset == old(self).head_offset,
            final(self).tail_offset == old(self).tail_offset,
            final(self).content.path == old(self).content.path,
            r is Err <==> !(LogRecord { key: key@, value: value@, created_at, is_tombstone }).writable(),
            r matches Err(e) ==> e == StorageEngineError::RecordTooLargeError && final(self).log() == old(self).log(),
            r matches Ok(offset) ==> offset == old(self).size && final(self).log() == old(self).log() + (LogRecord { key: key@, value: value@, created_at, is_tombstone }).bytes(),
    {
        if key.len() > u32::MAX as usize || value.len() > u32::MAX as usize {
            return Err(StorageEngineError::RecordTooLargeError);
        }
        let v_log_entry = ValueLogEntry::new(key.len(), value.len(), key, value, created_at, is_tombstone);
        let serialized_data = v_log_entry.serialize();
        let last_offset: usize = self.size;
        self.content.file.write_all(serialized_data.as_slice());
        self.size = self.content.file.data.len();
        Ok(last_offset)
    }

    /// The value and the tombstone flag of the record at `start_offset`;
    /// nothing at or beyond the end of the log; `UnexpectedEOF` where the
    /// log ends inside the record.
    pub fn get(&self, start_offset: usize) -> (r: Result<Option<(Vec<u8>, bool)>, StorageEngineError>)
        ensures
            match read_value(self.log(), start_offset as int) {
                Ok(Some(found)) => r matches Ok(Some(p)) && p.0@ == found.0 && p.1 == found.1,
                Ok(None) => r matches Ok(None),
                Err(_) => r matches Err(StorageEngineError::UnexpectedEOF),
            },
    {
        self.content.file.get(start_offset)
    }

    /// All records from `start_offset` to the end of the log;
    /// `UnexpectedEOF` where the log ends inside a record.
    pub fn recover(&self, start_offset: usize) -> (r: Result<Vec<ValueLogEntry>, StorageEngineError>)
        ensures
            match records_from(self.log(), start_offset as int) {
                Some(records) => r matches Ok(found) && record_views(found@) == records,
                None => r matches Err(StorageEngineError::UnexpectedEOF),
            },
    {
        self.content.file.recover(start_offset)
    }

    /// The records from the tail on that a budget of `bytes_to_collect`
    /// bytes covers, and the bytes they take: records are taken while the
    /// budget is not used up, each of them whole.  `UnexpectedEOF` where the
    /// log ends inside a record.
    pub fn read_chunk_to_garbage_collect(&self, bytes_to_collect: usize) -> (r: Result<(Vec<ValueLogEntry>, usize), StorageEngineError>)
        ensures
            match chunk_from(self.log(), self.tail_offset as int, bytes_to_collect as int) {
                Some(chunk) => r matches Ok(found) && record_views(found.0@) == chunk.0 && found.1 == chunk.1,
                None => r matches Err(StorageEngineError::UnexpectedEOF),
            },
    {
        self.content.file.read_chunk_to_garbage_collect(bytes_to_collect, self.tail_offset)
    }

    /// Empties the log and sets both cursors to its start.
    pub fn clear_all(&mut self)
        ensures
            final(self).wf(),
            final(self).cursors_in_order(),
            final(self).log().len() == 0,
            final(self).tail_offset == 0,
            final(self).head_offset == 0,
            final(self).content.path == old(self).content.path,
    {
        self.content.file.data = Vec::new();
        self.size = 0;
        self.tail_offset = 0;
        self.head_offset = 0;
    }

    /// Sets the head.
    pub fn set_head(&mut self, head: usize)
        ensures
            final(self).head_offset == head,
            final(self).tail_offset == old(self).tail_offset,
            final(self).size == old(self).size,
            final(self).content == old(self).content,
    {
        self.head_offset = head;
    }

    /// Sets the tail.
    pub fn set_tail(&mut self, tail: usize)
        ensures
            final(self).tail_offset == tail,
            final(self).head_offset == old(self).head_offset,
            final(self).size == old(self).size,
            final(self).content == old(self).content,
    {
        self.tail_offset = tail;
    }
}

impl ValueLog {
    /// Whether the size counter is the length of the log.
    pub fn is_valid(&self) -> (ok: bool)
        ensures
            ok == self.wf(),
    {
        self.size == self.content.file.data.len()
    }

    /// Whether the cursors are in order.
    pub fn has_cursors_in_order(&self) -> (ok: bool)
        ensures
            ok == self.cursors_in_order(),
    {
        self.tail_offset <= self.head_offset && self.head_offset <= self.size
    }
}

} // verus!
