//! What holds of every table that is written from sorted records: each record
//! can be read back where the layout puts it, a point read finds every key,
//! and a range read returns exactly the keys between its bounds.
use crate::entry::{lemma_entry_bytes_len, lemma_parse_written, parse_at, EntryView, Parsed};
use crate::err::StorageEngineError;
use crate::keys::{key_le, key_lt, lemma_key_le_lt, lemma_key_lt_total, lemma_key_lt_transitive};
use crate::skip_index::{is_sorted, lists};
use crate::sparse_index::{lookup_offset, range_offsets, upper_offset};
use crate::table_format::{buildable, entries_map, fits_blocks, in_key_range, index_records, offset_of, parse_all, point_read, range_read, scan_get, scan_range, select_range, sparse_index_of, starts_block, table_data};
use vstd::prelude::*;

verus! {

/// Offsets grow with the record number, strictly.
pub proof fn lemma_offset_monotone(entries: Seq<EntryView>, a: int, b: int)
    requires
        0 <= a <= b,
    ensures
        0 <= offset_of(entries, a),
        offset_of(entries, a) + 17 * (b - a) <= offset_of(entries, b),
    decreases b,
{
    if a < b {
        lemma_offset_monotone(entries, a, b - 1);
    } else if a > 0 {
        lemma_offset_monotone(entries, a - 1, a - 1);
    }
}

/// The offset of a record depends on the records before it alone.
pub proof fn lemma_offset_take(entries: Seq<EntryView>, m: int, k: int)
    requires
        0 <= k <= m <= entries.len(),
    ensures
        offset_of(entries.take(m), k) == offset_of(entries, k),
    decreases k,
{
    if k > 0 {
        lemma_offset_take(entries, m, k - 1);
    }
}

/// The data file is as long as the records' sizes together.
pub proof fn lemma_data_len(entries: Seq<EntryView>)
    ensures
        table_data(entries).len() == offset_of(entries, entries.len() as int),
    decreases entries.len(),
{
    let n = entries.len() as int;
    if n > 0 {
        let before = entries.drop_last();
        assert(before =~= entries.take(n - 1));
        lemma_data_len(before);
        lemma_offset_take(entries, n - 1, n - 1);
        lemma_entry_bytes_len(entries.last());
    }
}

/// Writing one more record appends its encoding to the data file.
pub proof fn lemma_data_push(entries: Seq<EntryView>, k: int)
    requires
        0 <= k < entries.len(),
    ensures
        table_data(entries.take(k + 1)) == table_data(entries.take(k)) + entries[k].bytes(),
{
    assert(entries.take(k + 1).drop_last() =~= entries.take(k));
}

/// Each record's encoding stands at the record's offset.
pub proof fn lemma_data_slice(entries: Seq<EntryView>, k: int)
    requires
        0 <= k < entries.len(),
    ensures
        0 <= offset_of(entries, k),
        offset_of(entries, k + 1) <= table_data(entries).len(),
        table_data(entries).subrange(offset_of(entries, k), offset_of(entries, k + 1)) == entries[k].bytes(),
    decreases entries.len(),
{
    let n = entries.len() as int;
    let before = entries.drop_last();
    assert(before =~= entries.take(n - 1));
    lemma_data_len(before);
    lemma_data_len(entries);
    lemma_offset_take(entries, n - 1, n - 1);
    lemma_offset_monotone(entries, k, k + 1);
    lemma_entry_bytes_len(entries.last());
    if k == n - 1 {
        assert(table_data(entries).subrange(offset_of(entries, k), offset_of(entries, k + 1)) =~= entries[k].bytes());
    } else {
        lemma_data_slice(before, k);
        lemma_offset_take(entries, n - 1, k);
        lemma_offset_take(entries, n - 1, k + 1);
        lemma_offset_monotone(entries, k + 1, n - 1);
        assert(table_data(entries).subrange(offset_of(entries, k), offset_of(entries, k + 1)) =~= table_data(before).subrange(
            offset_of(entries, k),
            offset_of(entries, k + 1),
        ));
    }
}

/// Reading at a record's offset gives that record and the next offset.
pub proof fn lemma_parse_record(entries: Seq<EntryView>, k: int)
    requires
        0 <= k < entries.len(),
        fits_blocks(entries),
    ensures
        parse_at(table_data(entries), offset_of(entries, k)) == Parsed::Record(entries[k], offset_of(entries, k + 1)),
{
    lemma_data_slice(entries, k);
    lemma_parse_written(table_data(entries), offset_of(entries, k), entries[k]);
}

/// Reading at the end of the data file finds nothing more.
pub proof fn lemma_parse_end(entries: Seq<EntryView>)
    ensures
        parse_at(table_data(entries), offset_of(entries, entries.len() as int)) == Parsed::End,
{
    lemma_data_len(entries);
}

/// The first record of the block that holds record `j`.
pub open spec fn block_start_of(entries: Seq<EntryView>, j: int) -> int
    decreases j,
{
    if j <= 0 {
        0
    } else if starts_block(entries, j) {
        j
    } else {
        block_start_of(entries, j - 1)
    }
}

/// A block starts at or before each of its records.
pub proof fn lemma_block_start_bounds(entries: Seq<EntryView>, j: int)
    requires
        0 <= j,
    ensures
        0 <= block_start_of(entries, j) <= j,
        starts_block(entries, block_start_of(entries, j)),
    decreases j,
{
    if j > 0 && !starts_block(entries, j) {
        lemma_block_start_bounds(entries, j - 1);
    }
}

/// The last of the first `k` records whose key is at most `key`, or -1.
pub open spec fn last_at_most(entries: Seq<EntryView>, key: Seq<u8>, k: int) -> int
    decreases k,
{
    if k <= 0 {
        -1
    } else if key_le(entries[k - 1].key, key) {
        k - 1
    } else {
        last_at_most(entries, key, k - 1)
    }
}

/// In a sorted table the records up to `last_at_most` are at most the key
/// and those after it are beyond.
pub proof fn lemma_last_at_most(entries: Seq<EntryView>, key: Seq<u8>, k: int)
    requires
        is_sorted(entries),
        0 <= k <= entries.len(),
    ensures
        -1 <= last_at_most(entries, key, k) < k,
        forall|i: int| 0 <= i <= last_at_most(entries, key, k) ==> key_le(#[trigger] entries[i].key, key),
        forall|i: int| last_at_most(entries, key, k) < i < k ==> key_lt(key, #[trigger] entries[i].key),
    decreases k,
{
    if k > 0 {
        let j = last_at_most(entries, key, k);
        lemma_key_le_lt(entries[k - 1].key, key, key);
        if key_le(entries[k - 1].key, key) {
            assert forall|i: int| 0 <= i <= j implies key_le(#[trigger] entries[i].key, key) by {
                if i < k - 1 {
                    assert(key_lt(entries[i].key, entries[k - 1].key));
                    lemma_key_le_lt(entries[i].key, entries[k - 1].key, key);
                }
            }
        } else {
            lemma_last_at_most(entries, key, k - 1);
        }
    }
}

/// Records beyond the key do not change what the sparse index answers.
pub proof fn lemma_lookup_skips_larger(entries: Seq<EntryView>, key: Seq<u8>, j: int, k: int)
    requires
        -1 <= j < k <= entries.len(),
        forall|i: int| j < i < k ==> key_lt(key, #[trigger] entries[i].key),
    ensures
        lookup_offset(index_records(entries, k), key) == lookup_offset(index_records(entries, j + 1), key),
    decreases k,
{
    if k > j + 1 {
        lemma_lookup_skips_larger(entries, key, j, k - 1);
        let before = index_records(entries, k - 1);
        if starts_block(entries, k - 1) {
            let pushed = before.push((entries[k - 1].key, offset_of(entries, k - 1) as u32));
            assert(pushed.drop_last() =~= before);
            assert(key_lt(key, entries[k - 1].key));
            lemma_key_le_lt(entries[k - 1].key, key, key);
        }
    }
}

/// For a key at or beyond record `j`, the sparse index over the records up
/// to `j` answers with the start of the block that holds `j`.
pub proof fn lemma_lookup_within(entries: Seq<EntryView>, key: Seq<u8>, j: int)
    requires
        is_sorted(entries),
        0 <= j < entries.len(),
        key_le(entries[j].key, key),
    ensures
        lookup_offset(index_records(entries, j + 1), key) == Some(offset_of(entries, block_start_of(entries, j)) as u32),
    decreases j,
{
    if !starts_block(entries, j) {
        assert(key_lt(entries[j - 1].key, entries[j].key));
        lemma_key_le_lt(entries[j - 1].key, entries[j].key, key);
        lemma_lookup_within(entries, key, j - 1);
    }
}

/// What the sparse index of a sorted table answers for any key: nothing
/// where the key is before every record, else the start of the block that
/// holds the last record at most the key.
pub proof fn lemma_lookup(entries: Seq<EntryView>, key: Seq<u8>)
    requires
        is_sorted(entries),
    ensures
        lookup_offset(sparse_index_of(entries), key) == (if last_at_most(entries, key, entries.len() as int) < 0 {
            None
        } else {
            Some(offset_of(entries, block_start_of(entries, last_at_most(entries, key, entries.len() as int))) as u32)
        }),
{
    let n = entries.len() as int;
    let j = last_at_most(entries, key, n);
    lemma_last_at_most(entries, key, n);
    lemma_lookup_skips_larger(entries, key, j, n);
    if j >= 0 {
        lemma_lookup_within(entries, key, j);
    }
}

/// Reading from any record at or before record `i` on finds record `i`.
pub proof fn lemma_scan_get_reaches(entries: Seq<EntryView>, j: int, i: int)
    requires
        is_sorted(entries),
        fits_blocks(entries),
        0 <= j <= i < entries.len(),
    ensures
        scan_get(table_data(entries), offset_of(entries, j), entries[i].key) == Ok::<Option<(u32, u64, bool)>, StorageEngineError>(Some(entries[i].value())),
    decreases i - j,
{
    lemma_parse_record(entries, j);
    lemma_offset_monotone(entries, j, j + 1);
    lemma_data_slice(entries, j);
    if j < i {
        assert(key_lt(entries[j].key, entries[i].key));
        lemma_key_lt_total(entries[j].key, entries[i].key);
        lemma_scan_get_reaches(entries, j + 1, i);
    }
}

/// Reading for a key that no record has, from any record at or before the
/// place where it would stand, finds nothing.
pub proof fn lemma_scan_get_misses(entries: Seq<EntryView>, key: Seq<u8>, j: int, last: int)
    requires
        is_sorted(entries),
        fits_blocks(entries),
        0 <= j <= last + 1 <= entries.len(),
        forall|i: int| 0 <= i <= last ==> key_lt(#[trigger] entries[i].key, key),
        forall|i: int| last < i < entries.len() ==> key_lt(key, #[trigger] entries[i].key),
    ensures
        scan_get(table_data(entries), offset_of(entries, j), key) == Ok::<Option<(u32, u64, bool)>, StorageEngineError>(None),
    decreases last + 1 - j,
{
    if j == entries.len() {
        lemma_parse_end(entries);
    } else {
        lemma_parse_record(entries, j);
        lemma_offset_monotone(entries, j, j + 1);
        lemma_data_slice(entries, j);
        lemma_key_lt_total(entries[j].key, key);
        if j <= last {
            assert(key_lt(entries[j].key, key));
            lemma_scan_get_misses(entries, key, j + 1, last);
        } else {
            assert(key_lt(key, entries[j].key));
        }
    }
}

/// Offsets of a table that can be written fit in four bytes.
pub proof fn lemma_offsets_fit(entries: Seq<EntryView>, k: int)
    requires
        buildable(entries),
        0 <= k <= entries.len(),
    ensures
        0 <= offset_of(entries, k) <= u32::MAX,
        (offset_of(entries, k) as u32) as int == offset_of(entries, k),
{
    lemma_offset_monotone(entries, k, entries.len() as int);
}

/// Every key of a table is found: for a table written from the sorted
/// records `entries`, the point-read path returns for the key of each
/// record that record's value offset, creation time and tombstone flag.
pub proof fn lemma_point_read_finds_every_key(entries: Seq<EntryView>, i: int)
    requires
        is_sorted(entries),
        buildable(entries),
        0 <= i < entries.len(),
    ensures
        point_read(table_data(entries), sparse_index_of(entries), entries[i].key) == Ok::<Option<(u32, u64, bool)>, StorageEngineError>(Some(entries[i].value())),
{
    let n = entries.len() as int;
    let key = entries[i].key;
    assert forall|m: int| i < m < n implies key_lt(key, #[trigger] entries[m].key) by {
        assert(key_lt(entries[i].key, entries[m].key));
    }
    lemma_lookup_skips_larger(entries, key, i, n);
    lemma_lookup_within(entries, key, i);
    let b = block_start_of(entries, i);
    lemma_block_start_bounds(entries, i);
    lemma_offsets_fit(entries, b);
    lemma_scan_get_reaches(entries, b, i);
}

/// A key that no record has is not found: for a table written from the
/// sorted records `entries`, the point-read path returns nothing for it.
pub proof fn lemma_point_read_misses_absent_key(entries: Seq<EntryView>, key: Seq<u8>)
    requires
        is_sorted(entries),
        buildable(entries),
        forall|i: int| 0 <= i < entries.len() ==> (#[trigger] entries[i]).key != key,
    ensures
        point_read(table_data(entries), sparse_index_of(entries), key) == Ok::<Option<(u32, u64, bool)>, StorageEngineError>(None),
{
    let n = entries.len() as int;
    let j = last_at_most(entries, key, n);
    lemma_last_at_most(entries, key, n);
    lemma_lookup(entries, key);
    if j >= 0 {
        let b = block_start_of(entries, j);
        lemma_block_start_bounds(entries, j);
        lemma_offsets_fit(entries, b);
        assert forall|i: int| 0 <= i <= j implies key_lt(#[trigger] entries[i].key, key) by {
            assert(key_le(entries[i].key, key));
        }
        lemma_scan_get_misses(entries, key, b, j);
    }
}

/// Adding a block at the end of a sparse index changes the first block
/// beyond a key only where there was none.
pub proof fn lemma_upper_push(records: Seq<(Seq<u8>, u32)>, last: (Seq<u8>, u32), key: Seq<u8>)
    ensures
        upper_offset(records.push(last), key) == (match upper_offset(records, key) {
            Some(o) => Some(o),
            None => if key_lt(key, last.0) {
                Some(last.1)
            } else {
                None
            },
        }),
    decreases records.len(),
{
    let pushed = records.push(last);
    assert(pushed.len() > 0);
    if records.len() == 0 {
        assert(pushed[0] == last);
        assert(pushed.drop_first() =~= Seq::<(Seq<u8>, u32)>::empty());
        assert(upper_offset(pushed.drop_first(), key) is None);
        assert(upper_offset(records, key) is None);
    } else {
        assert(pushed[0] == records[0]);
        assert(pushed.drop_first() =~= records.drop_first().push(last));
        lemma_upper_push(records.drop_first(), last, key);
        if !key_lt(key, records[0].0) {
            assert(upper_offset(pushed, key) == upper_offset(pushed.drop_first(), key));
            assert(upper_offset(records, key) == upper_offset(records.drop_first(), key));
        }
    }
}

/// The first of the first `k` records that starts a block and lies beyond
/// `key`, or -1.
pub open spec fn first_start_beyond(entries: Seq<EntryView>, key: Seq<u8>, k: int) -> int
    decreases k,
{
    if k <= 0 {
        -1
    } else if first_start_beyond(entries, key, k - 1) >= 0 {
        first_start_beyond(entries, key, k - 1)
    } else if starts_block(entries, k - 1) && key_lt(key, entries[k - 1].key) {
        k - 1
    } else {
        -1
    }
}

/// What the sparse index answers as the first block beyond a key.
pub proof fn lemma_upper(entries: Seq<EntryView>, key: Seq<u8>, k: int)
    requires
        0 <= k <= entries.len(),
    ensures
        -1 <= first_start_beyond(entries, key, k) < k,
        upper_offset(index_records(entries, k), key) == (if first_start_beyond(entries, key, k) < 0 {
            None
        } else {
            Some(offset_of(entries, first_start_beyond(entries, key, k)) as u32)
        }),
        first_start_beyond(entries, key, k) >= 0 ==> key_lt(key, entries[first_start_beyond(entries, key, k)].key),
    decreases k,
{
    if k > 0 {
        lemma_upper(entries, key, k - 1);
        if starts_block(entries, k - 1) {
            lemma_upper_push(index_records(entries, k - 1), (entries[k - 1].key, offset_of(entries, k - 1) as u32), key);
        }
    }
}

/// A range read from record `s` up to the offset of a later record `t`
/// returns the records from `s` up to `t`.
pub proof fn lemma_scan_range_upto(entries: Seq<EntryView>, s: int, t: int)
    requires
        fits_blocks(entries),
        0 <= s < t <= entries.len(),
    ensures
        scan_range(table_data(entries), offset_of(entries, s), offset_of(entries, t)) == Ok::<Seq<EntryView>, StorageEngineError>(entries.subrange(s, t)),
    decreases t - s,
{
    lemma_parse_record(entries, s);
    lemma_data_slice(entries, s);
    lemma_offset_monotone(entries, s, s + 1);
    lemma_offset_monotone(entries, s + 1, t);
    if s + 1 == t {
        assert(entries.subrange(s, t) =~= seq![entries[s]]);
    } else {
        lemma_scan_range_upto(entries, s + 1, t);
        assert(entries.subrange(s, t) =~= seq![entries[s]] + entries.subrange(s + 1, t));
    }
}

/// A range read whose end is at or before the end of its first record
/// returns that one record.
pub proof fn lemma_scan_range_one(entries: Seq<EntryView>, s: int, end: int)
    requires
        fits_blocks(entries),
        0 <= s < entries.len(),
        end <= offset_of(entries, s + 1),
    ensures
        scan_range(table_data(entries), offset_of(entries, s), end) == Ok::<Seq<EntryView>, StorageEngineError>(seq![entries[s]]),
{
    lemma_parse_record(entries, s);
}

/// A range read whose end is at or beyond the end of the file returns the
/// records from its start on.
pub proof fn lemma_scan_range_to_end(entries: Seq<EntryView>, s: int, end: int)
    requires
        fits_blocks(entries),
        0 <= s <= entries.len(),
        end >= offset_of(entries, entries.len() as int),
    ensures
        scan_range(table_data(entries), offset_of(entries, s), end) == Ok::<Seq<EntryView>, StorageEngineError>(entries.subrange(s, entries.len() as int)),
    decreases entries.len() - s,
{
    let n = entries.len() as int;
    let data = table_data(entries);
    if s == n {
        lemma_parse_end(entries);
        assert(entries.subrange(s, n) =~= Seq::<EntryView>::empty());
    } else {
        lemma_parse_record(entries, s);
        lemma_data_slice(entries, s);
        lemma_offset_monotone(entries, s, s + 1);
        lemma_offset_monotone(entries, s + 1, n);
        let next = offset_of(entries, s + 1);
        assert(parse_at(data, offset_of(entries, s)) == Parsed::Record(entries[s], next));
        lemma_scan_range_to_end(entries, s + 1, end);
        let rest = entries.subrange(s + 1, n);
        assert(entries.subrange(s, n) =~= seq![entries[s]] + rest);
        if next >= end {
            assert(s + 1 == n);
            assert(rest =~= Seq::<EntryView>::empty());
            assert(seq![entries[s]] + rest =~= seq![entries[s]]);
        }
    }
}

/// Where no record lies between the bounds, none is selected.
pub proof fn lemma_select_none(entries: Seq<EntryView>, lo: Seq<u8>, hi: Seq<u8>)
    requires
        forall|i: int| 0 <= i < entries.len() ==> !in_key_range((#[trigger] entries[i]).key, lo, hi),
    ensures
        select_range(entries, lo, hi) == Seq::<EntryView>::empty(),
    decreases entries.len(),
{
    reveal(Seq::filter);
    if entries.len() > 0 {
        let before = entries.drop_last();
        assert forall|i: int| 0 <= i < before.len() implies !in_key_range((#[trigger] before[i]).key, lo, hi) by {
            assert(before[i] == entries[i]);
        }
        lemma_select_none(before, lo, hi);
        assert(!in_key_range(entries[entries.len() - 1].key, lo, hi));
    } else {
        assert(select_range(entries, lo, hi) =~= Seq::<EntryView>::empty());
    }
}

/// The sparse index of a table with a record begins with the first record
/// at offset 0.
pub proof fn lemma_first_record(entries: Seq<EntryView>, k: int)
    requires
        1 <= k <= entries.len(),
    ensures
        index_records(entries, k).len() >= 1,
        index_records(entries, k)[0] == (entries[0].key, 0u32),
    decreases k,
{
    if k > 1 {
        lemma_first_record(entries, k - 1);
    } else {
        assert(index_records(entries, 0) =~= Seq::<(Seq<u8>, u32)>::empty());
        assert(starts_block(entries, 0));
        assert(offset_of(entries, 0) == 0);
        assert(index_records(entries, 1) =~= seq![(entries[0].key, 0u32)]);
    }
}

/// Where a range read starts: at a record `s` such that every record
/// before it lies before `lo`.
pub proof fn lemma_range_start(entries: Seq<EntryView>, lo: Seq<u8>) -> (s: int)
    requires
        is_sorted(entries),
        buildable(entries),
        entries.len() > 0,
    ensures
        0 <= s < entries.len(),
        offset_of(entries, s) == (match lookup_offset(sparse_index_of(entries), lo) {
            Some(o) => o,
            None => sparse_index_of(entries)[0].1,
        }),
        forall|i: int| 0 <= i < s ==> key_lt(#[trigger] entries[i].key, lo),
{
    let n = entries.len() as int;
    lemma_first_record(entries, n);
    let j = last_at_most(entries, lo, n);
    lemma_last_at_most(entries, lo, n);
    lemma_lookup(entries, lo);
    if j < 0 {
        0
    } else {
        let s = block_start_of(entries, j);
        lemma_block_start_bounds(entries, j);
        lemma_offsets_fit(entries, s);
        assert forall|i: int| 0 <= i < s implies key_lt(#[trigger] entries[i].key, lo) by {
            assert(key_lt(entries[i].key, entries[j].key));
            assert(key_le(entries[j].key, lo));
            lemma_key_le_lt(entries[i].key, entries[j].key, lo);
        }
        s
    }
}

/// What a range read from record `s` returns: the records up to a record
/// `t` such that every record from `t` on lies beyond `hi`.
pub proof fn lemma_range_window(entries: Seq<EntryView>, hi: Seq<u8>, s: int) -> (t: int)
    requires
        is_sorted(entries),
        buildable(entries),
        0 <= s < entries.len(),
    ensures
        s < t <= entries.len(),
        scan_range(
            table_data(entries),
            offset_of(entries, s),
            (match upper_offset(sparse_index_of(entries), hi) {
                Some(o) => o,
                None => u32::MAX,
            }) as int,
        ) == Ok::<Seq<EntryView>, StorageEngineError>(entries.subrange(s, t)),
        forall|i: int| t <= i < entries.len() ==> key_lt(hi, #[trigger] entries[i].key),
{
    let n = entries.len() as int;
    let m = first_start_beyond(entries, hi, n);
    lemma_upper(entries, hi, n);
    if m < 0 {
        lemma_offsets_fit(entries, n);
        lemma_scan_range_to_end(entries, s, u32::MAX as int);
        n
    } else {
        lemma_offsets_fit(entries, m);
        let t = if m > s { m } else { s + 1 };
        if m > s {
            lemma_scan_range_upto(entries, s, m);
        } else {
            lemma_offset_monotone(entries, m, s);
            lemma_offset_monotone(entries, s, s + 1);
            lemma_scan_range_one(entries, s, offset_of(entries, m));
            assert(entries.subrange(s, s + 1) =~= seq![entries[s]]);
        }
        assert forall|i: int| t <= i < n implies key_lt(hi, #[trigger] entries[i].key) by {
            if i > m {
                assert(key_lt(entries[m].key, entries[i].key));
                lemma_key_lt_transitive(hi, entries[m].key, entries[i].key);
            }
        }
        t
    }
}

/// Selecting from a table is selecting from any stretch of it outside of
/// which no key lies between the bounds.
pub proof fn lemma_select_window(entries: Seq<EntryView>, lo: Seq<u8>, hi: Seq<u8>, s: int, t: int)
    requires
        0 <= s <= t <= entries.len(),
        forall|i: int| 0 <= i < s ==> key_lt(#[trigger] entries[i].key, lo),
        forall|i: int| t <= i < entries.len() ==> key_lt(hi, #[trigger] entries[i].key),
    ensures
        select_range(entries, lo, hi) == select_range(entries.subrange(s, t), lo, hi),
{
    let n = entries.len() as int;
    let head = entries.subrange(0, s);
    let found = entries.subrange(s, t);
    let tail = entries.subrange(t, n);
    assert forall|i: int| 0 <= i < head.len() implies !in_key_range((#[trigger] head[i]).key, lo, hi) by {
        assert(key_lt(entries[i].key, lo));
        lemma_key_le_lt(lo, entries[i].key, lo);
    }
    assert forall|i: int| 0 <= i < tail.len() implies !in_key_range((#[trigger] tail[i]).key, lo, hi) by {
        assert(tail[i] == entries[t + i]);
        assert(key_lt(hi, entries[t + i].key));
        lemma_key_le_lt(entries[t + i].key, hi, hi);
    }
    lemma_select_none(head, lo, hi);
    lemma_select_none(tail, lo, hi);
    let pred = |e: EntryView| in_key_range(e.key, lo, hi);
    assert(entries =~= (head + found) + tail);
    Seq::filter_distributes_over_add(head + found, tail, pred);
    Seq::filter_distributes_over_add(head, found, pred);
    assert(select_range(entries, lo, hi) =~= select_range(found, lo, hi));
}

/// A range read returns the keys between its bounds: for a table written
/// from the sorted records `entries` and any bounds `lo` and `hi`, the
/// range-read path returns exactly the records with `lo <= key <= hi`, by
/// ascending key.
pub proof fn lemma_range_read_returns_keys_between(entries: Seq<EntryView>, lo: Seq<u8>, hi: Seq<u8>)
    requires
        is_sorted(entries),
        buildable(entries),
    ensures
        range_read(table_data(entries), sparse_index_of(entries), lo, hi) == Ok::<Seq<EntryView>, StorageEngineError>(select_range(entries, lo, hi)),
        is_sorted(select_range(entries, lo, hi)),
{
    let n = entries.len() as int;
    let data = table_data(entries);
    let records = sparse_index_of(entries);
    let offsets = range_offsets(records, lo, hi);
    lemma_select_sorted(entries, lo, hi);
    if n == 0 {
        lemma_data_len(entries);
        assert(records =~= Seq::<(Seq<u8>, u32)>::empty());
        assert(offsets.start_offset == 0);
        assert(parse_at(data, 0) == Parsed::End);
        assert(scan_range(data, 0, offsets.end_offset as int) == Ok::<Seq<EntryView>, StorageEngineError>(Seq::<EntryView>::empty()));
        assert(entries =~= Seq::<EntryView>::empty());
        assert(select_range(Seq::<EntryView>::empty(), lo, hi) =~= Seq::<EntryView>::empty()) by {
            reveal(Seq::filter);
        }
    } else {
        lemma_first_record(entries, n);
        let s = lemma_range_start(entries, lo);
        let t = lemma_range_window(entries, hi, s);
        lemma_select_window(entries, lo, hi, s, t);
        lemma_offsets_fit(entries, s);
        assert(offsets.start_offset as int == offset_of(entries, s));
        assert(scan_range(data, offsets.start_offset as int, offsets.end_offset as int) == Ok::<Seq<EntryView>, StorageEngineError>(entries.subrange(s, t)));
    }
}

/// Selecting from sorted records leaves them sorted.
pub proof fn lemma_select_sorted(entries: Seq<EntryView>, lo: Seq<u8>, hi: Seq<u8>)
    requires
        is_sorted(entries),
    ensures
        is_sorted(select_range(entries, lo, hi)),
        forall|i: int| 0 <= i < select_range(entries, lo, hi).len() ==> entries.contains(#[trigger] select_range(entries, lo, hi)[i]),
    decreases entries.len(),
{
    reveal(Seq::filter);
    let sel = select_range(entries, lo, hi);
    if entries.len() > 0 {
        let before = entries.drop_last();
        let last = entries.last();
        assert forall|i: int, j: int| 0 <= i < j < before.len() implies key_lt(#[trigger] before[i].key, #[trigger] before[j].key) by {
            assert(key_lt(entries[i].key, entries[j].key));
        }
        lemma_select_sorted(before, lo, hi);
        let sel_before = select_range(before, lo, hi);
        assert forall|i: int| 0 <= i < sel.len() implies entries.contains(#[trigger] sel[i]) by {
            if i < sel_before.len() {
                assert(before.contains(sel_before[i]));
                let w = choose|w: int| 0 <= w < before.len() && before[w] == sel_before[i];
                assert(entries[w] == sel[i]);
            } else {
                assert(entries[entries.len() - 1] == sel[i]);
            }
        }
        assert forall|i: int, j: int| 0 <= i < j < sel.len() implies key_lt(#[trigger] sel[i].key, #[trigger] sel[j].key) by {
            if j < sel_before.len() {
                assert(key_lt(sel_before[i].key, sel_before[j].key));
            } else {
                assert(before.contains(sel_before[i]));
                let w = choose|w: int| 0 <= w < before.len() && before[w] == sel_before[i];
                assert(key_lt(entries[w].key, entries[entries.len() - 1].key));
            }
        }
    }
}

/// All records of a written data file can be read back from any record on.
pub proof fn lemma_parse_all_from(entries: Seq<EntryView>, s: int)
    requires
        fits_blocks(entries),
        0 <= s <= entries.len(),
    ensures
        parse_all(table_data(entries), offset_of(entries, s)) == Some(entries.subrange(s, entries.len() as int)),
    decreases entries.len() - s,
{
    let n = entries.len() as int;
    if s == n {
        lemma_parse_end(entries);
        assert(entries.subrange(s, n) =~= Seq::<EntryView>::empty());
    } else {
        lemma_parse_record(entries, s);
        lemma_data_slice(entries, s);
        lemma_offset_monotone(entries, s, s + 1);
        lemma_parse_all_from(entries, s + 1);
        assert(entries.subrange(s, n) =~= seq![entries[s]] + entries.subrange(s + 1, n));
    }
}

/// Inserting the records of a sorted listing in order builds the map that
/// the listing lists.
pub proof fn lemma_entries_map_of_listing(entries: Seq<EntryView>, index: Map<Seq<u8>, (u32, u64, bool)>)
    requires
        lists(entries, index),
    ensures
        entries_map(entries) == index,
    decreases entries.len(),
{
    crate::skip_index::lemma_listing_empty(entries, index);
    if entries.len() == 0 {
        assert(index =~= Map::<Seq<u8>, (u32, u64, bool)>::empty());
    } else {
        let last = entries.last();
        crate::skip_index::lemma_listing_drop_last(entries, index);
        lemma_entries_map_of_listing(entries.drop_last(), index.remove(last.key));
        assert(index.contains_pair(entries[entries.len() - 1].key, entries[entries.len() - 1].value()));
        assert(index.remove(last.key).insert(last.key, last.value()) =~= index);
    }
}

/// Recovery restores a table: reading back the data file written from the
/// sorted listing of an index gives the records of that listing, and
/// inserting them in order gives the index again.
pub proof fn lemma_recovery_restores_index(entries: Seq<EntryView>, index: Map<Seq<u8>, (u32, u64, bool)>)
    requires
        lists(entries, index),
        fits_blocks(entries),
    ensures
        parse_all(table_data(entries), 0) == Some(entries),
        entries_map(entries) == index,
{
    lemma_parse_all_from(entries, 0);
    assert(entries.subrange(0, entries.len() as int) =~= entries);
    lemma_entries_map_of_listing(entries, index);
}

} // verus!
