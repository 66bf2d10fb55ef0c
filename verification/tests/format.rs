use lsm_store::clock::{creation_stamp, stamp_from_millis};
use lsm_store::codec::{put_u32, put_u64, read_u32, read_u64};
use lsm_store::entry::{append_bytes, bytes_to_vec, copy_range, read_entry, Entry};
use lsm_store::err::StorageEngineError;
use lsm_store::keys::{key_order, KeyOrder};
use lsm_store::paths::{data_file_name, index_file_name, join_path};
use lsm_store::sparse_index::{RangeOffset, SparseIndex};
use lsm_store::utils::generate_random_id;

#[test]
fn u32_is_written_little_endian() {
    let mut buf = vec![9u8];
    put_u32(&mut buf, 0x0102_0304);
    assert_eq!(buf, vec![9, 4, 3, 2, 1]);
    assert_eq!(read_u32(&buf, 1), 0x0102_0304);
}

#[test]
fn u64_is_written_little_endian() {
    let mut buf = Vec::new();
    put_u64(&mut buf, 0x0102_0304_0506_0708);
    assert_eq!(buf, vec![8, 7, 6, 5, 4, 3, 2, 1]);
    assert_eq!(read_u64(&buf, 0), 0x0102_0304_0506_0708);
    let mut max = Vec::new();
    put_u64(&mut max, u64::MAX);
    assert_eq!(max, vec![255u8; 8]);
    assert_eq!(read_u64(&max, 0), u64::MAX);
}

#[test]
fn byte_helpers_copy_what_they_are_given() {
    assert_eq!(bytes_to_vec(b"abc"), b"abc".to_vec());
    let mut buf = b"ab".to_vec();
    append_bytes(&mut buf, b"cd");
    assert_eq!(buf, b"abcd".to_vec());
    assert_eq!(copy_range(b"abcdef", 2, 5), b"cde".to_vec());
    assert_eq!(copy_range(b"abcdef", 3, 3), Vec::<u8>::new());
}

#[test]
fn keys_are_ordered_byte_by_byte() {
    assert_eq!(key_order(b"abc", b"abd"), KeyOrder::Less);
    assert_eq!(key_order(b"abd", b"abc"), KeyOrder::Greater);
    assert_eq!(key_order(b"abc", b"abc"), KeyOrder::Equal);
    assert_eq!(key_order(b"ab", b"abc"), KeyOrder::Less);
    assert_eq!(key_order(b"abc", b"ab"), KeyOrder::Greater);
    assert_eq!(key_order(b"", b""), KeyOrder::Equal);
    assert_eq!(key_order(b"", b"a"), KeyOrder::Less);
    assert_eq!(key_order(&[0xff], &[0x01, 0x02]), KeyOrder::Greater);
}

#[test]
fn entry_is_encoded_field_by_field() {
    let e = Entry::new(b"key".to_vec(), 0x0a0b_0c0d, 0x1122_3344_5566_7788, true);
    let mut buf = Vec::new();
    e.write_to(&mut buf);
    let expected: Vec<u8> = vec![
        3, 0, 0, 0, b'k', b'e', b'y', 0x0d, 0x0c, 0x0b, 0x0a, 0x88, 0x77, 0x66, 0x55, 0x44, 0x33, 0x22, 0x11, 1,
    ];
    assert_eq!(buf, expected);
    assert_eq!(buf.len(), 3 + 17);
}

#[test]
fn entry_is_read_back() {
    let mut buf = vec![0xaa, 0xbb];
    Entry::new(b"k1".to_vec(), 7, 99, false).write_to(&mut buf);
    Entry::new(b"k2".to_vec(), 8, 100, true).write_to(&mut buf);
    let (first, next) = read_entry(&buf, 2).unwrap().unwrap();
    assert_eq!(first.key, b"k1".to_vec());
    assert_eq!(first.val_offset, 7);
    assert_eq!(first.created_at, 99);
    assert!(!first.is_tombstone);
    assert_eq!(next, 2 + 19);
    let (second, end) = read_entry(&buf, next).unwrap().unwrap();
    assert_eq!(second.key, b"k2".to_vec());
    assert_eq!(second.val_offset, 8);
    assert!(second.is_tombstone);
    assert_eq!(end, buf.len());
    assert!(read_entry(&buf, end).unwrap().is_none());
    assert!(read_entry(&buf, end + 10).unwrap().is_none());
}

#[test]
fn entry_cut_short_is_unexpected_eof() {
    let mut buf = Vec::new();
    Entry::new(b"key".to_vec(), 1, 2, false).write_to(&mut buf);
    for cut in 1..buf.len() {
        let r = read_entry(&buf[..cut], 0);
        assert!(matches!(r, Err(StorageEngineError::UnexpectedEOF)));
    }
    assert!(read_entry(&buf[..0], 0).unwrap().is_none());
}

#[test]
fn tombstone_byte_other_than_one_is_no_tombstone() {
    let mut buf = Vec::new();
    Entry::new(b"k".to_vec(), 1, 2, true).write_to(&mut buf);
    let last = buf.len() - 1;
    buf[last] = 2;
    let (e, _) = read_entry(&buf, 0).unwrap().unwrap();
    assert!(!e.is_tombstone);
}

#[test]
fn entry_duplicate_is_equal() {
    let e = Entry::new(b"key".to_vec(), 5, 6, true);
    let d = e.duplicate();
    assert_eq!(d.key, e.key);
    assert_eq!(d.val_offset, 5);
    assert_eq!(d.created_at, 6);
    assert!(d.is_tombstone);
}

#[test]
fn file_names_carry_the_creation_time() {
    assert_eq!(data_file_name(1700000000123), "sstable_1700000000123_.db");
    assert_eq!(index_file_name(1700000000123), "index_1700000000123_.db");
    assert_eq!(data_file_name(0), "sstable_0_.db");
    assert_eq!(index_file_name(u64::MAX), "index_18446744073709551615_.db");
    assert_eq!(join_path("store", "VLOG"), "store/VLOG");
    assert_eq!(join_path("", "x"), "/x");
}

#[test]
fn sparse_index_finds_the_block_of_a_key() {
    let mut index = SparseIndex::new("i".to_string());
    index.insert(1, b"b".to_vec(), 0);
    index.insert(1, b"f".to_vec(), 100);
    index.insert(1, b"m".to_vec(), 200);
    assert_eq!(index.get(b"a"), None);
    assert_eq!(index.get(b"b"), Some(0));
    assert_eq!(index.get(b"c"), Some(0));
    assert_eq!(index.get(b"f"), Some(100));
    assert_eq!(index.get(b"g"), Some(100));
    assert_eq!(index.get(b"z"), Some(200));
    assert_eq!(SparseIndex::new("e".to_string()).get(b"a"), None);
}

#[test]
fn sparse_index_gives_the_blocks_of_a_range() {
    let mut index = SparseIndex::new("i".to_string());
    index.insert(1, b"b".to_vec(), 0);
    index.insert(1, b"f".to_vec(), 100);
    index.insert(1, b"m".to_vec(), 200);
    assert_eq!(index.get_block_offset_range(b"c", b"g"), RangeOffset { start_offset: 0, end_offset: 200 });
    assert_eq!(index.get_block_offset_range(b"g", b"z"), RangeOffset { start_offset: 100, end_offset: u32::MAX });
    assert_eq!(index.get_block_offset_range(b"a", b"a"), RangeOffset { start_offset: 0, end_offset: 0 });
    assert_eq!(index.get_block_offset_range(b"f", b"f"), RangeOffset { start_offset: 100, end_offset: 200 });
    let empty = SparseIndex::new("e".to_string());
    assert_eq!(empty.get_block_offset_range(b"a", b"b"), RangeOffset { start_offset: 0, end_offset: u32::MAX });
}

#[test]
fn sparse_index_file_round_trip() {
    let mut index = SparseIndex::new("i".to_string());
    index.insert(2, b"ab".to_vec(), 0);
    index.insert(1, b"x".to_vec(), 0x0102_0304);
    let bytes = index.write_to_file();
    assert_eq!(bytes, vec![2, 0, 0, 0, b'a', b'b', 0, 0, 0, 0, 1, 0, 0, 0, b'x', 4, 3, 2, 1]);
    let back = SparseIndex::from_bytes("j".to_string(), &bytes).unwrap();
    assert_eq!(back.file_path, "j");
    assert_eq!(back.entries.len(), 2);
    assert_eq!(back.entries[0].key, b"ab".to_vec());
    assert_eq!(back.entries[0].key_prefix, 2);
    assert_eq!(back.entries[0].offset, 0);
    assert_eq!(back.entries[1].key, b"x".to_vec());
    assert_eq!(back.entries[1].offset, 0x0102_0304);
    for cut in 1..bytes.len() {
        if cut == 10 {
            assert_eq!(SparseIndex::from_bytes("j".to_string(), &bytes[..cut]).unwrap().entries.len(), 1);
        } else {
            assert!(matches!(SparseIndex::from_bytes("j".to_string(), &bytes[..cut]), Err(StorageEngineError::UnexpectedEOF)));
        }
    }
    assert_eq!(SparseIndex::from_bytes("j".to_string(), &[]).unwrap().entries.len(), 0);
}

#[test]
fn random_id_has_the_length_asked_for() {
    for length in [0usize, 1, 8, 40] {
        let id = generate_random_id(length);
        assert_eq!(id.chars().count(), length);
        assert!(id.chars().all(|c| c.is_ascii_alphanumeric()));
    }
    assert_ne!(generate_random_id(32), generate_random_id(32));
}

#[test]
fn degraded_errors_are_the_lost_notifications() {
    assert!(StorageEngineError::FlushSignalOverflowError.degraded());
    assert!(StorageEngineError::FlushSignalClosedError.degraded());
    assert!(!StorageEngineError::UnexpectedEOF.degraded());
    assert!(!StorageEngineError::BlockIsFullError.degraded());
    assert!(!StorageEngineError::FailedToInsertToBucket("x".to_string()).degraded());
}

#[test]
fn creation_stamp_is_the_clock_reading_or_zero() {
    assert_eq!(stamp_from_millis(0), 0);
    assert_eq!(stamp_from_millis(1_700_000_000_123), 1_700_000_000_123);
    assert_eq!(stamp_from_millis(i64::MAX), i64::MAX as u64);
    assert_eq!(stamp_from_millis(-1), 0);
    assert_eq!(stamp_from_millis(i64::MIN), 0);
    let first = creation_stamp();
    let second = creation_stamp();
    // later than 2020-01-01, in milliseconds, and within what a reading can be
    assert!(first > 1_577_836_800_000);
    assert!(first <= i64::MAX as u64);
    assert!(second >= first);
}
