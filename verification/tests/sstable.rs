use lsm_store::block::{Block, BLOCK_SIZE};
use lsm_store::entry::Entry;
use lsm_store::err::StorageEngineError;
use lsm_store::filter::BloomFilter;
use lsm_store::memtable::InMemoryTable;
use lsm_store::sparse_index::RangeOffset;
use lsm_store::sst::{ProvideSizeInBytes, SSTable, SSTablePath};
use std::cmp::Ordering;

fn key_of(i: u32) -> Vec<u8> {
    format!("key{:05}", i).into_bytes()
}

fn table_of(count: u32) -> SSTable {
    let mut records = Vec::new();
    // entered out of order: the index sorts them
    for i in (0..count).rev() {
        records.push(Entry::new(key_of(i * 2), i * 3, 1000 + i as u64, i % 7 == 0));
    }
    let memtable = InMemoryTable::from_records(&records, BloomFilter::new(0, 0, Vec::new()));
    let mut table = SSTable::with_timestamp("dir".to_string(), 42);
    table.set_entries(memtable.get_index());
    table
}

#[test]
fn table_paths_are_named_after_the_creation_time() {
    let table = SSTable::with_timestamp("store/bucketx".to_string(), 1234);
    assert_eq!(table.data_file_path, "store/bucketx/sstable_1234_.db");
    assert_eq!(table.index_file_path, "store/bucketx/index_1234_.db");
    assert_eq!(table.sstable_dir, "store/bucketx");
    assert_eq!(table.created_at, 1234);
    assert_eq!(table.size(), 0);
    assert_eq!(table.get_path(), "store/bucketx/sstable_1234_.db");
    assert!(table.entries.is_empty());
}

#[test]
fn new_table_is_stamped_with_the_present_time() {
    let table = SSTable::new("d".to_string());
    // later than 2020-01-01, in milliseconds
    assert!(table.created_at > 1_577_836_800_000);
    assert_eq!(table.data_file_path, format!("d/sstable_{}_.db", table.created_at));
    assert_eq!(table.index_file_path, format!("d/index_{}_.db", table.created_at));
    let existing = SSTable::new_with_exisiting_file_path("d".to_string(), "d/a.db".to_string(), "d/b.db".to_string());
    assert_eq!(existing.data_file_path, "d/a.db");
    assert_eq!(existing.index_file_path, "d/b.db");
    assert_eq!(existing.size, 0);
}

#[test]
fn empty_table_has_no_smallest_or_biggest_key() {
    let table = SSTable::with_timestamp("d".to_string(), 1);
    assert!(matches!(table.find_biggest_key(), Err(StorageEngineError::BiggestKeyIndexError)));
    assert!(matches!(table.find_smallest_key(), Err(StorageEngineError::LowestKeyIndexError)));
}

#[test]
fn smallest_and_biggest_key_are_found() {
    let table = table_of(10);
    assert_eq!(table.find_smallest_key().unwrap(), key_of(0));
    assert_eq!(table.find_biggest_key().unwrap(), key_of(18));
    assert_eq!(table.get_value_from_entries(&key_of(4)), Some((6, 1002, false)));
    assert_eq!(table.get_value_from_entries(&key_of(5)), None);
}

#[test]
fn size_is_the_sum_of_the_encoded_records() {
    let table = table_of(10);
    assert_eq!(table.size(), 10 * (8 + 17));
    assert_eq!(ProvideSizeInBytes::size(&table), 250);
    let image = table.write_to_file().unwrap();
    assert_eq!(image.data.len(), 250);
}

#[test]
fn every_key_is_found_by_a_point_read() {
    let count = 1000;
    let table = table_of(count);
    let image = table.write_to_file().unwrap();
    assert_eq!(image.data.len() as u32, count * 25);
    assert_eq!(image.sparse_index.file_path, "dir/index_42_.db");
    for i in 0..count {
        let key = key_of(i * 2);
        let start = image.sparse_index.get(&key).unwrap();
        let found = SSTable::get(&image.data, start, &key).unwrap();
        assert_eq!(found, Some((i * 3, 1000 + i as u64, i % 7 == 0)));
        // also from the start of the file
        assert_eq!(SSTable::get(&image.data, 0, &key).unwrap(), found);
    }
}

#[test]
fn absent_key_is_not_found() {
    let table = table_of(400);
    let image = table.write_to_file().unwrap();
    for i in 0..400 {
        let key = key_of(i * 2 + 1);
        let start = image.sparse_index.get(&key).unwrap();
        assert_eq!(SSTable::get(&image.data, start, &key).unwrap(), None);
    }
    assert_eq!(image.sparse_index.get(b"a"), None);
    assert_eq!(SSTable::get(&image.data, 0, b"a").unwrap(), None);
    assert_eq!(SSTable::get(&image.data, 0, b"zzz").unwrap(), None);
    assert_eq!(SSTable::get(&image.data, image.data.len() as u32, &key_of(0)).unwrap(), None);
    assert_eq!(SSTable::get(&image.data, u32::MAX, &key_of(0)).unwrap(), None);
}

#[test]
fn point_read_stops_at_a_larger_key() {
    // a file that is not sorted: the read gives up at the first larger key
    let mut data = Vec::new();
    Entry::new(b"b".to_vec(), 1, 1, false).write_to(&mut data);
    Entry::new(b"a".to_vec(), 2, 2, false).write_to(&mut data);
    assert_eq!(SSTable::get(&data, 0, b"a").unwrap(), None);
    assert_eq!(SSTable::get(&data, 18, b"a").unwrap(), Some((2, 2, false)));
}

#[test]
fn sparse_index_has_one_record_per_block() {
    let table = table_of(1000);
    let image = table.write_to_file().unwrap();
    // 163 records of 25 bytes fill a block of 4096 bytes
    let per_block = BLOCK_SIZE / 25;
    assert_eq!(per_block, 163);
    let blocks = (1000 + per_block - 1) / per_block;
    assert_eq!(image.sparse_index.entries.len(), blocks);
    for (b, record) in image.sparse_index.entries.iter().enumerate() {
        assert_eq!(record.offset as usize, b * per_block * 25);
        assert_eq!(record.key, key_of((b * per_block) as u32 * 2));
        assert_eq!(record.key_prefix, 8);
    }
}

#[test]
fn range_read_returns_the_keys_between_the_bounds() {
    let table = table_of(1000);
    let image = table.write_to_file().unwrap();
    let cases: Vec<(u32, u32)> = vec![(0, 0), (3, 9), (100, 700), (325, 327), (1998, 1998), (1990, 5000), (0, 5000), (651, 653)];
    for (lo, hi) in cases {
        let lo_key = key_of(lo);
        let hi_key = key_of(hi);
        let offsets = image.sparse_index.get_block_offset_range(&lo_key, &hi_key);
        let read = SSTable::range(&image.data, offsets).unwrap();
        let kept = SSTable::select_key_range(&read, &lo_key, &hi_key);
        let expected: Vec<Vec<u8>> = (0..1000u32).map(|i| i * 2).filter(|k| lo <= *k && *k <= hi).map(key_of).collect();
        let got: Vec<Vec<u8>> = kept.iter().map(|e| e.key.clone()).collect();
        assert_eq!(got, expected);
        for e in kept.iter() {
            assert!(read.iter().any(|r| r.key == e.key && r.val_offset == e.val_offset));
        }
    }
    // bounds before the first key
    let offsets = image.sparse_index.get_block_offset_range(b"a", b"b");
    let read = SSTable::range(&image.data, offsets).unwrap();
    assert!(SSTable::select_key_range(&read, b"a", b"b").is_empty());
}

#[test]
fn range_read_takes_whole_records_up_to_the_end_offset() {
    let table = table_of(10);
    let image = table.write_to_file().unwrap();
    let all = SSTable::range(&image.data, RangeOffset { start_offset: 0, end_offset: u32::MAX }).unwrap();
    assert_eq!(all.len(), 10);
    let three = SSTable::range(&image.data, RangeOffset { start_offset: 25, end_offset: 76 }).unwrap();
    assert_eq!(three.len(), 3);
    assert_eq!(three[0].key, key_of(2));
    assert_eq!(three[2].key, key_of(6));
    let two = SSTable::range(&image.data, RangeOffset { start_offset: 25, end_offset: 75 }).unwrap();
    assert_eq!(two.len(), 2);
    // the first record is read even where the end lies before the start
    let one = SSTable::range(&image.data, RangeOffset { start_offset: 50, end_offset: 0 }).unwrap();
    assert_eq!(one.len(), 1);
    assert_eq!(one[0].key, key_of(4));
    let none = SSTable::range(&image.data, RangeOffset { start_offset: 250, end_offset: 300 }).unwrap();
    assert!(none.is_empty());
}

#[test]
fn reads_of_a_file_cut_short_are_unexpected_eof() {
    let table = table_of(4);
    let image = table.write_to_file().unwrap();
    let cut = &image.data[..image.data.len() - 1];
    assert!(matches!(SSTable::get(cut, 0, &key_of(6)), Err(StorageEngineError::UnexpectedEOF)));
    assert_eq!(SSTable::get(cut, 0, &key_of(2)).unwrap(), Some((3, 1001, false)));
    assert!(matches!(SSTable::range(cut, RangeOffset { start_offset: 0, end_offset: u32::MAX }), Err(StorageEngineError::UnexpectedEOF)));
    assert!(matches!(
        SSTable::from_file("d".to_string(), "a".to_string(), "b".to_string(), Some(cut)),
        Err(StorageEngineError::UnexpectedEOF)
    ));
}

#[test]
fn table_is_rebuilt_from_its_data_file() {
    let table = table_of(300);
    let image = table.write_to_file().unwrap();
    let back = SSTable::from_file("d".to_string(), "d/data".to_string(), "d/index".to_string(), Some(&image.data)).unwrap().unwrap();
    assert_eq!(back.entries.len(), 300);
    assert_eq!(back.size, image.data.len());
    assert_eq!(back.data_file_path, "d/data");
    assert_eq!(back.index_file_path, "d/index");
    assert_eq!(back.sstable_dir, "d");
    for i in 0..300u32 {
        assert_eq!(back.get_value_from_entries(&key_of(i * 2)), Some((i * 3, 1000 + i as u64, i % 7 == 0)));
    }
    let again = back.write_to_file().unwrap();
    assert_eq!(again.data, image.data);
    assert!(SSTable::from_file("d".to_string(), "a".to_string(), "b".to_string(), None).unwrap().is_none());
    let empty = SSTable::from_file("d".to_string(), "a".to_string(), "b".to_string(), Some(&[])).unwrap().unwrap();
    assert!(empty.entries.is_empty());
}

#[test]
fn later_record_replaces_an_earlier_one_with_the_same_key() {
    let mut data = Vec::new();
    Entry::new(b"a".to_vec(), 1, 1, false).write_to(&mut data);
    Entry::new(b"a".to_vec(), 2, 2, true).write_to(&mut data);
    let table = SSTable::from_file("d".to_string(), "a".to_string(), "b".to_string(), Some(&data)).unwrap().unwrap();
    assert_eq!(table.entries.len(), 1);
    assert_eq!(table.get_value_from_entries(b"a"), Some((2, 2, true)));
    assert_eq!(table.size, 36);
}

#[test]
fn empty_table_is_written_as_empty_files() {
    let table = SSTable::with_timestamp("d".to_string(), 1);
    let image = table.write_to_file().unwrap();
    assert!(image.data.is_empty());
    assert!(image.sparse_index.entries.is_empty());
    assert!(image.sparse_index.write_to_file().is_empty());
}

#[test]
fn record_too_large_for_a_block_is_refused() {
    let fits = vec![Entry::new(vec![7u8; BLOCK_SIZE - 17], 1, 1, false)];
    let memtable = InMemoryTable::from_records(&fits, BloomFilter::new(0, 0, Vec::new()));
    let mut table = SSTable::with_timestamp("d".to_string(), 1);
    table.set_entries(memtable.get_index());
    assert_eq!(table.write_to_file().unwrap().data.len(), BLOCK_SIZE);

    let too_large = vec![Entry::new(b"a".to_vec(), 1, 1, false), Entry::new(vec![7u8; BLOCK_SIZE - 16], 1, 1, false)];
    let memtable = InMemoryTable::from_records(&too_large, BloomFilter::new(0, 0, Vec::new()));
    table.set_entries(memtable.get_index());
    assert!(matches!(table.write_to_file(), Err(StorageEngineError::BlockIsFullError)));
}

#[test]
fn block_refuses_what_does_not_fit() {
    let mut block = Block::new();
    assert!(block.get_first_key().is_none());
    assert!(!block.is_full(BLOCK_SIZE));
    assert!(block.is_full(BLOCK_SIZE + 1));
    block.set_entry(b"first", 1, 2, false).unwrap();
    assert_eq!(block.data.len(), 22);
    assert_eq!(block.entries_length, 1);
    assert!(!block.is_full(BLOCK_SIZE - 22));
    assert!(block.is_full(BLOCK_SIZE - 21));
    block.set_entry(&vec![1u8; BLOCK_SIZE - 22 - 17], 1, 2, false).unwrap();
    assert_eq!(block.data.len(), BLOCK_SIZE);
    assert!(matches!(block.set_entry(b"", 1, 2, false), Err(StorageEngineError::BlockIsFullError)));
    assert_eq!(block.data.len(), BLOCK_SIZE);
    assert_eq!(block.entries_length, 2);
    assert_eq!(block.get_first_key().unwrap(), b"first".to_vec());
    let mut file = vec![1u8];
    block.write_to_file(&mut file);
    assert_eq!(file.len(), BLOCK_SIZE + 1);
    assert_eq!(&file[1..], &block.data[..]);
}

#[test]
fn write_block_enters_the_first_key_at_the_offset() {
    let mut block = Block::new();
    block.set_entry(b"k", 1, 2, false).unwrap();
    let mut file = vec![0u8; 10];
    let mut index = lsm_store::sparse_index::SparseIndex::new("i".to_string());
    SSTable::write_block(&mut file, &block, &mut index).unwrap();
    assert_eq!(file.len(), 28);
    assert_eq!(index.entries.len(), 1);
    assert_eq!(index.entries[0].offset, 10);
    assert_eq!(index.entries[0].key, b"k".to_vec());
    assert_eq!(index.entries[0].key_prefix, 1);
}

#[test]
fn offsets_are_compared() {
    assert_eq!(SSTable::compare_offsets(1, 2), Ordering::Less);
    assert_eq!(SSTable::compare_offsets(2, 2), Ordering::Equal);
    assert_eq!(SSTable::compare_offsets(3, 2), Ordering::Greater);
}

#[test]
fn table_path_counts_its_uses() {
    let mut path = SSTablePath::new("d".to_string(), "d/a".to_string(), "d/b".to_string());
    assert_eq!(path.get_hotness(), 0);
    assert_eq!(path.size, 0);
    path.increase_hotness();
    path.increase_hotness();
    assert_eq!(path.get_hotness(), 2);
    assert_eq!(path.get_data_file_path(), "d/a");
    assert_eq!(path.get_path(), "d/a");
    path.hotness = u64::MAX;
    path.increase_hotness();
    assert_eq!(path.get_hotness(), u64::MAX);
    let copy = path.clone();
    assert_eq!(copy.index_file_path, "d/b");
    assert_eq!(copy.hotness, u64::MAX);
}

#[test]
fn shared_index_is_the_same_index() {
    let table = table_of(3);
    let shared = table.get_entries();
    assert_eq!(shared.len(), 3);
    assert!(std::sync::Arc::ptr_eq(&shared, &table.entries));
}
