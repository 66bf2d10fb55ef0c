use lsm_store::entry::Entry;
use lsm_store::err::StorageEngineError;
use lsm_store::filter::{sort_by_hotness, BloomFilter};
use lsm_store::flusher::{signal_error, BroadcastOutcome, FlushResponse, Flusher, FLUSH_SIGNAL};
use lsm_store::key_range::KeyRange;
use lsm_store::memtable::InMemoryTable;
use lsm_store::sst::{SSTable, SSTablePath};
use lsm_store::v_log::ValueLog;

fn path(name: &str, hotness: u64) -> SSTablePath {
    let mut p = SSTablePath::new("d".to_string(), format!("d/{}", name), format!("d/{}.index", name));
    p.hotness = hotness;
    p
}

fn filter_for(name: &str, hotness: u64) -> BloomFilter {
    let mut f = BloomFilter::new(3, 10, vec![true, false]);
    f.set_sstable_path(path(name, hotness));
    f
}

fn table_of(keys: &[&[u8]]) -> InMemoryTable {
    let records: Vec<Entry> = keys.iter().enumerate().map(|(i, k)| Entry::new(k.to_vec(), i as u32, 5, false)).collect();
    InMemoryTable::from_records(&records, BloomFilter::new(2, keys.len(), vec![true, true, false]))
}

#[test]
fn key_range_is_set_and_replaced() {
    let mut ranges = KeyRange::new();
    ranges.set("d/a".to_string(), b"b".to_vec(), b"f".to_vec(), path("a", 1));
    ranges.set("d/b".to_string(), b"e".to_vec(), b"k".to_vec(), path("b", 2));
    assert_eq!(ranges.paths, vec!["d/a".to_string(), "d/b".to_string()]);
    assert_eq!(ranges.find(&"d/b".to_string()), Some(1));
    assert_eq!(ranges.find(&"d/c".to_string()), None);
    ranges.set("d/a".to_string(), b"c".to_vec(), b"d".to_vec(), path("a", 9));
    assert_eq!(ranges.paths.len(), 2);
    assert_eq!(ranges.ranges[0].smallest_key, b"c".to_vec());
    assert_eq!(ranges.ranges[0].biggest_key, b"d".to_vec());
    assert_eq!(ranges.ranges[0].sstable.hotness, 9);
    assert_eq!(ranges.ranges[1].smallest_key, b"e".to_vec());
}

#[test]
fn key_range_filters_the_tables_that_cover_a_key() {
    let mut ranges = KeyRange::new();
    ranges.set("d/a".to_string(), b"b".to_vec(), b"f".to_vec(), path("a", 1));
    ranges.set("d/b".to_string(), b"e".to_vec(), b"k".to_vec(), path("b", 2));
    ranges.set("d/c".to_string(), b"x".to_vec(), b"x".to_vec(), path("c", 3));
    let names = |key: &[u8]| -> Vec<String> { ranges.filter(key).iter().map(|p| p.data_file_path.clone()).collect() };
    assert_eq!(names(b"a"), Vec::<String>::new());
    assert_eq!(names(b"b"), vec!["d/a".to_string()]);
    assert_eq!(names(b"e"), vec!["d/a".to_string(), "d/b".to_string()]);
    assert_eq!(names(b"f"), vec!["d/a".to_string(), "d/b".to_string()]);
    assert_eq!(names(b"fa"), vec!["d/b".to_string()]);
    assert_eq!(names(b"k"), vec!["d/b".to_string()]);
    assert_eq!(names(b"l"), Vec::<String>::new());
    assert_eq!(names(b"x"), vec!["d/c".to_string()]);
    assert_eq!(ranges.filter(b"x")[0].hotness, 3);
}

#[test]
fn key_range_forgets_a_table() {
    let mut ranges = KeyRange::new();
    ranges.set("d/a".to_string(), b"b".to_vec(), b"f".to_vec(), path("a", 1));
    ranges.set("d/b".to_string(), b"e".to_vec(), b"k".to_vec(), path("b", 2));
    ranges.set("d/c".to_string(), b"a".to_vec(), b"z".to_vec(), path("c", 3));
    ranges.remove(&"d/x".to_string());
    assert_eq!(ranges.paths.len(), 3);
    ranges.remove(&"d/b".to_string());
    assert_eq!(ranges.paths, vec!["d/a".to_string(), "d/c".to_string()]);
    assert_eq!(ranges.ranges.len(), 2);
    assert_eq!(ranges.ranges[1].sstable.data_file_path, "d/c");
    assert_eq!(ranges.filter(b"e").len(), 2);
}

#[test]
fn filters_are_sorted_hottest_first() {
    let filters = vec![filter_for("a", 2), filter_for("b", 5), filter_for("c", 2), BloomFilter::new(1, 1, Vec::new()), filter_for("d", 9), filter_for("e", 5)];
    let sorted = sort_by_hotness(filters);
    let names: Vec<String> = sorted.iter().map(|f| f.get_sstable_path().map(|p| p.data_file_path).unwrap_or_default()).collect();
    assert_eq!(names, vec!["d/d", "d/b", "d/e", "d/a", "d/c", ""]);
    let hotness: Vec<u64> = sorted.iter().map(|f| f.hotness()).collect();
    assert_eq!(hotness, vec![9, 5, 5, 2, 2, 0]);
    assert!(sort_by_hotness(Vec::new()).is_empty());
}

#[test]
fn filter_is_bound_to_its_table() {
    let mut f = BloomFilter::new(3, 10, vec![true, false, true]);
    assert!(f.get_sstable_path().is_none());
    assert_eq!(f.hotness(), 0);
    f.set_sstable_path(path("a", 4));
    assert_eq!(f.get_sstable_path().unwrap().data_file_path, "d/a");
    assert_eq!(f.hotness(), 4);
    let copy = f.clone();
    assert_eq!(copy.bit_vec, vec![true, false, true]);
    assert_eq!(copy.no_of_hash_func, 3);
    assert_eq!(copy.no_of_elements, 10);
    assert_eq!(copy.get_sstable_path().unwrap().hotness, 4);
}

#[test]
fn memtable_holds_the_last_record_of_a_key() {
    let records = vec![
        Entry::new(b"m".to_vec(), 1, 10, false),
        Entry::new(b"c".to_vec(), 2, 11, false),
        Entry::new(b"m".to_vec(), 3, 12, true),
        Entry::new(b"x".to_vec(), 4, 13, false),
    ];
    let table = InMemoryTable::from_records(&records, BloomFilter::new(0, 0, Vec::new()));
    assert!(!table.is_empty());
    assert_eq!(table.entries.len(), 3);
    assert_eq!(table.get(b"m"), Some((3, 12, true)));
    assert_eq!(table.get(b"c"), Some((2, 11, false)));
    assert_eq!(table.get(b"d"), None);
    assert_eq!(table.find_smallest_key().unwrap(), b"c".to_vec());
    assert_eq!(table.find_biggest_key().unwrap(), b"x".to_vec());
    assert_eq!(table.size, 3 * 18);
    let empty = InMemoryTable::from_records(&Vec::new(), BloomFilter::new(0, 0, Vec::new()));
    assert!(empty.is_empty());
    assert_eq!(empty.size, 0);
    assert!(matches!(empty.find_smallest_key(), Err(StorageEngineError::LowestKeyIndexError)));
    assert!(matches!(empty.find_biggest_key(), Err(StorageEngineError::BiggestKeyIndexError)));
}

#[test]
fn empty_table_is_not_flushed() {
    let mut flusher = Flusher::empty("store".to_string(), false, 0);
    let empty = InMemoryTable::from_records(&Vec::new(), BloomFilter::new(0, 0, Vec::new()));
    let r = flusher.flush_at(&empty, 1, 2);
    match r {
        Err(StorageEngineError::FailedToInsertToBucket(reason)) => assert_eq!(reason, "Cannot flush an empty table"),
        _ => panic!("an empty table was flushed"),
    }
    assert!(flusher.bucket_map.buckets.is_empty());
    assert!(flusher.bloom_filters.is_empty());
    assert!(flusher.key_range.paths.is_empty());
    assert!(matches!(flusher.flush(&empty), Err(StorageEngineError::FailedToInsertToBucket(_))));
}

#[test]
fn flush_registers_the_table() {
    let mut flusher = Flusher::empty("store".to_string(), true, 60);
    assert!(flusher.use_ttl);
    assert_eq!(flusher.entry_ttl, 60);
    let table = table_of(&[b"kiwi", b"apple", b"pear"]);
    let placement = flusher.flush_at(&table, 500, 0x10).unwrap();
    assert!(placement.bucket_created);
    assert_eq!(placement.sstable_path.hotness, 1);
    assert_eq!(placement.image.data.len(), 17 * 3 + 4 + 5 + 4);
    assert_eq!(flusher.bucket_map.buckets.len(), 1);
    assert_eq!(flusher.bucket_map.buckets[0].sstables.len(), 1);
    assert_eq!(flusher.key_range.paths, vec![placement.sstable_path.data_file_path.clone()]);
    assert_eq!(flusher.key_range.ranges[0].smallest_key, b"apple".to_vec());
    assert_eq!(flusher.key_range.ranges[0].biggest_key, b"pear".to_vec());
    assert_eq!(flusher.key_range.ranges[0].sstable.data_file_path, placement.sstable_path.data_file_path);
    assert_eq!(flusher.bloom_filters.len(), 1);
    assert_eq!(flusher.bloom_filters[0].get_sstable_path().unwrap().data_file_path, placement.sstable_path.data_file_path);
    assert_eq!(flusher.bloom_filters[0].bit_vec, vec![true, true, false]);
    assert_eq!(flusher.bloom_filters[0].no_of_elements, 3);
    assert_eq!(flusher.key_range.filter(b"banana").len(), 1);
    assert_eq!(flusher.key_range.filter(b"zebra").len(), 0);

    let second = flusher.flush_at(&table_of(&[b"fig", b"date", b"lime"]), 501, 0x11).unwrap();
    assert!(!second.bucket_created);
    assert_eq!(flusher.bucket_map.buckets.len(), 1);
    assert_eq!(flusher.bucket_map.buckets[0].sstables.len(), 2);
    assert_eq!(flusher.key_range.paths.len(), 2);
    assert_eq!(flusher.bloom_filters.len(), 2);
    // both filters were bound at hotness 1: they keep the order of their flushes
    assert_eq!(flusher.bloom_filters[0].get_sstable_path().unwrap().data_file_path, placement.sstable_path.data_file_path);
    assert_eq!(flusher.bloom_filters[1].get_sstable_path().unwrap().data_file_path, second.sstable_path.data_file_path);
}

#[test]
fn refused_flush_changes_nothing() {
    let mut flusher = Flusher::empty("store".to_string(), false, 0);
    flusher.flush_at(&table_of(&[b"a"]), 500, 0x10).unwrap();
    // the same creation time in the same bucket: the data file exists
    let r = flusher.flush_at(&table_of(&[b"b"]), 500, 0x11);
    assert!(matches!(r, Err(StorageEngineError::FailedToInsertToBucket(_))));
    assert_eq!(flusher.bucket_map.buckets[0].sstables.len(), 1);
    assert_eq!(flusher.key_range.paths.len(), 1);
    assert_eq!(flusher.bloom_filters.len(), 1);
    let large = InMemoryTable::from_records(&vec![Entry::new(vec![1u8; 5000], 1, 1, false)], BloomFilter::new(0, 0, Vec::new()));
    assert!(matches!(flusher.flush_at(&large, 600, 0x12), Err(StorageEngineError::BlockIsFullError)));
    assert_eq!(flusher.key_range.paths.len(), 1);
    assert_eq!(flusher.bloom_filters.len(), 1);
}

fn pseudo_random_keys(count: usize) -> Vec<Vec<u8>> {
    let mut state: u64 = 0x2545_f491_4f6c_dd1d;
    let mut keys = Vec::new();
    let letters = b"abcdefghijklmnopqrstuvwxyz";
    while keys.len() < count {
        let mut key = Vec::new();
        for _ in 0..5 {
            state = state.wrapping_mul(6364136223846793005).wrapping_add(1442695040888963407);
            key.push(letters[((state >> 33) % 26) as usize]);
        }
        if !keys.contains(&key) {
            keys.push(key);
        }
    }
    keys
}

#[test]
fn flush_round_trip() {
    let keys = pseudo_random_keys(5000);
    let mut log = ValueLog::new("store");
    let mut records = Vec::new();
    for (i, key) in keys.iter().enumerate() {
        let value: Vec<u8> = key.iter().rev().cloned().collect();
        let offset = log.append(key, &value, i as i64, false).unwrap();
        records.push(Entry::new(key.clone(), offset as u32, i as u64, false));
    }
    let table = InMemoryTable::from_records(&records, BloomFilter::new(0, 0, Vec::new()));
    let mut flusher = Flusher::empty("store".to_string(), false, 0);
    let placement = flusher.flush(&table).unwrap();
    assert_eq!(flusher.bucket_map.buckets.len(), 1);
    assert_eq!(flusher.bucket_map.buckets[0].sstables.len(), 1);
    assert_eq!(placement.image.data.len(), 5000 * 22);
    let index_bytes = placement.image.sparse_index.write_to_file();
    let index = lsm_store::sparse_index::SparseIndex::from_bytes("i".to_string(), &index_bytes).unwrap();
    for key in keys.iter() {
        let candidates = flusher.key_range.filter(key);
        assert_eq!(candidates.len(), 1);
        let start = index.get(key).unwrap();
        let (offset, _, is_tombstone) = SSTable::get(&placement.image.data, start, key).unwrap().unwrap();
        assert!(!is_tombstone);
        let (value, deleted) = log.get(offset as usize).unwrap().unwrap();
        let expected: Vec<u8> = key.iter().rev().cloned().collect();
        assert_eq!(value, expected);
        assert!(!deleted);
    }
    let absent = b"ABSENT";
    match index.get(absent) {
        Some(start) => assert_eq!(SSTable::get(&placement.image.data, start, absent).unwrap(), None),
        None => {}
    }
    assert_eq!(SSTable::get(&placement.image.data, 0, b"zzzzzz").unwrap(), None);
}

#[test]
fn broadcast_outcomes_are_told_apart() {
    assert!(signal_error(BroadcastOutcome::Sent).is_none());
    assert!(matches!(signal_error(BroadcastOutcome::Full), Some(StorageEngineError::FlushSignalOverflowError)));
    assert!(matches!(signal_error(BroadcastOutcome::Closed), Some(StorageEngineError::FlushSignalClosedError)));
    assert!(matches!(signal_error(BroadcastOutcome::Inactive), Some(StorageEngineError::FlushSignalClosedError)));
    assert_eq!(FLUSH_SIGNAL, 1);
}

/// Two tables of one bucket must not be created in the same millisecond.
fn wait_for_the_clock_to_move() {
    let start = SSTable::new("d".to_string()).created_at;
    while SSTable::new("d".to_string()).created_at < start + 2 {}
}

#[test]
fn flush_handler_takes_the_table_out_of_the_registry_and_signals() {
    let (sender, mut receiver) = async_broadcast::broadcast::<u8>(1);
    let mut flusher = Flusher::empty("store".to_string(), false, 0);
    flusher.register(b"first".to_vec(), table_of(&[b"a"]));
    flusher.register(b"second".to_vec(), table_of(&[b"b"]));
    flusher.register(b"third".to_vec(), table_of(&[b"c"]));
    flusher.register(b"second".to_vec(), table_of(&[b"d"]));
    let ids: Vec<Vec<u8>> = flusher.read_only_memtable.keys().cloned().collect();
    assert_eq!(ids, vec![b"first".to_vec(), b"second".to_vec(), b"third".to_vec()]);

    let response = flusher.flush_handler(b"second".to_vec(), &table_of(&[b"d"]), &sender);
    match response {
        FlushResponse::Success { table_id, placement, signal_error } => {
            assert_eq!(table_id, b"second".to_vec());
            assert!(placement.bucket_created);
            assert!(signal_error.is_none());
        }
        FlushResponse::Failed { .. } => panic!("the flush failed"),
    }
    let ids: Vec<Vec<u8>> = flusher.read_only_memtable.keys().cloned().collect();
    assert_eq!(ids, vec![b"first".to_vec(), b"third".to_vec()]);
    assert_eq!(receiver.try_recv().unwrap(), FLUSH_SIGNAL);

    // fill the channel: the next signal overflows, the flush stands
    sender.try_broadcast(9).unwrap();
    wait_for_the_clock_to_move();
    let response = flusher.flush_handler(b"first".to_vec(), &table_of(&[b"a"]), &sender);
    match response {
        FlushResponse::Success { signal_error, .. } => {
            assert!(matches!(signal_error, Some(StorageEngineError::FlushSignalOverflowError)));
        }
        FlushResponse::Failed { .. } => panic!("the flush failed"),
    }
    assert_eq!(flusher.read_only_memtable.len(), 1);
    assert_eq!(flusher.bucket_map.buckets[0].sstables.len(), 2);

    drop(receiver);
    wait_for_the_clock_to_move();
    let response = flusher.flush_handler(b"third".to_vec(), &table_of(&[b"c"]), &sender);
    match response {
        FlushResponse::Success { signal_error, .. } => {
            assert!(matches!(signal_error, Some(StorageEngineError::FlushSignalClosedError)));
        }
        FlushResponse::Failed { .. } => panic!("the flush failed"),
    }
    assert!(flusher.read_only_memtable.is_empty());
}

#[test]
fn failed_flush_leaves_the_registry() {
    let (sender, _receiver) = async_broadcast::broadcast::<u8>(1);
    let mut flusher = Flusher::empty("store".to_string(), false, 0);
    let empty = InMemoryTable::from_records(&Vec::new(), BloomFilter::new(0, 0, Vec::new()));
    flusher.register(b"id".to_vec(), InMemoryTable::from_records(&Vec::new(), BloomFilter::new(0, 0, Vec::new())));
    let response = flusher.flush_handler(b"id".to_vec(), &empty, &sender);
    assert!(matches!(response, FlushResponse::Failed { reason: StorageEngineError::FailedToInsertToBucket(_) }));
    assert_eq!(flusher.read_only_memtable.len(), 1);
}

#[test]
fn flusher_is_made_of_its_parts() {
    let flusher = Flusher::new(indexmap::IndexMap::new(), lsm_store::bucket_coordinator::BucketMap::new("s".to_string()), vec![filter_for("a", 1)], KeyRange::new(), true, 7);
    assert_eq!(flusher.bucket_map.dir, "s");
    assert_eq!(flusher.bloom_filters.len(), 1);
    assert!(flusher.use_ttl);
    assert_eq!(flusher.entry_ttl, 7);
}
