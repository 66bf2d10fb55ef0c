use lsm_store::bucket_coordinator::{copy_first, is_listed, Bucket, BucketMap, MAX_TRESHOLD, MIN_SSTABLE_SIZE, MIN_TRESHOLD};
use lsm_store::entry::Entry;
use lsm_store::err::StorageEngineError;
use lsm_store::filter::BloomFilter;
use lsm_store::memtable::InMemoryTable;
use lsm_store::sst::{ProvideSizeInBytes, SSTable, SSTablePath};

/// A table of one record whose data file takes `size` bytes.
fn table_of_size(size: usize) -> InMemoryTable {
    assert!(size >= 17);
    let records = vec![Entry::new(vec![b'k'; size - 17], 1, 2, false)];
    InMemoryTable::from_records(&records, BloomFilter::new(0, 0, Vec::new()))
}

/// A table of several records whose data file takes `size` bytes.
fn large_table_of_size(size: usize) -> InMemoryTable {
    assert!(size % 32 == 0);
    let mut records = Vec::new();
    for i in 0..(size / 32) {
        records.push(Entry::new(format!("key{:012}", i).into_bytes(), i as u32, 2, false));
    }
    InMemoryTable::from_records(&records, BloomFilter::new(0, 0, Vec::new()))
}

fn fits_now(map: &BucketMap) -> bool {
    map.buckets.iter().all(|b| {
        b.sstables.iter().all(|s| {
            let avg = b.avarage_size as u128;
            let size = s.size as u128;
            (avg < 2 * size && 2 * size < 3 * avg) || (s.size < MIN_SSTABLE_SIZE && b.avarage_size < MIN_SSTABLE_SIZE)
        })
    })
}

#[test]
fn bucket_directory_is_named_after_the_id() {
    let bucket = Bucket::with_id("store", 0xa1a2a3a4b1b2c1c2d1d2d3d4d5d6d7d8);
    assert_eq!(bucket.dir, "store/bucketa1a2a3a4-b1b2-c1c2-d1d2-d3d4d5d6d7d8");
    assert_eq!(bucket.id, 0xa1a2a3a4b1b2c1c2d1d2d3d4d5d6d7d8);
    assert_eq!(bucket.avarage_size, 0);
    assert!(bucket.sstables.is_empty());
    assert_eq!(Bucket::with_id("s", 0).dir, "s/bucket00000000-0000-0000-0000-000000000000");
    assert_eq!(Bucket::with_id("s", 0x0f).dir, "s/bucket00000000-0000-0000-0000-00000000000f");
}

#[test]
fn new_bucket_has_a_fresh_id() {
    let a = Bucket::new("store");
    let b = Bucket::new("store");
    assert_ne!(a.id, b.id);
    assert_eq!(a.dir.len(), "store/bucket".len() + 36);
    assert!(a.dir.starts_with("store/bucket"));
    assert_eq!(a.dir, Bucket::with_id("store", a.id).dir);
}

#[test]
fn bucket_fits_sizes_around_its_average() {
    let mut bucket = Bucket::with_id("s", 1);
    bucket.avarage_size = 100;
    assert!(!bucket.fits(50));
    assert!(bucket.fits(51));
    assert!(bucket.fits(100));
    assert!(bucket.fits(149));
    assert!(!bucket.fits(150));
    assert!(!bucket.fits(0));
    bucket.avarage_size = 3;
    // 1.5 * 3 = 4.5: a size of 4 lies below it
    assert!(bucket.fits(4));
    assert!(bucket.fits(31));
    assert!(!bucket.fits(32));
    bucket.avarage_size = 0;
    assert!(bucket.fits(0));
    assert!(bucket.fits(31));
    assert!(!bucket.fits(32));
    bucket.avarage_size = 31;
    assert!(bucket.fits(0));
    bucket.avarage_size = 32;
    assert!(!bucket.fits(16));
    assert!(bucket.fits(17));
    bucket.avarage_size = usize::MAX;
    assert!(bucket.fits(usize::MAX));
    assert!(!bucket.fits(usize::MAX / 2));
}

#[test]
fn first_table_founds_a_bucket() {
    let mut map = BucketMap::new("store".to_string());
    let table = table_of_size(100);
    assert_eq!(ProvideSizeInBytes::size(&table), 100);
    let placement = map.insert_table_at(&table, 5, 1000, 0xabc).unwrap();
    assert!(placement.bucket_created);
    assert_eq!(placement.bucket_id, 0xabc);
    assert_eq!(placement.image.data.len(), 100);
    assert_eq!(placement.image.sparse_index.entries.len(), 1);
    assert_eq!(placement.sstable_path.hotness, 1);
    assert_eq!(placement.sstable_path.size, 100);
    let dir = "store/bucket00000000-0000-0000-0000-000000000abc";
    assert_eq!(placement.sstable_path.dir, dir);
    assert_eq!(placement.sstable_path.data_file_path, format!("{}/sstable_1000_.db", dir));
    assert_eq!(placement.sstable_path.index_file_path, format!("{}/index_1000_.db", dir));
    assert_eq!(placement.image.sparse_index.file_path, format!("{}/index_1000_.db", dir));
    assert_eq!(map.buckets.len(), 1);
    assert_eq!(map.buckets[0].id, 0xabc);
    assert_eq!(map.buckets[0].dir, dir);
    assert_eq!(map.buckets[0].avarage_size, 100);
    assert_eq!(map.buckets[0].sstables.len(), 1);
    assert_eq!(map.buckets[0].sstables[0].hotness, 1);
    assert_eq!(map.dir, "store");
}

#[test]
fn table_joins_the_first_bucket_it_fits() {
    let mut map = BucketMap::new("store".to_string());
    map.insert_table_at(&table_of_size(100), 1, 1, 10).unwrap();
    map.insert_table_at(&table_of_size(1000), 1, 2, 20).unwrap();
    map.insert_table_at(&table_of_size(110), 1, 3, 30).unwrap();
    assert_eq!(map.buckets.len(), 3 - 1);
    assert_eq!(map.find_bucket(120), Some(0));
    assert_eq!(map.find_bucket(1200), Some(1));
    assert_eq!(map.find_bucket(300), None);
    assert!(map.contains_id(10));
    assert!(map.contains_id(20));
    assert!(!map.contains_id(30));
    let placement = map.insert_table_at(&table_of_size(120), 7, 4, 40).unwrap();
    assert!(!placement.bucket_created);
    assert_eq!(placement.bucket_id, 10);
    assert_eq!(placement.sstable_path.hotness, 7);
    assert_eq!(placement.sstable_path.dir, map.buckets[0].dir);
    let bucket = &map.buckets[0];
    assert_eq!(bucket.sstables.len(), 3);
    // every table of the bucket, the new one included, has been used once more
    assert_eq!(bucket.sstables[0].hotness, 1 + 1 + 1);
    assert_eq!(bucket.sstables[1].hotness, 1 + 1 + 1);
    assert_eq!(bucket.sstables[2].hotness, 7 + 1);
    assert_eq!(bucket.sstables[2].data_file_path, placement.sstable_path.data_file_path);
    assert_eq!(bucket.avarage_size, (100 + 110 + 120) / 3);
    assert_eq!(map.buckets[1].sstables.len(), 1);
    assert_eq!(map.buckets[1].sstables[0].hotness, 1);
}

#[test]
fn tables_of_similar_size_share_a_bucket() {
    let mut map = BucketMap::new("store".to_string());
    let first = map.insert_table_at(&large_table_of_size(1024), 1, 1, 1).unwrap();
    let second = map.insert_table_at(&large_table_of_size(1024), 1, 2, 2).unwrap();
    let third = map.insert_table_at(&large_table_of_size(10240), 1, 3, 3).unwrap();
    assert!(first.bucket_created);
    assert!(!second.bucket_created);
    assert!(third.bucket_created);
    assert_eq!(first.bucket_id, second.bucket_id);
    assert_ne!(first.bucket_id, third.bucket_id);
    assert_eq!(map.buckets.len(), 2);
    assert_eq!(map.buckets[0].sstables.len(), 2);
    assert_eq!(map.buckets[0].avarage_size, 1024);
    assert_eq!(map.buckets[1].sstables.len(), 1);
    assert_eq!(map.buckets[1].avarage_size, 10240);
    assert!(fits_now(&map));
}

#[test]
fn small_tables_share_a_bucket() {
    let mut map = BucketMap::new("store".to_string());
    // 18 and 31 bytes: the ratio rule alone would keep them apart
    let first = map.insert_table_at(&table_of_size(18), 1, 1, 1).unwrap();
    let second = map.insert_table_at(&table_of_size(31), 1, 2, 2).unwrap();
    let third = map.insert_table_at(&table_of_size(17), 1, 3, 3).unwrap();
    assert!(first.bucket_created);
    assert!(!second.bucket_created);
    assert!(!third.bucket_created);
    assert_eq!(map.buckets.len(), 1);
    assert_eq!(map.buckets[0].sstables.len(), 3);
    assert_eq!(map.buckets[0].avarage_size, (18 + 31 + 17) / 3);
    assert!(fits_now(&map));
    let fourth = map.insert_table_at(&table_of_size(64), 1, 4, 4).unwrap();
    assert!(fourth.bucket_created);
}

#[test]
fn average_may_drift_away_from_an_old_table() {
    let mut map = BucketMap::new("store".to_string());
    let sizes = [100usize, 149, 185, 215, 242, 266];
    for (i, size) in sizes.iter().enumerate() {
        let placement = map.insert_table_at(&table_of_size(*size), 1, i as u64, 9).unwrap();
        assert_eq!(placement.bucket_created, i == 0);
        assert!(fits_now(&map));
    }
    assert_eq!(map.buckets[0].avarage_size, 192);
    let placement = map.insert_table_at(&table_of_size(287), 1, 100, 9).unwrap();
    assert!(!placement.bucket_created);
    assert_eq!(map.buckets.len(), 1);
    assert_eq!(map.buckets[0].avarage_size, 206);
    // the table of 100 bytes is no longer above half the average
    assert!(!fits_now(&map));
}

#[test]
fn placement_is_refused_where_the_data_file_exists() {
    let mut map = BucketMap::new("store".to_string());
    map.insert_table_at(&table_of_size(100), 1, 77, 1).unwrap();
    let r = map.insert_table_at(&table_of_size(101), 1, 77, 2);
    assert!(matches!(r, Err(StorageEngineError::FailedToInsertToBucket(_))));
    assert_eq!(map.buckets.len(), 1);
    assert_eq!(map.buckets[0].sstables.len(), 1);
    assert_eq!(map.buckets[0].avarage_size, 100);
    assert_eq!(map.buckets[0].sstables[0].hotness, 1);
}

#[test]
fn placement_is_refused_where_the_bucket_id_is_taken() {
    let mut map = BucketMap::new("store".to_string());
    map.insert_table_at(&table_of_size(100), 1, 1, 5).unwrap();
    let r = map.insert_table_at(&table_of_size(1000), 1, 2, 5);
    assert!(matches!(r, Err(StorageEngineError::FailedToInsertToBucket(_))));
    assert_eq!(map.buckets.len(), 1);
    assert!(map.insert_table_at(&table_of_size(1000), 1, 2, 6).is_ok());
}

#[test]
fn table_that_cannot_be_written_is_not_placed() {
    let mut map = BucketMap::new("store".to_string());
    let r = map.insert_table_at(&table_of_size(5000), 1, 1, 5);
    assert!(matches!(r, Err(StorageEngineError::BlockIsFullError)));
    assert!(map.buckets.is_empty());
    let r = map.insert_to_appropriate_bucket(&table_of_size(5000), 1);
    assert!(matches!(r, Err(StorageEngineError::BlockIsFullError)));
    assert!(map.buckets.is_empty());
}

#[test]
fn placement_with_the_present_time_and_a_random_id() {
    let mut map = BucketMap::new("store".to_string());
    let first = map.insert_to_appropriate_bucket(&table_of_size(100), 3).unwrap();
    assert!(first.bucket_created);
    assert_eq!(first.sstable_path.hotness, 1);
    assert_eq!(map.buckets.len(), 1);
    assert_eq!(map.buckets[0].id, first.bucket_id);
    assert_eq!(map.buckets[0].dir, Bucket::with_id("store", first.bucket_id).dir);
    assert!(first.sstable_path.data_file_path.starts_with(&format!("{}/sstable_", map.buckets[0].dir)));
    assert!(first.sstable_path.data_file_path.ends_with("_.db"));
    let other = map.insert_to_appropriate_bucket(&table_of_size(1000), 3).unwrap();
    assert!(other.bucket_created);
    assert_ne!(other.bucket_id, first.bucket_id);
}

#[test]
fn an_sstable_can_be_placed_as_well() {
    let mut source = SSTable::with_timestamp("x".to_string(), 1);
    source.set_entries(table_of_size(200).get_index());
    let mut map = BucketMap::new("store".to_string());
    let placement = map.insert_table_at(&source, 1, 2, 3).unwrap();
    assert_eq!(placement.image.data.len(), 200);
}

#[test]
fn buckets_with_enough_tables_are_compacted() {
    let mut map = BucketMap::new("store".to_string());
    for i in 0..(MIN_TRESHOLD as u64 - 1) {
        map.insert_table_at(&table_of_size(100), 1, i, 1).unwrap();
    }
    map.insert_table_at(&table_of_size(1000), 1, 50, 2).unwrap();
    let (to_compact, to_delete) = map.extract_buckets_to_compact();
    assert!(to_compact.is_empty());
    assert!(to_delete.is_empty());
    map.insert_table_at(&table_of_size(100), 1, 60, 3).unwrap();
    let (to_compact, to_delete) = map.extract_buckets_to_compact();
    assert_eq!(to_compact.len(), 1);
    assert_eq!(to_compact[0].id, 1);
    assert_eq!(to_compact[0].dir, map.buckets[0].dir);
    assert_eq!(to_compact[0].avarage_size, 100);
    assert_eq!(to_compact[0].sstables.len(), MIN_TRESHOLD);
    assert_eq!(to_delete.len(), 1);
    assert_eq!(to_delete[0].0, 1);
    assert_eq!(to_delete[0].1.len(), MIN_TRESHOLD);
    for (i, path) in to_delete[0].1.iter().enumerate() {
        assert_eq!(path.data_file_path, map.buckets[0].sstables[i].data_file_path);
    }
    map.delete_sstables(to_delete);
    // nothing is left of the compacted bucket; the other is as it was
    assert_eq!(map.buckets.len(), 1);
    assert_eq!(map.buckets[0].id, 2);
    assert_eq!(map.buckets[0].sstables.len(), 1);
    assert_eq!(map.buckets[0].avarage_size, 1000);
}

#[test]
fn compaction_leaves_the_tables_after_the_first_batch() {
    let mut map = BucketMap::new("store".to_string());
    let total = MAX_TRESHOLD + 8;
    for i in 0..total {
        map.insert_table_at(&table_of_size(100 + (i % 3)), 1, i as u64, 1).unwrap();
    }
    assert_eq!(map.buckets.len(), 1);
    let before: Vec<SSTablePath> = map.buckets[0].sstables.clone();
    let (to_compact, to_delete) = map.extract_buckets_to_compact();
    assert_eq!(to_compact.len(), 1);
    assert_eq!(to_compact[0].sstables.len(), MAX_TRESHOLD);
    assert_eq!(to_delete[0].1.len(), MAX_TRESHOLD);
    for i in 0..MAX_TRESHOLD {
        assert_eq!(to_compact[0].sstables[i].data_file_path, before[i].data_file_path);
        assert_eq!(to_delete[0].1[i].data_file_path, before[i].data_file_path);
    }
    map.delete_sstables(to_delete);
    assert_eq!(map.buckets.len(), 1);
    let after = &map.buckets[0].sstables;
    assert_eq!(after.len(), 8);
    for i in 0..8 {
        assert_eq!(after[i].data_file_path, before[MAX_TRESHOLD + i].data_file_path);
        assert_eq!(after[i].hotness, before[MAX_TRESHOLD + i].hotness);
        assert_eq!(after[i].size, before[MAX_TRESHOLD + i].size);
    }
    let sum: usize = after.iter().map(|s| s.size).sum();
    assert_eq!(map.buckets[0].avarage_size, sum / 8);
    // the table that compaction produced joins the buckets like any other
    let merged = map.insert_table_at(&table_of_size(101), 1, 9999, 2).unwrap();
    assert!(!merged.bucket_created);
    assert_eq!(map.buckets[0].sstables.len(), 9);
    assert_eq!(map.buckets[0].sstables[8].data_file_path, merged.sstable_path.data_file_path);
}

#[test]
fn deleting_unknown_tables_changes_nothing() {
    let mut map = BucketMap::new("store".to_string());
    map.insert_table_at(&table_of_size(100), 1, 1, 1).unwrap();
    let path = map.buckets[0].sstables[0].clone();
    map.delete_sstables(vec![(2, vec![path.clone()])]);
    assert_eq!(map.buckets.len(), 1);
    let other = SSTablePath::new("d".to_string(), "d/none".to_string(), "d/i".to_string());
    map.delete_sstables(vec![(1, vec![other.clone()])]);
    assert_eq!(map.buckets[0].sstables.len(), 1);
    map.delete_sstables(Vec::new());
    assert_eq!(map.buckets[0].sstables.len(), 1);
    assert!(is_listed(&vec![(1, vec![other.clone(), path.clone()])], 1, &path.data_file_path));
    assert!(!is_listed(&vec![(1, vec![other.clone()])], 1, &path.data_file_path));
    assert!(!is_listed(&vec![(2, vec![path.clone()])], 1, &path.data_file_path));
    assert!(map.buckets[0].contains_path(&path.data_file_path));
    assert!(!map.buckets[0].contains_path(&other.data_file_path));
    assert_eq!(map.buckets[0].unlisted_tables(&vec![(1, vec![path.clone()])]).len(), 0);
    assert_eq!(map.buckets[0].unlisted_tables(&vec![(2, vec![path.clone()])]).len(), 1);
    map.delete_sstables(vec![(1, vec![path])]);
    assert!(map.buckets.is_empty());
}

#[test]
fn mean_is_rounded_down() {
    let mut tables = Vec::new();
    for size in [10usize, 11, 11] {
        let mut p = SSTablePath::new("d".to_string(), format!("d/{}", tables.len()), "i".to_string());
        p.size = size;
        tables.push(p);
    }
    assert_eq!(Bucket::mean(&tables), 10);
    assert_eq!(Bucket::mean(&Vec::new()), 0);
    let first = copy_first(&tables, 2);
    assert_eq!(first.len(), 2);
    assert_eq!(first[1].data_file_path, "d/1");
    assert!(copy_first(&tables, 0).is_empty());
    let mut bucket = Bucket::with_id("s", 1);
    bucket.add_table(tables[0].clone());
    bucket.add_table(tables[1].clone());
    assert_eq!(bucket.avarage_size, 10);
    assert_eq!(bucket.sstables[0].hotness, 2);
    assert_eq!(bucket.sstables[1].hotness, 1);
}
