use lsm_store::err::StorageEngineError;
use lsm_store::v_log::{read_record, VFile, VLogFileNode, ValueLog, ValueLogEntry};

#[test]
fn test_serialized() {
    let entry = ValueLogEntry::new(3, 5, b"key", b"value", 0x0102_0304_0506_0708, false);
    let bytes = entry.serialize();
    let expected: Vec<u8> = vec![
        3, 0, 0, 0, 5, 0, 0, 0, 8, 7, 6, 5, 4, 3, 2, 1, 0, b'k', b'e', b'y', b'v', b'a', b'l', b'u', b'e',
    ];
    assert_eq!(bytes, expected);
    assert_eq!(bytes.len(), 16 + 3 + 5 + 1);
    let tombstone = ValueLogEntry::new(1, 0, b"k", b"", -1, true);
    assert_eq!(tombstone.serialize(), vec![1, 0, 0, 0, 0, 0, 0, 0, 255, 255, 255, 255, 255, 255, 255, 255, 1, b'k']);
}

#[test]
fn entry_keeps_what_it_is_given() {
    let entry = ValueLogEntry::new(10, 20, b"k", b"v", 5, true);
    assert_eq!(entry.ksize, 10);
    assert_eq!(entry.vsize, 20);
    assert_eq!(entry.key, b"k".to_vec());
    assert_eq!(entry.value, b"v".to_vec());
    assert_eq!(entry.created_at, 5);
    assert!(entry.is_tombstone);
}

#[test]
fn negative_times_survive_the_log() {
    for t in [i64::MIN, -1_000_000, -1, 0, 1, i64::MAX] {
        let bytes = ValueLogEntry::new(1, 1, b"k", b"v", t, false).serialize();
        let (back, next) = read_record(&bytes, 0).unwrap().unwrap();
        assert_eq!(back.created_at, t);
        assert_eq!(next, bytes.len());
        assert_eq!(back.ksize, 1);
        assert_eq!(back.vsize, 1);
    }
}

#[test]
fn new_log_is_empty_and_lies_in_its_directory() {
    let log = ValueLog::new("store");
    assert_eq!(log.content.path, "store/VLOG");
    assert_eq!(log.size, 0);
    assert_eq!(log.head_offset, 0);
    assert_eq!(log.tail_offset, 0);
    assert!(log.content.file.data.is_empty());
    assert!(log.get(0).unwrap().is_none());
}

#[test]
fn file_keeps_its_path() {
    let file = VFile::new("a/b".to_string(), 7u8);
    assert_eq!(file.path, "a/b");
    assert_eq!(file.file, 7);
}

#[test]
fn appended_value_is_read_at_its_offset() {
    let mut log = ValueLog::new("d");
    let mut offsets = Vec::new();
    for i in 0..100u32 {
        let key = format!("key{}", i);
        let value = format!("value-{}", i * 7);
        let before = log.size;
        let offset = log.append(key.as_bytes(), value.as_bytes(), i as i64, false).unwrap();
        assert_eq!(offset, before);
        assert_eq!(log.size, before + 17 + key.len() + value.len());
        assert_eq!(log.size, log.content.file.data.len());
        offsets.push(offset);
    }
    for i in 0..100u32 {
        let (value, is_tombstone) = log.get(offsets[i as usize]).unwrap().unwrap();
        assert_eq!(value, format!("value-{}", i * 7).into_bytes());
        assert!(!is_tombstone);
    }
    assert_eq!(log.head_offset, 0);
    assert_eq!(log.tail_offset, 0);
}

#[test]
fn tombstone_is_read_with_its_flag() {
    let mut log = ValueLog::new("d");
    log.append(b"k", b"v", 1, false).unwrap();
    let offset = log.append(b"k", b"", 2, true).unwrap();
    assert_eq!(offset, 19);
    assert_eq!(log.get(offset).unwrap(), Some((Vec::new(), true)));
    assert_eq!(log.get(0).unwrap(), Some((b"v".to_vec(), false)));
    assert_eq!(log.get(log.size).unwrap(), None);
    assert_eq!(log.get(log.size + 5).unwrap(), None);
}

#[test]
fn read_inside_a_cut_record_is_unexpected_eof() {
    let mut log = ValueLog::new("d");
    log.append(b"key", b"value", 1, false).unwrap();
    log.content.file.data.pop();
    assert!(matches!(log.get(0), Err(StorageEngineError::UnexpectedEOF)));
    assert!(matches!(log.recover(0), Err(StorageEngineError::UnexpectedEOF)));
    assert!(matches!(log.read_chunk_to_garbage_collect(5), Err(StorageEngineError::UnexpectedEOF)));
    assert!(log.read_chunk_to_garbage_collect(0).unwrap().0.is_empty());
}

#[test]
fn recover_lists_the_records_from_an_offset() {
    let mut log = ValueLog::new("d");
    let a = log.append(b"a", b"1", 1, false).unwrap();
    let b = log.append(b"b", b"22", 2, true).unwrap();
    let c = log.append(b"c", b"333", 3, false).unwrap();
    assert_eq!((a, b, c), (0, 19, 39));
    let all = log.recover(0).unwrap();
    assert_eq!(all.len(), 3);
    assert_eq!(all[1].key, b"b".to_vec());
    assert_eq!(all[1].value, b"22".to_vec());
    assert_eq!(all[1].created_at, 2);
    assert!(all[1].is_tombstone);
    assert_eq!(all[1].ksize, 1);
    assert_eq!(all[1].vsize, 2);
    let tail = log.recover(b).unwrap();
    assert_eq!(tail.len(), 2);
    assert_eq!(tail[0].key, b"b".to_vec());
    assert!(log.recover(log.size).unwrap().is_empty());
}

#[test]
fn chunk_takes_whole_records_until_the_budget_is_used() {
    let mut log = ValueLog::new("d");
    for i in 0..10u8 {
        // each record takes 17 + 1 + 2 = 20 bytes
        log.append(&[i], &[i, i], 0, false).unwrap();
    }
    let (none, taken) = log.read_chunk_to_garbage_collect(0).unwrap();
    assert!(none.is_empty());
    assert_eq!(taken, 0);
    let (one, taken) = log.read_chunk_to_garbage_collect(1).unwrap();
    assert_eq!(one.len(), 1);
    assert_eq!(taken, 20);
    let (two, taken) = log.read_chunk_to_garbage_collect(40).unwrap();
    assert_eq!(two.len(), 2);
    assert_eq!(taken, 40);
    let (three, taken) = log.read_chunk_to_garbage_collect(41).unwrap();
    assert_eq!(three.len(), 3);
    assert_eq!(taken, 60);
    let (all, taken) = log.read_chunk_to_garbage_collect(100_000).unwrap();
    assert_eq!(all.len(), 10);
    assert_eq!(taken, 200);
    log.set_tail(180);
    let (last, taken) = log.read_chunk_to_garbage_collect(100).unwrap();
    assert_eq!(last.len(), 1);
    assert_eq!(last[0].key, vec![9u8]);
    assert_eq!(taken, 20);
}

#[test]
fn cursors_are_set() {
    let mut log = ValueLog::new("d");
    log.append(b"k", b"v", 1, false).unwrap();
    log.set_head(19);
    assert_eq!(log.head_offset, 19);
    assert_eq!(log.tail_offset, 0);
    log.set_tail(7);
    assert_eq!(log.tail_offset, 7);
    assert_eq!(log.head_offset, 19);
    assert_eq!(log.size, 19);
}

#[test]
fn clear_all_empties_the_log() {
    let mut log = ValueLog::new("d");
    log.append(b"k", b"v", 1, false).unwrap();
    log.set_head(19);
    log.set_tail(19);
    log.clear_all();
    assert_eq!(log.size, 0);
    assert_eq!(log.head_offset, 0);
    assert_eq!(log.tail_offset, 0);
    assert!(log.content.file.data.is_empty());
    assert_eq!(log.content.path, "d/VLOG");
    assert_eq!(log.append(b"k", b"v", 1, false).unwrap(), 0);
}

#[test]
fn punched_hole_reads_as_zeros() {
    let mut file = VLogFileNode::new();
    file.write_all(b"Sample1Sample2Sample3");
    file.punch_holes(0, 7);
    assert_eq!(&file.data[..7], &[0u8; 7]);
    assert_eq!(&file.data[7..], b"Sample2Sample3");
    assert_eq!(file.data.len(), 21);
    file.punch_holes(14, 100);
    assert_eq!(&file.data[7..14], b"Sample2");
    assert_eq!(&file.data[14..], &[0u8; 7]);
    assert_eq!(file.data.len(), 21);
    file.punch_holes(30, 5);
    file.punch_holes(8, 0);
    assert_eq!(&file.data[7..14], b"Sample2");
    file.punch_holes(usize::MAX, usize::MAX);
    assert_eq!(file.data.len(), 21);
}

#[test]
fn file_node_reads_what_was_written() {
    let mut file = VLogFileNode::new();
    file.write_all(&ValueLogEntry::new(1, 1, b"a", b"x", 1, false).serialize());
    file.write_all(&ValueLogEntry::new(1, 1, b"b", b"y", 2, true).serialize());
    assert_eq!(file.get(0).unwrap(), Some((b"x".to_vec(), false)));
    assert_eq!(file.get(19).unwrap(), Some((b"y".to_vec(), true)));
    assert_eq!(file.recover(19).unwrap().len(), 1);
    let (chunk, taken) = file.read_chunk_to_garbage_collect(19, 0).unwrap();
    assert_eq!(chunk.len(), 1);
    assert_eq!(taken, 19);
    let (chunk, taken) = file.read_chunk_to_garbage_collect(20, 0).unwrap();
    assert_eq!(chunk.len(), 2);
    assert_eq!(taken, 38);
}
