use collision_log::{Collision, Error, IndexEntry, LogEntry, LogIterator, Operation};

fn drain(mut it: collision_log::CollisionLogIterator<'_>) -> Vec<(Vec<u8>, Vec<u8>)> {
    let mut out = Vec::new();
    while let Some(item) = it.next() {
        out.push(item.unwrap());
    }
    out
}

#[test]
fn test_roundtrip() {
    let bytes;
    {
        let mut collision = Collision::create(0);
        collision.insert(b"hello", b"world").unwrap();
        assert_eq!(collision.get(b"hello").unwrap().unwrap(), b"world");
        bytes = collision.log.clone();
    }

    let collision = Collision::open(Some(bytes), 0).unwrap().unwrap();
    assert_eq!(collision.get(b"hello").unwrap().unwrap(), b"world");
}

#[test]
fn test_iter() {
    let bytes;
    {
        let mut collision = Collision::create(0);
        collision.insert(b"0", b"0").unwrap();
        collision.insert(b"2", b"2").unwrap();
        collision.insert(b"1", b"1").unwrap();
        collision.insert(b"4", b"4").unwrap();
        collision.insert(b"3", b"3").unwrap();
        collision.delete(b"4").unwrap();
        bytes = collision.log.clone();
    }

    let collision = Collision::open(Some(bytes), 0).unwrap().unwrap();
    let collision: Vec<_> = drain(collision.iter());

    let expected = vec![(b"0", b"0"), (b"1", b"1"), (b"2", b"2"), (b"3", b"3")];
    let expected: Vec<_> = expected.iter().map(|e| (e.0.to_vec(), e.1.to_vec())).collect();

    assert_eq!(collision, expected);
}

#[test]
fn tombstone_hides_key_live_and_after_reopen() {
    let mut log = Collision::create(7);
    log.insert(b"k", b"v").unwrap();
    log.delete(b"k").unwrap();
    assert_eq!(log.get(b"k").unwrap(), None);

    let reopened = Collision::open(Some(log.log.clone()), 7).unwrap().unwrap();
    assert_eq!(reopened.get(b"k").unwrap(), None);
}

#[test]
fn last_write_wins_after_reopen() {
    let mut log = Collision::create(1);
    log.insert(b"k", b"first").unwrap();
    log.insert(b"k", b"second").unwrap();
    assert_eq!(log.get(b"k").unwrap().unwrap(), b"second");

    let reopened = Collision::open(Some(log.log.clone()), 1).unwrap().unwrap();
    assert_eq!(reopened.get(b"k").unwrap().unwrap(), b"second");
    assert_eq!(drain(reopened.iter()).len(), 1);

    // Both live and rebuilt, the one index slot points at the second
    // record: insert overwrote the entry with the new position and size.
    let first_len = LogEntry::len(b"k", b"first");
    for collision in [&log, &reopened] {
        assert_eq!(collision.index.len(), 1);
        assert_eq!(collision.index[0].1.position, first_len as u64);
        assert_eq!(collision.index[0].1.size, LogEntry::len(b"k", b"second"));
    }
}

#[test]
fn delete_of_absent_key_writes_nothing() {
    let mut log = Collision::create(2);
    log.insert(b"present", b"x").unwrap();
    let size_before = log.log.len();
    log.delete(b"absent").unwrap();
    assert_eq!(log.log.len(), size_before);
    assert_eq!(log.get(b"present").unwrap().unwrap(), b"x");
}

#[test]
fn reopen_equivalence_for_mixed_operations() {
    let mut log = Collision::create(3);
    log.insert(b"a", b"1").unwrap();
    log.insert(b"b", b"2").unwrap();
    log.insert(b"a", b"3").unwrap();
    log.delete(b"b").unwrap();
    log.insert(b"c", b"4").unwrap();
    let before: Vec<_> = drain(log.iter());

    let reopened = Collision::open(Some(log.log.clone()), 3).unwrap().unwrap();
    let after: Vec<_> = drain(reopened.iter());
    assert_eq!(before, after);
    assert_eq!(
        after,
        vec![(b"a".to_vec(), b"3".to_vec()), (b"c".to_vec(), b"4".to_vec())]
    );
}

#[test]
fn open_without_file_reports_no_log() {
    assert!(Collision::open(None, 42).unwrap().is_none());
}

#[test]
fn open_rejects_truncated_log() {
    let mut log = Collision::create(4);
    log.insert(b"key", b"value").unwrap();
    let mut bytes = log.log.clone();
    bytes.pop();
    assert_eq!(Collision::open(Some(bytes), 4).unwrap_err(), Error::UnexpectedEof);

    // Cut exactly at the boundary of the first record instead: a clean end.
    let mut two = Collision::create(4);
    two.insert(b"key", b"value").unwrap();
    two.insert(b"more", b"data").unwrap();
    let first_record_len = LogEntry::len(b"key", b"value");
    let bytes = two.log[..first_record_len].to_vec();
    let reopened = Collision::open(Some(bytes), 4).unwrap().unwrap();
    assert_eq!(reopened.get(b"key").unwrap().unwrap(), b"value");
    assert_eq!(reopened.get(b"more").unwrap(), None);
}

#[test]
fn apply_dispatches_to_insert_and_delete() {
    let mut log = Collision::create(5);
    log.apply(Operation::Insert(b"k".to_vec(), b"v".to_vec())).unwrap();
    assert_eq!(log.get(b"k").unwrap().unwrap(), b"v");
    log.apply(Operation::Delete(b"k".to_vec())).unwrap();
    assert_eq!(log.get(b"k").unwrap(), None);
}

#[test]
fn prefix_is_returned() {
    let log = Collision::create(9000);
    assert_eq!(log.prefix(), 9000);
}

#[test]
fn record_layout_is_little_endian_with_sentinel_tombstone() {
    let mut log = Collision::create(6);
    log.insert(b"hello", b"world").unwrap();
    let mut expected: Vec<u8> = Vec::new();
    expected.extend_from_slice(&[5, 0, 0, 0]);
    expected.extend_from_slice(b"hello");
    expected.extend_from_slice(&[5, 0, 0, 0]);
    expected.extend_from_slice(b"world");
    assert_eq!(log.log, expected);

    log.delete(b"hello").unwrap();
    expected.extend_from_slice(&[5, 0, 0, 0]);
    expected.extend_from_slice(b"hello");
    expected.extend_from_slice(&[0xFF, 0xFF, 0xFF, 0xFF]);
    assert_eq!(log.log, expected);
}

#[test]
fn entry_len_counts_header_and_payload() {
    assert_eq!(LogEntry::len(b"hello", b"world"), 18);
    assert_eq!(LogEntry::len(b"", b""), 8);
}

#[test]
fn long_key_length_crosses_one_byte() {
    // A 300-byte key: its length field spans two little-endian bytes.
    let key = vec![7u8; 300];
    let mut log = Collision::create(8);
    log.insert(&key, b"v").unwrap();
    assert_eq!(log.log[0], 44);
    assert_eq!(log.log[1], 1);
    assert_eq!(log.get(&key).unwrap().unwrap(), b"v");

    let reopened = Collision::open(Some(log.log.clone()), 8).unwrap().unwrap();
    assert_eq!(reopened.get(&key).unwrap().unwrap(), b"v");
}

#[test]
fn empty_key_and_empty_value_round_trip() {
    let mut log = Collision::create(10);
    log.insert(b"", b"").unwrap();
    assert_eq!(log.get(b"").unwrap().unwrap(), b"");
    let reopened = Collision::open(Some(log.log.clone()), 10).unwrap().unwrap();
    assert_eq!(reopened.get(b"").unwrap().unwrap(), b"");
}

#[test]
fn scanner_yields_records_in_write_order() {
    let mut log = Collision::create(11);
    log.insert(b"b", b"2").unwrap();
    log.insert(b"a", b"1").unwrap();
    log.delete(b"b").unwrap();

    let mut scanner = LogIterator::new(&log.log);
    let first = scanner.next().unwrap().unwrap();
    assert_eq!(first.key, b"b");
    assert_eq!(first.value.as_deref(), Some(&b"2"[..]));
    assert_eq!(first.position, 0);
    let second = scanner.next().unwrap().unwrap();
    assert_eq!(second.key, b"a");
    assert_eq!(second.value.as_deref(), Some(&b"1"[..]));
    let third = scanner.next().unwrap().unwrap();
    assert_eq!(third.key, b"b");
    assert_eq!(third.value, None);
    assert!(scanner.next().is_none());
}

#[test]
fn corrupt_index_is_a_distinct_fatal_error() {
    let mut log = Collision::create(12);
    log.insert(b"a", b"1").unwrap();
    log.delete(b"a").unwrap();
    // Point the index at the tombstone record by hand: the consistency
    // check must fail loudly rather than report an ordinary miss.
    log.index.push((b"a".to_vec(), IndexEntry { position: 10, size: 13 }));
    assert_eq!(log.get(b"a").unwrap_err(), Error::CorruptIndex);
}

#[test]
fn error_descriptions_name_the_failure() {
    assert_eq!(Error::AlreadyExists.describe(), "collision log already exists");
    assert_eq!(Error::UnexpectedEof.describe(), "unexpected end of collision log");
    assert_eq!(Error::CorruptIndex.describe(), "collision log index is corrupt");
}
