use kvstore::Memtable;

#[test]
fn test_put_and_get() {
    let mut memtable = Memtable::new(1024);

    memtable.put(b"key1", b"value1").unwrap();
    memtable.put(b"key2", b"value2").unwrap();

    let entry1 = memtable.get(b"key1").unwrap();
    assert_eq!(entry1.value.as_ref().unwrap(), b"value1");

    let entry2 = memtable.get(b"key2").unwrap();
    assert_eq!(entry2.value.as_ref().unwrap(), b"value2");

    assert!(memtable.get(b"key3").is_none());
}

#[test]
fn test_delete() {
    let mut memtable = Memtable::new(1024);

    memtable.put(b"key1", b"value1").unwrap();
    assert!(memtable.get(b"key1").unwrap().value.is_some());

    memtable.delete(b"key1").unwrap();
    let entry = memtable.get(b"key1").unwrap();
    assert!(entry.value.is_none()); // tombstone
}

#[test]
fn test_overwrite() {
    let mut memtable = Memtable::new(1024);

    memtable.put(b"key1", b"value1").unwrap();
    memtable.put(b"key1", b"value2").unwrap();

    let entry = memtable.get(b"key1").unwrap();
    assert_eq!(entry.value.as_ref().unwrap(), b"value2");
}

#[test]
fn test_size_tracking() {
    let mut memtable = Memtable::new(1024);

    assert_eq!(memtable.size(), 0);

    memtable.put(b"key1", b"value1").unwrap();
    let size1 = memtable.size();
    assert!(size1 > 0);

    memtable.put(b"key2", b"value2").unwrap();
    let size2 = memtable.size();
    assert!(size2 > size1);
}

#[test]
fn test_is_full() {
    let mut memtable = Memtable::new(100);

    assert!(!memtable.is_full());

    // Fill until full
    memtable.put(b"key1", b"value1_long_enough").unwrap();
    memtable.put(b"key2", b"value2_long_enough").unwrap();
    memtable.put(b"key3", b"value3_long_enough").unwrap();

    assert!(memtable.is_full());
}

#[test]
fn test_iterator() {
    let mut memtable = Memtable::new(1024);

    memtable.put(b"c", b"3").unwrap();
    memtable.put(b"a", b"1").unwrap();
    memtable.put(b"b", b"2").unwrap();

    let entries = memtable.iter();
    let mut iter = entries.iter();

    let (k, v) = iter.next().unwrap();
    assert_eq!(k.as_slice(), b"a");
    assert_eq!(v.value.as_ref().unwrap().as_slice(), b"1");

    let (k, v) = iter.next().unwrap();
    assert_eq!(k.as_slice(), b"b");
    assert_eq!(v.value.as_ref().unwrap().as_slice(), b"2");

    let (k, v) = iter.next().unwrap();
    assert_eq!(k.as_slice(), b"c");
    assert_eq!(v.value.as_ref().unwrap().as_slice(), b"3");

    assert!(iter.next().is_none());
}

#[test]
fn test_range_iterator() {
    let mut memtable = Memtable::new(1024);

    memtable.put(b"a", b"1").unwrap();
    memtable.put(b"c", b"3").unwrap();
    memtable.put(b"e", b"5").unwrap();
    memtable.put(b"g", b"7").unwrap();

    let results = memtable.range(b"b", b"f");
    assert_eq!(results.len(), 2);
    assert_eq!(results[0].0.as_slice(), b"c");
    assert_eq!(results[1].0.as_slice(), b"e");
}

#[test]
fn test_seq_num_ordering() {
    let mut memtable = Memtable::new(1024);

    memtable.put(b"key1", b"value1").unwrap();
    let seq1 = memtable.get(b"key1").unwrap().seq_num;

    memtable.put(b"key2", b"value2").unwrap();
    let seq2 = memtable.get(b"key2").unwrap().seq_num;

    assert!(seq2 > seq1);
}
