use kvstore::{Manifest, SSTableMetadata};

#[test]
fn test_new_manifest() {
    let manifest = Manifest::new(5);
    assert_eq!(manifest.version, 1);
    assert_eq!(manifest.levels.len(), 5);
    assert_eq!(manifest.next_sstable_id, 1);
    assert_eq!(manifest.wal_seq, 1);
}

#[test]
fn test_find_overlapping() {
    let mut manifest = Manifest::new(3);

    manifest.add_sstable(
        1,
        SSTableMetadata {
            id: 1,
            level: 1,
            path: "sst1.sst".to_string(),
            size: 1024,
            num_entries: 10,
            min_key: b"a".to_vec(),
            max_key: b"c".to_vec(),
        },
    );

    manifest.add_sstable(
        1,
        SSTableMetadata {
            id: 2,
            level: 1,
            path: "sst2.sst".to_string(),
            size: 1024,
            num_entries: 10,
            min_key: b"e".to_vec(),
            max_key: b"g".to_vec(),
        },
    );

    let overlapping = manifest.find_overlapping(1, b"b", b"f");
    assert_eq!(overlapping.len(), 2); // Both overlap

    let overlapping = manifest.find_overlapping(1, b"a", b"b");
    assert_eq!(overlapping.len(), 1); // Only first overlaps
    assert_eq!(overlapping[0].id, 1);

    let overlapping = manifest.find_overlapping(1, b"x", b"z");
    assert_eq!(overlapping.len(), 0); // No overlap
}

#[test]
fn test_remove_sstables() {
    let mut manifest = Manifest::new(3);

    let sst1 = SSTableMetadata {
        id: 1,
        level: 0,
        path: "sst1.sst".to_string(),
        size: 1024,
        num_entries: 10,
        min_key: b"a".to_vec(),
        max_key: b"c".to_vec(),
    };

    let sst2 = SSTableMetadata {
        id: 2,
        level: 0,
        path: "sst2.sst".to_string(),
        size: 1024,
        num_entries: 10,
        min_key: b"d".to_vec(),
        max_key: b"f".to_vec(),
    };

    manifest.add_sstable(0, sst1.clone());
    manifest.add_sstable(0, sst2);
    assert_eq!(manifest.levels[0].sstables.len(), 2);

    manifest.remove_sstables(&[sst1]);
    assert_eq!(manifest.levels[0].sstables.len(), 1);
    assert_eq!(manifest.levels[0].sstables[0].id, 2);
}
