use kvstore::bytes::compare_bytes;
use kvstore::{
    crc32, decode_entry, decode_entry_at, decode_log, encode_entry, Block, BlockBuilder,
    BlockError, BloomFilter, LSMConfig, Manifest, Memtable, SSTableMetadata, WalEntry, WalError,
    BLOCK_SIZE,
};

fn put(key: &[u8], value: &[u8]) -> WalEntry {
    WalEntry::Put { key: key.to_vec(), value: value.to_vec() }
}

fn del(key: &[u8]) -> WalEntry {
    WalEntry::Delete { key: key.to_vec() }
}

fn encode_all(entries: &[WalEntry]) -> Vec<u8> {
    let mut log = Vec::new();
    for e in entries {
        log.extend_from_slice(&encode_entry(e).unwrap());
    }
    log
}

fn with_checksum(tail: &[u8]) -> Vec<u8> {
    let mut rec = crc32(tail).to_le_bytes().to_vec();
    rec.extend_from_slice(tail);
    rec
}

fn table(id: u64, level: usize, min: &[u8], max: &[u8]) -> SSTableMetadata {
    SSTableMetadata {
        id,
        level,
        path: format!("sst-{}.sst", id),
        size: 1024,
        num_entries: 10,
        min_key: min.to_vec(),
        max_key: max.to_vec(),
    }
}

// ------------------------------------------------------------------ bytes

#[test]
fn byte_order_is_unsigned_lexicographic() {
    assert_eq!(compare_bytes(b"ab", b"abc"), -1);
    assert_eq!(compare_bytes(b"abc", b"ab"), 1);
    assert_eq!(compare_bytes(b"abc", b"abc"), 0);
    assert_eq!(compare_bytes(b"", b""), 0);
    assert_eq!(compare_bytes(b"", b"a"), -1);
    assert_eq!(compare_bytes(&[0x7f], &[0x80]), -1);
    assert_eq!(compare_bytes(&[0xff], &[0x00, 0x00]), 1);
}

// ------------------------------------------------------------------ WAL

#[test]
fn crc32_check_value() {
    assert_eq!(crc32(b"123456789"), 0xCBF4_3926);
    assert_eq!(crc32(b""), 0);
}

#[test]
fn put_record_layout() {
    let rec = encode_entry(&put(b"k", b"v")).unwrap();
    assert_eq!(rec.len(), 19);
    assert_eq!(&rec[4..8], &[11, 0, 0, 0]);
    assert_eq!(rec[8], 1);
    assert_eq!(&rec[9..13], &[1, 0, 0, 0]);
    assert_eq!(&rec[13..17], &[1, 0, 0, 0]);
    assert_eq!(&rec[17..], b"kv");
    // the checksum covers the length field and everything after it
    assert_eq!(u32::from_le_bytes([rec[0], rec[1], rec[2], rec[3]]), crc32(&rec[4..]));
}

#[test]
fn delete_record_layout() {
    let rec = encode_entry(&del(b"ab")).unwrap();
    assert_eq!(rec.len(), 19);
    assert_eq!(&rec[4..8], &[11, 0, 0, 0]);
    assert_eq!(rec[8], 2);
    assert_eq!(&rec[9..13], &[2, 0, 0, 0]);
    assert_eq!(&rec[13..17], &[0, 0, 0, 0]);
    assert_eq!(&rec[17..], b"ab");
}

#[test]
fn empty_key_and_value_round_trip() {
    let e = put(b"", b"");
    let rec = encode_entry(&e).unwrap();
    assert_eq!(rec.len(), 17);
    assert_eq!(decode_entry(&rec).unwrap().unwrap(), e);
}

#[test]
fn decode_reports_next_position() {
    let log = encode_all(&[put(b"a", b"1"), del(b"b")]);
    let (first, next) = decode_entry_at(&log, 0).unwrap().unwrap();
    assert_eq!(first, put(b"a", b"1"));
    assert_eq!(next, 19);
    let (second, end) = decode_entry_at(&log, next).unwrap().unwrap();
    assert_eq!(second, del(b"b"));
    assert_eq!(end, log.len());
    assert!(decode_entry_at(&log, end).unwrap().is_none());
}

#[test]
fn log_round_trip() {
    let entries = vec![
        put(b"key1", b"value1"),
        put(b"key2", b"value2"),
        del(b"key1"),
        put(b"", b"empty key"),
        del(b""),
    ];
    let log = encode_all(&entries);
    assert_eq!(decode_log(&log).unwrap(), entries);
    assert_eq!(decode_log(&[]).unwrap(), Vec::<WalEntry>::new());
}

#[test]
fn torn_tail_ends_log_cleanly() {
    let entries = vec![put(b"key1", b"value1"), del(b"key2"), put(b"key3", b"value3")];
    let log = encode_all(&entries);
    let last = encode_entry(&entries[2]).unwrap().len();
    for cut in 1..=last {
        let torn = &log[..log.len() - cut];
        assert_eq!(decode_log(torn).unwrap(), entries[..2].to_vec(), "cut {}", cut);
    }
    let first = encode_entry(&entries[0]).unwrap().len();
    assert_eq!(decode_log(&log[..first + 3]).unwrap(), entries[..1].to_vec());
    assert!(decode_entry(&log[..7]).unwrap().is_none());
}

#[test]
fn any_flipped_checksum_bit_is_corruption() {
    let rec = encode_entry(&put(b"key", b"value")).unwrap();
    for byte in 0..4 {
        for bit in 0..8 {
            let mut bad = rec.clone();
            bad[byte] ^= 1 << bit;
            assert!(matches!(decode_entry(&bad), Err(WalError::Corrupted(_))));
        }
    }
}

#[test]
fn corrupt_record_fails_the_log() {
    let entries = vec![put(b"a", b"1"), put(b"b", b"2"), put(b"c", b"3")];
    let mut log = encode_all(&entries);
    log[19 + 18] ^= 0x01; // the value byte of the second record
    assert!(matches!(decode_log(&log), Err(WalError::Corrupted(_))));
}

#[test]
fn unknown_operation_is_corruption() {
    let mut tail = vec![10, 0, 0, 0, 3];
    tail.extend_from_slice(&[1, 0, 0, 0, 0, 0, 0, 0]);
    tail.push(b'k');
    let rec = with_checksum(&tail);
    assert!(matches!(decode_entry(&rec), Err(WalError::Corrupted(_))));
}

#[test]
fn delete_with_value_is_corruption() {
    let mut tail = vec![11, 0, 0, 0, 2];
    tail.extend_from_slice(&[1, 0, 0, 0, 1, 0, 0, 0]);
    tail.extend_from_slice(b"kv");
    let rec = with_checksum(&tail);
    assert!(matches!(decode_entry(&rec), Err(WalError::Corrupted(_))));
}

#[test]
fn inconsistent_lengths_are_corruption() {
    let mut tail = vec![12, 0, 0, 0, 1];
    tail.extend_from_slice(&[1, 0, 0, 0, 1, 0, 0, 0]);
    tail.extend_from_slice(b"kvx");
    let rec = with_checksum(&tail);
    assert!(matches!(decode_entry(&rec), Err(WalError::Corrupted(_))));
    let short = with_checksum(&[4, 0, 0, 0, 1, 0, 0, 0]);
    assert!(matches!(decode_entry(&short), Err(WalError::Corrupted(_))));
}

#[test]
fn wal_replay_restores_memtable() {
    // keys from a fixed linear congruential sequence
    let mut state: u64 = 0x2545_f491_4f6c_dd1d;
    let mut keys = Vec::new();
    let mut entries = Vec::new();
    for i in 0..1000u32 {
        state = state.wrapping_mul(6364136223846793005).wrapping_add(1442695040888963407);
        let key = format!("key-{:016x}-{}", state, i).into_bytes();
        entries.push(WalEntry::Put { key: key.clone(), value: i.to_le_bytes().to_vec() });
        keys.push(key);
    }
    let log = encode_all(&entries);
    let recovered = decode_log(&log).unwrap();
    let mut memtable = Memtable::new(1 << 30);
    for e in &recovered {
        match e {
            WalEntry::Put { key, value } => memtable.put(key, value).unwrap(),
            WalEntry::Delete { key } => memtable.delete(key).unwrap(),
        }
    }
    assert_eq!(memtable.len(), 1000);
    for (i, key) in keys.iter().enumerate() {
        let entry = memtable.get(key).unwrap();
        assert_eq!(entry.value.as_ref().unwrap(), &(i as u32).to_le_bytes().to_vec());
    }
}

// ------------------------------------------------------------------ memtable

#[test]
fn memtable_size_estimate() {
    let mut m = Memtable::new(1024);
    m.put(b"key1", b"value1").unwrap();
    assert_eq!(m.size(), 4 + 6 + 24);
    m.put(b"key1", b"value1_longer").unwrap();
    assert_eq!(m.size(), 34 + 7);
    m.put(b"key1", b"v").unwrap();
    assert_eq!(m.size(), 41);
    m.delete(b"key1").unwrap();
    assert_eq!(m.size(), 41);
    m.delete(b"zz").unwrap();
    assert_eq!(m.size(), 41 + 2 + 24);
    assert_eq!(m.seq_num(), 5);
    assert_eq!(m.len(), 2);
}

#[test]
fn memtable_last_write_wins() {
    let mut m = Memtable::new(1024);
    m.put(b"a", b"1").unwrap();
    m.put(b"b", b"2").unwrap();
    m.delete(b"a").unwrap();
    m.put(b"b", b"3").unwrap();
    m.delete(b"c").unwrap();
    m.put(b"c", b"4").unwrap();
    assert!(m.get(b"a").unwrap().value.is_none());
    assert_eq!(m.get(b"b").unwrap().value.as_ref().unwrap(), b"3");
    assert_eq!(m.get(b"c").unwrap().value.as_ref().unwrap(), b"4");
    assert_eq!(m.get(b"a").unwrap().seq_num, 3);
    assert_eq!(m.get(b"b").unwrap().seq_num, 4);
    assert_eq!(m.get(b"c").unwrap().seq_num, 6);
}

#[test]
fn memtable_seq_strictly_increases() {
    let mut m = Memtable::new(1024);
    let mut last = m.seq_num();
    for i in 0..50u32 {
        let key = [(i % 7) as u8];
        if i % 3 == 0 {
            m.delete(&key).unwrap();
        } else {
            m.put(&key, &i.to_le_bytes()).unwrap();
        }
        assert!(m.seq_num() > last);
        assert_eq!(m.get(&key).unwrap().seq_num, m.seq_num());
        last = m.seq_num();
    }
}

#[test]
fn memtable_empty_and_full() {
    let mut m = Memtable::new(0);
    assert!(m.is_empty());
    assert!(m.is_full());
    m.put(b"", b"").unwrap();
    assert!(!m.is_empty());
    assert_eq!(m.get(b"").unwrap().value.as_ref().unwrap().len(), 0);
}

#[test]
fn memtable_range_keeps_tombstones_in_order() {
    let mut m = Memtable::new(1024);
    for k in [b"d", b"a", b"c", b"b", b"e"] {
        m.put(k, k).unwrap();
    }
    m.delete(b"c").unwrap();
    let r = m.range(b"b", b"e");
    let keys: Vec<&[u8]> = r.iter().map(|(k, _)| k.as_slice()).collect();
    assert_eq!(keys, vec![&b"b"[..], &b"c"[..], &b"d"[..]]);
    assert!(r[1].1.value.is_none());
    assert!(m.range(b"e", b"b").is_empty());
}

#[test]
fn flushed_memtable_hides_deleted_key() {
    let mut m = Memtable::new(1 << 20);
    for (i, c) in (b'a'..=b'z').enumerate() {
        m.put(&[c], &[i as u8]).unwrap();
    }
    m.delete(b"m").unwrap();
    let mut builder = BlockBuilder::new();
    for (key, entry) in m.iter() {
        if let Some(v) = &entry.value {
            assert!(builder.add(&key, v).unwrap());
        }
    }
    let block = Block::from_bytes(builder.finish().as_bytes().to_vec()).unwrap();
    assert_eq!(block.get(b"m").unwrap(), None);
    assert_eq!(block.get(b"n").unwrap(), Some(vec![13]));
    let mut iter = block.iter();
    let mut seen = Vec::new();
    while let Some(item) = iter.next() {
        seen.push(item.unwrap().0);
    }
    assert_eq!(seen.len(), 25);
    assert!(seen.windows(2).all(|w| w[0] < w[1]));
}

// ------------------------------------------------------------------ block

#[test]
fn single_entry_block_image() {
    let mut b = BlockBuilder::new();
    assert!(b.is_empty());
    assert_eq!(b.current_size(), 8);
    assert!(b.add(b"a", b"b").unwrap());
    assert!(!b.is_empty());
    assert_eq!(b.current_size(), 18);
    let block = b.finish();
    assert_eq!(
        block.as_bytes(),
        &[1, 0, 0, 0, 1, 0, 0, 0, b'a', b'b', 0, 0, 0, 0, 1, 0, 0, 0]
    );
    assert_eq!(block.restart_points(), &[0]);
}

#[test]
fn restart_points_every_sixteen_entries() {
    let mut b = BlockBuilder::new();
    for i in 0..40u32 {
        let key = format!("k{:02}", i);
        assert!(b.add(key.as_bytes(), b"v").unwrap());
    }
    let block = b.finish();
    // each entry is 8 + 3 + 1 = 12 bytes
    assert_eq!(block.restart_points(), &[0, 16 * 12, 32 * 12]);
    for i in 0..40u32 {
        let key = format!("k{:02}", i);
        assert_eq!(block.get(key.as_bytes()).unwrap(), Some(b"v".to_vec()));
    }
    assert_eq!(block.get(b"k").unwrap(), None);
    assert_eq!(block.get(b"k155").unwrap(), None);
    assert_eq!(block.get(b"k40").unwrap(), None);
    assert_eq!(block.get(b"zzz").unwrap(), None);
}

#[test]
fn filled_block_is_at_least_half_full() {
    let mut b = BlockBuilder::new();
    let mut count = 0;
    while b.add(format!("key{:06}", count).as_bytes(), &[b'x'; 100]).unwrap() {
        count += 1;
    }
    let size_before = b.current_size();
    let block = b.finish();
    assert_eq!(block.size(), size_before);
    assert!(block.size() <= 4096);
    assert!(block.size() >= 2048);
}

#[test]
fn oversized_entry_is_a_capacity_error() {
    let mut b = BlockBuilder::new();
    assert!(matches!(b.add(b"k", &vec![0u8; 5000]), Err(BlockError::Full)));
    assert!(matches!(b.add(&vec![1u8; 4077], b""), Err(BlockError::Full)));
    assert!(b.is_empty());
    assert!(b.add(&vec![1u8; 4076], b"").unwrap());
    assert_eq!(b.current_size(), BLOCK_SIZE - 4);
    assert!(!b.add(b"z", b"").unwrap());
}

#[test]
fn empty_block_finds_nothing() {
    let block = BlockBuilder::new().finish();
    assert_eq!(block.size(), 8);
    assert_eq!(block.get(b"").unwrap(), None);
    assert!(block.iter().next().is_none());
}

#[test]
fn malformed_block_trailers_are_rejected() {
    assert!(matches!(Block::from_bytes(vec![1, 2]), Err(BlockError::Corrupted(_))));
    assert!(matches!(Block::from_bytes(vec![0, 0, 0, 0]), Err(BlockError::Corrupted(_))));
    assert!(matches!(Block::from_bytes(vec![0, 0, 0, 0, 5, 0, 0, 0]), Err(BlockError::Corrupted(_))));
    assert!(Block::from_bytes(vec![0, 0, 0, 0, 1, 0, 0, 0]).is_ok());
}

#[test]
fn entry_past_its_section_is_corruption() {
    // one entry claiming a 200-byte key, then restart offset 0 and a count of 1
    let bytes = vec![200, 0, 0, 0, 0, 0, 0, 0, b'a', 0, 0, 0, 0, 1, 0, 0, 0];
    let block = Block::from_bytes(bytes).unwrap();
    assert!(matches!(block.get(b"a"), Err(BlockError::Corrupted(_))));
    let mut iter = block.iter();
    assert!(matches!(iter.next(), Some(Err(BlockError::Corrupted(_)))));
    assert!(iter.next().is_none());
}

// ------------------------------------------------------------------ bloom

#[test]
fn bloom_sized_for_keys_holds_them_all() {
    let mut bloom = BloomFilter::new(100, 10);
    let keys: Vec<String> = (0..100).map(|i| format!("member-{}", i)).collect();
    for k in &keys {
        bloom.add(k.as_bytes());
    }
    for k in &keys {
        assert!(bloom.may_contain(k.as_bytes()));
    }
}

#[test]
fn bloom_dimensions() {
    assert_eq!(BloomFilter::new(100, 10).size(), 125);
    assert_eq!(BloomFilter::new(1, 10).size(), 8);
    assert_eq!(BloomFilter::new(0, 0).size(), 8);
    assert_eq!(BloomFilter::new(9, 9).size(), 11);
    assert_eq!(BloomFilter::new(0, 0).num_hashes(), 1);
    assert_eq!(BloomFilter::new(10, 1).num_hashes(), 1);
    assert_eq!(BloomFilter::new(10, 13).num_hashes(), 10);
    assert_eq!(BloomFilter::new(10, 20).num_hashes(), 14);
    assert_eq!(BloomFilter::new(10, 44).num_hashes(), 30);
    assert_eq!(BloomFilter::new(10, 1000).num_hashes(), 30);
    assert!(BloomFilter::new(100, 10).as_bytes().iter().all(|b| *b == 0));
}

#[test]
fn bloom_add_sets_bits() {
    let mut bloom = BloomFilter::new(10, 10);
    bloom.add(b"");
    let set: u32 = bloom.as_bytes().iter().map(|b| b.count_ones()).sum();
    assert!(set >= 1 && set <= 7);
    assert!(bloom.may_contain(b""));
}

// ------------------------------------------------------------------ manifest

#[test]
fn manifest_allocators_and_versions() {
    let mut m = Manifest::new(5);
    m.add_sstable(0, table(1, 0, b"a", b"z"));
    assert_eq!(m.version, 2);
    assert_eq!(m.next_sstable_id, 1);
    assert_eq!(m.next_sstable_id(), 1);
    assert_eq!(m.next_sstable_id(), 2);
    assert_eq!(m.next_sstable_id, 3);
    assert_eq!(m.next_wal_seq(), 1);
    assert_eq!(m.next_wal_seq(), 2);
    assert_eq!(m.version, 2);
}

#[test]
fn manifest_ignores_missing_level() {
    let mut m = Manifest::new(2);
    m.add_sstable(7, table(1, 7, b"a", b"b"));
    assert_eq!(m.version, 1);
    assert!(m.get_level(7).is_empty());
    assert!(m.find_overlapping(7, b"a", b"z").is_empty());
    m.add_sstable(1, table(2, 1, b"a", b"b"));
    assert_eq!(m.get_level(1).len(), 1);
    assert_eq!(m.get_level(1)[0].path, "sst-2.sst");
    for (i, level) in m.levels.iter().enumerate() {
        assert_eq!(level.level, i);
    }
}

#[test]
fn manifest_overlap_bounds_are_inclusive() {
    let mut m = Manifest::new(2);
    m.add_sstable(1, table(1, 1, b"c", b"e"));
    assert_eq!(m.find_overlapping(1, b"a", b"c").len(), 1);
    assert_eq!(m.find_overlapping(1, b"e", b"f").len(), 1);
    assert_eq!(m.find_overlapping(1, b"a", b"b").len(), 0);
    assert_eq!(m.find_overlapping(1, b"ea", b"f").len(), 0);
    assert_eq!(m.find_overlapping(1, b"d", b"d").len(), 1);
}

#[test]
fn manifest_remove_matches_level_and_id() {
    let mut m = Manifest::new(2);
    m.add_sstable(0, table(1, 0, b"a", b"b"));
    m.add_sstable(1, table(1, 1, b"a", b"b"));
    m.add_sstable(1, table(2, 1, b"c", b"d"));
    m.remove_sstables(&[table(1, 1, b"", b""), table(9, 5, b"", b"")]);
    assert_eq!(m.version, 5);
    assert_eq!(m.levels[0].sstables.len(), 1);
    assert_eq!(m.levels[1].sstables.len(), 1);
    assert_eq!(m.levels[1].sstables[0].id, 2);
}

#[test]
fn manifest_needs_levels() {
    assert!(Manifest::new(0).check_levels().is_err());
    assert!(Manifest::new(1).check_levels().is_ok());
}

// ------------------------------------------------------------------ config

#[test]
fn level_schedule_beyond_two() {
    let c = LSMConfig::new();
    assert_eq!(c.max_level_size(3), 4000 * 1024 * 1024);
    assert_eq!(c.max_level_size(4), 40000 * 1024 * 1024);
    assert_eq!(c.bloom_bits_per_key, 10);
    assert_eq!(c.max_levels, 5);
    assert_eq!(c.block_cache_size, 4 * 1024 * 1024);
    assert_eq!(c.target_file_size, 4 * 1024 * 1024);
    assert_eq!(c.level_multiplier, 10);
    let mut flat = LSMConfig::new();
    flat.level_multiplier = 0;
    assert_eq!(flat.max_level_size(1), 0);
}

#[test]
fn finished_block_restart_layout() {
    let mut b = BlockBuilder::new();
    let mut sizes = vec![b.current_size()];
    for i in 0..20u32 {
        let key = format!("key{:03}", i);
        let value = format!("value{:03}", i);
        assert!(b.add(key.as_bytes(), value.as_bytes()).unwrap());
        sizes.push(b.current_size());
    }
    // each entry is 8 + 6 + 8 = 22 bytes; entry 17 opens a second restart point
    for i in 0..20 {
        let extra = if i == 16 { 4 } else { 0 };
        assert_eq!(sizes[i + 1], sizes[i] + 22 + extra);
    }
    let block = b.finish();
    let d = block.as_bytes();
    let count = u32::from_le_bytes([d[d.len() - 4], d[d.len() - 3], d[d.len() - 2], d[d.len() - 1]]);
    assert_eq!(count, 2);
    assert_eq!(block.restart_points(), &[0, 16 * 22]);
    assert_eq!(block.size(), 20 * 22 + 2 * 4 + 4);
}

#[test]
fn bloom_add_only_sets_bits() {
    let mut bloom = BloomFilter::new(50, 10);
    bloom.add(b"first");
    let before = bloom.as_bytes().to_vec();
    bloom.add(b"second");
    let after = bloom.as_bytes();
    for (x, y) in before.iter().zip(after.iter()) {
        assert_eq!(x & !y, 0);
    }
    assert!(bloom.may_contain(b"first"));
    assert!(bloom.may_contain(b"second"));
    let copy = BloomFilter::with_bytes(after.to_vec(), bloom.num_hashes());
    assert_eq!(copy.as_bytes(), bloom.as_bytes());
    assert_eq!(copy.num_hashes(), bloom.num_hashes());
    for k in [&b"first"[..], b"second", b"third", b""] {
        assert_eq!(copy.may_contain(k), bloom.may_contain(k));
    }
}

#[test]
fn memtable_len_counts_keys_once() {
    let mut m = Memtable::new(1024);
    m.put(b"x", b"1").unwrap();
    m.put(b"x", b"2").unwrap();
    m.delete(b"y").unwrap();
    m.delete(b"x").unwrap();
    assert_eq!(m.len(), 2);
    assert!(!m.is_empty());
}
