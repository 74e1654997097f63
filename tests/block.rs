use kvstore::{Block, BlockBuilder, BLOCK_SIZE};

#[test]
fn test_block_builder_add() {
    let mut builder = BlockBuilder::new();

    assert!(builder.add(b"key1", b"value1").unwrap());
    assert!(builder.add(b"key2", b"value2").unwrap());
    assert!(builder.add(b"key3", b"value3").unwrap());

    let block = builder.finish();
    assert!(block.size() > 0);
}

#[test]
fn test_block_iter() {
    let mut builder = BlockBuilder::new();
    builder.add(b"apple", b"red").unwrap();
    builder.add(b"banana", b"yellow").unwrap();
    builder.add(b"cherry", b"red").unwrap();

    let block = builder.finish();
    let mut iter = block.iter();

    let (k, v) = iter.next().unwrap().unwrap();
    assert_eq!(k, b"apple");
    assert_eq!(v, b"red");

    let (k, v) = iter.next().unwrap().unwrap();
    assert_eq!(k, b"banana");
    assert_eq!(v, b"yellow");

    let (k, v) = iter.next().unwrap().unwrap();
    assert_eq!(k, b"cherry");
    assert_eq!(v, b"red");

    assert!(iter.next().is_none());
}

#[test]
fn test_block_get() {
    let mut builder = BlockBuilder::new();
    builder.add(b"apple", b"red").unwrap();
    builder.add(b"banana", b"yellow").unwrap();
    builder.add(b"cherry", b"red").unwrap();

    let block = builder.finish();

    assert_eq!(block.get(b"apple").unwrap(), Some(b"red".to_vec()));
    assert_eq!(block.get(b"banana").unwrap(), Some(b"yellow".to_vec()));
    assert_eq!(block.get(b"cherry").unwrap(), Some(b"red".to_vec()));
    assert_eq!(block.get(b"durian").unwrap(), None);
}

#[test]
fn test_block_roundtrip() {
    let mut builder = BlockBuilder::new();
    builder.add(b"key1", b"value1").unwrap();
    builder.add(b"key2", b"value2").unwrap();

    let block1 = builder.finish();
    let bytes = block1.as_bytes().to_vec();

    let block2 = Block::from_bytes(bytes).unwrap();
    assert_eq!(block2.get(b"key1").unwrap(), Some(b"value1".to_vec()));
    assert_eq!(block2.get(b"key2").unwrap(), Some(b"value2".to_vec()));
}

#[test]
fn test_block_restart_points() {
    let mut builder = BlockBuilder::new();

    // Add more than 16 entries to trigger multiple restart points
    for i in 0..20 {
        let key = format!("key{:03}", i);
        let value = format!("value{:03}", i);
        builder.add(key.as_bytes(), value.as_bytes()).unwrap();
    }

    let block = builder.finish();

    // Should have at least 2 restart points (0 and 16)
    assert!(block.restart_points().len() >= 2);

    // Verify we can still retrieve all entries
    for i in 0..20 {
        let key = format!("key{:03}", i);
        let value = format!("value{:03}", i);
        assert_eq!(
            block.get(key.as_bytes()).unwrap(),
            Some(value.as_bytes().to_vec())
        );
    }
}

#[test]
fn test_block_size_limit() {
    let mut builder = BlockBuilder::new();

    // Try to fill block until it's full
    let mut count = 0;
    loop {
        let key = format!("key{:06}", count);
        let value = vec![b'x'; 100]; // 100 byte value

        if !builder.add(key.as_bytes(), &value).unwrap() {
            break; // Block is full
        }
        count += 1;
    }

    let block = builder.finish();

    // Block should be close to BLOCK_SIZE but not exceed it
    assert!(block.size() <= BLOCK_SIZE);
    assert!(block.size() > BLOCK_SIZE / 2); // Should have filled at least half

    println!("Added {} entries, block size: {}", count, block.size());
}
