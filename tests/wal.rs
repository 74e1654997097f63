use kvstore::{crc32, decode_entry, encode_entry, WalEntry, WalError};

#[test]
fn test_encode_decode_put() {
    let entry = WalEntry::Put {
        key: b"test_key".to_vec(),
        value: b"test_value".to_vec(),
    };

    let encoded = encode_entry(&entry).unwrap();
    let reader = &encoded[..];
    let decoded = decode_entry(reader).unwrap().unwrap();

    assert_eq!(entry, decoded);
}

#[test]
fn test_encode_decode_delete() {
    let entry = WalEntry::Delete {
        key: b"test_key".to_vec(),
    };

    let encoded = encode_entry(&entry).unwrap();
    let reader = &encoded[..];
    let decoded = decode_entry(reader).unwrap().unwrap();

    assert_eq!(entry, decoded);
}

#[test]
fn test_crc32() {
    let data = b"hello world";
    let crc = crc32(data);

    assert_eq!(crc, crc32(data));

    let crc2 = crc32(b"hello world!");
    assert_ne!(crc, crc2);
}

#[test]
fn test_corrupted_checksum() {
    let entry = WalEntry::Put {
        key: b"key".to_vec(),
        value: b"value".to_vec(),
    };

    let mut encoded = encode_entry(&entry).unwrap();

    encoded[0] ^= 0xFF;

    let reader = &encoded[..];
    let result = decode_entry(reader);

    assert!(matches!(result, Err(WalError::Corrupted(_))));
}
