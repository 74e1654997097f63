use kvstore::LSMConfig;

#[test]
fn test_default_config() {
    let config = LSMConfig::default();
    assert_eq!(config.memtable_size, 2 * 1024 * 1024);
    assert_eq!(config.l0_compaction_trigger, 3);
    assert_eq!(config.block_size, 4096);
}

#[test]
fn test_level_sizes() {
    let config = LSMConfig::default();

    // L0: 3 files × 4 MB = 12 MB
    assert_eq!(config.max_level_size(0), 12 * 1024 * 1024);

    // L1: 4 MB × 10^1 = 40 MB
    assert_eq!(config.max_level_size(1), 40 * 1024 * 1024);

    // L2: 4 MB × 10^2 = 400 MB
    assert_eq!(config.max_level_size(2), 400 * 1024 * 1024);
}
