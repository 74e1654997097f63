//! Engine configuration and the level size schedule derived from it.
use vstd::prelude::*;

verus! {

/// `b` to the power `e`.
pub open spec fn power(b: int, e: nat) -> int
    decreases e,
{
    if e == 0 {
        1
    } else {
        b * power(b, (e - 1) as nat)
    }
}

/// Tuning parameters of the engine.
#[derive(Debug, Clone)]
pub struct LSMConfig {
    /// Memtable size at which it is flushed, in bytes.
    pub memtable_size: usize,
    /// Number of level-0 tables that triggers a compaction.
    pub l0_compaction_trigger: usize,
    /// Size ratio between consecutive levels.
    pub level_multiplier: usize,
    /// Target size of one table, in bytes.
    pub target_file_size: usize,
    /// Size of one data block, in bytes.
    pub block_size: usize,
    /// Size of the block cache, in bytes.
    pub block_cache_size: usize,
    /// Bloom filter bits per key.
    pub bloom_bits_per_key: usize,
    /// Number of levels.
    pub max_levels: usize,
}

/// Byte budget of level `level`: level 0 holds `l0_compaction_trigger` tables of the
/// target size; level `L > 0` holds `target_file_size * level_multiplier^L` bytes.
pub open spec fn level_size(c: LSMConfig, level: nat) -> int {
    if level == 0 {
        c.l0_compaction_trigger * c.target_file_size
    } else {
        c.target_file_size * power(c.level_multiplier as int, level)
    }
}

/// The default values: a 2 MiB memtable, compaction at 3 level-0 tables, a growth of
/// 10 per level, 4 MiB tables, 4 KiB blocks, a 4 MiB block cache, 10 Bloom bits per
/// key and 5 levels.
pub open spec fn is_default(c: LSMConfig) -> bool {
    &&& c.memtable_size == 2 * 1024 * 1024
    &&& c.l0_compaction_trigger == 3
    &&& c.level_multiplier == 10
    &&& c.target_file_size == 4 * 1024 * 1024
    &&& c.block_size == 4096
    &&& c.block_cache_size == 4 * 1024 * 1024
    &&& c.bloom_bits_per_key == 10
    &&& c.max_levels == 5
}

/// With a factor of at least 1, `t * b^e` grows with `e`.
proof fn lemma_power_grows(t: int, b: int, i: nat, j: nat)
    requires
        t >= 0,
        b >= 1,
        i <= j,
    ensures
        0 <= t * power(b, i) <= t * power(b, j),
    decreases j,
{
    lemma_power_nonneg(b, j);
    if i < j {
        lemma_power_grows(t, b, i, (j - 1) as nat);
        let p = power(b, (j - 1) as nat);
        lemma_power_nonneg(b, (j - 1) as nat);
        assert(t * p <= t * (b * p)) by (nonlinear_arith)
            requires
                t >= 0,
                b >= 1,
                p >= 0,
        ;
    } else {
        assert(t * power(b, i) >= 0) by (nonlinear_arith)
            requires
                t >= 0,
                power(b, i) >= 0,
        ;
    }
}

proof fn lemma_power_nonneg(b: int, e: nat)
    requires
        b >= 0,
    ensures
        power(b, e) >= 0,
    decreases e,
{
    if e > 0 {
        lemma_power_nonneg(b, (e - 1) as nat);
        assert(b * power(b, (e - 1) as nat) >= 0) by (nonlinear_arith)
            requires
                b >= 0,
                power(b, (e - 1) as nat) >= 0,
        ;
    }
}

impl Default for LSMConfig {
    fn default() -> (r: Self)
        ensures
            is_default(r),
    {
        LSMConfig {
            memtable_size: 2 * 1024 * 1024,
            l0_compaction_trigger: 3,
            level_multiplier: 10,
            target_file_size: 4 * 1024 * 1024,
            block_size: 4096,
            block_cache_size: 4 * 1024 * 1024,
            bloom_bits_per_key: 10,
            max_levels: 5,
        }
    }
}

impl LSMConfig {
    /// The default configuration.
    pub fn new() -> (r: Self)
        ensures
            is_default(r),
    {
        LSMConfig::default()
    }

    /// Byte budget of `level`; the budget must fit a `u64`.
    pub fn max_level_size(&self, level: usize) -> (r: u64)
        requires
            level_size(*self, level as nat) <= u64::MAX,
        ensures
            r == level_size(*self, level as nat),
    {
        if level == 0 {
            (self.l0_compaction_trigger as u64) * (self.target_file_size as u64)
        } else {
            let t = self.target_file_size as u64;
            let b = self.level_multiplier as u64;
            let mut size: u64 = t;
            let mut i: usize = 0;
            while i < level
                invariant
                    0 <= i <= level,
                    t == self.target_file_size,
                    b == self.level_multiplier,
                    size == t * power(b as int, i as nat),
                    t * power(b as int, level as nat) <= u64::MAX,
                decreases level - i,
            {
                proof {
                    let p = power(b as int, i as nat);
                    assert(t * power(b as int, (i + 1) as nat) == (t * p) * b) by (nonlinear_arith)
                        requires
                            power(b as int, (i + 1) as nat) == b * p,
                    ;
                    if b >= 1 {
                        lemma_power_grows(t as int, b as int, (i + 1) as nat, level as nat);
                    } else {
                        assert((t * p) * b == 0) by (nonlinear_arith)
                            requires
                                b == 0,
                        ;
                    }
                }
                size = size * b;
                i = i + 1;
            }
            size
        }
    }
}

} // verus!
