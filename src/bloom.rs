//! Bloom filters: a bit array probed at `k` positions per key, derived by double
//! hashing. They answer "possibly present" or "definitely absent".
use vstd::prelude::*;

use vstd::wrapping::u64_specs::{wrapping_add, wrapping_mul};

verus! {

/// FNV-1a offset basis, the start of the first hash.
pub const FNV_OFFSET: u64 = 0xcbf2_9ce4_8422_2325;

/// FNV-1a prime.
pub const FNV_PRIME: u64 = 0x0000_0100_0000_01b3;

/// Start of the second hash.
pub const MIX_SEED: u64 = 0x9e37_79b9_7f4a_7c15;

/// Fewest and most probes per key.
pub const MIN_HASHES: u32 = 1;

pub const MAX_HASHES: u32 = 30;

/// Fewest bits in a filter.
pub const MIN_BITS: usize = 64;

/// FNV-1a of `key`: xor each byte in, then multiply by the prime, wrapping.
pub open spec fn fnv1a(key: Seq<u8>) -> u64
    decreases key.len(),
{
    if key.len() == 0 {
        FNV_OFFSET
    } else {
        wrapping_mul(fnv1a(key.drop_last()) ^ (key.last() as u64), FNV_PRIME)
    }
}

/// `h` rotated left by five bits.
pub open spec fn rotl5(h: u64) -> u64 {
    (h << 5u64) | (h >> 59u64)
}

/// The rotate-add mixer: rotate left by five, then add the byte, wrapping.
pub open spec fn mix(key: Seq<u8>) -> u64
    decreases key.len(),
{
    if key.len() == 0 {
        MIX_SEED
    } else {
        wrapping_add(rotl5(mix(key.drop_last())), key.last() as u64)
    }
}

/// The second hash, never zero.
pub open spec fn second_hash(key: Seq<u8>) -> u64 {
    if mix(key) == 0 {
        1
    } else {
        mix(key)
    }
}

/// Bit position of probe `i` of `key` in an array of `m` bits.
pub open spec fn probe(key: Seq<u8>, i: int, m: nat) -> int {
    (wrapping_add(fnv1a(key), wrapping_mul(i as u64, second_hash(key))) as int) % (m as int)
}

/// Bit `pos` of the array is set (bit `pos % 8` of byte `pos / 8`).
pub open spec fn bit_set(bits: Seq<u8>, pos: int) -> bool {
    bits[pos / 8] & (1u8 << ((pos % 8) as u8)) != 0
}

/// The array with bit `pos` set.
pub open spec fn with_bit(bits: Seq<u8>, pos: int) -> Seq<u8> {
    bits.update(pos / 8, bits[pos / 8] | (1u8 << ((pos % 8) as u8)))
}

/// The array after setting the first `n` probes of `key`.
pub open spec fn with_probes(bits: Seq<u8>, key: Seq<u8>, n: int) -> Seq<u8>
    decreases n,
{
    if n <= 0 {
        bits
    } else {
        with_bit(with_probes(bits, key, n - 1), probe(key, n - 1, bits.len() * 8))
    }
}

/// All of the first `n` probes of `key` are set.
pub open spec fn probes_set(bits: Seq<u8>, key: Seq<u8>, n: int) -> bool {
    forall|i: int| 0 <= i < n ==> #[trigger] bit_set(bits, probe(key, i, bits.len() * 8))
}

/// The array after adding each of `keys` in turn with `n` probes.
pub open spec fn with_keys(bits: Seq<u8>, keys: Seq<Seq<u8>>, n: int) -> Seq<u8>
    decreases keys.len(),
{
    if keys.len() == 0 {
        bits
    } else {
        with_probes(with_keys(bits, keys.drop_last(), n), keys.last(), n)
    }
}

/// Number of probes for `bits_per_key` bits per key: `bits_per_key * ln 2` rounded up
/// (with `ln 2` taken as 0.693147), between 1 and 30.
pub open spec fn hash_count(bits_per_key: int) -> int {
    let raw = (bits_per_key * 693147 + 999999) / 1000000;
    if raw < MIN_HASHES {
        MIN_HASHES as int
    } else if raw > MAX_HASHES {
        MAX_HASHES as int
    } else {
        raw
    }
}

/// Bytes of the array for `num_keys` keys: `num_keys * bits_per_key` bits, at least
/// 64, rounded up to whole bytes.
pub open spec fn byte_count(num_keys: int, bits_per_key: int) -> int {
    let bits = num_keys * bits_per_key;
    let bits = if bits < MIN_BITS {
        MIN_BITS as int
    } else {
        bits
    };
    (bits + 7) / 8
}

/// A probabilistic set of byte strings.
#[derive(Debug, Clone)]
pub struct BloomFilter {
    bits: Vec<u8>,
    num_hashes: u32,
}

impl View for BloomFilter {
    /// The bit array and the number of probes per key.
    type V = (Seq<u8>, u32);

    closed spec fn view(&self) -> (Seq<u8>, u32) {
        (self.bits@, self.num_hashes)
    }
}

/// `key` may be in a filter of this bit array and probe count.
pub open spec fn may_hold(v: (Seq<u8>, u32), key: Seq<u8>) -> bool {
    probes_set(v.0, key, v.1 as int)
}

/// At least 64 bits whose count fits a `usize`, and 1 to 30 probes.
pub open spec fn valid_filter(v: (Seq<u8>, u32)) -> bool {
    &&& v.0.len() >= 8
    &&& v.0.len() * 8 <= usize::MAX
    &&& MIN_HASHES <= v.1 <= MAX_HASHES
}

/// Setting a bit keeps the length, sets that bit and keeps every set bit.
proof fn lemma_with_bit(bits: Seq<u8>, pos: int)
    requires
        0 <= pos < bits.len() * 8,
    ensures
        with_bit(bits, pos).len() == bits.len(),
        bit_set(with_bit(bits, pos), pos),
        forall|q: int| 0 <= q < bits.len() * 8 && bit_set(bits, q) ==> #[trigger] bit_set(with_bit(bits, pos), q),
{
    let x = bits[pos / 8];
    let a = (pos % 8) as u8;
    assert((x | (1u8 << a)) & (1u8 << a) != 0) by (bit_vector)
        requires
            a < 8,
    ;
    assert forall|q: int| 0 <= q < bits.len() * 8 && bit_set(bits, q) implies #[trigger] bit_set(
        with_bit(bits, pos),
        q,
    ) by {
        if q / 8 == pos / 8 {
            let b = (q % 8) as u8;
            assert(x & (1u8 << b) != 0 ==> (x | (1u8 << a)) & (1u8 << b) != 0) by (bit_vector)
                requires
                    a < 8,
                    b < 8,
            ;
        }
    }
}

/// Setting probes only turns bits on.
proof fn lemma_bits_only_grow(bits: Seq<u8>, key: Seq<u8>, n: int)
    requires
        bits.len() > 0,
        0 <= n,
    ensures
        forall|i: int| 0 <= i < bits.len() ==> #[trigger] (bits[i] & !with_probes(bits, key, n)[i]) == 0,
    decreases n,
{
    if n > 0 {
        lemma_bits_only_grow(bits, key, n - 1);
        lemma_with_probes(bits, key, n - 1);
        let prev = with_probes(bits, key, n - 1);
        let pos = probe(key, n - 1, bits.len() * 8);
        let next = with_probes(bits, key, n);
        assert forall|i: int| 0 <= i < bits.len() implies #[trigger] (bits[i] & !next[i]) == 0 by {
            let x = bits[i];
            let y = prev[i];
            let z = next[i];
            if i == pos / 8 {
                let a = (pos % 8) as u8;
                assert(z == y | (1u8 << a));
                assert((x & !y) == 0 ==> (x & !(y | (1u8 << a))) == 0) by (bit_vector);
            } else {
                assert(z == y);
            }
        }
    } else {
        assert forall|i: int| 0 <= i < bits.len() implies #[trigger] (bits[i] & !with_probes(
            bits,
            key,
            n,
        )[i]) == 0 by {
            let x = bits[i];
            assert((x & !x) == 0) by (bit_vector);
        }
    }
}

/// Setting probes keeps the length and every set bit, and sets the probes.
proof fn lemma_with_probes(bits: Seq<u8>, key: Seq<u8>, n: int)
    requires
        bits.len() > 0,
        0 <= n,
    ensures
        with_probes(bits, key, n).len() == bits.len(),
        forall|q: int|
            0 <= q < bits.len() * 8 && bit_set(bits, q) ==> #[trigger] bit_set(
                with_probes(bits, key, n),
                q,
            ),
        probes_set(with_probes(bits, key, n), key, n),
    decreases n,
{
    if n > 0 {
        lemma_with_probes(bits, key, n - 1);
        let prev = with_probes(bits, key, n - 1);
        let m = bits.len() * 8;
        lemma_with_bit(prev, probe(key, n - 1, m));
        assert forall|i: int| 0 <= i < n implies #[trigger] bit_set(
            with_probes(bits, key, n),
            probe(key, i, with_probes(bits, key, n).len() * 8),
        ) by {
            if i < n - 1 {
                assert(bit_set(prev, probe(key, i, prev.len() * 8)));
            }
        }
    }
}

/// No false negatives: after adding a sequence of keys, each of them may be present.
pub proof fn lemma_no_false_negatives(bits: Seq<u8>, keys: Seq<Seq<u8>>, n: int, j: int)
    requires
        bits.len() > 0,
        0 <= n,
        0 <= j < keys.len(),
    ensures
        probes_set(with_keys(bits, keys, n), keys[j], n),
    decreases keys.len(),
{
    let init = keys.drop_last();
    let before = with_keys(bits, init, n);
    lemma_with_keys_len(bits, init, n);
    lemma_with_probes(before, keys.last(), n);
    if j < keys.len() - 1 {
        lemma_no_false_negatives(bits, init, n, j);
        assert(init[j] == keys[j]);
        let m = bits.len() * 8;
        assert forall|i: int| 0 <= i < n implies #[trigger] bit_set(
            with_keys(bits, keys, n),
            probe(keys[j], i, with_keys(bits, keys, n).len() * 8),
        ) by {
            assert(bit_set(before, probe(keys[j], i, m)));
        }
    }
}

/// Adding keys keeps the length of the array.
proof fn lemma_with_keys_len(bits: Seq<u8>, keys: Seq<Seq<u8>>, n: int)
    requires
        bits.len() > 0,
        0 <= n,
    ensures
        with_keys(bits, keys, n).len() == bits.len(),
    decreases keys.len(),
{
    if keys.len() > 0 {
        lemma_with_keys_len(bits, keys.drop_last(), n);
        lemma_with_probes(with_keys(bits, keys.drop_last(), n), keys.last(), n);
    }
}

impl BloomFilter {
    /// The bit array and probe count are valid.
    pub open spec fn wf(&self) -> bool {
        valid_filter(self@)
    }

    /// An empty filter for `num_keys` keys at `bits_per_key` bits each: at least 64
    /// bits, rounded up to whole bytes, probed `hash_count(bits_per_key)` times.
    pub fn new(num_keys: usize, bits_per_key: usize) -> (r: BloomFilter)
        requires
            num_keys * bits_per_key + 7 <= usize::MAX,
        ensures
            r.wf(),
            r@.0.len() == byte_count(num_keys as int, bits_per_key as int),
            forall|i: int| 0 <= i < r@.0.len() ==> r@.0[i] == 0,
            r@.1 == hash_count(bits_per_key as int),
    {
        let total_bits = num_keys * bits_per_key;
        let total_bits = if total_bits < MIN_BITS {
            MIN_BITS
        } else {
            total_bits
        };
        let num_hashes: u32 = if bits_per_key >= 44 {
            assert((bits_per_key * 693147 + 999999) / 1000000 >= 31) by (nonlinear_arith)
                requires
                    bits_per_key >= 44,
            ;
            MAX_HASHES
        } else {
            let raw = ((bits_per_key as u64) * 693147 + 999999) / 1000000;
            if raw < 1 {
                MIN_HASHES
            } else if raw > 30 {
                MAX_HASHES
            } else {
                raw as u32
            }
        };
        let num_bytes = (total_bits + 7) / 8;
        let mut bits: Vec<u8> = Vec::new();
        let mut i: usize = 0;
        while i < num_bytes
            invariant
                0 <= i <= num_bytes,
                bits@.len() == i,
                forall|j: int| 0 <= j < i ==> bits@[j] == 0,
            decreases num_bytes - i,
        {
            bits.push(0);
            i = i + 1;
        }
        BloomFilter { bits, num_hashes }
    }

    /// A filter over a stored bit array and probe count.
    pub fn with_bytes(bytes: Vec<u8>, num_hashes: u32) -> (r: BloomFilter)
        requires
            valid_filter((bytes@, num_hashes)),
        ensures
            r.wf(),
            r@ == (bytes@, num_hashes),
    {
        BloomFilter { bits: bytes, num_hashes }
    }

    /// The two hashes of `key`: FNV-1a, and the rotate-add mixer (never zero).
    fn hash(&self, key: &[u8]) -> (r: (u64, u64))
        ensures
            r.0 == fnv1a(key@),
            r.1 == second_hash(key@),
    {
        let mut h1: u64 = FNV_OFFSET;
        let mut h2: u64 = MIX_SEED;
        let mut i: usize = 0;
        while i < key.len()
            invariant
                0 <= i <= key@.len(),
                h1 == fnv1a(key@.subrange(0, i as int)),
                h2 == mix(key@.subrange(0, i as int)),
            decreases key@.len() - i,
        {
            proof {
                let next = key@.subrange(0, i as int + 1);
                assert(next.drop_last() =~= key@.subrange(0, i as int));
            }
            h1 = (h1 ^ (key[i] as u64)).wrapping_mul(FNV_PRIME);
            h2 = ((h2 << 5u64) | (h2 >> 59u64)).wrapping_add(key[i] as u64);
            i = i + 1;
        }
        assert(key@.subrange(0, key@.len() as int) =~= key@);
        let h2 = if h2 == 0 {
            1
        } else {
            h2
        };
        (h1, h2)
    }

    /// Sets bit `pos`.
    fn set_bit(&mut self, pos: usize)
        requires
            old(self).wf(),
            pos < old(self)@.0.len() * 8,
        ensures
            final(self).wf(),
            final(self)@ == (with_bit(old(self)@.0, pos as int), old(self)@.1),
    {
        let byte_idx = pos / 8;
        let bit_idx = (pos % 8) as u8;
        let b = self.bits[byte_idx] | (1u8 << bit_idx);
        self.bits.set(byte_idx, b);
    }

    /// Bit `pos` is set.
    fn is_bit_set(&self, pos: usize) -> (r: bool)
        requires
            pos < self@.0.len() * 8,
        ensures
            r == bit_set(self@.0, pos as int),
    {
        let byte_idx = pos / 8;
        let bit_idx = (pos % 8) as u8;
        (self.bits[byte_idx] & (1u8 << bit_idx)) != 0
    }

    /// Adds `key`: sets each of its probe bits.
    pub fn add(&mut self, key: &[u8])
        requires
            old(self).wf(),
        ensures
            final(self).wf(),
            final(self)@ == (with_probes(old(self)@.0, key@, old(self)@.1 as int), old(self)@.1),
            may_hold(final(self)@, key@),
            forall|k: Seq<u8>| may_hold(old(self)@, k) ==> #[trigger] may_hold(final(self)@, k),
            forall|i: int|
                0 <= i < old(self)@.0.len() ==> #[trigger] (old(self)@.0[i] & !final(self)@.0[i]) == 0,
    {
        let (h1, h2) = self.hash(key);
        let total_bits = (self.bits.len() * 8) as u64;
        let ghost start = self@.0;
        let mut i: u32 = 0;
        while i < self.num_hashes
            invariant
                self.wf(),
                0 <= i <= self.num_hashes,
                self.num_hashes == old(self).num_hashes,
                self@.0 == with_probes(start, key@, i as int),
                self@.0.len() == start.len(),
                total_bits == start.len() * 8,
                h1 == fnv1a(key@),
                h2 == second_hash(key@),
            decreases self.num_hashes - i,
        {
            let bit_pos = h1.wrapping_add((i as u64).wrapping_mul(h2)) % total_bits;
            proof {
                lemma_with_probes(start, key@, i as int);
            }
            self.set_bit(bit_pos as usize);
            i = i + 1;
        }
        proof {
            let n = self.num_hashes as int;
            let m = start.len() * 8;
            lemma_with_probes(start, key@, n);
            assert forall|k: Seq<u8>| may_hold(old(self)@, k) implies #[trigger] may_hold(self@, k) by {
                assert forall|j: int| 0 <= j < n implies #[trigger] bit_set(
                    self@.0,
                    probe(k, j, self@.0.len() * 8),
                ) by {
                    assert(bit_set(start, probe(k, j, m)));
                    assert(0 <= probe(k, j, m) < m);
                }
            }
            lemma_bits_only_grow(start, key@, n);
        }
    }

    /// `false` only where `key` was never added: every probe bit must be set.
    pub fn may_contain(&self, key: &[u8]) -> (r: bool)
        requires
            self.wf(),
        ensures
            r == may_hold(self@, key@),
    {
        let (h1, h2) = self.hash(key);
        let total_bits = (self.bits.len() * 8) as u64;
        let mut i: u32 = 0;
        while i < self.num_hashes
            invariant
                self.wf(),
                0 <= i <= self.num_hashes,
                total_bits == self@.0.len() * 8,
                h1 == fnv1a(key@),
                h2 == second_hash(key@),
                probes_set(self@.0, key@, i as int),
            decreases self.num_hashes - i,
        {
            let bit_pos = h1.wrapping_add((i as u64).wrapping_mul(h2)) % total_bits;
            if !self.is_bit_set(bit_pos as usize) {
                assert(bit_pos as int == probe(key@, i as int, self@.0.len() * 8));
                assert(!bit_set(self@.0, probe(key@, i as int, self@.0.len() * 8)));
                return false;
            }
            i = i + 1;
        }
        true
    }

    /// The bit array.
    pub fn as_bytes(&self) -> (r: &[u8])
        ensures
            r@ == self@.0,
    {
        self.bits.as_slice()
    }

    /// Probes per key.
    pub fn num_hashes(&self) -> (r: u32)
        ensures
            r == self@.1,
    {
        self.num_hashes
    }

    /// Size of the bit array in bytes.
    pub fn size(&self) -> (r: usize)
        ensures
            r == self@.0.len(),
    {
        self.bits.len()
    }
}

} // verus!
