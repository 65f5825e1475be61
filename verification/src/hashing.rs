//! Key routing: which shard owns a key.

use vstd::arithmetic::power2::pow2;
use vstd::bits::{lemma_usize_low_bits_mask_is_mod, low_bits_mask};
use vstd::prelude::*;

verus! {

/// The seed under which keys are routed.
pub const ROUTE_SEED: u64 = 123456789;

/// What `wyhash::wyhash` returns for these bytes and this seed.
pub uninterp spec fn wyhash_of(key: Seq<u8>, seed: u64) -> u64;

/// `wyhash::wyhash`: a hash that depends on the bytes and the seed alone.
pub assume_specification[ wyhash::wyhash ](bytes: &[u8], seed: u64) -> (h: u64)
    ensures
        h == wyhash_of(bytes@, seed),
;

/// A key's hash and the shard that owns the key.
#[derive(Clone, Copy, Debug)]
pub struct HashResult {
    pub hash: u64,
    pub shard_id: usize,
}

/// The hash of a key under the routing seed.
pub open spec fn key_hash(key: Seq<u8>) -> u64 {
    wyhash_of(key, ROUTE_SEED)
}

/// The shard that a hash selects among `worker_count`: its low-order bits, under
/// the mask `worker_count - 1`.
pub open spec fn shard_of_hash(hash: u64, worker_count: usize) -> usize {
    (hash as usize) & ((worker_count - 1) as usize)
}

/// The shard that owns a key among `worker_count`.
pub open spec fn shard_of(key: Seq<u8>, worker_count: usize) -> usize {
    shard_of_hash(key_hash(key), worker_count)
}

/// The shard that a hash selects among `worker_count`.
pub fn select_shard(hash: u64, worker_count: usize) -> (shard: usize)
    requires
        worker_count > 0,
    ensures
        shard == shard_of_hash(hash, worker_count),
        shard == (hash as usize) & ((worker_count - 1) as usize),
        shard < worker_count,
{
    let low: usize = #[verifier::truncate] (hash as usize);
    let mask: usize = worker_count - 1;
    assert(low & mask <= mask) by (bit_vector);
    low & mask
}

/// Maps a key to its shard. With a power of two of workers the mask is a
/// remainder, see [`law_mask_is_remainder`].
pub fn route_hash(key: &[u8], worker_count: usize) -> (r: HashResult)
    requires
        worker_count > 0,
    ensures
        r.hash == key_hash(key@),
        r.hash == wyhash_of(key@, 123456789),
        r.shard_id == shard_of(key@, worker_count),
        r.shard_id == (r.hash as usize) & ((worker_count - 1) as usize),
        r.shard_id < worker_count,
{
    let hash: u64 = wyhash::wyhash(key, ROUTE_SEED);
    HashResult { hash, shard_id: select_shard(hash, worker_count) }
}

/// A key's shard is one of the shards.
pub proof fn lemma_shard_in_range(key: Seq<u8>, worker_count: usize)
    requires
        worker_count > 0,
    ensures
        shard_of(key, worker_count) < worker_count,
{
    let low: usize = key_hash(key) as usize;
    let mask: usize = (worker_count - 1) as usize;
    assert(low & mask <= mask) by (bit_vector);
}

/// Whether `n` is a power of two.
pub open spec fn is_power_of_two(n: usize) -> bool {
    exists|k: nat| n == pow2(k)
}

/// With a power of two of workers the mask selects the remainder of the hash, so
/// every residue class of hashes has its own shard.
pub proof fn law_mask_is_remainder(hash: u64, worker_count: usize)
    requires
        is_power_of_two(worker_count),
    ensures
        shard_of_hash(hash, worker_count) == (hash as usize) % worker_count,
{
    let k = choose|k: nat| worker_count == pow2(k);
    lemma_exponent_below_bits(worker_count, k);
    lemma_usize_low_bits_mask_is_mod(hash as usize, k);
    vstd::arithmetic::power2::lemma_pow2_pos(k);
    assert(low_bits_mask(k) == worker_count - 1);
}

/// No shard stands idle by construction: with a power of two of workers, every
/// shard is selected by some hash.
pub proof fn law_every_shard_is_selected(shard: usize, worker_count: usize)
    requires
        is_power_of_two(worker_count),
        shard < worker_count,
    ensures
        shard_of_hash(shard as u64, worker_count) == shard,
{
    law_mask_is_remainder(shard as u64, worker_count);
    assert((shard as u64) as usize == shard);
    vstd::arithmetic::div_mod::lemma_small_mod(shard as nat, worker_count as nat);
}

/// The exponent of a power of two that fits a `usize` is below its bit count.
proof fn lemma_exponent_below_bits(n: usize, k: nat)
    requires
        n == pow2(k),
    ensures
        k < usize::BITS,
{
    if k >= usize::BITS {
        if k > usize::BITS {
            vstd::arithmetic::power2::lemma_pow2_strictly_increases(usize::BITS as nat, k);
        }
        vstd::arithmetic::power2::lemma2_to64();
        vstd::arithmetic::power2::lemma2_to64_rest();
    }
}

/// The owner of a key is the remainder of the key's hash by the number of workers,
/// where that is a power of two.
pub proof fn law_owner_is_remainder(key: Seq<u8>, worker_count: usize, k: nat)
    requires
        worker_count == pow2(k),
    ensures
        shard_of(key, worker_count) == (wyhash_of(key, 123456789) as usize) % worker_count,
{
    assert(is_power_of_two(worker_count));
    law_mask_is_remainder(key_hash(key), worker_count);
}

/// The owner of a key is a matter of its hash alone, and all of the hash that the
/// mask lets through: two keys have the same owner if and only if their hashes
/// agree in those bits, whatever the number of workers.
pub proof fn law_owner_is_the_masked_hash(a: Seq<u8>, b: Seq<u8>, worker_count: usize)
    requires
        worker_count > 0,
    ensures
        ({
            let mask = (worker_count - 1) as usize;
            let x = wyhash_of(a, 123456789) as usize;
            let y = wyhash_of(b, 123456789) as usize;
            &&& shard_of(a, worker_count) < worker_count
            &&& shard_of(a, worker_count) == x & mask
            &&& shard_of(a, worker_count) == shard_of(b, worker_count) <==> x & mask == y & mask
        }),
{
    lemma_shard_in_range(a, worker_count);
}

/// A number is a power of two if it is one of 1, 2, 4 and so on.
pub proof fn law_powers_of_two(n: usize)
    ensures
        is_power_of_two(n) <==> exists|k: nat| n == pow2(k),
{
}

} // verus!
