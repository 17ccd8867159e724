use vstd::prelude::*;
use vstd::arithmetic::div_mod::{lemma_mod_multiples_vanish, lemma_mul_mod_noop_left, lemma_small_mod};
use vstd::arithmetic::mul::{
    lemma_mul_is_associative, lemma_mul_is_commutative, lemma_mul_is_distributive_add,
};

verus! {

/// One mixing round of `hash_u32`: multiply, fold the high half into the low
/// half, then add the seed, all modulo 2^32.
pub open spec fn hash_u32_round(h: u32, seed: u32) -> u32 {
    let m = vstd::wrapping::u32_specs::wrapping_mul(h, 1936502639u32);
    let x = m ^ vstd::wrapping::u32_specs::wrapping_shr(m, 16);
    vstd::wrapping::u32_specs::wrapping_add(x, seed)
}

/// The 32-bit hash: three mixing rounds of `n` with `seed`.
pub open spec fn hash_u32_spec(n: u32, seed: u32) -> u32 {
    hash_u32_round(hash_u32_round(hash_u32_round(n, seed), seed), seed)
}

/// The multiplier used by `hash_u64`: 32416190071 * 314604959 modulo 2^64.
pub open spec fn hash_u64_multiplier() -> u64 {
    ((32416190071int * 314604959int) % 0x1_0000_0000_0000_0000int) as u64
}

/// One mixing round of `hash_u64`.
pub open spec fn hash_u64_round(h: u64, seed: u64) -> u64 {
    let m = vstd::wrapping::u64_specs::wrapping_mul(h, hash_u64_multiplier());
    let x = m ^ vstd::wrapping::u64_specs::wrapping_shr(m, 32);
    vstd::wrapping::u64_specs::wrapping_add(x, seed)
}

/// The 64-bit hash: four mixing rounds of `n` with `seed`.
pub open spec fn hash_u64_spec(n: u64, seed: u64) -> u64 {
    hash_u64_round(hash_u64_round(hash_u64_round(hash_u64_round(n, seed), seed), seed), seed)
}

/// Hashes a 32-bit integer with a seed.
pub fn hash_u32(n: u32, seed: u32) -> (h: u32)
    ensures
        h == hash_u32_spec(n, seed),
{
    let mut hash = n;
    let mut i: u32 = 0;
    while i < 3
        invariant
            i <= 3,
            hash == (if i == 0 {
                n
            } else if i == 1 {
                hash_u32_round(n, seed)
            } else if i == 2 {
                hash_u32_round(hash_u32_round(n, seed), seed)
            } else {
                hash_u32_spec(n, seed)
            }),
        decreases 3 - i,
    {
        hash = hash.wrapping_mul(1936502639);
        hash ^= hash.wrapping_shr(16);
        hash = hash.wrapping_add(seed);
        i += 1;
    }
    hash
}

/// Hashes a 64-bit integer with a seed.
pub fn hash_u64(n: u64, seed: u64) -> (h: u64)
    ensures
        h == hash_u64_spec(n, seed),
{
    let multiplier: u64 = 32416190071u64.wrapping_mul(314604959);
    let mut hash = n;
    let mut i: u32 = 0;
    while i < 4
        invariant
            i <= 4,
            multiplier == hash_u64_multiplier(),
            hash == (if i == 0 {
                n
            } else if i == 1 {
                hash_u64_round(n, seed)
            } else if i == 2 {
                hash_u64_round(hash_u64_round(n, seed), seed)
            } else if i == 3 {
                hash_u64_round(hash_u64_round(hash_u64_round(n, seed), seed), seed)
            } else {
                hash_u64_spec(n, seed)
            }),
        decreases 4 - i,
    {
        hash = hash.wrapping_mul(multiplier);
        hash ^= hash.wrapping_shr(32);
        hash = hash.wrapping_add(seed);
        i += 1;
    }
    hash
}

/// Multiplying by `c` modulo `m` is undone by multiplying by `inv`, where
/// `c * inv` is one more than a multiple of `m`.
proof fn lemma_mul_undone(h: int, c: int, inv: int, k: int, m: int)
    requires
        0 < m,
        0 <= h < m,
        c * inv == 1 + k * m,
    ensures
        ((h * c) % m) * inv % m == h,
{
    lemma_mul_mod_noop_left(h * c, inv, m);
    lemma_mul_is_associative(h, c, inv);
    lemma_mul_is_distributive_add(h, 1, k * m);
    lemma_mul_is_associative(h, k, m);
    lemma_mul_is_commutative(h * k, m);
    lemma_mod_multiples_vanish(h * k, h, m);
    lemma_small_mod(h as nat, m as nat);
}

/// One round of `hash_u32` never maps two inputs to one output.
proof fn lemma_u32_round_injective(a: u32, b: u32, seed: u32)
    requires
        hash_u32_round(a, seed) == hash_u32_round(b, seed),
    ensures
        a == b,
{
    let ma = vstd::wrapping::u32_specs::wrapping_mul(a, 1936502639u32);
    let mb = vstd::wrapping::u32_specs::wrapping_mul(b, 1936502639u32);
    let xa = ma ^ (ma >> 16u32);
    let xb = mb ^ (mb >> 16u32);
    assert(xa == xb);
    assert(ma == xa ^ (xa >> 16u32)) by (bit_vector)
        requires
            xa == ma ^ (ma >> 16u32),
    ;
    assert(mb == xb ^ (xb >> 16u32)) by (bit_vector)
        requires
            xb == mb ^ (mb >> 16u32),
    ;
    assert(1936502639int * 1055231887int == 1 + 475779952int * 0x1_0000_0000int);
    lemma_mul_undone(a as int, 1936502639, 1055231887, 475779952, 0x1_0000_0000);
    lemma_mul_undone(b as int, 1936502639, 1055231887, 475779952, 0x1_0000_0000);
}

/// One round of `hash_u64` never maps two inputs to one output.
proof fn lemma_u64_round_injective(a: u64, b: u64, seed: u64)
    requires
        hash_u64_round(a, seed) == hash_u64_round(b, seed),
    ensures
        a == b,
{
    let c = hash_u64_multiplier();
    assert(c == 10198294148223162089u64);
    let ma = vstd::wrapping::u64_specs::wrapping_mul(a, c);
    let mb = vstd::wrapping::u64_specs::wrapping_mul(b, c);
    let xa = ma ^ (ma >> 32u32);
    let xb = mb ^ (mb >> 32u32);
    assert(xa == xb);
    assert(ma == xa ^ (xa >> 32u32)) by (bit_vector)
        requires
            xa == ma ^ (ma >> 32u32),
    ;
    assert(mb == xb ^ (xb >> 32u32)) by (bit_vector)
        requires
            xb == mb ^ (mb >> 32u32),
    ;
    assert(10198294148223162089int * 4222726215421583705int == 1 + 2334536863535635959int
        * 0x1_0000_0000_0000_0000int);
    lemma_mul_undone(
        a as int,
        10198294148223162089,
        4222726215421583705,
        2334536863535635959,
        0x1_0000_0000_0000_0000,
    );
    lemma_mul_undone(
        b as int,
        10198294148223162089,
        4222726215421583705,
        2334536863535635959,
        0x1_0000_0000_0000_0000,
    );
}

/// For a fixed seed, `hash_u32` gives different hashes for different
/// integers.
pub proof fn law_hash_u32_injective(a: u32, b: u32, seed: u32)
    requires
        a != b,
    ensures
        hash_u32_spec(a, seed) != hash_u32_spec(b, seed),
{
    if hash_u32_spec(a, seed) == hash_u32_spec(b, seed) {
        let a1 = hash_u32_round(a, seed);
        let b1 = hash_u32_round(b, seed);
        let a2 = hash_u32_round(a1, seed);
        let b2 = hash_u32_round(b1, seed);
        lemma_u32_round_injective(a2, b2, seed);
        lemma_u32_round_injective(a1, b1, seed);
        lemma_u32_round_injective(a, b, seed);
    }
}

/// For a fixed seed, `hash_u64` gives different hashes for different
/// integers.
pub proof fn law_hash_u64_injective(a: u64, b: u64, seed: u64)
    requires
        a != b,
    ensures
        hash_u64_spec(a, seed) != hash_u64_spec(b, seed),
{
    if hash_u64_spec(a, seed) == hash_u64_spec(b, seed) {
        let a1 = hash_u64_round(a, seed);
        let b1 = hash_u64_round(b, seed);
        let a2 = hash_u64_round(a1, seed);
        let b2 = hash_u64_round(b1, seed);
        let a3 = hash_u64_round(a2, seed);
        let b3 = hash_u64_round(b2, seed);
        lemma_u64_round_injective(a3, b3, seed);
        lemma_u64_round_injective(a2, b2, seed);
        lemma_u64_round_injective(a1, b1, seed);
        lemma_u64_round_injective(a, b, seed);
    }
}

} // verus!
