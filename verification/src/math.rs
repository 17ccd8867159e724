use vstd::prelude::*;
use vstd::std_specs::bits::{u64_leading_zeros, axiom_u64_leading_zeros};
use core::cmp::Ordering;
use vstd::std_specs::cmp::PartialOrdSpec;

verus! {

/// The integer base-2 logarithm: the position of the highest set bit of `n`,
/// and zero for zero.
pub open spec fn log2_64_spec(n: u64, r: u64) -> bool {
    if n == 0 {
        r == 0
    } else {
        r < 64 && n >> r == 1
    }
}

proof fn lemma_highest_bit(n: u64, k: u64)
    by (bit_vector)
    requires
        k < 64,
        (n >> k) & 1 != 0,
        n >> (k + 1) == 0,
    ensures
        n >> k == 1,
{
}

/// Gets the log base 2 of the given integer, rounded down; zero for zero.
pub fn log2_64(n: u64) -> (r: u64)
    ensures
        log2_64_spec(n, r),
{
    if n == 0 {
        0
    } else {
        let lz = n.leading_zeros();
        proof {
            axiom_u64_leading_zeros(n);
            assert(lz as int == u64_leading_zeros(n));
            lemma_highest_bit(n, (63 - lz) as u64);
        }
        (63 - lz) as u64
    }
}

/// `r` is a power of two.
pub open spec fn is_power_of_two(r: u32) -> bool {
    r != 0 && r & ((r - 1) as u32) == 0
}

proof fn lemma_round_up(v: u32, w: u32)
    by (bit_vector)
    requires
        1 <= v <= 0x8000_0000,
        w == ({
            let a = (v - 1) as u32;
            let b = a | (a >> 1u32);
            let c = b | (b >> 2u32);
            let d = c | (c >> 4u32);
            let e = d | (d >> 8u32);
            e | (e >> 16u32)
        }),
    ensures
        w < 0xffff_ffff,
        (w + 1) as u32 != 0,
        ((w + 1) as u32) & (w as u32) == 0,
        (w + 1) as u32 >= v,
        ((w + 1) as u32) / 2 < v,
{
}

/// Rounds an integer up to the next power of two.
///
/// `v` must be at least one, and its result must fit in 32 bits.
pub fn upper_power_of_two(v: u32) -> (r: u32)
    requires
        1 <= v <= 0x8000_0000,
    ensures
        is_power_of_two(r),
        v <= r,
        r / 2 < v,
{
    let mut x = v - 1;
    x = x | (x >> 1u32);
    x = x | (x >> 2u32);
    x = x | (x >> 4u32);
    x = x | (x >> 8u32);
    x = x | (x >> 16u32);
    proof {
        lemma_round_up(v, x);
    }
    x + 1
}

/// Clamps a value between a lower and an upper bound.
///
/// For types whose comparison obeys its specification, the result is
/// `lower` when `v` compares less than `lower`, otherwise `upper` when `v`
/// compares greater than `upper`, and otherwise `v`.
pub fn clamp<T: PartialOrd>(v: T, lower: T, upper: T) -> (r: T)
    ensures
        T::obeys_partial_cmp_spec() ==> r == (if v.partial_cmp_spec(&lower) == Some(
            Ordering::Less,
        ) {
            lower
        } else if v.partial_cmp_spec(&upper) == Some(Ordering::Greater) {
            upper
        } else {
            v
        }),
{
    if v < lower {
        lower
    } else if v > upper {
        upper
    } else {
        v
    }
}

} // verus!

