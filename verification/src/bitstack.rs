use vstd::prelude::*;

verus! {

/// A stack of up to 128 bits, stored in two 64-bit words.
///
/// The top of the stack is the least significant bit of `data.0`; the bits
/// below it follow in order of significance, continuing into `data.1`.
#[derive(Copy, Clone, Debug)]
pub struct BitStack128 {
    pub data: (u64, u64),
}

/// The 128-bit number formed by two words, `hi` above `lo`.
pub open spec fn join(lo: u64, hi: u64) -> u128 {
    ((hi as u128) << 64u128) | (lo as u128)
}

/// The stack after pushing bit `b` onto a stack whose contents are `v`.
pub open spec fn push_spec(v: u128, b: bool) -> u128 {
    (v << 1u128) | (if b { 1u128 } else { 0u128 })
}

/// The stack after pushing the low `count` bits of `value` onto `v`.
pub open spec fn push_n_spec(v: u128, value: u8, count: u8) -> u128 {
    (v << (count as u128)) | (value as u128)
}

/// The top bit of a stack whose contents are `v`.
pub open spec fn top_spec(v: u128) -> bool {
    v & 1u128 != 0u128
}

/// The top `n` bits of `v`, with the top bit in the least significant digit.
pub open spec fn top_n_spec(v: u128, n: usize) -> u128 {
    v & ((((1u128) << (n as u128)) - 1u128) as u128)
}

/// The stack after removing the top `n` bits of `v`.
pub open spec fn drop_n_spec(v: u128, n: usize) -> u128 {
    v >> (n as u128)
}

/// The `n`th bit from the top of `v` (the top bit is the first).
pub open spec fn nth_spec(v: u128, n: usize) -> bool {
    (v >> ((n - 1) as u128)) & 1u128 != 0u128
}

/// There is room for `count` more bits on a stack whose high word is `hi`.
pub open spec fn has_room(hi: u64, count: u8) -> bool {
    0 < count <= 64 && hi >> ((64 - count) as u64) == 0
}

proof fn lemma_push(lo: u64, hi: u64, b: u64)
    by (bit_vector)
    requires
        hi >> 63u64 == 0,
        b <= 1,
    ensures
        join((lo << 1u64) | b, (hi << 1u64) | (lo >> 63u64)) == (join(lo, hi) << 1u128) | (
        b as u128),
{
}

proof fn lemma_push_n(lo: u64, hi: u64, value: u64, count: u64)
    by (bit_vector)
    requires
        0 < count <= 8,
        hi >> ((64 - count) as u64) == 0,
        value < (1u64 << count),
    ensures
        join((lo << count) | value, (hi << count) | (lo >> ((64 - count) as u64))) == (join(lo, hi) << (
        count as u128)) | (value as u128),
{
}

proof fn lemma_drop(lo: u64, hi: u64, n: u64)
    by (bit_vector)
    requires
        0 < n < 64,
    ensures
        1u64 << n >= 1,
        join((lo >> n) | (hi << ((64 - n) as u64)), hi >> n) == join(lo, hi) >> (n as u128),
        (lo & (((1u64 << n) - 1) as u64)) as u128 == join(lo, hi) & (((1u128 << (n as u128)) - 1u128) as u128),
        ((lo & (1u64 << ((n - 1) as u64))) != 0) == ((join(lo, hi) >> ((n - 1) as u128)) & 1u128
            != 0u128),
{
}

proof fn lemma_low(lo: u64, hi: u64, n: u64)
    by (bit_vector)
    requires
        n < 64,
    ensures
        1u64 << n >= 1,
        (lo & (((1u64 << n) - 1) as u64)) as u128 == join(lo, hi) & (((1u128 << (n as u128)) - 1u128) as u128),
        ((lo & 1) != 0) == (join(lo, hi) & 1u128 != 0u128),
        join((lo >> 1u64) | (hi << 63u64), hi >> 1u64) == join(lo, hi) >> 1u128,
{
}

/// Popping a bit that was just pushed gives it back and leaves the stack as it
/// was before the push, provided the push did not lose the bottom bit.
pub proof fn law_pop_undoes_push(v: u128, b: bool)
    by (bit_vector)
    requires
        v >> 127u128 == 0,
    ensures
        top_spec(push_spec(v, b)) == b,
        drop_n_spec(push_spec(v, b), 1) == v,
{
}

/// Popping `count` bits that were just pushed gives them back and restores
/// the stack, provided they fit in the pushed width and on the stack.
pub proof fn law_pop_n_undoes_push_n(v: u128, value: u8, count: u8)
    by (bit_vector)
    requires
        0 < count <= 8,
        (value as u128) < (1u128 << (count as u128)),
        v >> ((128 - count) as u128) == 0,
    ensures
        top_n_spec(push_n_spec(v, value, count), count as usize) == value as u128,
        drop_n_spec(push_n_spec(v, value, count), count as usize) == v,
{
}

/// Peeking reads exactly what popping returns: the top bit is the first bit
/// from the top, and the top `n` bits taken one at a time agree with the
/// top `n` bits taken at once.
pub proof fn law_peek_agrees_with_pop(v: u128, n: usize)
    by (bit_vector)
    requires
        0 < n < 64,
    ensures
        top_spec(v) == nth_spec(v, 1),
        top_spec(v) == (top_n_spec(v, 1) == 1u128),
        nth_spec(v, n) == (top_n_spec(v, n) >> ((n - 1) as u128) == 1u128),
{
}

impl BitStack128 {
    /// The whole stack as one number, the top of the stack in its lowest bit.
    pub open spec fn value(&self) -> u128 {
        join(self.data.0, self.data.1)
    }

    /// An empty stack (all bits zero).
    pub fn new() -> (s: BitStack128)
        ensures
            s.data == (0u64, 0u64),
            s.value() == 0,
    {
        proof {
            assert(join(0, 0) == 0) by (bit_vector);
        }
        BitStack128 { data: (0, 0) }
    }

    /// A stack holding a single set bit on top of zeros.
    pub fn new_with_1() -> (s: BitStack128)
        ensures
            s.data == (1u64, 0u64),
            s.value() == 1,
    {
        proof {
            assert(join(1, 0) == 1) by (bit_vector);
        }
        BitStack128 { data: (1, 0) }
    }

    /// Push a bit onto the top of the stack.
    ///
    /// The stack must have room for it: its bottom bit must be zero.
    pub fn push(&mut self, value: bool)
        requires
            has_room(old(self).data.1, 1),
        ensures
            final(self).value() == push_spec(old(self).value(), value),
    {
        let b: u64 = if value {
            1
        } else {
            0
        };
        proof {
            lemma_push(self.data.0, self.data.1, b);
        }
        self.data.1 = (self.data.1 << 1u64) | (self.data.0 >> 63u64);
        self.data.0 = (self.data.0 << 1u64) | b;
    }

    /// Push `count` bits onto the top of the stack.  The bits are passed as
    /// an integer, the bit that will be on top in the least significant
    /// digit and the rest following in order from there.
    ///
    /// At most eight bits are pushed at once, only the low `count` bits of
    /// `value` may be set, and the stack must have room for them.
    pub fn push_n(&mut self, value: u8, count: u8)
        requires
            0 < count <= 8,
            (value as u64) < (1u64 << (count as u64)),
            has_room(old(self).data.1, count),
        ensures
            final(self).value() == push_n_spec(old(self).value(), value, count),
    {
        let c: u64 = count as u64;
        let v: u64 = value as u64;
        proof {
            lemma_push_n(self.data.0, self.data.1, v, c);
        }
        self.data.1 = (self.data.1 << c) | (self.data.0 >> (64 - c));
        self.data.0 = (self.data.0 << c) | v;
    }

    /// Pop the top bit off the stack.
    pub fn pop(&mut self) -> (b: bool)
        ensures
            b == top_spec(old(self).value()),
            final(self).value() == drop_n_spec(old(self).value(), 1),
    {
        proof {
            lemma_low(self.data.0, self.data.1, 1);
        }
        let b = (self.data.0 & 1) != 0;
        self.data.0 = (self.data.0 >> 1u64) | (self.data.1 << 63u64);
        self.data.1 = self.data.1 >> 1u64;
        b
    }

    /// Pop the top `n` bits off the stack.  The bits are returned as an
    /// integer, the top bit in the least significant digit and the rest
    /// following in order from there.
    pub fn pop_n(&mut self, n: usize) -> (b: u64)
        requires
            0 < n < 64,
        ensures
            b as u128 == top_n_spec(old(self).value(), n),
            final(self).value() == drop_n_spec(old(self).value(), n),
    {
        let k: u64 = n as u64;
        proof {
            lemma_drop(self.data.0, self.data.1, k);
        }
        let b = self.data.0 & ((1u64 << k) - 1);
        self.data.0 = (self.data.0 >> k) | (self.data.1 << (64 - k));
        self.data.1 = self.data.1 >> k;
        b
    }

    /// Pop the top `n` bits off the stack, returning only the `n`th of them.
    pub fn pop_to_nth(&mut self, n: usize) -> (b: bool)
        requires
            0 < n < 64,
        ensures
            b == nth_spec(old(self).value(), n),
            final(self).value() == drop_n_spec(old(self).value(), n),
    {
        let k: u64 = n as u64;
        proof {
            lemma_drop(self.data.0, self.data.1, k);
        }
        let b = (self.data.0 & (1u64 << (k - 1))) != 0;
        self.data.0 = (self.data.0 >> k) | (self.data.1 << (64 - k));
        self.data.1 = self.data.1 >> k;
        b
    }

    /// Read the top bit of the stack without popping it.
    pub fn peek(&self) -> (b: bool)
        ensures
            b == top_spec(self.value()),
    {
        proof {
            lemma_low(self.data.0, self.data.1, 1);
        }
        (self.data.0 & 1) != 0
    }

    /// Read the top `n` bits of the stack without popping them, the top bit
    /// in the least significant digit.
    pub fn peek_n(&self, n: usize) -> (b: u64)
        requires
            n < 64,
        ensures
            b as u128 == top_n_spec(self.value(), n),
    {
        let k: u64 = n as u64;
        proof {
            lemma_low(self.data.0, self.data.1, k);
        }
        self.data.0 & ((1u64 << k) - 1)
    }
}

/// The stack after pushing, one at a time, bits `k - 1` down to 0 of
/// `value` onto `v`.
pub open spec fn push_bits(v: u128, value: u8, k: nat) -> u128
    decreases k,
{
    if k == 0 {
        v
    } else {
        push_bits(push_spec(v, (value >> ((k - 1) as u8)) & 1u8 == 1u8), value, (k - 1) as nat)
    }
}

proof fn lemma_push_bit_step(v: u128, value: u8, k: u8)
    by (bit_vector)
    requires
        0 < k <= 8,
    ensures
        (push_spec(v, (value >> ((k - 1) as u8)) & 1u8 == 1u8) << ((k - 1) as u128)) | ((value as u128)
            & (((1u128 << ((k - 1) as u128)) - 1u128) as u128)) == (v << (k as u128)) | ((value as u128)
            & (((1u128 << (k as u128)) - 1u128) as u128)),
{
}

proof fn lemma_push_bits(v: u128, value: u8, k: u8)
    requires
        k <= 8,
    ensures
        push_bits(v, value, k as nat) == (v << (k as u128)) | ((value as u128) & (((1u128 << (
        k as u128)) - 1u128) as u128)),
    decreases k,
{
    if k == 0 {
        assert((v << 0u128) | ((value as u128) & (((1u128 << 0u128) - 1u128) as u128)) == v)
            by (bit_vector);
    } else {
        let b = (value >> ((k - 1) as u8)) & 1u8 == 1u8;
        lemma_push_bits(push_spec(v, b), value, (k - 1) as u8);
        lemma_push_bit_step(v, value, k);
    }
}

/// Pushing `count` bits at once is pushing them one at a time, from bit
/// `count - 1` of `value` down to bit 0, which ends on top.
pub proof fn law_push_n_is_single_pushes(v: u128, value: u8, count: u8)
    requires
        0 < count <= 8,
        (value as u128) < (1u128 << (count as u128)),
    ensures
        push_n_spec(v, value, count) == push_bits(v, value, count as nat),
{
    lemma_push_bits(v, value, count);
    assert((value as u128) & (((1u128 << (count as u128)) - 1u128) as u128) == value as u128)
        by (bit_vector)
        requires
            0 < count <= 8,
            (value as u128) < (1u128 << (count as u128)),
    ;
}

} // verus!
