//! The bit-serial CRC-32 register: the linear map that one zero bit applies to it,
//! and what it holds after a run of bits has been fed in.
use vstd::prelude::*;

verus! {

/// The CRC-32 generator polynomial, reflected: bit 0 stands for the highest power.
pub const POLY: u32 = 0xEDB8_8320;

/// The register after one zero bit: multiplication by `x` modulo the polynomial.
pub open spec fn shift1(c: u32) -> u32 {
    if c & 1 == 1 {
        (c >> 1) ^ POLY
    } else {
        c >> 1
    }
}

/// The register after `n` zero bits.
pub open spec fn shift_n(c: u32, n: nat) -> u32
    decreases n,
{
    if n == 0 {
        c
    } else {
        shift_n(shift1(c), (n - 1) as nat)
    }
}

/// The register after the low `n` bits of `v` have been fed in, least significant bit first.
pub open spec fn feed(c: u32, v: u128, n: nat) -> u32
    decreases n,
{
    if n == 0 {
        c
    } else {
        feed(shift1(c ^ ((v & 1) as u32)), v >> 1, (n - 1) as nat)
    }
}

/// `v` and `w` have the same low `n` bits.
pub open spec fn same_low(v: u128, w: u128, n: nat) -> bool {
    n == 0 || (n <= 128 && (v ^ w) << ((128 - n) as u128) == 0)
}

proof fn bits_shift1(a: u32, b: u32)
    by (bit_vector)
    ensures
        shift1(a ^ b) == shift1(a) ^ shift1(b),
        shift1(0) == 0,
        a ^ 0 == a,
        a ^ a == 0,
        (a ^ b) ^ b == a,
{
}

proof fn bits_feed_step(c1: u32, c2: u32, v1: u128, v2: u128)
    by (bit_vector)
    ensures
        shift1((c1 ^ c2) ^ (((v1 ^ v2) & 1) as u32)) == shift1(c1 ^ ((v1 & 1) as u32)) ^ shift1(
            c2 ^ ((v2 & 1) as u32),
        ),
        (v1 ^ v2) >> 1 == (v1 >> 1) ^ (v2 >> 1),
        0u128 ^ v1 == v1,
        v1 ^ 0u128 == v1,
        (0u128 & 1) as u32 == 0u32,
        0u128 >> 1 == 0u128,
        v1 >> 0 == v1,
{
}

proof fn bits_shr(v: u128, j: u128)
    by (bit_vector)
    requires
        j < 127,
    ensures
        (v >> 1) >> j == v >> ((j + 1) as u128),
{
}

proof fn bits_same_low(v: u128, w: u128, j: u128)
    by (bit_vector)
    requires
        j < 128,
        (v ^ w) << ((127 - j) as u128) == 0,
    ensures
        v & 1 == w & 1,
        j == 0 || ((v >> 1) ^ (w >> 1)) << ((128 - j) as u128) == 0,
{
}

proof fn bits_seed_step(c: u32, v: u128, d: u32, j: u32)
    by (bit_vector)
    requires
        j < 32,
        j < 31 ==> d >> ((j + 1) as u32) == 0,
    ensures
        (v ^ (d as u128)) >> 1 == (v >> 1) ^ ((d >> 1) as u128),
        shift1(c ^ (((v ^ (d as u128)) & 1) as u32)) ^ (d >> 1) == shift1(
            (c ^ d) ^ ((v & 1) as u32),
        ),
        (d >> 1) >> j == 0,
{
}

proof fn bits_seed_base(v: u128, d: u32)
    by (bit_vector)
    ensures
        d >> 0 == 0 ==> d == 0,
        v ^ (0u32 as u128) == v,
        (v ^ (d as u128)) >> 32 == v >> 32,
        0u128 ^ (d as u128) == d as u128,
{
}

/// Zero bits add up.
pub proof fn lemma_shift_n_add(c: u32, a: nat, b: nat)
    ensures
        shift_n(shift_n(c, a), b) == shift_n(c, a + b),
    decreases a,
{
    if a > 0 {
        lemma_shift_n_add(shift1(c), (a - 1) as nat, b);
        assert(shift_n(c, a + b) == shift_n(shift1(c), (a + b - 1) as nat));
    }
}

/// Zero bits act on each summand of an exclusive or by itself.
pub proof fn lemma_shift_n_xor(a: u32, b: u32, n: nat)
    ensures
        shift_n(a ^ b, n) == shift_n(a, n) ^ shift_n(b, n),
    decreases n,
{
    if n > 0 {
        bits_shift1(a, b);
        lemma_shift_n_xor(shift1(a), shift1(b), (n - 1) as nat);
    }
}

/// Zero bits leave the zero register at zero.
pub proof fn lemma_shift_n_zero(n: nat)
    ensures
        shift_n(0, n) == 0,
    decreases n,
{
    if n > 0 {
        bits_shift1(0, 0);
        lemma_shift_n_zero((n - 1) as nat);
    }
}

/// Feeding `a + b` bits is feeding `a` bits and then the `b` bits above them.
pub proof fn lemma_feed_split(c: u32, v: u128, a: nat, b: nat)
    requires
        a + b <= 128,
    ensures
        feed(c, v, a + b) == feed(feed(c, v, a), v >> (a as u128), b),
    decreases a,
{
    if b == 0 {
    } else if a == 0 {
        bits_feed_step(0, 0, v, 0);
    } else {
        let c1 = shift1(c ^ ((v & 1) as u32));
        lemma_feed_split(c1, v >> 1, (a - 1) as nat, b);
        bits_shr(v, (a - 1) as u128);
        assert(feed(c, v, a + b) == feed(c1, v >> 1, (a + b - 1) as nat));
    }
}

/// Feeding is linear in the register and the bits together.
pub proof fn lemma_feed_xor(c1: u32, c2: u32, v1: u128, v2: u128, n: nat)
    ensures
        feed(c1 ^ c2, v1 ^ v2, n) == feed(c1, v1, n) ^ feed(c2, v2, n),
    decreases n,
{
    if n > 0 {
        bits_feed_step(c1, c2, v1, v2);
        lemma_feed_xor(
            shift1(c1 ^ ((v1 & 1) as u32)),
            shift1(c2 ^ ((v2 & 1) as u32)),
            v1 >> 1,
            v2 >> 1,
            (n - 1) as nat,
        );
    }
}

/// Feeding zero bits only shifts.
pub proof fn lemma_feed_zero(c: u32, n: nat)
    ensures
        feed(c, 0, n) == shift_n(c, n),
    decreases n,
{
    if n > 0 {
        bits_feed_step(0, 0, 0, 0);
        bits_shift1(c, 0);
        lemma_feed_zero(shift1(c), (n - 1) as nat);
    }
}

/// Only the low `n` bits are fed.
pub proof fn lemma_feed_low(c: u32, v: u128, w: u128, n: nat)
    requires
        same_low(v, w, n),
    ensures
        feed(c, v, n) == feed(c, w, n),
    decreases n,
{
    if n > 0 {
        bits_same_low(v, w, (n - 1) as u128);
        lemma_feed_low(shift1(c ^ ((v & 1) as u32)), v >> 1, w >> 1, (n - 1) as nat);
    }
}

/// A value of at most `n <= 32` bits may be fed in, or be put into the register at once.
pub proof fn lemma_feed_seed_low(c: u32, v: u128, d: u32, n: nat)
    requires
        n <= 32,
        n < 32 ==> d >> (n as u32) == 0,
    ensures
        feed(c, v ^ (d as u128), n) == feed(c ^ d, v, n),
    decreases n,
{
    if n == 0 {
        bits_seed_base(v, d);
        bits_shift1(c, 0);
    } else {
        bits_seed_step(c, v, d, (n - 1) as u32);
        let c1 = shift1(c ^ (((v ^ (d as u128)) & 1) as u32));
        lemma_feed_seed_low(c1, v >> 1, d >> 1, (n - 1) as nat);
    }
}

/// A 32-bit value under the first 32 bits of a longer run may be put into the register instead.
pub proof fn lemma_feed_seed(c: u32, v: u128, d: u32, n: nat)
    requires
        32 <= n <= 128,
    ensures
        feed(c, v ^ (d as u128), n) == feed(c ^ d, v, n),
{
    lemma_feed_split(c, v ^ (d as u128), 32, (n - 32) as nat);
    lemma_feed_split(c ^ d, v, 32, (n - 32) as nat);
    lemma_feed_seed_low(c, v, d, 32);
    bits_seed_base(v, d);
}

/// Feeding a value of at most `n <= 32` bits into the register is an exclusive or and `n` shifts.
pub proof fn lemma_feed_small(c: u32, d: u32, n: nat)
    requires
        n <= 32,
        n < 32 ==> d >> (n as u32) == 0,
    ensures
        feed(c, d as u128, n) == shift_n(c ^ d, n),
{
    lemma_feed_seed_low(c, 0, d, n);
    bits_seed_base(0, d);
    lemma_feed_zero(c ^ d, n);
}

} // verus!
