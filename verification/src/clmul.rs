//! Carry-less multiplication of 64-bit halves: the product of two polynomials over GF(2).
use vstd::prelude::*;

verus! {

/// The carry-less product of `a` and the low `n` bits of `b`.
pub open spec fn clmul_n(a: u64, b: u64, n: nat) -> u128
    decreases n,
{
    if n == 0 {
        0
    } else {
        let m = (n - 1) as nat;
        let rest = clmul_n(a, b, m);
        if (b >> (m as u64)) & 1 == 1 {
            rest ^ ((a as u128) << (m as u128))
        } else {
            rest
        }
    }
}

/// The carry-less product of `a` and `b`: the exclusive or of `a << i` over the set bits `i` of `b`.
pub open spec fn clmul(a: u64, b: u64) -> u128 {
    clmul_n(a, b, 64)
}

/// The low half of a lane.
pub open spec fn lo64(v: u128) -> u64 {
    (v & 0xffff_ffff_ffff_ffff) as u64
}

/// The high half of a lane.
pub open spec fn hi64(v: u128) -> u64 {
    (v >> 64) as u64
}

/// The carry-less product of one half of `a` and one half of `b`. Bit 0 of `imm` picks
/// the half of `a` and bit 4 that of `b`: clear for the low half, set for the high one.
pub open spec fn clmul_halves(a: u128, b: u128, imm: u8) -> u128 {
    clmul(
        if imm & 0x01 == 0 {
            lo64(a)
        } else {
            hi64(a)
        },
        if imm & 0x10 == 0 {
            lo64(b)
        } else {
            hi64(b)
        },
    )
}

proof fn bits_clmul_term(r1: u128, r2: u128, a1: u64, a2: u64, m: u128)
    by (bit_vector)
    requires
        m < 64,
    ensures
        (r1 ^ r2) ^ (((a1 ^ a2) as u128) << m) == (r1 ^ ((a1 as u128) << m)) ^ (r2 ^ ((a2 as u128)
            << m)),
        0u128 ^ 0u128 == 0u128,
{
}

proof fn bits_halves(a: u128, b: u128)
    by (bit_vector)
    ensures
        lo64(a ^ b) == lo64(a) ^ lo64(b),
        hi64(a ^ b) == hi64(a) ^ hi64(b),
        (a >> 64) < 0x1_0000_0000_0000_0000u128,
        (a & 0xffff_ffff_ffff_ffff) < 0x1_0000_0000_0000_0000u128,
{
}

/// The product is linear in its first factor.
pub proof fn lemma_clmul_n_xor(a1: u64, a2: u64, b: u64, n: nat)
    requires
        n <= 64,
    ensures
        clmul_n(a1 ^ a2, b, n) == clmul_n(a1, b, n) ^ clmul_n(a2, b, n),
    decreases n,
{
    if n == 0 {
        bits_clmul_term(0, 0, 0, 0, 0);
    } else {
        let m = (n - 1) as nat;
        lemma_clmul_n_xor(a1, a2, b, m);
        bits_clmul_term(clmul_n(a1, b, m), clmul_n(a2, b, m), a1, a2, m as u128);
    }
}

/// The product of halves is linear in its first lane.
pub proof fn lemma_clmul_halves_xor(a1: u128, a2: u128, b: u128, imm: u8)
    ensures
        clmul_halves(a1 ^ a2, b, imm) == clmul_halves(a1, b, imm) ^ clmul_halves(a2, b, imm),
{
    bits_halves(a1, a2);
    let k = if imm & 0x10 == 0 {
        lo64(b)
    } else {
        hi64(b)
    };
    if imm & 0x01 == 0 {
        lemma_clmul_n_xor(lo64(a1), lo64(a2), k, 64);
    } else {
        lemma_clmul_n_xor(hi64(a1), hi64(a2), k, 64);
    }
}

/// Carry-less multiplication, one bit of `b` at a time.
pub fn clmul64(a: u64, b: u64) -> (r: u128)
    ensures
        r == clmul(a, b),
{
    let mut r: u128 = 0;
    let mut i: u64 = 0;
    while i < 64
        invariant
            i <= 64,
            r == clmul_n(a, b, i as nat),
        decreases 64 - i,
    {
        if (b >> i) & 1 == 1 {
            r = r ^ ((a as u128) << (i as u128));
        }
        i += 1;
    }
    r
}

/// The carry-less product of the halves of `a` and `b` that `imm` picks.
pub fn clmulepi64(a: u128, b: u128, imm: u8) -> (r: u128)
    ensures
        r == clmul_halves(a, b, imm),
{
    proof {
        bits_halves(a, b);
        bits_halves(b, a);
    }
    let x: u64 = if imm & 0x01 == 0 {
        (a & 0xffff_ffff_ffff_ffff) as u64
    } else {
        (a >> 64) as u64
    };
    let y: u64 = if imm & 0x10 == 0 {
        (b & 0xffff_ffff_ffff_ffff) as u64
    } else {
        (b >> 64) as u64
    };
    clmul64(x, y)
}

} // verus!
