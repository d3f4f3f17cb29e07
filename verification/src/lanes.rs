//! The arithmetic of the four lanes: what one fold step, the fold down to one lane and the
//! last reduction do to the register that the lanes stand for.
use vstd::prelude::*;
use crate::register::{
    feed, shift_n, same_low, lemma_feed_split, lemma_feed_xor, lemma_feed_zero, lemma_feed_low,
    lemma_shift_n_add, lemma_shift_n_xor, lemma_shift_n_zero,
};
use crate::clmul::{clmul_halves, lemma_clmul_halves_xor};
use crate::linear::{xor128, bit128, is_linear, agree_on_bits, lemma_linear_agree};

verus! {

/// The pair that moves a lane four lanes on: its halves are congruent to `x^480` and
/// `x^544` modulo the polynomial.
pub const XMM_FOLD4: u128 = 0x0000_0001_5444_2bd4_0000_0001_c6e4_1596;

/// The pair that moves a lane one lane on: congruent to `x^96` and `x^160`.
pub const RK1_RK2: u128 = 0x0000_0001_7519_97d0_0000_0000_ccaa_009e;

/// The pair that brings 128 bits down to 64: congruent to `x^96` and `x^64`.
pub const RK5_RK6: u128 = 0x0000_0001_63cd_6124_0000_0000_ccaa_009e;

/// The pair of the Barrett reduction: the quotient of `x^64` by the polynomial, and the
/// polynomial below its highest term.
pub const RK7_RK8: u128 = 0x0000_0001_db71_0640_0000_0001_f701_1640;

/// The low 64 bits.
pub const CRC_MASK1: u128 = 0x0000_0000_0000_0000_ffff_ffff_ffff_ffff;

/// All but the low 32 bits.
pub const CRC_MASK2: u128 = 0xffff_ffff_ffff_ffff_ffff_ffff_0000_0000;

/// Lane 0 of a fresh accumulator. With three zero lanes behind it, it stands for the
/// register with every bit set.
pub const XMM_CRC0: u128 = 0x9db4_2487;

/// The register that one lane stands for: what the zero register holds after its 128 bits.
pub open spec fn lane_register(v: u128) -> u32 {
    feed(0, v, 128)
}

/// The register `c` after four lanes.
pub open spec fn feed4(c: u32, l0: u128, l1: u128, l2: u128, l3: u128) -> u32 {
    feed(feed(feed(feed(c, l0, 128), l1, 128), l2, 128), l3, 128)
}

/// A lane moved four lanes on: multiplied by `x^512` modulo the polynomial.
pub open spec fn step(v: u128) -> u128 {
    clmul_halves(v, XMM_FOLD4, 0x01) ^ clmul_halves(v, XMM_FOLD4, 0x10)
}

/// A lane moved one lane on: multiplied by `x^128` modulo the polynomial.
pub open spec fn fold_down(v: u128) -> u128 {
    clmul_halves(v, RK1_RK2, 0x10) ^ clmul_halves(v, RK1_RK2, 0x01)
}

/// 128 bits to 96.
pub open spec fn reduce_96(c: u128) -> u128 {
    clmul_halves(c, RK5_RK6, 0x00) ^ (c >> 64)
}

/// 96 bits to 64, which stand in bits 32 to 95.
pub open spec fn reduce_64(n: u128) -> u128 {
    (clmul_halves(n << 32, RK5_RK6, 0x10) ^ n) & CRC_MASK2
}

/// The Barrett quotient of the upper 32 of the 64 bits.
pub open spec fn barrett_quotient(m: u128) -> u128 {
    (clmul_halves(m, RK7_RK8, 0x00) ^ m) & CRC_MASK1
}

/// The remainder: the 32 bits at bits 64 to 95.
pub open spec fn barrett_remainder(w: u128, m: u128) -> u32 {
    ((((clmul_halves(w, RK7_RK8, 0x10) ^ w) ^ m) >> 64) & 0xffff_ffff) as u32
}

/// One lane reduced to the register it stands for.
pub open spec fn reduce(c: u128) -> u32 {
    let m = reduce_64(reduce_96(c));
    barrett_remainder(barrett_quotient(m), m)
}

/// The lane made of `a` without its first `k` bits, followed by the first `k` bits of `b`.
pub open spec fn joined(a: u128, b: u128, k: nat) -> u128 {
    (a >> (k as u128)) | (b << ((128 - k) as u128))
}

/// The lanes after `n` of them, at most four, have left at the front and have come back
/// at the end, multiplied by `x^512`: lane `i + n` has become lane `i`.
pub open spec fn step_lanes(l: Seq<u128>, n: nat) -> Seq<u128> {
    Seq::new(
        4,
        |i: int|
            if i + n < 4 {
                l[i + n]
            } else {
                step(l[i + n - 4])
            },
    )
}

/// The lanes after the `n` blocks of `d`, at most four, have been taken in: the lanes
/// move `n` lanes on, and block `j` is added to the lane that lane `j` has come back as.
pub open spec fn absorb_lanes(l: Seq<u128>, d: Seq<u128>, n: nat) -> Seq<u128> {
    Seq::new(
        4,
        |i: int|
            if i + n < 4 {
                l[i + n]
            } else {
                step(l[i + n - 4]) ^ d[i + n - 4]
            },
    )
}

/// The lanes after the first `len` bytes of `part`, fewer than sixteen, have been taken
/// in: every lane loses its first `len` bytes to the lane before it, `part` gives its own
/// to the last lane, and those of lane 0 are added to the last lane, multiplied by `x^512`.
pub open spec fn partial_lanes(l: Seq<u128>, part: u128, len: nat) -> Seq<u128> {
    seq![
        joined(l[0], l[1], 8 * len),
        joined(l[1], l[2], 8 * len),
        joined(l[2], l[3], 8 * len),
        joined(l[3], part, 8 * len) ^ step(l[0] << ((128 - 8 * len) as u128)),
    ]
}

/// The exclusive or of four lanes with four lanes, lane by lane.
pub open spec fn xor_lanes(a: Seq<u128>, b: Seq<u128>) -> Seq<u128> {
    Seq::new(4, |i: int| a[i] ^ b[i])
}

/// A fold step moves a lane 512 bits on.
pub open spec fn step_ok(v: u128) -> bool {
    feed(0, step(v), 128) == shift_n(feed(0, v, 128), 512)
}

/// The fold down moves a lane 128 bits on.
pub open spec fn fold_down_ok(v: u128) -> bool {
    feed(0, fold_down(v), 128) == shift_n(feed(0, v, 128), 128)
}

/// The last reduction gives the register that a lane stands for.
pub open spec fn reduce_ok(v: u128) -> bool {
    reduce(v) == feed(0, v, 128)
}

/// `step_ok` of the lanes with one of the `n` bits from `from` on set.
pub open spec fn step_bits_ok(from: nat, n: nat) -> bool
    decreases n,
{
    if n == 0 {
        true
    } else {
        step_ok(1u128 << ((from + n - 1) as u128)) && step_bits_ok(from, (n - 1) as nat)
    }
}

/// `fold_down_ok` of the lanes with one of the `n` bits from `from` on set.
pub open spec fn fold_down_bits_ok(from: nat, n: nat) -> bool
    decreases n,
{
    if n == 0 {
        true
    } else {
        fold_down_ok(1u128 << ((from + n - 1) as u128)) && fold_down_bits_ok(from, (n - 1) as nat)
    }
}

/// `reduce_ok` of the lanes with one of the `n` bits from `from` on set.
pub open spec fn reduce_bits_ok(from: nat, n: nat) -> bool
    decreases n,
{
    if n == 0 {
        true
    } else {
        reduce_ok(1u128 << ((from + n - 1) as u128)) && reduce_bits_ok(from, (n - 1) as nat)
    }
}

proof fn bits_xor(x1: u128, x2: u128, y1: u128, y2: u128, c: u32)
    by (bit_vector)
    ensures
        (x1 ^ x2) ^ (y1 ^ y2) == (x1 ^ y1) ^ (x2 ^ y2),
        (x1 ^ x2) ^ ((y1 ^ y2) >> 64) == (x1 ^ (y1 >> 64)) ^ (x2 ^ (y2 >> 64)),
        (y1 ^ y2) << 32 == (y1 << 32) ^ (y2 << 32),
        ((x1 ^ x2) ^ (y1 ^ y2)) & CRC_MASK2 == ((x1 ^ y1) & CRC_MASK2) ^ ((x2 ^ y2) & CRC_MASK2),
        ((x1 ^ x2) ^ (y1 ^ y2)) & CRC_MASK1 == ((x1 ^ y1) & CRC_MASK1) ^ ((x2 ^ y2) & CRC_MASK1),
        x1 ^ x2 == x2 ^ x1,
        x1 ^ 0 == x1,
        x1 ^ x1 == 0,
        c ^ 0 == c,
        0 ^ c == c,
        0u32 ^ 0u32 == 0u32,
{
}

proof fn bits_remainder(z1: u128, z2: u128, w1: u128, w2: u128, m1: u128, m2: u128)
    by (bit_vector)
    ensures
        ((((((z1 ^ z2) ^ (w1 ^ w2)) ^ (m1 ^ m2)) >> 64) & 0xffff_ffff) as u32) == (((((z1 ^ w1)
            ^ m1) >> 64) & 0xffff_ffff) as u32) ^ (((((z2 ^ w2) ^ m2) >> 64) & 0xffff_ffff) as u32),
{
}

/// What the proofs need of `joined` and of the shifts around it, for a cut after `k` bits.
pub open spec fn joined_fact(a: u128, b: u128, k: u128) -> bool {
    let m = (128 - k) as u128;
    &&& (((a >> k) | (b << m)) ^ (a >> k)) << k == 0
    &&& ((((a >> k) | (b << m)) >> m) ^ b) << m == 0
    &&& ((a << m) ^ 0) << k == 0
    &&& (((a << m) >> m) ^ a) << m == 0
}

/// `joined_fact` for the cuts after 1 to `n` bytes.
pub open spec fn joined_facts(a: u128, b: u128, n: nat) -> bool
    decreases n,
{
    if n == 0 {
        true
    } else {
        joined_fact(a, b, (8 * n) as u128) && joined_facts(a, b, (n - 1) as nat)
    }
}

/// `joined` and the shift beside it are linear, for a cut after `k` bits.
pub open spec fn joined_xor_fact(a1: u128, a2: u128, b1: u128, b2: u128, k: u128) -> bool {
    let m = (128 - k) as u128;
    &&& (((a1 ^ a2) >> k) | ((b1 ^ b2) << m)) == (((a1 >> k) | (b1 << m)) ^ ((a2 >> k) | (b2
        << m)))
    &&& ((a1 ^ a2) << m) == ((a1 << m) ^ (a2 << m))
    &&& ((0u128 >> k) | (0u128 << m)) == 0u128
    &&& (0u128 << m) == 0u128
}

/// `joined_xor_fact` for the cuts after 1 to `n` bytes.
pub open spec fn joined_xor_facts(a1: u128, a2: u128, b1: u128, b2: u128, n: nat) -> bool
    decreases n,
{
    if n == 0 {
        true
    } else {
        joined_xor_fact(a1, a2, b1, b2, (8 * n) as u128) && joined_xor_facts(
            a1,
            a2,
            b1,
            b2,
            (n - 1) as nat,
        )
    }
}

proof fn bits_joined_xor(a1: u128, a2: u128, b1: u128, b2: u128)
    by (bit_vector)
    ensures
        joined_xor_facts(a1, a2, b1, b2, 15),
{
}

proof fn lemma_joined_xor_fact(a1: u128, a2: u128, b1: u128, b2: u128, n: nat, len: nat)
    requires
        joined_xor_facts(a1, a2, b1, b2, n),
        1 <= len <= n,
    ensures
        joined_xor_fact(a1, a2, b1, b2, (8 * len) as u128),
    decreases n,
{
    if len < n {
        lemma_joined_xor_fact(a1, a2, b1, b2, (n - 1) as nat, len);
    }
}

proof fn lemma_joined_xor(a1: u128, a2: u128, b1: u128, b2: u128, len: nat)
    requires
        1 <= len <= 15,
    ensures
        joined(a1 ^ a2, b1 ^ b2, 8 * len) == joined(a1, b1, 8 * len) ^ joined(a2, b2, 8 * len),
        (a1 ^ a2) << ((128 - 8 * len) as u128) == (a1 << ((128 - 8 * len) as u128)) ^ (a2 << ((128
            - 8 * len) as u128)),
        joined(0, 0, 8 * len) == 0,
        0u128 << ((128 - 8 * len) as u128) == 0,
{
    bits_joined_xor(a1, a2, b1, b2);
    lemma_joined_xor_fact(a1, a2, b1, b2, 15, len);
}

proof fn bits_joined(a: u128, b: u128)
    by (bit_vector)
    ensures
        joined_facts(a, b, 15),
{
}

proof fn lemma_joined_fact(a: u128, b: u128, n: nat, len: nat)
    requires
        joined_facts(a, b, n),
        1 <= len <= n,
    ensures
        joined_fact(a, b, (8 * len) as u128),
    decreases n,
{
    if len < n {
        lemma_joined_fact(a, b, (n - 1) as nat, len);
    }
}

/// The register that a lane stands for is linear in the lane.
pub proof fn lemma_lane_register_xor(a: u128, b: u128)
    ensures
        lane_register(a ^ b) == lane_register(a) ^ lane_register(b),
{
    lemma_feed_xor(0, 0, a, b, 128);
    bits_xor(0, 0, 0, 0, 0);
}

/// A fold step is linear in the lane.
pub proof fn lemma_step_xor(a: u128, b: u128)
    ensures
        step(a ^ b) == step(a) ^ step(b),
{
    lemma_clmul_halves_xor(a, b, XMM_FOLD4, 0x01);
    lemma_clmul_halves_xor(a, b, XMM_FOLD4, 0x10);
    bits_xor(
        clmul_halves(a, XMM_FOLD4, 0x01),
        clmul_halves(b, XMM_FOLD4, 0x01),
        clmul_halves(a, XMM_FOLD4, 0x10),
        clmul_halves(b, XMM_FOLD4, 0x10),
        0,
    );
}

proof fn lemma_fold_down_xor(a: u128, b: u128)
    ensures
        fold_down(a ^ b) == fold_down(a) ^ fold_down(b),
{
    lemma_clmul_halves_xor(a, b, RK1_RK2, 0x10);
    lemma_clmul_halves_xor(a, b, RK1_RK2, 0x01);
    bits_xor(
        clmul_halves(a, RK1_RK2, 0x10),
        clmul_halves(b, RK1_RK2, 0x10),
        clmul_halves(a, RK1_RK2, 0x01),
        clmul_halves(b, RK1_RK2, 0x01),
        0,
    );
}

proof fn lemma_reduce_96_xor(a: u128, b: u128)
    ensures
        reduce_96(a ^ b) == reduce_96(a) ^ reduce_96(b),
{
    lemma_clmul_halves_xor(a, b, RK5_RK6, 0x00);
    bits_xor(clmul_halves(a, RK5_RK6, 0x00), clmul_halves(b, RK5_RK6, 0x00), a, b, 0);
}

proof fn lemma_reduce_64_xor(a: u128, b: u128)
    ensures
        reduce_64(a ^ b) == reduce_64(a) ^ reduce_64(b),
{
    bits_xor(0, 0, a, b, 0);
    lemma_clmul_halves_xor(a << 32, b << 32, RK5_RK6, 0x10);
    bits_xor(
        clmul_halves(a << 32, RK5_RK6, 0x10),
        clmul_halves(b << 32, RK5_RK6, 0x10),
        a,
        b,
        0,
    );
}

proof fn lemma_barrett_quotient_xor(a: u128, b: u128)
    ensures
        barrett_quotient(a ^ b) == barrett_quotient(a) ^ barrett_quotient(b),
{
    lemma_clmul_halves_xor(a, b, RK7_RK8, 0x00);
    bits_xor(clmul_halves(a, RK7_RK8, 0x00), clmul_halves(b, RK7_RK8, 0x00), a, b, 0);
}

proof fn lemma_reduce_xor(a: u128, b: u128)
    ensures
        reduce(a ^ b) == reduce(a) ^ reduce(b),
{
    lemma_reduce_96_xor(a, b);
    lemma_reduce_64_xor(reduce_96(a), reduce_96(b));
    let ma = reduce_64(reduce_96(a));
    let mb = reduce_64(reduce_96(b));
    lemma_barrett_quotient_xor(ma, mb);
    let wa = barrett_quotient(ma);
    let wb = barrett_quotient(mb);
    lemma_clmul_halves_xor(wa, wb, RK7_RK8, 0x10);
    bits_remainder(
        clmul_halves(wa, RK7_RK8, 0x10),
        clmul_halves(wb, RK7_RK8, 0x10),
        wa,
        wb,
        ma,
        mb,
    );
}

proof fn lemma_step_bit(from: nat, n: nat, k: nat)
    requires
        step_bits_ok(from, n),
        from <= k < from + n,
    ensures
        step_ok(bit128(k)),
    decreases n,
{
    if k + 1 < from + n {
        lemma_step_bit(from, (n - 1) as nat, k);
    }
}

proof fn lemma_fold_down_bit(from: nat, n: nat, k: nat)
    requires
        fold_down_bits_ok(from, n),
        from <= k < from + n,
    ensures
        fold_down_ok(bit128(k)),
    decreases n,
{
    if k + 1 < from + n {
        lemma_fold_down_bit(from, (n - 1) as nat, k);
    }
}

proof fn lemma_reduce_bit(from: nat, n: nat, k: nat)
    requires
        reduce_bits_ok(from, n),
        from <= k < from + n,
    ensures
        reduce_ok(bit128(k)),
    decreases n,
{
    if k + 1 < from + n {
        lemma_reduce_bit(from, (n - 1) as nat, k);
    }
}

proof fn lemma_step_bits(k: nat)
    requires
        k < 128,
    ensures
        step_ok(bit128(k)),
{
    if k < 64 {
        assert(step_bits_ok(0, 64)) by (bit_vector);
        lemma_step_bit(0, 64, k);
    } else {
        assert(step_bits_ok(64, 64)) by (bit_vector);
        lemma_step_bit(64, 64, k);
    }
}

proof fn lemma_fold_down_bits(k: nat)
    requires
        k < 128,
    ensures
        fold_down_ok(bit128(k)),
{
    if k < 64 {
        assert(fold_down_bits_ok(0, 64)) by (bit_vector);
        lemma_fold_down_bit(0, 64, k);
    } else {
        assert(fold_down_bits_ok(64, 64)) by (bit_vector);
        lemma_fold_down_bit(64, 64, k);
    }
}

proof fn lemma_reduce_bits(k: nat)
    requires
        k < 128,
    ensures
        reduce_ok(bit128(k)),
{
    if k < 64 {
        assert(reduce_bits_ok(0, 64)) by (bit_vector);
        lemma_reduce_bit(0, 64, k);
    } else {
        assert(reduce_bits_ok(64, 64)) by (bit_vector);
        lemma_reduce_bit(64, 64, k);
    }
}

/// A fold step moves the register that a lane stands for 512 bits on.
pub proof fn lemma_step(v: u128)
    ensures
        lane_register(step(v)) == shift_n(lane_register(v), 512),
{
    let f: spec_fn(u128) -> u32 = |a: u128| lane_register(step(a));
    let g: spec_fn(u128) -> u32 = |a: u128| shift_n(lane_register(a), 512);
    assert forall|a: u128, b: u128| #[trigger] f(xor128(a, b)) == f(a) ^ f(b) by {
        lemma_step_xor(a, b);
        lemma_lane_register_xor(step(a), step(b));
    }
    assert forall|a: u128, b: u128| #[trigger] g(xor128(a, b)) == g(a) ^ g(b) by {
        lemma_lane_register_xor(a, b);
        lemma_shift_n_xor(lane_register(a), lane_register(b), 512);
    }
    assert forall|k: nat| k < 128 implies #[trigger] f(bit128(k)) == g(bit128(k)) by {
        lemma_step_bits(k);
    }
    lemma_linear_agree(f, g, v);
}

/// The fold down moves the register that a lane stands for 128 bits on.
pub proof fn lemma_fold_down(v: u128)
    ensures
        lane_register(fold_down(v)) == shift_n(lane_register(v), 128),
{
    let f: spec_fn(u128) -> u32 = |a: u128| lane_register(fold_down(a));
    let g: spec_fn(u128) -> u32 = |a: u128| shift_n(lane_register(a), 128);
    assert forall|a: u128, b: u128| #[trigger] f(xor128(a, b)) == f(a) ^ f(b) by {
        lemma_fold_down_xor(a, b);
        lemma_lane_register_xor(fold_down(a), fold_down(b));
    }
    assert forall|a: u128, b: u128| #[trigger] g(xor128(a, b)) == g(a) ^ g(b) by {
        lemma_lane_register_xor(a, b);
        lemma_shift_n_xor(lane_register(a), lane_register(b), 128);
    }
    assert forall|k: nat| k < 128 implies #[trigger] f(bit128(k)) == g(bit128(k)) by {
        lemma_fold_down_bits(k);
    }
    lemma_linear_agree(f, g, v);
}

/// The last reduction computes the register that the lane stands for.
pub proof fn lemma_reduce(v: u128)
    ensures
        reduce(v) == lane_register(v),
{
    let f: spec_fn(u128) -> u32 = |a: u128| reduce(a);
    let g: spec_fn(u128) -> u32 = |a: u128| lane_register(a);
    assert forall|a: u128, b: u128| #[trigger] f(xor128(a, b)) == f(a) ^ f(b) by {
        lemma_reduce_xor(a, b);
    }
    assert forall|a: u128, b: u128| #[trigger] g(xor128(a, b)) == g(a) ^ g(b) by {
        lemma_lane_register_xor(a, b);
    }
    assert forall|k: nat| k < 128 implies #[trigger] f(bit128(k)) == g(bit128(k)) by {
        lemma_reduce_bits(k);
    }
    lemma_linear_agree(f, g, v);
}

/// The lanes of a fresh accumulator stand for the register with every bit set.
pub proof fn lemma_fresh()
    ensures
        feed4(0, XMM_CRC0, 0, 0, 0) == 0xffff_ffffu32,
{
    assert(feed4(0, XMM_CRC0, 0, 0, 0) == 0xffff_ffffu32) by (bit_vector);
}

/// What was in the register before a lane comes out 128 bits on.
pub proof fn lemma_feed_shifted(c: u32, s: u32, v: u128)
    ensures
        feed(c ^ s, v, 128) == feed(c, v, 128) ^ shift_n(s, 128),
{
    lemma_feed_xor(c, s, v, 0, 128);
    bits_xor(v, 0, 0, 0, 0);
    lemma_feed_zero(s, 128);
}

/// What was in the register before four lanes comes out 512 bits on.
pub proof fn lemma_feed4_start(c: u32, l0: u128, l1: u128, l2: u128, l3: u128)
    ensures
        feed4(c, l0, l1, l2, l3) == feed4(0, l0, l1, l2, l3) ^ shift_n(c, 512),
{
    bits_xor(0, 0, 0, 0, c);
    let x1 = feed(0, l0, 128);
    let s1 = shift_n(c, 128);
    lemma_feed_shifted(0, c, l0);
    assert(feed(c, l0, 128) == x1 ^ s1);
    let x2 = feed(x1, l1, 128);
    let s2 = shift_n(s1, 128);
    lemma_feed_shifted(x1, s1, l1);
    let x3 = feed(x2, l2, 128);
    let s3 = shift_n(s2, 128);
    lemma_feed_shifted(x2, s2, l2);
    let x4 = feed(x3, l3, 128);
    lemma_feed_shifted(x3, s3, l3);
    lemma_shift_n_add(c, 128, 128);
    lemma_shift_n_add(c, 256, 128);
    lemma_shift_n_add(c, 384, 128);
}

/// What is added to the last of four lanes adds the register it stands for.
pub proof fn lemma_feed4_last(l0: u128, l1: u128, l2: u128, l3: u128, e: u128)
    ensures
        feed4(0, l0, l1, l2, l3 ^ e) == feed4(0, l0, l1, l2, l3) ^ lane_register(e),
{
    let x3 = feed(feed(feed(0, l0, 128), l1, 128), l2, 128);
    lemma_feed_xor(x3, 0, l3, e, 128);
    bits_xor(0, 0, 0, 0, x3);
}

/// Dropping lane 0, and adding it four lanes on to a new last lane, feeds that lane.
pub proof fn lemma_absorb(l0: u128, l1: u128, l2: u128, l3: u128, d: u128)
    ensures
        feed4(0, l1, l2, l3, step(l0) ^ d) == feed(feed4(0, l0, l1, l2, l3), d, 128),
{
    bits_xor(step(l0), d, 0, 0, 0);
    lemma_feed4_last(l1, l2, l3, d, step(l0));
    lemma_step(l0);
    lemma_feed4_start(feed(0, l0, 128), l1, l2, l3, d);
}

/// Dropping lane 0 with nothing new moves the register 128 bits on.
pub proof fn lemma_advance(l0: u128, l1: u128, l2: u128, l3: u128)
    ensures
        feed4(0, l1, l2, l3, step(l0)) == shift_n(feed4(0, l0, l1, l2, l3), 128),
{
    lemma_absorb(l0, l1, l2, l3, 0);
    bits_xor(step(l0), 0, 0, 0, 0);
    lemma_feed_zero(feed4(0, l0, l1, l2, l3), 128);
}

proof fn lemma_regroup(c: u32, a: u128, b: u128, len: nat)
    requires
        1 <= len <= 15,
    ensures
        feed(feed(c, a >> ((8 * len) as u128), (128 - 8 * len) as nat), b, 8 * len) == feed(
            c,
            joined(a, b, 8 * len),
            128,
        ),
{
    let k = 8 * len;
    let j = joined(a, b, k);
    let m = (128 - k) as nat;
    bits_joined(a, b);
    lemma_joined_fact(a, b, 15, len);
    lemma_feed_split(c, j, m, k);
    assert(same_low(j, a >> (k as u128), m));
    lemma_feed_low(c, j, a >> (k as u128), m);
    assert(same_low(j >> (m as u128), b, k));
    lemma_feed_low(feed(c, j, m), j >> (m as u128), b, k);
}

/// Dropping the first `len` bytes of the lanes, and adding them four lanes on to what
/// comes in at the end, feeds the `len` new bytes.
pub proof fn lemma_partial(l0: u128, l1: u128, l2: u128, l3: u128, part: u128, len: nat)
    requires
        1 <= len <= 15,
    ensures
        feed4(
            0,
            joined(l0, l1, 8 * len),
            joined(l1, l2, 8 * len),
            joined(l2, l3, 8 * len),
            joined(l3, part, 8 * len) ^ step(l0 << ((128 - 8 * len) as u128)),
        ) == feed(feed4(0, l0, l1, l2, l3), part, 8 * len),
{
    let k = 8 * len;
    let m = (128 - k) as nat;
    let ku = k as u128;
    let mu = m as u128;
    let c0 = feed(0, l0, k);
    let j0 = joined(l0, l1, k);
    let j1 = joined(l1, l2, k);
    let j2 = joined(l2, l3, k);
    let j3 = joined(l3, part, k);
    let a0 = feed(0, l0, 128);
    lemma_feed_split(0, l0, k, m);
    let b1 = feed(a0, l1, k);
    let a1 = feed(a0, l1, 128);
    lemma_feed_split(a0, l1, k, m);
    lemma_regroup(c0, l0, l1, len);
    assert(b1 == feed(c0, j0, 128));
    let b2 = feed(a1, l2, k);
    let a2 = feed(a1, l2, 128);
    lemma_feed_split(a1, l2, k, m);
    lemma_regroup(b1, l1, l2, len);
    assert(b2 == feed(b1, j1, 128));
    let b3 = feed(a2, l3, k);
    let a3 = feed(a2, l3, 128);
    lemma_feed_split(a2, l3, k, m);
    lemma_regroup(b2, l2, l3, len);
    assert(b3 == feed(b2, j2, 128));
    let b4 = feed(a3, part, k);
    lemma_regroup(b3, l3, part, len);
    assert(b4 == feed4(c0, j0, j1, j2, j3));
    lemma_feed4_start(c0, j0, j1, j2, j3);
    let top = l0 << mu;
    lemma_feed4_last(j0, j1, j2, j3, step(top));
    lemma_step(top);
    bits_joined(l0, 0);
    lemma_joined_fact(l0, 0, 15, len);
    lemma_feed_split(0, top, m, k);
    assert(same_low(top, 0, m));
    lemma_feed_low(0, top, 0, m);
    lemma_feed_zero(0, m);
    lemma_shift_n_zero(m);
    assert(same_low(top >> mu, l0, k));
    lemma_feed_low(0, top >> mu, l0, k);
    assert(lane_register(top) == c0);
}

/// Feeding up to four blocks into the lanes at once is feeding them one after the other.
pub proof fn lemma_progress(
    l0: u128,
    l1: u128,
    l2: u128,
    l3: u128,
    d0: u128,
    d1: u128,
    d2: u128,
    d3: u128,
    n: nat,
)
    requires
        1 <= n <= 4,
    ensures
        n == 1 ==> feed4(0, l1, l2, l3, step(l0) ^ d0) == feed(feed4(0, l0, l1, l2, l3), d0, 128),
        n == 2 ==> feed4(0, l2, l3, step(l0) ^ d0, step(l1) ^ d1) == feed(
            feed(feed4(0, l0, l1, l2, l3), d0, 128),
            d1,
            128,
        ),
        n == 3 ==> feed4(0, l3, step(l0) ^ d0, step(l1) ^ d1, step(l2) ^ d2) == feed(
            feed(feed(feed4(0, l0, l1, l2, l3), d0, 128), d1, 128),
            d2,
            128,
        ),
        n == 4 ==> feed4(0, step(l0) ^ d0, step(l1) ^ d1, step(l2) ^ d2, step(l3) ^ d3) == feed4(
            feed4(0, l0, l1, l2, l3),
            d0,
            d1,
            d2,
            d3,
        ),
{
    lemma_absorb(l0, l1, l2, l3, d0);
    if n >= 2 {
        lemma_absorb(l1, l2, l3, step(l0) ^ d0, d1);
    }
    if n >= 3 {
        lemma_absorb(l2, l3, step(l0) ^ d0, step(l1) ^ d1, d2);
    }
    if n >= 4 {
        lemma_absorb(l3, step(l0) ^ d0, step(l1) ^ d1, step(l2) ^ d2, d3);
    }
}

/// Moving up to four lanes on at once moves the register that many lanes on.
pub proof fn lemma_advance_n(l0: u128, l1: u128, l2: u128, l3: u128, n: nat)
    requires
        1 <= n <= 4,
    ensures
        n == 1 ==> feed4(0, l1, l2, l3, step(l0)) == shift_n(feed4(0, l0, l1, l2, l3), 128),
        n == 2 ==> feed4(0, l2, l3, step(l0), step(l1)) == shift_n(feed4(0, l0, l1, l2, l3), 256),
        n == 3 ==> feed4(0, l3, step(l0), step(l1), step(l2)) == shift_n(
            feed4(0, l0, l1, l2, l3),
            384,
        ),
        n == 4 ==> feed4(0, step(l0), step(l1), step(l2), step(l3)) == shift_n(
            feed4(0, l0, l1, l2, l3),
            512,
        ),
{
    let r = feed4(0, l0, l1, l2, l3);
    lemma_advance(l0, l1, l2, l3);
    if n >= 2 {
        lemma_advance(l1, l2, l3, step(l0));
        lemma_shift_n_add(r, 128, 128);
    }
    if n >= 3 {
        lemma_advance(l2, l3, step(l0), step(l1));
        lemma_shift_n_add(r, 256, 128);
    }
    if n >= 4 {
        lemma_advance(l3, step(l0), step(l1), step(l2));
        lemma_shift_n_add(r, 384, 128);
    }
}

/// A lane with the lane before it folded down onto it stands for the register after both.
pub proof fn lemma_fold_in(a: u128, b: u128)
    ensures
        lane_register(b ^ fold_down(a)) == feed(lane_register(a), b, 128),
{
    lemma_lane_register_xor(b, fold_down(a));
    lemma_fold_down(a);
    lemma_feed_xor(0, lane_register(a), b, 0, 128);
    bits_xor(b, 0, 0, 0, lane_register(a));
    lemma_feed_zero(lane_register(a), 128);
}

/// A fold step leaves the zero lane at zero.
pub proof fn lemma_step_zero()
    ensures
        step(0) == 0,
{
    lemma_step_xor(0, 0);
    bits_xor(step(0), 0, 0, 0, 0);
    bits_xor(0, 0, 0, 0, 0);
}

/// Taking in fewer than sixteen bytes is linear in the lanes and the bytes together,
/// lane by lane.
pub proof fn lemma_partial_lanes_xor(a: Seq<u128>, b: Seq<u128>, p: u128, q: u128, len: nat)
    requires
        a.len() == 4,
        b.len() == 4,
        1 <= len <= 15,
    ensures
        partial_lanes(xor_lanes(a, b), p ^ q, len) == xor_lanes(
            partial_lanes(a, p, len),
            partial_lanes(b, q, len),
        ),
{
    let m = (128 - 8 * len) as u128;
    lemma_joined_xor(a[0], b[0], a[1], b[1], len);
    lemma_joined_xor(a[1], b[1], a[2], b[2], len);
    lemma_joined_xor(a[2], b[2], a[3], b[3], len);
    lemma_joined_xor(a[3], b[3], p, q, len);
    lemma_step_xor(a[0] << m, b[0] << m);
    bits_xor(
        joined(a[3], p, 8 * len),
        joined(b[3], q, 8 * len),
        step(a[0] << m),
        step(b[0] << m),
        0,
    );
    assert(partial_lanes(xor_lanes(a, b), p ^ q, len) =~= xor_lanes(
        partial_lanes(a, p, len),
        partial_lanes(b, q, len),
    ));
}

/// Taking in zero bytes, fewer than sixteen, leaves zero lanes at zero.
pub proof fn lemma_partial_lanes_zero(len: nat)
    requires
        1 <= len <= 15,
    ensures
        partial_lanes(seq![0u128, 0u128, 0u128, 0u128], 0, len) == seq![0u128, 0u128, 0u128, 0u128],
{
    lemma_joined_xor(0, 0, 0, 0, len);
    lemma_step_zero();
    bits_xor(0, 0, 0, 0, 0);
    assert(partial_lanes(seq![0u128, 0u128, 0u128, 0u128], 0, len) =~= seq![
        0u128,
        0u128,
        0u128,
        0u128,
    ]);
}

} // verus!
