//! Two linear maps from lanes to the register that agree on every single bit agree everywhere.
use vstd::prelude::*;

verus! {

/// The exclusive or of two lanes.
pub open spec fn xor128(a: u128, b: u128) -> u128 {
    a ^ b
}

/// The lane with bit `k` alone set.
pub open spec fn bit128(k: nat) -> u128 {
    1u128 << (k as u128)
}

/// `f` takes an exclusive or of lanes to the exclusive or of their images.
pub open spec fn is_linear(f: spec_fn(u128) -> u32) -> bool {
    forall|a: u128, b: u128| #[trigger] f(xor128(a, b)) == f(a) ^ f(b)
}

/// `f` and `g` agree on every lane with a single bit set.
pub open spec fn agree_on_bits(f: spec_fn(u128) -> u32, g: spec_fn(u128) -> u32) -> bool {
    forall|k: nat| k < 128 ==> #[trigger] f(bit128(k)) == g(bit128(k))
}

/// `v` has no bit set at position `n` or above.
pub open spec fn below(v: u128, n: nat) -> bool {
    n >= 128 || v >> (n as u128) == 0
}

proof fn bits_split(v: u128, k: u128)
    by (bit_vector)
    requires
        k < 128,
        k < 127 ==> v >> ((k + 1) as u128) == 0,
    ensures
        v & (1u128 << k) == 0 || v & (1u128 << k) == 1u128 << k,
        (v ^ (v & (1u128 << k))) ^ (v & (1u128 << k)) == v,
        (v ^ (v & (1u128 << k))) >> k == 0,
{
}

proof fn bits_zero(v: u128, x: u32)
    by (bit_vector)
    ensures
        v >> 0 == 0 ==> v == 0,
        0u128 ^ 0u128 == 0,
        x ^ x == 0,
        x ^ 0 == x,
{
}

/// A linear map takes the zero lane to the zero register.
pub proof fn lemma_linear_zero(f: spec_fn(u128) -> u32)
    requires
        is_linear(f),
    ensures
        f(0) == 0,
{
    bits_zero(0, f(0));
    assert(f(xor128(0, 0)) == f(0) ^ f(0));
}

proof fn lemma_agree_below(f: spec_fn(u128) -> u32, g: spec_fn(u128) -> u32, v: u128, n: nat)
    requires
        is_linear(f),
        is_linear(g),
        agree_on_bits(f, g),
        n <= 128,
        below(v, n),
    ensures
        f(v) == g(v),
    decreases n,
{
    lemma_linear_zero(f);
    lemma_linear_zero(g);
    if n == 0 {
        bits_zero(v, 0);
    } else {
        let k = (n - 1) as nat;
        let hi = v & bit128(k);
        let lo = v ^ hi;
        bits_split(v, k as u128);
        assert(f(xor128(lo, hi)) == f(lo) ^ f(hi));
        assert(g(xor128(lo, hi)) == g(lo) ^ g(hi));
        lemma_agree_below(f, g, lo, k);
        if hi != 0 {
            assert(f(bit128(k)) == g(bit128(k)));
        }
    }
}

/// Linear maps that agree on the single bits agree on every lane.
pub proof fn lemma_linear_agree(f: spec_fn(u128) -> u32, g: spec_fn(u128) -> u32, v: u128)
    requires
        is_linear(f),
        is_linear(g),
        agree_on_bits(f, g),
    ensures
        f(v) == g(v),
{
    lemma_agree_below(f, g, v, 128);
}

} // verus!
