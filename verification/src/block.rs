//! Windows of at most sixteen bytes as lanes: the first byte is the least significant.
use vstd::prelude::*;
use crate::register::{feed, same_low, lemma_feed_split, lemma_feed_low, lemma_feed_small};
use crate::checksum::{crc_byte, crc_bytes, lemma_crc_bytes_concat};

verus! {

/// The lane that holds the bytes of `s`, first byte lowest, zero above them.
pub open spec fn block_value(s: Seq<u8>) -> u128
    decreases s.len(),
{
    if s.len() == 0 {
        0
    } else {
        (s[0] as u128) | (block_value(s.drop_first()) << 8)
    }
}

proof fn bits_block(b: u8, t: u128, n: u128)
    by (bit_vector)
    ensures
        (((b as u128) | (t << 8)) ^ (b as u128)) << 120 == 0,
        1 <= n <= 120 ==> (((((b as u128) | (t << 8)) >> 8) ^ t) << ((128 - n) as u128)) == 0,
        (b as u32) >> 8 == 0,
        (t << 8) | (b as u128) == (b as u128) | (t << 8),
{
}

/// Feeding the first `k` bytes of a lane takes the register through those bytes.
pub proof fn lemma_block_crc(c: u32, s: Seq<u8>, k: nat)
    requires
        s.len() <= 16,
        k <= s.len(),
    ensures
        feed(c, block_value(s), 8 * k) == crc_bytes(c, s.subrange(0, k as int)),
    decreases k,
{
    if k > 0 {
        let b = s[0];
        let t = block_value(s.drop_first());
        let v = block_value(s);
        let rest = (8 * (k - 1)) as nat;
        bits_block(b, t, rest as u128);
        lemma_feed_split(c, v, 8, rest);
        assert(same_low(v, b as u128, 8));
        lemma_feed_low(c, v, b as u128, 8);
        lemma_feed_small(c, b as u32, 8);
        assert(feed(c, v, 8) == crc_byte(c, b));
        assert(same_low(v >> 8, t, rest));
        lemma_feed_low(crc_byte(c, b), v >> 8, t, rest);
        lemma_block_crc(crc_byte(c, b), s.drop_first(), (k - 1) as nat);
        assert(s.subrange(0, k as int).drop_first() =~= s.drop_first().subrange(0, k - 1));
    }
}

/// The register after the first `n` blocks of sixteen bytes of `s`, each fed as a lane.
pub open spec fn feed_blocks(c: u32, s: Seq<u8>, n: nat) -> u32
    decreases n,
{
    if n == 0 {
        c
    } else {
        feed(
            feed_blocks(c, s, (n - 1) as nat),
            block_value(s.subrange(16 * (n - 1), (16 * n) as int)),
            128,
        )
    }
}

/// Feeding blocks as lanes takes the register through their bytes.
pub proof fn lemma_feed_blocks(c: u32, s: Seq<u8>, n: nat)
    requires
        16 * n <= s.len(),
    ensures
        feed_blocks(c, s, n) == crc_bytes(c, s.subrange(0, (16 * n) as int)),
    decreases n,
{
    if n > 0 {
        let m = (n - 1) as nat;
        let head = s.subrange(0, (16 * m) as int);
        let last = s.subrange((16 * m) as int, (16 * n) as int);
        lemma_feed_blocks(c, s, m);
        lemma_block_crc(feed_blocks(c, s, m), last, 16);
        assert(last.subrange(0, 16) =~= last);
        lemma_crc_bytes_concat(c, head, last);
        assert(head + last =~= s.subrange(0, (16 * n) as int));
    }
}

/// The lane of the `n` bytes of `src` from `pos` on.
pub fn load(src: &[u8], pos: usize, n: usize) -> (v: u128)
    requires
        n <= 16,
        pos + n <= src.len(),
    ensures
        v == block_value(src@.subrange(pos as int, pos + n)),
{
    let mut v: u128 = 0;
    let mut i: usize = n;
    while i > 0
        invariant
            i <= n,
            n <= 16,
            pos + n <= src.len(),
            v == block_value(src@.subrange(pos + i, pos + n)),
        decreases i,
    {
        i -= 1;
        proof {
            bits_block(src@[pos + i], v, 1);
            assert(src@.subrange(pos + i, pos + n).drop_first() =~= src@.subrange(
                pos + i + 1,
                pos + n,
            ));
        }
        v = (v << 8) | (src[pos + i] as u128);
    }
    v
}

/// Copies the `n` bytes of `src` from `pos` on to the same place in `dst`.
pub fn copy_bytes(dst: &mut [u8], src: &[u8], pos: usize, n: usize)
    requires
        old(dst).len() == src.len(),
        pos + n <= src.len(),
    ensures
        final(dst).len() == src.len(),
        forall|i: int|
            0 <= i < src.len() ==> final(dst)@[i] == (if pos <= i < pos + n {
                src@[i]
            } else {
                old(dst)@[i]
            }),
{
    let mut i: usize = 0;
    while i < n
        invariant
            i <= n,
            pos + n <= src.len(),
            dst.len() == src.len(),
            forall|j: int|
                0 <= j < src.len() ==> dst@[j] == (if pos <= j < pos + i {
                    src@[j]
                } else {
                    old(dst)@[j]
                }),
        decreases n - i,
    {
        dst[pos + i] = src[pos + i];
        i += 1;
    }
}

} // verus!
