//! The folding engine: four lanes that take the input sixteen bytes at a time.
use vstd::prelude::*;
use crate::register::{feed, shift_n, lemma_feed_seed};
use crate::checksum::{crc_bytes, lemma_crc_bytes_split};
use crate::clmul::clmulepi64;
use crate::block::{
    block_value, feed_blocks, load, copy_bytes, lemma_feed_blocks, lemma_block_crc,
};
use crate::lanes::{
    feed4, step, fold_down, reduce, reduce_96, reduce_64, barrett_quotient, barrett_remainder,
    joined, step_lanes, absorb_lanes, partial_lanes, lemma_fresh, lemma_progress,
    lemma_advance_n, lemma_partial, lemma_fold_in, lemma_reduce, XMM_FOLD4, RK1_RK2, RK5_RK6,
    RK7_RK8, CRC_MASK1, CRC_MASK2, XMM_CRC0,
};

verus! {

/// The checksum of no input.
pub const CRC32_INITIAL_VALUE: u32 = 0;

/// The lane of four 32-bit words, lowest first.
pub open spec fn reg_value(input: [u32; 4]) -> u128 {
    (input[0] as u128) | ((input[1] as u128) << 32) | ((input[2] as u128) << 64)
        | ((input[3] as u128) << 96)
}

/// The register with the seed that a pass takes from `init_crc` put into it: a pass that
/// copies takes none.
pub open spec fn seeded(c: u32, copy: bool, init_crc: u32) -> u32 {
    if copy || init_crc == 0 {
        c
    } else {
        c ^ init_crc
    }
}

/// The seed that a pass takes from `init_crc`: a pass that copies takes none.
pub open spec fn taken_seed(copy: bool, init_crc: u32) -> u32 {
    if copy {
        0
    } else {
        init_crc
    }
}

/// A block with the seed under its first four bytes, where there is a seed.
pub open spec fn seeded_block(v: u128, seed: u32) -> u128 {
    if seed == 0 {
        v
    } else {
        v ^ (seed as u128)
    }
}

/// The `n` blocks of `src` from `pos` on as lanes, the seed under the first of them.
pub open spec fn blocks(src: Seq<u8>, pos: int, n: nat, seed: u32) -> Seq<u128> {
    Seq::new(
        n,
        |i: int|
            if i == 0 {
                seeded_block(block_value(src.subrange(pos, pos + 16)), seed)
            } else {
                block_value(src.subrange(pos + 16 * i, pos + 16 * i + 16))
            },
    )
}

/// The lanes after the `n` blocks of `src` from `pos` on, at most four, have been taken
/// in at once, the seed under the first of them.
pub open spec fn take_blocks(l: Seq<u128>, src: Seq<u8>, pos: int, n: nat, seed: u32) -> Seq<
    u128,
> {
    absorb_lanes(l, blocks(src, pos, n, seed), n)
}

/// The lanes after what is left of `src` from `pos` on, fewer than sixteen bytes, has
/// been taken in.
pub open spec fn tail_lanes(l: Seq<u128>, src: Seq<u8>, pos: int) -> Seq<u128> {
    if pos < src.len() {
        partial_lanes(
            l,
            block_value(src.subrange(pos, src.len() as int)),
            (src.len() - pos) as nat,
        )
    } else {
        l
    }
}

/// The lanes after `src` from `pos` on has been taken in: the blocks four at a time
/// while there are as many, then those that are left at once, then the bytes that are
/// left. The seed goes under the first block.
pub open spec fn rest_lanes(l: Seq<u128>, src: Seq<u8>, pos: int, seed: u32) -> Seq<u128>
    decreases src.len() - pos,
{
    let left = src.len() - pos;
    if left >= 64 {
        rest_lanes(take_blocks(l, src, pos, 4, seed), src, pos + 64, 0)
    } else if left >= 48 {
        tail_lanes(take_blocks(l, src, pos, 3, seed), src, pos + 48)
    } else if left >= 32 {
        tail_lanes(take_blocks(l, src, pos, 2, seed), src, pos + 32)
    } else if left >= 16 {
        tail_lanes(take_blocks(l, src, pos, 1, seed), src, pos + 16)
    } else {
        tail_lanes(l, src, pos)
    }
}

/// The lanes after `src` has been taken in with the seed `seed` and with `align_diff`
/// bytes before the first address that is a multiple of sixteen. Less than a block is
/// taken in as it is, without the seed. Else the `align_diff` bytes go first, with the
/// seed under them; where they are fewer than the four bytes of a seed, the first block
/// goes before them and takes it, and they follow if there are as many left.
pub open spec fn fold_lanes(l: Seq<u128>, src: Seq<u8>, seed: u32, align_diff: nat) -> Seq<u128> {
    if src.len() < 16 {
        tail_lanes(l, src, 0)
    } else if align_diff == 0 {
        rest_lanes(l, src, 0, seed)
    } else {
        let early = seed != 0 && align_diff < 4;
        let first = if early {
            take_blocks(l, src, 0, 1, seed)
        } else {
            l
        };
        let pos: int = if early {
            16
        } else {
            0
        };
        let left = if early {
            0u32
        } else {
            seed
        };
        if src.len() - pos >= align_diff {
            let piece = seeded_block(block_value(src.subrange(pos, pos + align_diff)), left);
            rest_lanes(partial_lanes(first, piece, align_diff), src, pos + align_diff, 0)
        } else {
            rest_lanes(first, src, pos, left)
        }
    }
}

proof fn bits_reg(x: u32, v: u128, a: u128, b: u128, c: u32)
    by (bit_vector)
    ensures
        (x as u128) | ((0u32 as u128) << 32) | ((0u32 as u128) << 64) | ((0u32 as u128) << 96)
            == x as u128,
        v ^ (0u32 as u128) == v,
        v ^ 0u128 == v,
        (v ^ a) ^ b == v ^ (a ^ b),
        c ^ 0 == c,
{
}

/// The lane of four 32-bit words, lowest first.
pub fn reg(input: [u32; 4]) -> (r: u128)
    ensures
        r == reg_value(input),
{
    (input[0] as u128) | ((input[1] as u128) << 32) | ((input[2] as u128) << 64)
        | ((input[3] as u128) << 96)
}

/// The lane without its first `n` bytes: byte `i` of the result is byte `i + n` of `v`.
pub fn bytes_down(v: u128, n: usize) -> (r: u128)
    requires
        n < 16,
    ensures
        r == v >> ((8 * n) as u128),
{
    v >> (8 * (n as u128))
}

/// The first `n` bytes of the lane, moved to its end: byte `i` of the result is byte
/// `i + n - 16` of `v`.
pub fn bytes_up(v: u128, n: usize) -> (r: u128)
    requires
        1 <= n <= 16,
    ensures
        r == v << ((128 - 8 * n) as u128),
{
    v << (128 - 8 * (n as u128))
}

/// The 32-bit word `i` of the lane.
pub fn extract_epi32(v: u128, i: usize) -> (r: u32)
    requires
        i < 4,
    ensures
        r == ((v >> ((32 * i) as u128)) & 0xffff_ffff) as u32,
{
    ((v >> (32 * (i as u128))) & 0xffff_ffff) as u32
}

/// The state of a checksum that is computed by folding.
#[derive(Debug)]
pub struct Accumulator {
    fold: [u128; 4],
}

impl Accumulator {
    /// The four lanes, the oldest first.
    pub closed spec fn lanes(&self) -> Seq<u128> {
        self.fold@
    }

    /// The CRC register that the lanes stand for: what the zero register holds after the
    /// 512 bits of the lanes, and so after all that the lanes have taken in.
    pub open spec fn register(&self) -> u32 {
        feed4(0, self.lanes()[0], self.lanes()[1], self.lanes()[2], self.lanes()[3])
    }

    /// An accumulator that has taken nothing in: the register has every bit set, as at the
    /// start of a CRC-32.
    pub fn new() -> (acc: Self)
        ensures
            acc.lanes() == seq![XMM_CRC0, 0u128, 0u128, 0u128],
            acc.register() == 0xffff_ffffu32,
    {
        let xmm_crc0 = reg([0x9db42487, 0, 0, 0]);
        let xmm_zero = reg([0, 0, 0, 0]);
        proof {
            bits_reg(0x9db42487, 0, 0, 0, 0);
            bits_reg(0, 0, 0, 0, 0);
            lemma_fresh();
        }
        let acc = Self { fold: [xmm_crc0, xmm_zero, xmm_zero, xmm_zero] };
        assert(acc.lanes() =~= seq![XMM_CRC0, 0u128, 0u128, 0u128]);
        acc
    }

    /// The checksum of all that was taken in.
    pub fn finish(self) -> (crc: u32)
        ensures
            crc == !self.register(),
    {
        let mut xmm_crc0 = self.fold[0];
        let mut xmm_crc1 = self.fold[1];
        let mut xmm_crc2 = self.fold[2];
        let mut xmm_crc3 = self.fold[3];
        let ghost l0 = xmm_crc0;
        let ghost l1 = xmm_crc1;
        let ghost l2 = xmm_crc2;
        let ghost l3 = xmm_crc3;

        // the four lanes down to one
        let mut crc_fold = RK1_RK2;

        let x_tmp0 = clmulepi64(xmm_crc0, crc_fold, 0x10);
        xmm_crc0 = clmulepi64(xmm_crc0, crc_fold, 0x01);
        xmm_crc1 = xmm_crc1 ^ x_tmp0;
        xmm_crc1 = xmm_crc1 ^ xmm_crc0;
        proof {
            bits_reg(0, l1, x_tmp0, xmm_crc0, 0);
            assert(xmm_crc1 == l1 ^ fold_down(l0));
            lemma_fold_in(l0, l1);
        }
        let ghost m1 = xmm_crc1;

        let x_tmp1 = clmulepi64(xmm_crc1, crc_fold, 0x10);
        xmm_crc1 = clmulepi64(xmm_crc1, crc_fold, 0x01);
        xmm_crc2 = xmm_crc2 ^ x_tmp1;
        xmm_crc2 = xmm_crc2 ^ xmm_crc1;
        proof {
            bits_reg(0, l2, x_tmp1, xmm_crc1, 0);
            assert(xmm_crc2 == l2 ^ fold_down(m1));
            lemma_fold_in(m1, l2);
        }
        let ghost m2 = xmm_crc2;

        let x_tmp2 = clmulepi64(xmm_crc2, crc_fold, 0x10);
        xmm_crc2 = clmulepi64(xmm_crc2, crc_fold, 0x01);
        xmm_crc3 = xmm_crc3 ^ x_tmp2;
        xmm_crc3 = xmm_crc3 ^ xmm_crc2;
        proof {
            bits_reg(0, l3, x_tmp2, xmm_crc2, 0);
            assert(xmm_crc3 == l3 ^ fold_down(m2));
            lemma_fold_in(m2, l3);
            assert(feed(0, xmm_crc3, 128) == self.register());
            lemma_reduce(xmm_crc3);
        }
        let ghost m3 = xmm_crc3;

        // 128 bits down to 64
        crc_fold = RK5_RK6;

        xmm_crc0 = xmm_crc3;
        xmm_crc3 = clmulepi64(xmm_crc3, crc_fold, 0);
        xmm_crc0 = bytes_down(xmm_crc0, 8);
        xmm_crc3 = xmm_crc3 ^ xmm_crc0;
        assert(xmm_crc3 == reduce_96(m3));

        xmm_crc0 = xmm_crc3;
        xmm_crc3 = bytes_up(xmm_crc3, 12);
        xmm_crc3 = clmulepi64(xmm_crc3, crc_fold, 0x10);
        xmm_crc3 = xmm_crc3 ^ xmm_crc0;
        xmm_crc3 = xmm_crc3 & CRC_MASK2;
        assert(xmm_crc3 == reduce_64(reduce_96(m3)));

        // 64 bits down to 32
        xmm_crc1 = xmm_crc3;
        xmm_crc2 = xmm_crc3;
        crc_fold = RK7_RK8;

        xmm_crc3 = clmulepi64(xmm_crc3, crc_fold, 0);
        xmm_crc3 = xmm_crc3 ^ xmm_crc2;
        xmm_crc3 = xmm_crc3 & CRC_MASK1;
        assert(xmm_crc3 == barrett_quotient(xmm_crc1));

        xmm_crc2 = xmm_crc3;
        xmm_crc3 = clmulepi64(xmm_crc3, crc_fold, 0x10);
        xmm_crc3 = xmm_crc3 ^ xmm_crc2;
        xmm_crc3 = xmm_crc3 ^ xmm_crc1;

        let r = extract_epi32(xmm_crc3, 2);
        assert(r == reduce(m3));
        !r
    }

    /// Moves the lanes `N` lanes on: lane `i + N` becomes lane `i`, and the lanes that
    /// leave at the front come back at the end, multiplied by `x^512`.
    fn fold_step<const N: usize>(&mut self)
        requires
            1 <= N <= 4,
        ensures
            final(self).lanes() == step_lanes(old(self).lanes(), N as nat),
            final(self).register() == shift_n(old(self).register(), (128 * N) as nat),
    {
        let f = self.fold;
        let mut i: usize = 0;
        while i < 4
            invariant
                i <= 4,
                1 <= N <= 4,
                forall|j: int|
                    0 <= j < i ==> self.fold[j] == (if j + N < 4 {
                        f[j + N]
                    } else {
                        step(f[j + N - 4])
                    }),
            decreases 4 - i,
        {
            let v = if i + N < 4 {
                f[i + N]
            } else {
                Self::step(f[i + N - 4])
            };
            self.fold[i] = v;
            i += 1;
        }
        proof {
            lemma_advance_n(f[0], f[1], f[2], f[3], N as nat);
            assert(self.fold@ =~= step_lanes(f@, N as nat));
        }
    }

    /// One lane moved four lanes on.
    fn step(input: u128) -> (r: u128)
        ensures
            r == step(input),
    {
        clmulepi64(input, XMM_FOLD4, 0x01) ^ clmulepi64(input, XMM_FOLD4, 0x10)
    }

    /// Takes in the first `len` bytes of `xmm_crc_part`, fewer than a lane: every lane
    /// loses its first `len` bytes to the lane before it, and those of lane 0 come back
    /// at the end, multiplied by `x^512`.
    fn partial_fold(&mut self, xmm_crc_part: u128, len: usize)
        requires
            1 <= len <= 15,
        ensures
            final(self).lanes() == partial_lanes(old(self).lanes(), xmm_crc_part, len as nat),
            final(self).register() == feed(old(self).register(), xmm_crc_part, (8 * len) as nat),
    {
        let ghost f = self.fold;
        let ghost part = xmm_crc_part;
        let xmm_a0 = Self::step(bytes_up(self.fold[0], len));

        self.fold[0] = bytes_down(self.fold[0], len);
        let xmm_tmp1 = bytes_up(self.fold[1], len);
        self.fold[0] = self.fold[0] | xmm_tmp1;

        self.fold[1] = bytes_down(self.fold[1], len);
        let xmm_tmp2 = bytes_up(self.fold[2], len);
        self.fold[1] = self.fold[1] | xmm_tmp2;

        self.fold[2] = bytes_down(self.fold[2], len);
        let xmm_tmp3 = bytes_up(self.fold[3], len);
        self.fold[2] = self.fold[2] | xmm_tmp3;

        self.fold[3] = bytes_down(self.fold[3], len);
        let xmm_crc_part = bytes_up(xmm_crc_part, len);
        self.fold[3] = self.fold[3] | xmm_crc_part;

        self.fold[3] = self.fold[3] ^ xmm_a0;
        proof {
            lemma_partial(f[0], f[1], f[2], f[3], part, len as nat);
            assert(self.fold[0] == joined(f[0], f[1], (8 * len) as nat));
            assert(self.fold[3] == joined(f[3], part, (8 * len) as nat) ^ step(
                f[0] << ((128 - 8 * len) as u128),
            ));
            assert(self.fold@ =~= partial_lanes(f@, part, len as nat));
        }
    }

    /// Takes in the `N` blocks of `src` from `pos` on, copies them to `dst` where `COPY`
    /// is set, and where it is not, puts the seed `init_crc` under the first of them
    /// and clears it. Returns the number of bytes taken.
    fn progress<const N: usize, const COPY: bool>(
        &mut self,
        dst: &mut [u8],
        src: &[u8],
        pos: usize,
        init_crc: &mut u32,
    ) -> (n: usize)
        requires
            1 <= N <= 4,
            pos + 16 * N <= src.len(),
            COPY ==> old(dst).len() == src.len(),
        ensures
            n == 16 * N,
            final(self).lanes() == take_blocks(
                old(self).lanes(),
                src@,
                pos as int,
                N as nat,
                taken_seed(COPY, *old(init_crc)),
            ),
            final(self).register() == crc_bytes(
                seeded(old(self).register(), COPY, *old(init_crc)),
                src@.subrange(pos as int, pos + 16 * N),
            ),
            *final(init_crc) == (if COPY {
                *old(init_crc)
            } else {
                0
            }),
            final(dst).len() == old(dst).len(),
            forall|i: int|
                0 <= i < old(dst).len() ==> final(dst)@[i] == (if COPY && pos <= i < pos + 16 * N {
                    src@[i]
                } else {
                    old(dst)@[i]
                }),
    {
        let ghost r0 = self.register();
        let ghost seed = if COPY {
            0
        } else {
            *init_crc
        };
        let ghost s = src@.subrange(pos as int, pos + 16 * N);
        let mut input: [u128; 4] = [0, 0, 0, 0];
        let mut i: usize = 0;
        while i < N
            invariant
                i <= N,
                1 <= N <= 4,
                pos + 16 * N <= src.len(),
                forall|j: int|
                    0 <= j < i ==> input[j] == block_value(
                        src@.subrange(pos + 16 * j, pos + 16 * j + 16),
                    ),
            decreases N - i,
        {
            input[i] = load(src, pos + 16 * i, 16);
            i += 1;
        }
        let ghost d = input;

        if COPY {
            copy_bytes(dst, src, pos, 16 * N);
        } else if *init_crc != CRC32_INITIAL_VALUE {
            let xmm_initial = reg([*init_crc, 0, 0, 0]);
            input[0] = input[0] ^ xmm_initial;
            *init_crc = CRC32_INITIAL_VALUE;
        }
        proof {
            bits_reg(seed, d[0], 0, 0, r0);
            assert(input[0] == d[0] ^ (seed as u128));
            assert(input[0] == seeded_block(d[0], seed));
        }

        let ghost f = self.fold;
        self.fold_step::<N>();
        let ghost g = self.fold;

        let mut i: usize = 0;
        while i < N
            invariant
                i <= N,
                1 <= N <= 4,
                forall|j: int|
                    0 <= j < 4 ==> self.fold[j] == (if 4 - N <= j < 4 - N + i {
                        g[j] ^ input[j + N - 4]
                    } else {
                        g[j]
                    }),
            decreases N - i,
        {
            self.fold[i + (4 - N)] = self.fold[i + (4 - N)] ^ input[i];
            i += 1;
        }
        proof {
            lemma_progress(
                f[0],
                f[1],
                f[2],
                f[3],
                input[0],
                input[1],
                input[2],
                input[3],
                N as nat,
            );
            lemma_feed_seed(r0, d[0], seed, 128);
            assert(r0 ^ seed == seeded(r0, COPY, seed));
            reveal_with_fuel(feed_blocks, 5);
            assert(s.subrange(0, 16) =~= src@.subrange(pos + 16 * 0, pos + 16 * 0 + 16));
            if N >= 2 {
                assert(s.subrange(16, 32) =~= src@.subrange(pos + 16 * 1, pos + 16 * 1 + 16));
            }
            if N >= 3 {
                assert(s.subrange(32, 48) =~= src@.subrange(pos + 16 * 2, pos + 16 * 2 + 16));
            }
            if N >= 4 {
                assert(s.subrange(48, 64) =~= src@.subrange(pos + 16 * 3, pos + 16 * 3 + 16));
            }
            assert(self.register() == feed_blocks(r0 ^ seed, s, N as nat));
            lemma_feed_blocks(r0 ^ seed, s, N as nat);
            assert(s.subrange(0, 16 * N) =~= s);
            assert(self.fold@ =~= take_blocks(f@, src@, pos as int, N as nat, seed));
        }
        16 * N
    }

    /// Takes in `src`, and copies it to `dst` where `COPY` is set. Where it is not and
    /// `src` holds a block, the seed `init_crc` goes under its first four bytes.
    /// `align_diff` is the number of bytes before the first address that is a multiple of
    /// sixteen: they are taken in by themselves first, then come the blocks, four at a
    /// time while there are as many, and then what is left. The register comes out the
    /// same whatever `align_diff` is; the lanes do not.
    #[verifier::rlimit(50)]
    pub fn fold_help<const COPY: bool>(
        &mut self,
        dst: &mut [u8],
        src: &[u8],
        init_crc: u32,
        align_diff: usize,
    )
        requires
            src.len() >= 31 || init_crc != CRC32_INITIAL_VALUE,
            COPY ==> old(dst).len() == src.len(),
            align_diff < 16,
        ensures
            final(self).lanes() == fold_lanes(
                old(self).lanes(),
                src@,
                taken_seed(COPY, init_crc),
                align_diff as nat,
            ),
            final(self).register() == crc_bytes(
                if src.len() >= 16 {
                    seeded(old(self).register(), COPY, init_crc)
                } else {
                    old(self).register()
                },
                src@,
            ),
            final(dst).len() == old(dst).len(),
            COPY ==> final(dst)@ == src@,
            !COPY ==> final(dst)@ == old(dst)@,
    {
        let ghost whole = crc_bytes(
            if src.len() >= 16 {
                seeded(self.register(), COPY, init_crc)
            } else {
                self.register()
            },
            src@,
        );
        let ghost target = fold_lanes(
            self.lanes(),
            src@,
            taken_seed(COPY, init_crc),
            align_diff as nat,
        );
        let len = src.len();
        let mut pos: usize = 0;
        let mut init_crc = init_crc;
        let mut xmm_crc_part = reg([0, 0, 0, 0]);
        assert(src@.subrange(0, len as int) =~= src@);

        if len >= 16 {
            if align_diff != 0 {
                if !COPY && init_crc != CRC32_INITIAL_VALUE && align_diff < 4 {
                    // so short a piece cannot carry the seed: the first block takes it
                    proof {
                        lemma_crc_bytes_split(
                            seeded(self.register(), COPY, init_crc),
                            src@,
                            0,
                            16,
                            len as int,
                        );
                    }
                    let ghost was = dst@;
                    let n = self.progress::<1, COPY>(dst, src, pos, &mut init_crc);
                    assert(dst@ =~= was);
                    pos += n;
                }
                if len - pos >= align_diff {
                    let ghost before = self.register();
                    let ghost taken = seeded(before, COPY, init_crc);
                    let ghost piece = src@.subrange(pos as int, pos + align_diff);
                    proof {
                        lemma_crc_bytes_split(taken, src@, pos as int, pos + align_diff, len as int);
                        lemma_block_crc(taken, piece, align_diff as nat);
                        assert(piece.subrange(0, align_diff as int) =~= piece);
                    }
                    xmm_crc_part = load(src, pos, align_diff);
                    if COPY {
                        copy_bytes(dst, src, pos, align_diff);
                    } else if init_crc != CRC32_INITIAL_VALUE {
                        let xmm_initial = reg([init_crc, 0, 0, 0]);
                        xmm_crc_part = xmm_crc_part ^ xmm_initial;
                        proof {
                            bits_reg(init_crc, 0, 0, 0, 0);
                            lemma_feed_seed(
                                before,
                                block_value(piece),
                                init_crc,
                                (8 * align_diff) as nat,
                            );
                        }
                        init_crc = CRC32_INITIAL_VALUE;
                    }
                    self.partial_fold(xmm_crc_part, align_diff);
                    assert(self.register() == crc_bytes(taken, piece));
                    pos += align_diff;
                }
            }
            assert(rest_lanes(self.lanes(), src@, pos as int, taken_seed(COPY, init_crc))
                == target);
            assert(crc_bytes(
                seeded(self.register(), COPY, init_crc),
                src@.subrange(pos as int, len as int),
            ) == whole);
            while len - pos >= 64
                invariant
                    len == src.len(),
                    len >= 16,
                    pos <= len,
                    dst.len() == old(dst).len(),
                    COPY ==> dst.len() == src.len(),
                    rest_lanes(self.lanes(), src@, pos as int, taken_seed(COPY, init_crc))
                        == target,
                    crc_bytes(
                        seeded(self.register(), COPY, init_crc),
                        src@.subrange(pos as int, len as int),
                    ) == whole,
                    pos > 0 ==> COPY || init_crc == 0,
                    COPY ==> forall|i: int| 0 <= i < pos ==> dst@[i] == src@[i],
                    !COPY ==> dst@ == old(dst)@,
                decreases len - pos,
            {
                proof {
                    lemma_crc_bytes_split(
                        seeded(self.register(), COPY, init_crc),
                        src@,
                        pos as int,
                        pos + 64,
                        len as int,
                    );
                }
                let ghost was = dst@;
                let n = self.progress::<4, COPY>(dst, src, pos, &mut init_crc);
                assert(!COPY ==> dst@ =~= was);
                pos += n;
            }

            if len - pos >= 48 {
                proof {
                    lemma_crc_bytes_split(
                        seeded(self.register(), COPY, init_crc),
                        src@,
                        pos as int,
                        pos + 48,
                        len as int,
                    );
                }
                let ghost was = dst@;
                let n = self.progress::<3, COPY>(dst, src, pos, &mut init_crc);
                assert(!COPY ==> dst@ =~= was);
                pos += n;
            } else if len - pos >= 32 {
                proof {
                    lemma_crc_bytes_split(
                        seeded(self.register(), COPY, init_crc),
                        src@,
                        pos as int,
                        pos + 32,
                        len as int,
                    );
                }
                let ghost was = dst@;
                let n = self.progress::<2, COPY>(dst, src, pos, &mut init_crc);
                assert(!COPY ==> dst@ =~= was);
                pos += n;
            } else if len - pos >= 16 {
                proof {
                    lemma_crc_bytes_split(
                        seeded(self.register(), COPY, init_crc),
                        src@,
                        pos as int,
                        pos + 16,
                        len as int,
                    );
                }
                let ghost was = dst@;
                let n = self.progress::<1, COPY>(dst, src, pos, &mut init_crc);
                assert(!COPY ==> dst@ =~= was);
                pos += n;
            }
            assert(pos > 0);
        }
        assert(tail_lanes(self.lanes(), src@, pos as int) == target);
        assert(crc_bytes(self.register(), src@.subrange(pos as int, len as int)) == whole);

        if pos < len {
            let ghost before = self.register();
            let ghost piece = src@.subrange(pos as int, len as int);
            xmm_crc_part = load(src, pos, len - pos);
            if COPY {
                copy_bytes(dst, src, pos, len - pos);
            }
            self.partial_fold(xmm_crc_part, len - pos);
            proof {
                lemma_block_crc(before, piece, (len - pos) as nat);
                assert(piece.subrange(0, len - pos) =~= piece);
            }
        } else {
            assert(src@.subrange(pos as int, len as int) =~= Seq::<u8>::empty());
        }
        assert(COPY ==> dst@ =~= src@);
    }

    /// Takes in `src`. Where `src` holds a block, `start` is put into the register first.
    /// The lanes are those of `fold_help` for the place where `src` lies.
    pub fn fold(&mut self, src: &[u8], start: u32)
        requires
            src.len() >= 31 || start != CRC32_INITIAL_VALUE,
        ensures
            final(self).register() == crc_bytes(
                if src.len() >= 16 {
                    old(self).register() ^ start
                } else {
                    old(self).register()
                },
                src@,
            ),
            exists|align_diff: nat|
                align_diff < 16 && final(self).lanes() == #[trigger] fold_lanes(
                    old(self).lanes(),
                    src@,
                    start,
                    align_diff,
                ),
    {
        proof {
            bits_reg(0, 0, 0, 0, self.register());
        }
        let ghost before = self.lanes();
        let mut none: [u8; 0] = [];
        let align_diff = leading_bytes(src);
        self.fold_help::<false>(&mut none, src, start, align_diff);
        assert(self.lanes() == fold_lanes(before, src@, start, align_diff as nat));
    }

    /// Takes in `src` and copies it to `dst`. The lanes are those that `fold` leaves
    /// without a seed.
    pub fn fold_copy(&mut self, dst: &mut [u8], src: &[u8])
        requires
            old(dst).len() == src.len(),
            src.len() >= 31,
        ensures
            final(self).register() == crc_bytes(old(self).register(), src@),
            exists|align_diff: nat|
                align_diff < 16 && final(self).lanes() == #[trigger] fold_lanes(
                    old(self).lanes(),
                    src@,
                    0,
                    align_diff,
                ),
            final(dst)@ == src@,
    {
        let ghost before = self.lanes();
        let align_diff = leading_bytes(src);
        self.fold_help::<true>(dst, src, 0, align_diff);
        assert(self.lanes() == fold_lanes(before, src@, 0, align_diff as nat));
    }
}

/// The number of bytes of `src` before the first address that is a multiple of sixteen,
/// and zero where that is not to be had.
fn leading_bytes(src: &[u8]) -> (align_diff: usize)
    ensures
        align_diff < 16,
{
    let offset = align_offset(src);
    if offset < 16 {
        offset
    } else {
        0
    }
}

/// `<*const u8>::align_offset` of std, on the address that `<[u8]>::as_ptr` gives: the
/// number of bytes of `src` before the first address that is a multiple of sixteen. It
/// depends on where the buffer lies, and std allows the call to give no usable answer:
/// nothing is claimed of the result.
#[verifier::external_body]
fn align_offset(src: &[u8]) -> usize {
    src.as_ptr().align_offset(16)
}

} // verus!
