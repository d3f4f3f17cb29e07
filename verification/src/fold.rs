//! The checksum that callers see: one state for a stream that comes in chunks, and the two
//! functions for a buffer that is there as a whole.
use vstd::prelude::*;
use crate::accumulator::{fold_lanes, Accumulator, CRC32_INITIAL_VALUE};
use crate::lanes::XMM_CRC0;
use crate::block::copy_bytes;
use crate::checksum::{crc32_braid, crc32_of};

verus! {

/// The checksum after one more chunk. By folding, a chunk that holds a block takes the
/// seed `start` into the checksum first; a shorter one, and the bytewise path, leave the
/// seed aside.
pub open spec fn fold_crc(folding: bool, crc: u32, chunk: Seq<u8>, start: u32) -> u32 {
    if folding && chunk.len() >= 16 {
        crc32_of(chunk, crc ^ start)
    } else {
        crc32_of(chunk, crc)
    }
}

proof fn bits_not(c: u32, s: u32)
    by (bit_vector)
    ensures
        !(!c) == c,
        !((!c) ^ s) == c ^ s,
        0u32 ^ s == s,
        !0u32 == 0xffff_ffffu32,
        !0xffff_ffffu32 == 0u32,
{
}

/// The state of a checksum over a stream: it folds, or it goes byte by byte, as it was
/// made, from the first chunk to the last.
#[derive(Debug)]
pub struct Crc32Fold {
    fold: Accumulator,
    value: u32,
    folding: bool,
}

impl Crc32Fold {
    /// Whether this state folds.
    pub closed spec fn folding(&self) -> bool {
        self.folding
    }

    /// The accumulator that this state holds. It takes the input in where the state folds.
    pub closed spec fn accumulator(&self) -> Accumulator {
        self.fold
    }

    /// The running checksum that this state holds. It takes the input in where the state
    /// goes byte by byte.
    pub closed spec fn value(&self) -> u32 {
        self.value
    }

    /// The checksum of what was taken in so far: what `finish` returns.
    pub open spec fn crc(&self) -> u32 {
        if self.folding() {
            !self.accumulator().register()
        } else {
            self.value()
        }
    }

    /// Whether this state folds.
    pub fn is_folding(&self) -> (yes: bool)
        ensures
            yes == self.folding(),
    {
        self.folding
    }

    /// A state that has taken nothing in. It folds where `is_pclmulqdq` says so.
    pub fn new() -> (state: Self)
        ensures
            state.folding(),
            state.accumulator().lanes() == seq![XMM_CRC0, 0u128, 0u128, 0u128],
            state.value() == CRC32_INITIAL_VALUE,
            state.crc() == CRC32_INITIAL_VALUE,
    {
        Self::with_folding(Self::is_pclmulqdq())
    }

    /// A state that has taken nothing in, and folds if `folding` is set: for a caller
    /// that has found out by itself which path the machine is good for.
    pub fn with_folding(folding: bool) -> (state: Self)
        ensures
            state.folding() == folding,
            state.accumulator().lanes() == seq![XMM_CRC0, 0u128, 0u128, 0u128],
            state.value() == CRC32_INITIAL_VALUE,
            state.crc() == CRC32_INITIAL_VALUE,
    {
        proof {
            bits_not(0, 0);
        }
        Self { fold: Accumulator::new(), value: CRC32_INITIAL_VALUE, folding }
    }

    /// Whether folding can be had. The lanes are kept in plain integers and multiplied
    /// bit by bit, which every machine can do.
    pub fn is_pclmulqdq() -> (yes: bool)
        ensures
            yes,
    {
        true
    }

    /// Takes in one more chunk. The bytewise path does not look at `start`. Only the path
    /// that the state is on changes: the accumulator where it folds, the running checksum
    /// where it does not.
    pub fn fold(&mut self, src: &[u8], start: u32)
        requires
            old(self).folding() ==> src.len() >= 31 || start != CRC32_INITIAL_VALUE,
        ensures
            final(self).folding() == old(self).folding(),
            final(self).crc() == fold_crc(old(self).folding(), old(self).crc(), src@, start),
            old(self).folding() ==> final(self).value() == old(self).value(),
            old(self).folding() ==> exists|align_diff: nat|
                align_diff < 16 && final(self).accumulator().lanes() == #[trigger] fold_lanes(
                    old(self).accumulator().lanes(),
                    src@,
                    start,
                    align_diff,
                ),
            !old(self).folding() ==> final(self).accumulator() == old(self).accumulator(),
    {
        if self.folding {
            proof {
                bits_not(self.fold.register(), start);
            }
            self.fold.fold(src, start);
            return;
        }
        // in this case the start value is ignored

        self.value = crc32_braid(src, self.value);
    }

    /// Takes in one more chunk if `fold` takes such a chunk, and says whether it did.
    /// Where it did not, nothing has changed.
    pub fn try_fold(&mut self, src: &[u8], start: u32) -> (taken: bool)
        ensures
            taken == (old(self).folding() ==> src.len() >= 31 || start != CRC32_INITIAL_VALUE),
            !taken ==> *final(self) == *old(self),
            final(self).folding() == old(self).folding(),
            taken ==> final(self).crc() == fold_crc(
                old(self).folding(),
                old(self).crc(),
                src@,
                start,
            ),
            taken && old(self).folding() ==> final(self).value() == old(self).value(),
            taken && old(self).folding() ==> exists|align_diff: nat|
                align_diff < 16 && final(self).accumulator().lanes() == #[trigger] fold_lanes(
                    old(self).accumulator().lanes(),
                    src@,
                    start,
                    align_diff,
                ),
            !old(self).folding() ==> final(self).accumulator() == old(self).accumulator(),
    {
        if self.folding && src.len() < 31 && start == CRC32_INITIAL_VALUE {
            return false;
        }
        self.fold(src, start);
        true
    }

    /// Takes in one more chunk and copies it to `dst`. Only the path that the state is on
    /// changes.
    pub fn fold_copy(&mut self, dst: &mut [u8], src: &[u8])
        requires
            old(dst).len() == src.len(),
            old(self).folding() ==> src.len() >= 31,
        ensures
            final(self).folding() == old(self).folding(),
            final(self).crc() == crc32_of(src@, old(self).crc()),
            final(dst)@ == src@,
            old(self).folding() ==> final(self).value() == old(self).value(),
            old(self).folding() ==> exists|align_diff: nat|
                align_diff < 16 && final(self).accumulator().lanes() == #[trigger] fold_lanes(
                    old(self).accumulator().lanes(),
                    src@,
                    0,
                    align_diff,
                ),
            !old(self).folding() ==> final(self).accumulator() == old(self).accumulator(),
    {
        if self.folding {
            proof {
                bits_not(self.fold.register(), 0);
            }
            self.fold.fold_copy(dst, src);
            return;
        }
        self.value = crc32_braid(src, self.value);
        copy_bytes(dst, src, 0, src.len());
        assert(dst@ =~= src@);
    }

    /// Takes in one more chunk and copies it to `dst`, if `fold_copy` takes such a chunk
    /// and `dst` is as long as the chunk, and says whether it did. Where it did not,
    /// nothing has changed: no byte of `dst` is written, and nothing is taken in.
    pub fn try_fold_copy(&mut self, dst: &mut [u8], src: &[u8]) -> (taken: bool)
        ensures
            taken == (old(dst).len() == src.len() && (old(self).folding() ==> src.len() >= 31)),
            !taken ==> *final(self) == *old(self) && final(dst)@ == old(dst)@,
            final(self).folding() == old(self).folding(),
            taken ==> final(self).crc() == crc32_of(src@, old(self).crc()),
            taken ==> final(dst)@ == src@,
            taken && old(self).folding() ==> final(self).value() == old(self).value(),
            taken && old(self).folding() ==> exists|align_diff: nat|
                align_diff < 16 && final(self).accumulator().lanes() == #[trigger] fold_lanes(
                    old(self).accumulator().lanes(),
                    src@,
                    0,
                    align_diff,
                ),
            !old(self).folding() ==> final(self).accumulator() == old(self).accumulator(),
    {
        if dst.len() != src.len() || (self.folding && src.len() < 31) {
            return false;
        }
        self.fold_copy(dst, src);
        true
    }

    /// The checksum of all that was taken in.
    pub fn finish(self) -> (crc: u32)
        ensures
            crc == self.crc(),
    {
        if self.folding {
            return self.fold.finish();
        }
        self.value
    }
}

/// The CRC-32 of `buf`, continued from the checksum `start`.
pub fn crc32(buf: &[u8], start: u32) -> (crc: u32)
    ensures
        crc == crc32_of(buf@, start),
{
    // under 64 bytes, byte by byte is the faster way
    if buf.len() < 64 {
        return crc32_braid(buf, start);
    }
    proof {
        bits_not(0, start);
    }
    let mut crc_state = Crc32Fold::new();
    crc_state.fold(buf, start);
    crc_state.finish()
}

/// The CRC-32 of `buf`, which is copied to `dst` on the way.
pub fn crc32_copy(dst: &mut [u8], buf: &[u8]) -> (crc: u32)
    requires
        old(dst).len() == buf.len(),
    ensures
        crc == crc32_of(buf@, CRC32_INITIAL_VALUE),
        final(dst)@ == buf@,
{
    // under 64 bytes, byte by byte is the faster way
    if buf.len() < 64 {
        copy_bytes(dst, buf, 0, buf.len());
        assert(dst@ =~= buf@);
        return crc32_braid(buf, CRC32_INITIAL_VALUE);
    }
    let mut crc_state = Crc32Fold::new();
    crc_state.fold_copy(dst, buf);
    crc_state.finish()
}

/// The CRC-32 of `buf`, which is copied to `dst` on the way, if `dst` is as long as `buf`.
/// Where it is not, there is no checksum and no byte of `dst` is written: the copy is
/// neither cut short nor does it go beyond `dst`.
pub fn try_crc32_copy(dst: &mut [u8], buf: &[u8]) -> (crc: Option<u32>)
    ensures
        old(dst).len() == buf.len() ==> crc == Some(crc32_of(buf@, CRC32_INITIAL_VALUE))
            && final(dst)@ == buf@,
        old(dst).len() != buf.len() ==> crc is None && final(dst)@ == old(dst)@,
{
    if dst.len() != buf.len() {
        return None;
    }
    Some(crc32_copy(dst, buf))
}

} // verus!
