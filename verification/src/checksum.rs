//! CRC-32 as it is defined, one byte after the other, and the plain routine that computes it so.
use vstd::prelude::*;
use crate::register::{shift_n, POLY};

verus! {

/// The register after one byte.
pub open spec fn crc_byte(c: u32, b: u8) -> u32 {
    shift_n(c ^ (b as u32), 8)
}

/// The register after the bytes of `s`, first byte first.
pub open spec fn crc_bytes(c: u32, s: Seq<u8>) -> u32
    decreases s.len(),
{
    if s.len() == 0 {
        c
    } else {
        crc_bytes(crc_byte(c, s[0]), s.drop_first())
    }
}

/// The CRC-32 of `s` continued from the checksum `start`: the register is the
/// complement of the checksum, before and after.
pub open spec fn crc32_of(s: Seq<u8>, start: u32) -> u32 {
    !crc_bytes(!start, s)
}

/// The bytes of `a` followed by those of `b` take the register through `a`, then through `b`.
pub proof fn lemma_crc_bytes_concat(c: u32, a: Seq<u8>, b: Seq<u8>)
    ensures
        crc_bytes(c, a + b) == crc_bytes(crc_bytes(c, a), b),
    decreases a.len(),
{
    if a.len() == 0 {
        assert(a + b =~= b);
    } else {
        assert((a + b).drop_first() =~= a.drop_first() + b);
        lemma_crc_bytes_concat(crc_byte(c, a[0]), a.drop_first(), b);
    }
}

/// The bytes from `from` to `to` take the register through those up to `mid`, then
/// through the rest.
pub proof fn lemma_crc_bytes_split(c: u32, s: Seq<u8>, from: int, mid: int, to: int)
    requires
        0 <= from <= mid <= to <= s.len(),
    ensures
        crc_bytes(c, s.subrange(from, to)) == crc_bytes(
            crc_bytes(c, s.subrange(from, mid)),
            s.subrange(mid, to),
        ),
{
    lemma_crc_bytes_concat(c, s.subrange(from, mid), s.subrange(mid, to));
    assert(s.subrange(from, mid) + s.subrange(mid, to) =~= s.subrange(from, to));
}

/// CRC-32 by the definition, bit by bit.
pub fn crc32_braid(buf: &[u8], start: u32) -> (crc: u32)
    ensures
        crc == crc32_of(buf@, start),
{
    let mut c: u32 = !start;
    let mut i: usize = 0;
    assert(buf@.subrange(0, buf.len() as int) =~= buf@);
    while i < buf.len()
        invariant
            i <= buf.len(),
            crc_bytes(c, buf@.subrange(i as int, buf.len() as int)) == crc_bytes(!start, buf@),
        decreases buf.len() - i,
    {
        let ghost before = c;
        c = c ^ (buf[i] as u32);
        let mut k: u8 = 0;
        while k < 8
            invariant
                k <= 8,
                shift_n(c, (8 - k) as nat) == crc_byte(before, buf@[i as int]),
            decreases 8 - k,
        {
            c = if c & 1 == 1 {
                (c >> 1) ^ POLY
            } else {
                c >> 1
            };
            k += 1;
        }
        assert(buf@.subrange(i as int, buf.len() as int).drop_first() =~= buf@.subrange(
            i + 1,
            buf.len() as int,
        ));
        i += 1;
    }
    !c
}

} // verus!
