//! What holds of the checksum whatever the input is.
use vstd::prelude::*;
use crate::checksum::{crc_bytes, crc32_of, lemma_crc_bytes_concat};
use crate::fold::fold_crc;

verus! {

/// The chunks one after the other, as one run of bytes.
pub open spec fn concat(chunks: Seq<Seq<u8>>) -> Seq<u8>
    decreases chunks.len(),
{
    if chunks.len() == 0 {
        Seq::empty()
    } else {
        chunks[0] + concat(chunks.drop_first())
    }
}

/// The checksum after the chunks have been taken in one by one, the seed `start` given
/// with the first of them and no seed with the others.
pub open spec fn fold_chunks(folding: bool, crc: u32, chunks: Seq<Seq<u8>>, start: u32) -> u32
    decreases chunks.len(),
{
    if chunks.len() == 0 {
        crc
    } else {
        fold_chunks(folding, fold_crc(folding, crc, chunks[0], start), chunks.drop_first(), 0)
    }
}

proof fn bits_plain(c: u32)
    by (bit_vector)
    ensures
        !(!c) == c,
        c ^ 0 == c,
        0 ^ c == c,
{
}

/// The checksum of no bytes is the checksum it is continued from: zero, from the start.
pub proof fn lemma_crc32_of_empty(start: u32)
    ensures
        crc32_of(Seq::<u8>::empty(), start) == start,
{
    bits_plain(start);
}

/// The checksum of `a` followed by `b` is that of `b`, continued from that of `a`.
pub proof fn lemma_crc32_of_concat(a: Seq<u8>, b: Seq<u8>, start: u32)
    ensures
        crc32_of(a + b, start) == crc32_of(b, crc32_of(a, start)),
{
    lemma_crc_bytes_concat(!start, a, b);
    bits_plain(crc_bytes(!start, a));
}

/// The first chunk of a stream, taken in by folding with the seed `start`, gives the
/// CRC-32 of the chunk continued from `start`, if the chunk holds a block.
pub proof fn lemma_first_chunk(chunk: Seq<u8>, start: u32)
    requires
        chunk.len() >= 16,
    ensures
        fold_crc(true, 0, chunk, start) == crc32_of(chunk, start),
{
    bits_plain(start);
}

/// With no seed, folding and going byte by byte give the same checksum.
pub proof fn lemma_paths_agree(crc: u32, chunk: Seq<u8>, start: u32)
    ensures
        fold_crc(true, crc, chunk, 0) == fold_crc(false, crc, chunk, start),
        fold_crc(true, crc, chunk, 0) == crc32_of(chunk, crc),
{
    bits_plain(crc);
}

/// Chunking invariance: taking the input in as chunks, the seed given with the first,
/// gives the checksum that the whole input gives as one chunk. The one case left out is
/// that of a seed which the first chunk is too short to take, under sixteen bytes, and the
/// whole input is not.
pub proof fn lemma_chunking_invariance(folding: bool, crc: u32, chunks: Seq<Seq<u8>>, start: u32)
    requires
        chunks.len() > 0,
        folding && start != 0 && chunks[0].len() < 16 ==> concat(chunks).len() < 16,
    ensures
        fold_chunks(folding, crc, chunks, start) == fold_crc(folding, crc, concat(chunks), start),
    decreases chunks.len(),
{
    let a = chunks[0];
    let rest = chunks.drop_first();
    let first = fold_crc(folding, crc, a, start);
    if rest.len() == 0 {
        assert(concat(rest) =~= Seq::<u8>::empty());
        assert(a + concat(rest) =~= a);
        assert(fold_chunks(folding, first, rest, 0) == first);
    } else {
        lemma_chunking_invariance(folding, first, rest, 0);
        let tail = concat(rest);
        bits_plain(first);
        bits_plain(crc);
        let taken = if folding && a.len() >= 16 {
            crc ^ start
        } else {
            crc
        };
        lemma_crc32_of_concat(a, tail, taken);
        assert(fold_crc(folding, first, tail, 0) == crc32_of(tail, first));
    }
}

} // verus!
