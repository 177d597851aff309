//! Properties of the digest that relate several inputs or several calls.
use vstd::prelude::*;
use crate::mixing::{mix, lemma_mix_injective, lemma_mix_next_count, lemma_mix_zero_word};
use crate::model::{
    byte_or_zero, lane, lane_value, block_count, horner_hash, lemma_lane_agree, lemma_zero_block,
};

verus! {

/// The bytes seen after `start` when each of `chunks` is written in turn:
/// each write appends its chunk to what came before.
pub open spec fn absorb(start: Seq<u8>, chunks: Seq<Seq<u8>>) -> Seq<u8>
    decreases chunks.len(),
{
    if chunks.len() == 0 {
        start
    } else {
        absorb(start + chunks[0], chunks.drop_first())
    }
}

/// Writing a sequence of chunks leaves the concatenation of the chunks.
pub proof fn lemma_absorb_flatten(start: Seq<u8>, chunks: Seq<Seq<u8>>)
    ensures
        absorb(start, chunks) == start + chunks.flatten(),
    decreases chunks.len(),
{
    if chunks.len() == 0 {
        assert(start + chunks.flatten() =~= start);
    } else {
        lemma_absorb_flatten(start + chunks[0], chunks.drop_first());
        assert(start + chunks[0] + chunks.drop_first().flatten() =~= start + chunks.flatten());
    }
}

/// Chunking does not matter: the digest after writing `chunks` one after
/// another into a fresh hasher is the digest of their concatenation, so any
/// two splittings of the same bytes give the same digest.
pub proof fn lemma_chunking_irrelevant(h0: u64, h1: u64, chunks: Seq<Seq<u8>>)
    ensures
        horner_hash(h0, h1, absorb(Seq::empty(), chunks)) == horner_hash(h0, h1, chunks.flatten()),
{
    lemma_absorb_flatten(Seq::empty(), chunks);
    assert(Seq::<u8>::empty() + chunks.flatten() =~= chunks.flatten());
}

/// The empty input hashes to zero under every seed: no lane takes a word
/// and the count is zero, and mixing in a zero word changes nothing.
pub proof fn lemma_empty_digest(h0: u64, h1: u64)
    ensures
        horner_hash(h0, h1, Seq::empty()) == 0,
{
    lemma_mix_zero_word(0, h0, h1);
}

/// A trailing zero byte changes no lane.
proof fn lemma_trailing_zero_lanes(h0: u64, h1: u64, s: Seq<u8>, k: int)
    requires
        0 <= k < 4,
    ensures
        lane_value(h0, h1, s.push(0), k) == lane_value(h0, h1, s, k),
{
    let t = s.push(0);
    let nb = block_count(s.len());
    let nt = block_count(t.len());
    assert forall|x: int| 0 <= x < 32 * nt implies #[trigger] byte_or_zero(t, x) == byte_or_zero(s, x) by {
    }
    lemma_lane_agree(h0, h1, t, s, k, nt);
    if s.len() % 32 == 0 {
        assert(nt == nb + 1);
        lemma_zero_block(h0, h1, s, k, nb);
    } else {
        assert(nt == nb);
    }
}

/// Appending a zero byte changes the digest, for every seed whose high word
/// is neither `0` nor `u64::MAX`: the byte count is part of the digest, so a
/// key and the same key with trailing zeros do not collide.
pub proof fn lemma_trailing_zero_changes_digest(h0: u64, h1: u64, s: Seq<u8>)
    requires
        s.len() < u64::MAX,
        h1 != 0,
        h1 != u64::MAX,
    ensures
        horner_hash(h0, h1, s) != horner_hash(h0, h1, s.push(0)),
{
    let t = s.push(0);
    lemma_trailing_zero_lanes(h0, h1, s, 0);
    lemma_trailing_zero_lanes(h0, h1, s, 1);
    lemma_trailing_zero_lanes(h0, h1, s, 2);
    lemma_trailing_zero_lanes(h0, h1, s, 3);
    let x = mix(lane_value(h0, h1, s, 0), lane_value(h0, h1, s, 1), h0, h1);
    let y = mix(lane_value(h0, h1, s, 2), lane_value(h0, h1, s, 3), h0, h1);
    let n = s.len() as u64;
    assert(t.len() as u64 == (n + 1) as u64);
    lemma_mix_next_count(x, n, h0, h1);
    lemma_mix_injective(mix(x, n, h0, h1), mix(x, (n + 1) as u64, h0, h1), y, h0, h1);
}

} // verus!
