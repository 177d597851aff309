//! The digest as a function of the seed and the whole byte sequence.
//!
//! Bytes are read in blocks of four little-endian words. Each of the four
//! lanes starts at zero and folds in its word of every block with [`mix`];
//! a final partial block counts as if padded with zero bytes. The four lanes
//! are then combined pairwise and the byte count is folded in.
use vstd::prelude::*;
use crate::mixing::{mix, lemma_mix_zero_word};

verus! {

/// Bytes per lane word.
pub const WORD_BYTES: usize = 8;

/// Number of independent lanes.
pub const LANES: usize = 4;

/// Bytes per block: one word for each lane.
pub const BLOCK_BYTES: usize = 32;

/// Byte `i` of `s`, or zero outside `s`.
pub open spec fn byte_or_zero(s: Seq<u8>, i: int) -> u8 {
    if 0 <= i < s.len() {
        s[i]
    } else {
        0
    }
}

/// The little-endian word made of bytes `i .. i + 8` of `s`, reading zero
/// past its end.
pub open spec fn word_at(s: Seq<u8>, i: int) -> u64 {
    (byte_or_zero(s, i) as nat
        + byte_or_zero(s, i + 1) as nat * 0x100
        + byte_or_zero(s, i + 2) as nat * 0x1_0000
        + byte_or_zero(s, i + 3) as nat * 0x100_0000
        + byte_or_zero(s, i + 4) as nat * 0x1_0000_0000
        + byte_or_zero(s, i + 5) as nat * 0x100_0000_0000
        + byte_or_zero(s, i + 6) as nat * 0x1_0000_0000_0000
        + byte_or_zero(s, i + 7) as nat * 0x100_0000_0000_0000) as u64
}

/// Number of blocks that `n` bytes occupy, a last partial one included.
pub open spec fn block_count(n: nat) -> nat {
    (n + 31) / 32
}

/// Lane `k` after its words of the first `nb` blocks of `s` are folded in.
pub open spec fn lane(h0: u64, h1: u64, s: Seq<u8>, k: int, nb: nat) -> u64
    decreases nb,
{
    if nb == 0 {
        0
    } else {
        mix(lane(h0, h1, s, k, (nb - 1) as nat), word_at(s, 32 * (nb - 1) + 8 * k), h0, h1)
    }
}

/// Lane `k` once every block of `s` is folded in.
pub open spec fn lane_value(h0: u64, h1: u64, s: Seq<u8>, k: int) -> u64 {
    lane(h0, h1, s, k, block_count(s.len()))
}

/// The digest of `s` under the seed `(h0, h1)`: lane 1 is mixed into lane 0
/// and lane 3 into lane 2, then the byte count and the second pair's value
/// are mixed into the first pair's.
pub open spec fn horner_hash(h0: u64, h1: u64, s: Seq<u8>) -> u64 {
    let x = mix(lane_value(h0, h1, s, 0), lane_value(h0, h1, s, 1), h0, h1);
    let y = mix(lane_value(h0, h1, s, 2), lane_value(h0, h1, s, 3), h0, h1);
    mix(mix(x, s.len() as u64, h0, h1), y, h0, h1)
}

/// Words whose bytes agree are equal.
pub proof fn lemma_word_agree(s: Seq<u8>, i: int, t: Seq<u8>, j: int)
    requires
        forall|x: int| i <= x < i + 8 ==> #[trigger] byte_or_zero(s, x) == byte_or_zero(t, x - i + j),
    ensures
        word_at(s, i) == word_at(t, j),
{
    assert(byte_or_zero(s, i) == byte_or_zero(t, j));
    assert(byte_or_zero(s, i + 1) == byte_or_zero(t, j + 1));
    assert(byte_or_zero(s, i + 2) == byte_or_zero(t, j + 2));
    assert(byte_or_zero(s, i + 3) == byte_or_zero(t, j + 3));
    assert(byte_or_zero(s, i + 4) == byte_or_zero(t, j + 4));
    assert(byte_or_zero(s, i + 5) == byte_or_zero(t, j + 5));
    assert(byte_or_zero(s, i + 6) == byte_or_zero(t, j + 6));
    assert(byte_or_zero(s, i + 7) == byte_or_zero(t, j + 7));
}

/// A lane depends only on the bytes of the blocks folded into it.
pub proof fn lemma_lane_agree(h0: u64, h1: u64, s: Seq<u8>, t: Seq<u8>, k: int, nb: nat)
    requires
        0 <= k < 4,
        forall|x: int| 0 <= x < 32 * nb ==> #[trigger] byte_or_zero(s, x) == byte_or_zero(t, x),
    ensures
        lane(h0, h1, s, k, nb) == lane(h0, h1, t, k, nb),
    decreases nb,
{
    if nb > 0 {
        lemma_lane_agree(h0, h1, s, t, k, (nb - 1) as nat);
        lemma_word_agree(s, 32 * (nb - 1) + 8 * k, t, 32 * (nb - 1) + 8 * k);
    }
}

/// A block of zero bytes leaves every lane as it was.
pub proof fn lemma_zero_block(h0: u64, h1: u64, s: Seq<u8>, k: int, nb: nat)
    requires
        0 <= k < 4,
        s.len() <= 32 * nb,
    ensures
        lane(h0, h1, s, k, nb + 1) == lane(h0, h1, s, k, nb),
{
    let i = 32 * nb + 8 * k;
    assert(word_at(s, i) == 0) by {
        assert(byte_or_zero(s, i) == 0);
        assert(byte_or_zero(s, i + 1) == 0);
        assert(byte_or_zero(s, i + 2) == 0);
        assert(byte_or_zero(s, i + 3) == 0);
        assert(byte_or_zero(s, i + 4) == 0);
        assert(byte_or_zero(s, i + 5) == 0);
        assert(byte_or_zero(s, i + 6) == 0);
        assert(byte_or_zero(s, i + 7) == 0);
    }
    lemma_mix_zero_word(lane(h0, h1, s, k, nb), h0, h1);
}

} // verus!
