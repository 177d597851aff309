//! The streaming hasher: a seed, four lanes, and a buffer for the bytes of a
//! block not yet complete.
use vstd::prelude::*;
use crate::mixing::{mix, mult_hi128, lemma_mix_zero_word};
use crate::model::{
    byte_or_zero, word_at, lane, lane_value, block_count, horner_hash, lemma_word_agree,
    lemma_lane_agree, lemma_zero_block, BLOCK_BYTES, LANES, WORD_BYTES,
};

verus! {

/// Reads the little-endian word at bytes `i .. i + 8` of `buf`.
fn load_u64(buf: &[u8], i: usize) -> (r: u64)
    requires
        i + 8 <= buf@.len(),
    ensures
        r == word_at(buf@, i as int),
{
    buf[i] as u64 + (buf[i + 1] as u64) * 0x100 + (buf[i + 2] as u64) * 0x1_0000 + (buf[i + 3]
        as u64) * 0x100_0000 + (buf[i + 4] as u64) * 0x1_0000_0000 + (buf[i + 5] as u64)
        * 0x100_0000_0000 + (buf[i + 6] as u64) * 0x1_0000_0000_0000 + (buf[i + 7] as u64)
        * 0x100_0000_0000_0000
}

/// Copies `n` bytes of `src`, from index `from` on, into `buf` at index `at`.
fn copy_into(buf: &mut [u8; 32], at: usize, src: &[u8], from: usize, n: usize)
    requires
        at + n <= BLOCK_BYTES,
        from + n <= src@.len(),
    ensures
        forall|j: int|
            0 <= j < 32 ==> #[trigger] final(buf)@[j] == if at <= j < at + n {
                src@[from + j - at]
            } else {
                old(buf)@[j]
            },
{
    let src_len = src.len();
    let mut i: usize = 0;
    while i < n
        invariant
            src_len == src@.len(),
            i <= n,
            at + n <= 32,
            from + n <= src@.len(),
            forall|j: int|
                0 <= j < 32 ==> #[trigger] buf@[j] == if at <= j < at + i {
                    src@[from + j - at]
                } else {
                    old(buf)@[j]
                },
        decreases n - i,
    {
        buf[at + i] = src[from + i];
        i += 1;
    }
}

/// Mixes the four words at bytes `at .. at + 32` of `src` into the lanes.
fn fold_block(lanes: &mut [u64; 4], src: &[u8], at: usize, h0: u64, h1: u64)
    requires
        at + BLOCK_BYTES <= src@.len(),
    ensures
        forall|k: int|
            0 <= k < 4 ==> #[trigger] final(lanes)@[k] == mix(
                old(lanes)@[k],
                word_at(src@, at + 8 * k),
                h0,
                h1,
            ),
{
    let src_len = src.len();
    let mut k: usize = 0;
    while k < LANES
        invariant
            src_len == src@.len(),
            k <= 4,
            at + 32 <= src@.len(),
            forall|j: int|
                0 <= j < k ==> #[trigger] lanes@[j] == mix(
                    old(lanes)@[j],
                    word_at(src@, at + 8 * j),
                    h0,
                    h1,
                ),
            forall|j: int| k <= j < 4 ==> #[trigger] lanes@[j] == old(lanes)@[j],
        decreases 4 - k,
    {
        let mut v = lanes[k];
        mult_hi128(&mut v, load_u64(src, at + WORD_BYTES * k), h0, h1);
        lanes[k] = v;
        k += 1;
    }
}

/// Lanes over whole blocks do not see bytes appended after them.
proof fn lemma_lanes_extend(h0: u64, h1: u64, d: Seq<u8>, t: Seq<u8>, nb: nat)
    requires
        32 * nb <= d.len(),
    ensures
        forall|k: int| 0 <= k < 4 ==> #[trigger] lane(h0, h1, d + t, k, nb) == lane(h0, h1, d, k, nb),
{
    assert forall|k: int| 0 <= k < 4 implies #[trigger] lane(h0, h1, d + t, k, nb) == lane(h0, h1, d, k, nb) by {
        assert forall|x: int| 0 <= x < 32 * nb implies #[trigger] byte_or_zero(d + t, x) == byte_or_zero(d, x) by {
        }
        lemma_lane_agree(h0, h1, d + t, d, k, nb);
    }
}

/// The state of one hash computation: a 128-bit seed `(h0, h1)` with `h0`
/// odd, the four lanes, a 32-byte buffer and the number of bytes written.
pub struct HornerHasher {
    h0: u64,
    h1: u64,
    /// The lanes with every complete block folded in.
    lanes: [u64; 4],
    /// The bytes of the current partial block, zero after them.
    buffer: [u8; 32],
    /// The number of bytes written so far.
    count: u64,
    /// The bytes written so far.
    data: Ghost<Seq<u8>>,
}

impl View for HornerHasher {
    type V = Seq<u8>;

    /// The bytes written so far, in order.
    closed spec fn view(&self) -> Seq<u8> {
        self.data@
    }
}

impl HornerHasher {
    /// The low seed word.
    pub closed spec fn seed_low(&self) -> u64 {
        self.h0
    }

    /// The high seed word.
    pub closed spec fn seed_high(&self) -> u64 {
        self.h1
    }

    /// The number of complete blocks written.
    spec fn full_blocks(&self) -> nat {
        (self.count / 32) as nat
    }

    /// The state agrees with the bytes written so far.
    pub closed spec fn wf(&self) -> bool {
        &&& self.h0 % 2 == 1
        &&& self.count == self.data@.len()
        &&& forall|k: int|
            0 <= k < 4 ==> #[trigger] self.lanes@[k] == lane(
                self.h0,
                self.h1,
                self.data@,
                k,
                self.full_blocks(),
            )
        &&& forall|j: int|
            0 <= j < 32 ==> #[trigger] self.buffer@[j] == byte_or_zero(
                self.data@,
                32 * self.full_blocks() + j,
            )
    }

    /// A hasher with the seed `(seed_low, seed_high)` that has seen no bytes.
    pub fn new(seed_low: u64, seed_high: u64) -> (h: HornerHasher)
        requires
            seed_low % 2 == 1,
        ensures
            h.wf(),
            h@ == Seq::<u8>::empty(),
            h.seed_low() == seed_low,
            h.seed_high() == seed_high,
    {
        HornerHasher {
            h0: seed_low,
            h1: seed_high,
            lanes: [0, 0, 0, 0],
            buffer: [0; 32],
            count: 0,
            data: Ghost(Seq::empty()),
        }
    }

    /// Lane `k` with the buffered bytes folded in is the lane of the model.
    proof fn lemma_scratch(&self, k: int)
        requires
            self.wf(),
            0 <= k < 4,
        ensures
            lane_value(self.h0, self.h1, self.data@, k) == mix(
                self.lanes@[k],
                word_at(self.buffer@, 8 * k),
                self.h0,
                self.h1,
            ),
    {
        let s = self.data@;
        let nb = self.full_blocks();
        assert forall|x: int| 8 * k <= x < 8 * k + 8 implies #[trigger] byte_or_zero(self.buffer@, x)
            == byte_or_zero(s, x - 8 * k + 32 * nb + 8 * k) by {
            assert(self.buffer@[x] == byte_or_zero(s, 32 * nb + x));
        }
        lemma_word_agree(self.buffer@, 8 * k, s, 32 * nb + 8 * k);
        if s.len() % 32 == 0 {
            lemma_zero_block(self.h0, self.h1, s, k, nb);
            assert(block_count(s.len()) == nb);
        } else {
            assert(block_count(s.len()) == nb + 1);
        }
    }

    /// Words of the buffer past the bytes written are zero.
    proof fn lemma_stale_word(&self, k: int)
        requires
            self.wf(),
            0 <= k < 4,
            8 * k >= self.count % 32,
        ensures
            word_at(self.buffer@, 8 * k) == 0,
    {
        let s = self.data@;
        let nb = self.full_blocks();
        assert forall|x: int| 8 * k <= x < 8 * k + 8 implies #[trigger] byte_or_zero(self.buffer@, x)
            == byte_or_zero(s, x - 8 * k + s.len() as int) by {
            assert(self.buffer@[x] == byte_or_zero(s, 32 * nb + x));
        }
        lemma_word_agree(self.buffer@, 8 * k, s, s.len() as int);
    }

    /// The digest of every byte written so far.
    ///
    /// Inputs shorter than a block take shortcuts that skip lanes holding
    /// only zeros; each gives the value of the general path.
    pub fn finish(&self) -> (r: u64)
        requires
            self.wf(),
        ensures
            r == horner_hash(self.seed_low(), self.seed_high(), self@),
    {
        let h0 = self.h0;
        let h1 = self.h1;
        proof {
            self.lemma_scratch(0);
            self.lemma_scratch(1);
            self.lemma_scratch(2);
            self.lemma_scratch(3);
            lemma_mix_zero_word(0, h0, h1);
        }
        if self.count < 32 {
            assert(self.full_blocks() == 0);
            assert(self.lanes@[0] == 0 && self.lanes@[1] == 0);
            assert(self.lanes@[2] == 0 && self.lanes@[3] == 0);
            let mut x: u64 = 0;
            mult_hi128(&mut x, load_u64(&self.buffer, 0), h0, h1);
            if self.count <= 8 {
                proof {
                    self.lemma_stale_word(1);
                    self.lemma_stale_word(2);
                    self.lemma_stale_word(3);
                    lemma_mix_zero_word(x, h0, h1);
                }
                let n = self.count;
                mult_hi128(&mut x, n, h0, h1);
                proof {
                    lemma_mix_zero_word(x, h0, h1);
                }
                return x;
            }
            let mut t: u64 = 0;
            mult_hi128(&mut t, load_u64(&self.buffer, 8), h0, h1);
            mult_hi128(&mut x, t, h0, h1);
            if self.count <= 16 {
                proof {
                    self.lemma_stale_word(2);
                    self.lemma_stale_word(3);
                }
                let n = self.count;
                mult_hi128(&mut x, n, h0, h1);
                proof {
                    lemma_mix_zero_word(x, h0, h1);
                }
                return x;
            }
            let mut y: u64 = 0;
            mult_hi128(&mut y, load_u64(&self.buffer, 16), h0, h1);
            if self.count <= 24 {
                proof {
                    self.lemma_stale_word(3);
                    lemma_mix_zero_word(y, h0, h1);
                }
            } else {
                let mut u: u64 = 0;
                mult_hi128(&mut u, load_u64(&self.buffer, 24), h0, h1);
                mult_hi128(&mut y, u, h0, h1);
            }
            let n = self.count;
            mult_hi128(&mut x, n, h0, h1);
            mult_hi128(&mut x, y, h0, h1);
            return x;
        }
        // Only the lanes that the buffered bytes reach take a word.
        let live: usize = (((self.count % 32) + 7) / 8) as usize;
        let mut s: [u64; 4] = self.lanes;
        let mut k: usize = 0;
        while k < live
            invariant
                live == ((self.count % 32) + 7) / 8,
                live <= 4,
                k <= live,
                self.wf(),
                h0 == self.h0,
                h1 == self.h1,
                forall|j: int|
                    0 <= j < k ==> #[trigger] s@[j] == mix(
                        self.lanes@[j],
                        word_at(self.buffer@, 8 * j),
                        h0,
                        h1,
                    ),
                forall|j: int| k <= j < 4 ==> #[trigger] s@[j] == self.lanes@[j],
            decreases live - k,
        {
            let mut v = s[k];
            mult_hi128(&mut v, load_u64(&self.buffer, k * 8), h0, h1);
            s[k] = v;
            k += 1;
        }
        proof {
            assert forall|j: int| live <= j < 4 implies #[trigger] s@[j] == mix(
                self.lanes@[j],
                word_at(self.buffer@, 8 * j),
                h0,
                h1,
            ) by {
                self.lemma_stale_word(j);
                lemma_mix_zero_word(self.lanes@[j], h0, h1);
            }
        }
        let mut x = s[0];
        let mut y = s[2];
        mult_hi128(&mut x, s[1], h0, h1);
        mult_hi128(&mut y, s[3], h0, h1);
        mult_hi128(&mut x, self.count, h0, h1);
        mult_hi128(&mut x, y, h0, h1);
        x
    }

    /// Appends `bytes` to the input; the digest depends only on the
    /// concatenation of all writes, not on how it was split.
    pub fn write(&mut self, bytes: &[u8])
        requires
            old(self).wf(),
            old(self)@.len() + bytes@.len() <= u64::MAX,
        ensures
            final(self).wf(),
            final(self)@ == old(self)@ + bytes@,
            final(self).seed_low() == old(self).seed_low(),
            final(self).seed_high() == old(self).seed_high(),
    {
        let ghost d0 = self.data@;
        let len = bytes.len();
        let mut i: usize = 0;
        let off: usize = (self.count % 32) as usize;
        if off != 0 {
            // Top up the partial block.
            let room = BLOCK_BYTES - off;
            let n: usize = if len < room {
                len
            } else {
                room
            };
            let ghost nb = self.full_blocks();
            copy_into(&mut self.buffer, off, bytes, 0, n);
            self.count = self.count + n as u64;
            self.data = Ghost(d0 + bytes@.subrange(0, n as int));
            i = n;
            proof {
                let d1 = self.data@;
                assert(32 * nb + off == d0.len());
                lemma_lanes_extend(self.h0, self.h1, d0, bytes@.subrange(0, n as int), nb);
                assert forall|j: int| 0 <= j < 32 implies #[trigger] self.buffer@[j] == byte_or_zero(
                    d1,
                    32 * nb + j,
                ) by {
                    if j < off {
                        assert(d1[32 * nb + j] == d0[32 * nb + j]);
                    } else if j < off + n {
                        assert(d1[32 * nb + j] == bytes@[j - off]);
                    }
                }
            }
            if off + n == BLOCK_BYTES {
                // The block is complete: fold it in and empty the buffer.
                let ghost blk = self.buffer@;
                let ghost lanes0 = self.lanes@;
                fold_block(&mut self.lanes, &self.buffer, 0, self.h0, self.h1);
                self.buffer = [0; 32];
                proof {
                    let d1 = self.data@;
                    assert(self.full_blocks() == nb + 1);
                    assert forall|k: int| 0 <= k < 4 implies #[trigger] self.lanes@[k] == lane(
                        self.h0,
                        self.h1,
                        d1,
                        k,
                        nb + 1,
                    ) by {
                        assert forall|x: int| 8 * k <= x < 8 * k + 8 implies #[trigger] byte_or_zero(
                            blk,
                            x,
                        ) == byte_or_zero(d1, x - 8 * k + 32 * nb + 8 * k) by {
                            assert(blk[x] == byte_or_zero(d1, 32 * nb + x));
                        }
                        lemma_word_agree(blk, 8 * k, d1, 32 * nb + 8 * k);
                        assert(lanes0[k] == lane(self.h0, self.h1, d0, k, nb));
                        assert(lanes0[k] == lane(self.h0, self.h1, d1, k, nb));
                    }
                }
            }
        }
        // Whole blocks go straight from the input into the lanes.
        while len - i >= BLOCK_BYTES
            invariant
                i <= len,
                len == bytes@.len(),
                self.h0 == old(self).h0,
                self.h1 == old(self).h1,
                d0 == old(self).data@,
                d0.len() + len <= u64::MAX,
                self.data@ == d0 + bytes@.subrange(0, i as int),
                self.wf(),
                self.count % 32 == 0 || i == len,
            decreases len - i,
        {
            let ghost d = self.data@;
            let ghost nb = self.full_blocks();
            let ghost lanes0 = self.lanes@;
            fold_block(&mut self.lanes, bytes, i, self.h0, self.h1);
            self.count = self.count + BLOCK_BYTES as u64;
            self.data = Ghost(d0 + bytes@.subrange(0, i + 32));
            proof {
                let d1 = self.data@;
                let t = bytes@.subrange(i as int, i + 32);
                assert(d1 == d + t);
                assert(32 * nb == d.len());
                lemma_lanes_extend(self.h0, self.h1, d, t, nb);
                assert(self.full_blocks() == nb + 1);
                assert forall|k: int| 0 <= k < 4 implies #[trigger] self.lanes@[k] == lane(
                    self.h0,
                    self.h1,
                    d1,
                    k,
                    nb + 1,
                ) by {
                    assert forall|x: int| i + 8 * k <= x < i + 8 * k + 8 implies #[trigger] byte_or_zero(
                        bytes@,
                        x,
                    ) == byte_or_zero(d1, x - (i + 8 * k) + 32 * nb + 8 * k) by {
                        assert(d1[x - i + 32 * nb] == bytes@[x]);
                    }
                    lemma_word_agree(bytes@, i + 8 * k, d1, 32 * nb + 8 * k);
                    assert(lanes0[k] == lane(self.h0, self.h1, d1, k, nb));
                }
            }
            i = i + BLOCK_BYTES;
        }
        // The rest starts a new partial block.
        if i < len {
            let ghost d = self.data@;
            let ghost nb = self.full_blocks();
            let rest = len - i;
            copy_into(&mut self.buffer, 0, bytes, i, rest);
            self.count = self.count + rest as u64;
            self.data = Ghost(d0 + bytes@.subrange(0, len as int));
            proof {
                let d1 = self.data@;
                let t = bytes@.subrange(i as int, len as int);
                assert(d1 == d + t);
                assert(32 * nb == d.len());
                lemma_lanes_extend(self.h0, self.h1, d, t, nb);
                assert(self.full_blocks() == nb);
                assert forall|j: int| 0 <= j < 32 implies #[trigger] self.buffer@[j] == byte_or_zero(
                    d1,
                    32 * nb + j,
                ) by {
                    if j < rest {
                        assert(d1[32 * nb + j] == bytes@[i + j]);
                    }
                }
            }
        }
        assert(bytes@.subrange(0, len as int) == bytes@);
    }
}

} // verus!
