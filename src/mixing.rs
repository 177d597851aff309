//! The seeded mixing step shared by ingestion and finalization.
use vstd::prelude::*;

verus! {

/// 2^64, the modulus of all digest arithmetic.
pub open spec fn word_modulus() -> nat {
    0x1_0000_0000_0000_0000
}

/// The upper 64 bits of the full 128-bit product `x * y`.
pub open spec fn hi64(x: u64, y: u64) -> u64 {
    ((x as nat * y as nat) / word_modulus()) as u64
}

/// One multiply-shift step: `acc + word * h1 + hi64(word * h0)` modulo 2^64.
pub open spec fn mix(acc: u64, word: u64, h0: u64, h1: u64) -> u64 {
    ((acc as nat + word as nat * h1 as nat + hi64(word, h0) as nat) % word_modulus()) as u64
}

/// Multiplies two words and returns the 64 most significant bits of the
/// 128-bit product.
fn hi64mul(x: u64, y: u64) -> (r: u64)
    ensures
        r == hi64(x, y),
{
    proof {
        assert(x as nat * y as nat <= 0xffff_ffff_ffff_ffff * 0xffff_ffff_ffff_ffff) by (nonlinear_arith)
            requires
                x <= 0xffff_ffff_ffff_ffff,
                y <= 0xffff_ffff_ffff_ffff,
        ;
    }
    let p: u128 = (x as u128) * (y as u128);
    (p / 0x1_0000_0000_0000_0000u128) as u64
}

/// Folds `accum` into `*result` with the seed `(h0, h1)`: the new value is
/// `mix(result, accum, h0, h1)`, with wrapping arithmetic throughout.
pub fn mult_hi128(result: &mut u64, accum: u64, h0: u64, h1: u64)
    ensures
        *final(result) == mix(*old(result), accum, h0, h1),
{
    let hi = hi64mul(accum, h0);
    let lo = accum.wrapping_mul(h1);
    let t = lo.wrapping_add(hi);
    proof {
        lemma_wrapping_sum(*result, accum, h0, h1, lo, hi, t);
    }
    *result = result.wrapping_add(t);
}

proof fn lemma_wrapping_sum(acc: u64, w: u64, h0: u64, h1: u64, lo: u64, hi: u64, t: u64)
    requires
        hi == hi64(w, h0),
        lo == (w as nat * h1 as nat) % word_modulus(),
        t == (lo as nat + hi as nat) % word_modulus(),
    ensures
        (acc as nat + t as nat) % word_modulus() == mix(acc, w, h0, h1),
{
    let m = word_modulus() as int;
    let p = w as int * h1 as int;
    vstd::arithmetic::div_mod::lemma_add_mod_noop(p, hi as int, m);
    vstd::arithmetic::div_mod::lemma_mod_twice(hi as int, m);
    vstd::arithmetic::div_mod::lemma_add_mod_noop(acc as int, p + hi as int, m);
    vstd::arithmetic::div_mod::lemma_mod_twice(acc as int, m);
}

/// Mixing in a zero word leaves the accumulator as it was.
pub proof fn lemma_mix_zero_word(acc: u64, h0: u64, h1: u64)
    ensures
        mix(acc, 0, h0, h1) == acc,
{
    assert(0 * h1 as nat == 0);
    assert(hi64(0, h0) == 0);
    vstd::arithmetic::div_mod::lemma_small_mod(acc as nat, word_modulus());
}

/// Two different accumulators stay different after the same word is mixed in.
pub proof fn lemma_mix_injective(a: u64, b: u64, word: u64, h0: u64, h1: u64)
    requires
        a != b,
    ensures
        mix(a, word, h0, h1) != mix(b, word, h0, h1),
{
    let m = word_modulus() as int;
    let c = word as int * h1 as int + hi64(word, h0) as int;
    vstd::arithmetic::div_mod::lemma_add_mod_noop(a as int, c, m);
    vstd::arithmetic::div_mod::lemma_add_mod_noop(b as int, c, m);
    vstd::arithmetic::div_mod::lemma_small_mod(a as nat, m as nat);
    vstd::arithmetic::div_mod::lemma_small_mod(b as nat, m as nat);
    let cm = c % m;
    assert(0 <= cm < m);
    if (a + cm) % m == (b + cm) % m {
        vstd::arithmetic::div_mod::lemma_fundamental_div_mod(a + cm, m);
        vstd::arithmetic::div_mod::lemma_fundamental_div_mod(b + cm, m);
        let qa = (a + cm) / m;
        let qb = (b + cm) / m;
        assert(0 <= qa <= 1) by {
            vstd::arithmetic::div_mod::lemma_div_pos_is_pos(a + cm, m);
            vstd::arithmetic::div_mod::lemma_div_is_ordered(a + cm, 2 * m, m);
            vstd::arithmetic::div_mod::lemma_div_by_multiple(2, m);
        }
        assert(0 <= qb <= 1) by {
            vstd::arithmetic::div_mod::lemma_div_pos_is_pos(b + cm, m);
            vstd::arithmetic::div_mod::lemma_div_is_ordered(b + cm, 2 * m, m);
            vstd::arithmetic::div_mod::lemma_div_by_multiple(2, m);
        }
        assert(m * qa - m * qb == a - b);
        if qa == qb {
        } else if qa == 1 {
            assert(m * qa == m);
        } else {
            assert(m * qb == m);
        }
    }
}

/// Counting one more word changes the mixed value, unless the high seed
/// word is `0` or `u64::MAX`.
pub proof fn lemma_mix_next_count(acc: u64, n: u64, h0: u64, h1: u64)
    requires
        n < u64::MAX,
        h1 != 0,
        h1 != u64::MAX,
    ensures
        mix(acc, n, h0, h1) != mix(acc, (n + 1) as u64, h0, h1),
{
    let m = word_modulus() as int;
    let p = n as int * h0 as int;
    let q = (n + 1) as int * h0 as int;
    assert(q == p + h0) by (nonlinear_arith)
        requires
            p == n as int * h0 as int,
            q == (n + 1) as int * h0 as int,
    ;
    vstd::arithmetic::div_mod::lemma_fundamental_div_mod(p, m);
    vstd::arithmetic::div_mod::lemma_fundamental_div_mod(q, m);
    let lo = p / m;
    let hi = q / m;
    assert(lo <= hi) by {
        vstd::arithmetic::div_mod::lemma_div_is_ordered(p, q, m);
    }
    assert(hi <= lo + 1) by {
        vstd::arithmetic::div_mod::lemma_div_is_ordered(q, p + m, m);
        vstd::arithmetic::div_mod::lemma_div_plus_one(p, m);
    }
    assert(hi64(n, h0) == lo) by {
        assert(p < m * m) by (nonlinear_arith)
            requires
                p == n as int * h0 as int,
                n < m,
                h0 < m,
                0 <= n,
                0 <= h0,
        ;
        vstd::arithmetic::div_mod::lemma_div_is_ordered(p, m * m, m);
        vstd::arithmetic::div_mod::lemma_div_multiples_vanish(m, m);
    }
    assert(hi64((n + 1) as u64, h0) == hi) by {
        assert(q < m * m) by (nonlinear_arith)
            requires
                q == (n + 1) as int * h0 as int,
                n + 1 < m,
                h0 < m,
                0 <= n,
                0 <= h0,
        ;
        vstd::arithmetic::div_mod::lemma_div_is_ordered(q, m * m, m);
        vstd::arithmetic::div_mod::lemma_div_multiples_vanish(m, m);
    }
    let a = acc as int + n as int * h1 as int + lo;
    let d = h1 as int + (hi - lo);
    assert((n + 1) as int * h1 as int == n as int * h1 as int + h1) by (nonlinear_arith)
        requires
            0 <= n,
    ;
    assert(0 < d < m);
    if a % m == (a + d) % m {
        vstd::arithmetic::div_mod::lemma_mod_equivalence(a + d, a, m);
        vstd::arithmetic::div_mod::lemma_small_mod(d as nat, m as nat);
    }
}

} // verus!
