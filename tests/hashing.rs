use multiply_shift::mult_hi128;
use multiply_shift::HornerHasher;

const SEED_LOW: u64 = 4167967182414233411;
const SEED_HIGH: u64 = 15315631059493996859;

fn digest(seed_low: u64, seed_high: u64, bytes: &[u8]) -> u64 {
    let mut h = HornerHasher::new(seed_low, seed_high);
    h.write(bytes);
    h.finish()
}

fn digest_in_chunks(seed_low: u64, seed_high: u64, bytes: &[u8], chunk: usize) -> u64 {
    let mut h = HornerHasher::new(seed_low, seed_high);
    for c in bytes.chunks(chunk) {
        h.write(c);
    }
    h.finish()
}

/// A straightforward rendering of the digest: zero-pad to whole blocks,
/// fold every block into four lanes that start at zero, then combine.
fn reference_digest(h0: u64, h1: u64, bytes: &[u8]) -> u64 {
    fn mix(acc: u64, w: u64, h0: u64, h1: u64) -> u64 {
        let hi = ((w as u128 * h0 as u128) >> 64) as u64;
        acc.wrapping_add(w.wrapping_mul(h1)).wrapping_add(hi)
    }
    let mut padded = bytes.to_vec();
    while padded.len() % 32 != 0 {
        padded.push(0);
    }
    let mut lanes = [0u64; 4];
    for block in padded.chunks(32) {
        for k in 0..4 {
            let mut w = [0u8; 8];
            w.copy_from_slice(&block[8 * k..8 * k + 8]);
            lanes[k] = mix(lanes[k], u64::from_le_bytes(w), h0, h1);
        }
    }
    let x = mix(lanes[0], lanes[1], h0, h1);
    let y = mix(lanes[2], lanes[3], h0, h1);
    mix(mix(x, bytes.len() as u64, h0, h1), y, h0, h1)
}

fn pattern(n: usize) -> Vec<u8> {
    (0..n).map(|i| ((i * 131 + 17) % 251) as u8).collect()
}

/// splitmix64, for reproducible pseudo-random seeds.
fn next_random(state: &mut u64) -> u64 {
    *state = state.wrapping_add(0x9e3779b97f4a7c15);
    let mut z = *state;
    z = (z ^ (z >> 30)).wrapping_mul(0xbf58476d1ce4e5b9);
    z = (z ^ (z >> 27)).wrapping_mul(0x94d049bb133111eb);
    z ^ (z >> 31)
}

#[test]
fn mix_small_values() {
    let mut r: u64 = 1;
    mult_hi128(&mut r, 2, 3, 5);
    assert_eq!(r, 11);
}

#[test]
fn mix_keeps_high_product_bits() {
    let mut r: u64 = 0;
    mult_hi128(&mut r, 1 << 63, (1 << 63) + 1, 2);
    assert_eq!(r, 1 << 62);
    let mut r: u64 = 7;
    mult_hi128(&mut r, u64::MAX, u64::MAX, 0);
    // The high half of (2^64 - 1)^2 is 2^64 - 2; adding 7 wraps to 5.
    assert_eq!(r, 5);
}

#[test]
fn mix_wraps() {
    let mut r: u64 = u64::MAX;
    mult_hi128(&mut r, 1, 0, 1);
    assert_eq!(r, 0);
}

#[test]
fn concrete_seed_three_five() {
    let v0 = digest(3, 5, &[]);
    let v1 = digest(3, 5, &[0x41]);
    assert_eq!(v0, 0);
    assert_eq!(v1, 330);
    assert_ne!(v0, v1);
    let mut h = HornerHasher::new(3, 5);
    h.write(&[]);
    h.write(&[0x41]);
    assert_eq!(h.finish(), v1);
}

#[test]
fn empty_input_digest_is_zero() {
    assert_eq!(digest(SEED_LOW, SEED_HIGH, &[]), 0);
    assert_eq!(digest(1, 2, &[]), 0);
}

#[test]
fn chunk_size_independence_ten_thousand_bytes() {
    let data = pattern(10_000);
    let whole = digest(SEED_LOW, SEED_HIGH, &data);
    assert_eq!(digest_in_chunks(SEED_LOW, SEED_HIGH, &data, 1), whole);
    assert_eq!(digest_in_chunks(SEED_LOW, SEED_HIGH, &data, 7), whole);
    assert_eq!(whole, reference_digest(SEED_LOW, SEED_HIGH, &data));
}

#[test]
fn irregular_chunkings_agree() {
    let mut rng: u64 = 42;
    for len in 0..200usize {
        let data = pattern(len);
        let whole = digest(SEED_LOW, SEED_HIGH, &data);
        let mut h = HornerHasher::new(SEED_LOW, SEED_HIGH);
        let mut at = 0;
        while at < data.len() {
            let step = (next_random(&mut rng) % 70) as usize;
            let end = (at + step).min(data.len());
            h.write(&data[at..end]);
            at = end;
        }
        assert_eq!(h.finish(), whole, "length {}", len);
    }
}

#[test]
fn every_length_class_matches_reference() {
    for n in 0..5usize {
        for k in 0..32usize {
            let data = pattern(32 * n + k);
            let expected = reference_digest(SEED_LOW, SEED_HIGH, &data);
            assert_eq!(digest(SEED_LOW, SEED_HIGH, &data), expected, "length {}", data.len());
            assert_eq!(digest_in_chunks(SEED_LOW, SEED_HIGH, &data, 1), expected);
        }
    }
}

#[test]
fn block_boundary_ignores_stale_buffer() {
    // A long partial block first, then exactly one more block's worth.
    let data = pattern(96);
    let mut h = HornerHasher::new(SEED_LOW, SEED_HIGH);
    h.write(&data[..31]);
    h.write(&data[31..64]);
    h.write(&data[64..]);
    assert_eq!(h.finish(), reference_digest(SEED_LOW, SEED_HIGH, &data));
}

#[test]
fn trailing_zero_changes_digest() {
    let mut rng: u64 = 7;
    for _ in 0..50 {
        let h0 = next_random(&mut rng) | 1;
        let h1 = next_random(&mut rng);
        for len in 0..70usize {
            let data = pattern(len);
            let mut longer = data.clone();
            longer.push(0);
            assert_ne!(digest(h0, h1, &data), digest(h0, h1, &longer));
        }
    }
}

#[test]
fn seed_change_flips_about_half_the_bits() {
    let data = pattern(64);
    let mut rng: u64 = 99;
    let trials = 2000;
    let mut flips_high = 0u64;
    let mut flips_low = 0u64;
    for _ in 0..trials {
        let h0 = next_random(&mut rng) | 1;
        let h1 = next_random(&mut rng);
        let base = digest(h0, h1, &data);
        let other_h1 = next_random(&mut rng);
        let other_h0 = next_random(&mut rng) | 1;
        flips_high += (base ^ digest(h0, other_h1, &data)).count_ones() as u64;
        flips_low += (base ^ digest(other_h0, h1, &data)).count_ones() as u64;
    }
    let avg_high = flips_high as f64 / trials as f64;
    let avg_low = flips_low as f64 / trials as f64;
    assert!(avg_high > 28.0 && avg_high < 36.0, "{}", avg_high);
    assert!(avg_low > 28.0 && avg_low < 36.0, "{}", avg_low);
}

#[test]
fn sequential_keys_spread_over_top_bits() {
    let n = 100_000u64;
    let mut buckets = [0u64; 64];
    for i in 0..n {
        let d = digest(SEED_LOW, SEED_HIGH, &i.to_le_bytes());
        buckets[(d >> 58) as usize] += 1;
    }
    let expected = n as f64 / 64.0;
    let chi2: f64 = buckets
        .iter()
        .map(|&c| {
            let diff = c as f64 - expected;
            diff * diff / expected
        })
        .sum();
    assert!(chi2 < 200.0, "chi-squared {}", chi2);
}
