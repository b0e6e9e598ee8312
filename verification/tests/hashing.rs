use token_fuzz_rs::hashing::{compute_signature, generate_seeds, mix, SEED_BASE, SEED_STEP};

fn fnv1a(bytes: &[u8]) -> u64 {
    let mut h: u64 = 0xcbf2_9ce4_8422_2325;
    for &b in bytes {
        h ^= b as u64;
        h = h.wrapping_mul(0x0000_0100_0000_01b3);
    }
    h
}

fn splitmix_finaliser(z: u64) -> u64 {
    let mut z = z;
    z = (z ^ (z >> 30)).wrapping_mul(0xbf58_476d_1ce4_e5b9);
    z = (z ^ (z >> 27)).wrapping_mul(0x94d0_49bb_1331_11eb);
    z ^ (z >> 31)
}

#[test]
fn mix_is_the_splitmix_finaliser() {
    for z in [0u64, 1, 42, u64::MAX, 0x1234_5678_9abc_def0] {
        assert_eq!(mix(z), splitmix_finaliser(z));
    }
    assert_eq!(mix(0), 0);
}

#[test]
fn seeds_follow_the_splitmix_stream() {
    let seeds = generate_seeds(5, SEED_BASE);
    assert_eq!(seeds.len(), 5);
    let mut state = SEED_BASE;
    for s in &seeds {
        state = state.wrapping_add(SEED_STEP);
        assert_eq!(*s, splitmix_finaliser(state));
    }
    // A longer family starts with the same seeds.
    assert_eq!(generate_seeds(8, SEED_BASE)[..5], seeds[..]);
    assert!(generate_seeds(0, SEED_BASE).is_empty());
}

#[test]
fn signature_of_single_token() {
    // With lengths in (1, 2], "ab" has exactly one token: "ab".
    let seeds = vec![0u64, 7, 0xdead_beef];
    let mut out = vec![u64::MAX; 3];
    compute_signature(&"ab".to_string(), &seeds, &mut out, 1, 2);
    for h in 0..3 {
        assert_eq!(out[h], mix(fnv1a(b"ab") ^ seeds[h]));
    }
}

#[test]
fn signature_is_least_token_hash() {
    let s = "hello world";
    let (lo, hi) = (1usize, 4usize);
    let seeds = generate_seeds(6, SEED_BASE);
    let mut out = vec![u64::MAX; 6];
    compute_signature(&s.to_string(), &seeds, &mut out, lo, hi);
    let bytes = s.as_bytes();
    for h in 0..6 {
        let mut best = u64::MAX;
        for start in 0..bytes.len() {
            for len in (lo + 1)..=hi {
                if start + len <= bytes.len() {
                    best = best.min(mix(fnv1a(&bytes[start..start + len]) ^ seeds[h]));
                }
            }
        }
        assert_eq!(out[h], best);
    }
}

#[test]
fn signature_without_tokens_keeps_old_values() {
    let seeds = generate_seeds(4, SEED_BASE);
    let mut out = vec![u64::MAX, 5, 6, 7];
    compute_signature(&"abc".to_string(), &seeds, &mut out, 3, 8);
    assert_eq!(out, vec![u64::MAX, 5, 6, 7]);
}

#[test]
fn signature_lowers_only_components_with_a_seed() {
    let seeds = generate_seeds(2, SEED_BASE);
    let mut out = vec![u64::MAX; 4];
    out[3] = 11;
    compute_signature(&"abcdef".to_string(), &seeds, &mut out, 0, 3);
    assert!(out[0] < u64::MAX && out[1] < u64::MAX);
    assert_eq!(out[2], u64::MAX);
    assert_eq!(out[3], 11);
    // Lowering again changes nothing.
    let again = out.clone();
    compute_signature(&"abcdef".to_string(), &seeds, &mut out, 0, 3);
    assert_eq!(out, again);
}

#[test]
fn signature_uses_utf8_bytes() {
    let seeds = generate_seeds(3, SEED_BASE);
    let mut a = vec![u64::MAX; 3];
    compute_signature(&"köln".to_string(), &seeds, &mut a, 0, 1);
    // "ö" is two bytes; single-byte tokens include 0xc3 and 0xb6.
    let mut expected = vec![u64::MAX; 3];
    for h in 0..3 {
        for b in "köln".as_bytes() {
            expected[h] = expected[h].min(mix(fnv1a(&[*b]) ^ seeds[h]));
        }
    }
    assert_eq!(a, expected);
}
