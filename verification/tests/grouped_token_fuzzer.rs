use std::cmp::Ordering;
use token_fuzz_rs::binary::BinaryTokenFuzzer;
use token_fuzz_rs::grouped::{
    build_cache, build_group, build_groups, compare_group, find_group_start, group_key_from_cache,
    group_key_from_query, group_key_matches_cache, round_up_to_multiple_of_group, GroupStart,
    GroupedTokenFuzzer,
};
use token_fuzz_rs::hashing::{compute_signature, generate_seeds, SEED_BASE};

fn corpus(words: &[&str]) -> Vec<String> {
    words.iter().map(|w| w.to_string()).collect()
}

fn signature_of(s: &str, seeds: &[u64], lo: usize, hi: usize) -> Vec<u64> {
    let mut sig = vec![u64::MAX; seeds.len()];
    compute_signature(&s.to_string(), seeds, &mut sig, lo, hi);
    sig
}

fn score(a: &[u64], b: &[u64]) -> usize {
    a.iter().zip(b.iter()).filter(|(x, y)| x == y).count()
}

#[test]
fn rounds_hash_count_up_to_groups_of_four() {
    assert_eq!(round_up_to_multiple_of_group(0), 4);
    assert_eq!(round_up_to_multiple_of_group(1), 4);
    assert_eq!(round_up_to_multiple_of_group(4), 4);
    assert_eq!(round_up_to_multiple_of_group(5), 8);
    assert_eq!(round_up_to_multiple_of_group(127), 128);
    assert_eq!(round_up_to_multiple_of_group(128), 128);
}

#[test]
fn group_keys_and_comparison() {
    // Two rows of 8 components.
    let cache: Vec<u64> = vec![1, 2, 3, 4, 9, 9, 9, 9, 1, 2, 3, 5, 9, 9, 9, 9];
    assert_eq!(group_key_from_cache(&cache, 8, 0, 0), [1, 2, 3, 4]);
    assert_eq!(group_key_from_cache(&cache, 8, 0, 1), [1, 2, 3, 5]);
    assert_eq!(group_key_from_cache(&cache, 8, 1, 1), [9, 9, 9, 9]);
    assert_eq!(compare_group(&cache, 8, 0, 0, 1), Ordering::Less);
    assert_eq!(compare_group(&cache, 8, 0, 1, 0), Ordering::Greater);
    assert_eq!(compare_group(&cache, 8, 1, 0, 1), Ordering::Equal);
    assert!(group_key_matches_cache(&cache, 8, 1, 0, &[9, 9, 9, 9]));
    assert!(!group_key_matches_cache(&cache, 8, 0, 0, &[1, 2, 3, 5]));
    let query = vec![5, 6, 7, 8, 1, 2, 3, 4];
    assert_eq!(group_key_from_query(&query, 0), [5, 6, 7, 8]);
    assert_eq!(group_key_from_query(&query, 1), [1, 2, 3, 4]);
}

#[test]
fn cache_holds_each_strings_signature() {
    let strings = corpus(&["hello world", "rust programming", "x"]);
    let seeds = generate_seeds(8, SEED_BASE);
    let cache = build_cache(&strings, 8, &seeds, 0, 3);
    assert_eq!(cache.len(), 24);
    for (i, s) in strings.iter().enumerate() {
        assert_eq!(cache[i * 8..(i + 1) * 8], signature_of(s, &seeds, 0, 3)[..]);
    }
}

#[test]
fn groups_sort_strings_by_key_and_map_first_positions() {
    // Four rows of 4 components (one group).
    let cache: Vec<u64> = vec![5, 0, 0, 0, 1, 0, 0, 0, 5, 0, 0, 0, 3, 0, 0, 0];
    let (order, starts) = build_group(&cache, 4, 4, 0);
    assert_eq!(order, vec![1, 3, 0, 2]);
    let keys: Vec<([u64; 4], usize)> = starts.iter().map(|s| (s.key, s.start)).collect();
    assert_eq!(keys, vec![([1, 0, 0, 0], 0), ([3, 0, 0, 0], 1), ([5, 0, 0, 0], 2)]);
    assert_eq!(find_group_start(&starts, &[5, 0, 0, 0]), Some(2));
    assert_eq!(find_group_start(&starts, &[1, 0, 0, 0]), Some(0));
    assert_eq!(find_group_start(&starts, &[4, 0, 0, 0]), None);
    assert_eq!(find_group_start(&[] as &[GroupStart], &[4, 0, 0, 0]), None);

    let (all_orders, all_starts) = build_groups(&cache, 4, 4);
    assert_eq!(all_orders, vec![order]);
    assert_eq!(all_starts.len(), 1);
    assert_eq!(all_starts[0].len(), 3);
}

#[test]
fn empty_corpus_is_an_error_for_groups() {
    let fuzzer = GroupedTokenFuzzer::new(Vec::new(), 0, 0, 8);
    assert_eq!(fuzzer.num_hashes(), 4);
    assert_eq!(
        fuzzer.match_closest(&"anything".to_string()),
        Err("TokenFuzzer contains no strings to match against".to_string())
    );
}

#[test]
fn grouped_hash_count_is_rounded() {
    let fuzzer = GroupedTokenFuzzer::new(corpus(&["a", "b"]), 10, 0, 2);
    assert_eq!(fuzzer.num_hashes(), 12);
    assert_eq!(*fuzzer.hash_seeds(), generate_seeds(12, SEED_BASE));
    assert_eq!(*fuzzer.strings(), corpus(&["a", "b"]));
}

#[test]
fn grouped_exact_query_matches_identical_signature() {
    let data = corpus(&["hello world", "rust programming", "fuzzy token matcher", "grouped search"]);
    let fuzzer = GroupedTokenFuzzer::new(data.clone(), 64, 0, 8);
    for d in &data {
        assert_eq!(fuzzer.match_closest(d).unwrap(), *d);
    }
}

#[test]
fn grouped_matches_close_queries() {
    let data = corpus(&["hello world", "rust programming", "fuzzy token matcher"]);
    let fuzzer = GroupedTokenFuzzer::new(data, 128, 0, 8);
    assert_eq!(fuzzer.match_closest(&"hello world!".to_string()).unwrap(), "hello world");
}

#[test]
fn grouped_without_shared_group_returns_first_string() {
    // Tokens must be 20 to 24 bytes long: the query has many, the corpus
    // strings none, so no corpus string agrees with the query on a group.
    let data = corpus(&["alpha", "beta"]);
    let fuzzer = GroupedTokenFuzzer::new(data, 8, 19, 24);
    assert_eq!(
        fuzzer.match_closest(&"a query string long enough to have tokens".to_string()).unwrap(),
        "alpha"
    );
}

#[test]
fn grouped_agrees_with_candidate_maximum() {
    let data = corpus(&["abcdefgh", "abcdefgx", "zzzzzzzz", "abcdxxxx", "abcdefgh"]);
    let (lo, hi) = (0usize, 3usize);
    let grouped = GroupedTokenFuzzer::new(data.clone(), 32, lo, hi);
    let binary = BinaryTokenFuzzer::new(data.clone(), 32, lo, hi);
    let seeds = grouped.hash_seeds().clone();
    for query in ["abcdefgh", "abcdefgy", "zzzzzzzy", "abcd", "qwerty"] {
        let q = signature_of(query, &seeds, lo, hi);
        let sigs: Vec<Vec<u64>> = data.iter().map(|d| signature_of(d, &seeds, lo, hi)).collect();
        // Reference: groups in order, strings sharing the group in order,
        // keep a strictly better score.
        let (mut best_idx, mut best_score) = (0usize, 0usize);
        for g in 0..seeds.len() / 4 {
            for (i, sig) in sigs.iter().enumerate() {
                if sig[4 * g..4 * g + 4] == q[4 * g..4 * g + 4] {
                    let sc = score(sig, &q);
                    if sc > best_score {
                        best_idx = i;
                        best_score = sc;
                    }
                }
            }
        }
        let got = grouped.match_closest(&query.to_string()).unwrap();
        assert_eq!(got, data[best_idx], "query {query}");
        // Never better than the reverse-index search.
        let exact = binary.match_closest(&query.to_string()).unwrap();
        let exact_idx = data.iter().position(|d| *d == exact).unwrap();
        assert!(best_score <= score(&sigs[exact_idx], &q));
    }
}

#[test]
fn rounding_reaches_the_largest_multiple_of_four() {
    assert_eq!(round_up_to_multiple_of_group(usize::MAX - 3), usize::MAX - 3);
    assert_eq!(round_up_to_multiple_of_group(usize::MAX - 6), usize::MAX - 3);
    let r = round_up_to_multiple_of_group(usize::MAX - 5);
    assert_eq!(round_up_to_multiple_of_group(r), r);
}

#[test]
fn groups_read_only_the_first_rows_of_a_longer_cache() {
    // Three rows of 4 components, then trailing cells that are not read.
    let cache: Vec<u64> = vec![5, 0, 0, 0, 1, 0, 0, 0, 5, 0, 0, 0, 0, 0, 0, 0, 9, 9];
    let (orders, starts) = build_groups(&cache, 4, 3);
    assert_eq!(orders, vec![vec![1, 0, 2]]);
    let keys: Vec<([u64; 4], usize)> = starts[0].iter().map(|s| (s.key, s.start)).collect();
    assert_eq!(keys, vec![([1, 0, 0, 0], 0), ([5, 0, 0, 0], 1)]);
    let (orders, starts) = build_groups(&cache, 4, 0);
    assert_eq!(orders, vec![Vec::<usize>::new()]);
    assert!(starts[0].is_empty());
}

#[test]
fn grouped_build_is_deterministic() {
    let data = corpus(&["hello world", "rust programming", "fuzzy token matcher", "hello world"]);
    let a = GroupedTokenFuzzer::new(data.clone(), 20, 0, 5);
    let b = GroupedTokenFuzzer::new(data.clone(), 20, 0, 5);
    assert_eq!(a.tokencache(), b.tokencache());
    assert_eq!(format!("{:?}", a), format!("{:?}", b));
    let seeds = a.hash_seeds().clone();
    for (i, s) in data.iter().enumerate() {
        assert_eq!(a.tokencache()[i * 20..(i + 1) * 20], signature_of(s, &seeds, 0, 5)[..]);
    }
}

#[test]
fn cache_of_concatenated_corpus_is_concatenation() {
    let a = corpus(&["alpha", "beta"]);
    let b = corpus(&["gamma delta", "e"]);
    let seeds = generate_seeds(4, SEED_BASE);
    let ab: Vec<String> = a.iter().chain(b.iter()).cloned().collect();
    let mut expected = build_cache(&a, 4, &seeds, 0, 3);
    expected.extend(build_cache(&b, 4, &seeds, 0, 3));
    assert_eq!(build_cache(&ab, 4, &seeds, 0, 3), expected);
}

#[test]
fn cache_rows_follow_the_seeds_given() {
    let strings = corpus(&["hello world", "ab"]);
    // Fewer seeds than components: the components past the seeds stay u64::MAX.
    let seeds = generate_seeds(2, SEED_BASE);
    let cache = build_cache(&strings, 4, &seeds, 0, 3);
    assert_eq!(cache.len(), 8);
    for (i, s) in strings.iter().enumerate() {
        let sig = signature_of(s, &seeds, 0, 3);
        assert_eq!(cache[i * 4..i * 4 + 2], sig[..]);
        assert_eq!(cache[i * 4 + 2..i * 4 + 4], [u64::MAX, u64::MAX]);
    }
    // More seeds than components: each row holds the first components.
    let seeds = generate_seeds(6, SEED_BASE);
    let cache = build_cache(&strings, 4, &seeds, 0, 3);
    for (i, s) in strings.iter().enumerate() {
        assert_eq!(cache[i * 4..i * 4 + 4], signature_of(s, &seeds, 0, 3)[..4]);
    }
    // No seeds at all.
    let cache = build_cache(&strings, 3, &[], 0, 3);
    assert_eq!(cache, vec![u64::MAX; 6]);
}
