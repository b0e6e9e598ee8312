use token_fuzz_rs::binary::{BinaryTokenFuzzer, IndexEntry};
use token_fuzz_rs::hashing::{compute_signature, generate_seeds, SEED_BASE};

fn corpus(words: &[&str]) -> Vec<String> {
    words.iter().map(|w| w.to_string()).collect()
}

fn signature_of(s: &str, seeds: &[u64], lo: usize, hi: usize) -> Vec<u64> {
    let mut sig = vec![u64::MAX; seeds.len()];
    compute_signature(&s.to_string(), seeds, &mut sig, lo, hi);
    sig
}

fn score(a: &[u64], b: &[u64]) -> usize {
    a.iter().zip(b.iter()).filter(|(x, y)| x == y).count()
}

#[test]
fn builds_reverse_index_basic() {
    let strings = vec![
        "apple".to_string(),
        "banana".to_string(),
        "cherry".to_string(),
        "date".to_string(),
        "elderberry".to_string(),
    ];
    let num_hashes = 3;

    let fuzzer = BinaryTokenFuzzer::new(strings.clone(), num_hashes, 1, 10);

    // Basic structural sanity checks
    assert_eq!(*fuzzer.strings(), strings);
    assert_eq!(fuzzer.num_hashes(), num_hashes);
    assert_eq!(fuzzer.reverse_index().len(), num_hashes);

    // For each hash function, we should have one entry per string
    for (h, entries) in fuzzer.reverse_index().iter().enumerate() {
        println!("==== reverse_index[{}] (len = {}) ====", h, entries.len());
        for (i, e) in entries.iter().enumerate() {
            println!(
                "  entry[{}]: hash_val = {}, string_id = {}",
                i, e.hash_val, e.string_id
            );
        }

        assert_eq!(
            entries.len(),
            strings.len(),
            "reverse_index[{}] should have one entry per string",
            h
        );

        // Ensure sorted by (hash_val, string_id)
        for pair in entries.windows(2) {
            let a = pair[0];
            let b = pair[1];
            assert!(
                a.hash_val < b.hash_val
                    || (a.hash_val == b.hash_val && a.string_id <= b.string_id),
                "reverse_index[{}] is not sorted properly at pair: {:?} -> {:?}",
                h,
                a,
                b
            );
        }
    }
}

#[test]
fn binary_search_sampling_matches_reverse_index() {
    let strings = vec![
        "alpha".to_string(),
        "beta".to_string(),
        "gamma".to_string(),
        "delta".to_string(),
        "epsilon".to_string(),
        "zeta".to_string(),
    ];
    let num_hashes = 4;
    let fuzzer = BinaryTokenFuzzer::new(strings, num_hashes, 1, 10);

    let fake_test_string = "gamma".to_string();
    let mut sig = vec![u64::MAX; num_hashes];
    compute_signature(&fake_test_string, fuzzer.hash_seeds(), &mut sig, 1, 10);

    println!("{:?}", sig);

    for (h, &hash_val) in sig.iter().enumerate() {
        let entries = &fuzzer.reverse_index()[h];
        let idx = BinaryTokenFuzzer::find_first_hash(entries, hash_val);

        if idx < entries.len() {
            assert!(entries[idx].hash_val >= hash_val);
            if entries[idx].hash_val == hash_val && idx > 0 {
                assert!(entries[idx - 1].hash_val < hash_val);
            }
        }
    }

    let res = fuzzer.match_closest(&fake_test_string);
    println!("{}", res.as_ref().unwrap());

    assert_eq!(res.unwrap(), "gamma".to_string());
}

#[test]
fn reverse_index_holds_each_strings_component() {
    let strings = corpus(&["hello world", "rust programming", "fuzzy token matcher", "hello"]);
    let fuzzer = BinaryTokenFuzzer::new(strings.clone(), 8, 0, 4);
    let seeds = generate_seeds(8, SEED_BASE);
    assert_eq!(*fuzzer.hash_seeds(), seeds);
    assert_eq!(fuzzer.min_token_length(), 0);
    assert_eq!(fuzzer.max_token_length(), 4);
    for (h, entries) in fuzzer.reverse_index().iter().enumerate() {
        let mut ids: Vec<usize> = entries.iter().map(|e| e.string_id).collect();
        ids.sort();
        assert_eq!(ids, vec![0, 1, 2, 3]);
        for e in entries {
            let sig = signature_of(&strings[e.string_id], &seeds, 0, 4);
            assert_eq!(e.hash_val, sig[h]);
        }
        for pair in entries.windows(2) {
            assert!((pair[0].hash_val, pair[0].string_id) < (pair[1].hash_val, pair[1].string_id));
        }
    }
}

#[test]
fn find_first_hash_partitions_entries() {
    let entries = vec![
        IndexEntry { hash_val: 1, string_id: 4 },
        IndexEntry { hash_val: 3, string_id: 0 },
        IndexEntry { hash_val: 3, string_id: 2 },
        IndexEntry { hash_val: 7, string_id: 1 },
        IndexEntry { hash_val: 9, string_id: 3 },
    ];
    assert_eq!(BinaryTokenFuzzer::find_first_hash(&entries, 0), 0);
    assert_eq!(BinaryTokenFuzzer::find_first_hash(&entries, 1), 0);
    assert_eq!(BinaryTokenFuzzer::find_first_hash(&entries, 2), 1);
    assert_eq!(BinaryTokenFuzzer::find_first_hash(&entries, 3), 1);
    assert_eq!(BinaryTokenFuzzer::find_first_hash(&entries, 4), 3);
    assert_eq!(BinaryTokenFuzzer::find_first_hash(&entries, 9), 4);
    assert_eq!(BinaryTokenFuzzer::find_first_hash(&entries, 10), 5);
    assert_eq!(BinaryTokenFuzzer::find_first_hash(&[], 10), 0);
}

#[test]
fn empty_corpus_is_an_error() {
    let fuzzer = BinaryTokenFuzzer::new(Vec::new(), 16, 0, 8);
    assert_eq!(
        fuzzer.match_closest(&"anything".to_string()),
        Err("TokenFuzzer contains no strings to match against".to_string())
    );
    assert!(fuzzer.reverse_index().iter().all(|l| l.is_empty()));
}

#[test]
fn readme_quick_start_queries() {
    let data = corpus(&["hello world", "rust programming", "fuzzy token matcher"]);
    let fuzzer = BinaryTokenFuzzer::new(data, 128, 0, 8);
    assert_eq!(fuzzer.match_closest(&"hello wurld".to_string()).unwrap(), "hello world");
    assert_eq!(fuzzer.match_closest(&"hello wurld I love you".to_string()).unwrap(), "hello world");
    assert_eq!(fuzzer.match_closest(&"rust progrmming".to_string()).unwrap(), "rust programming");
}

#[test]
fn returns_first_string_of_highest_score() {
    let data = corpus(&["abcdef", "zzzzzz", "abcxyz", "qqqqqq", "abcdef"]);
    let lo = 1;
    let hi = 3;
    let fuzzer = BinaryTokenFuzzer::new(data.clone(), 64, lo, hi);
    let seeds = fuzzer.hash_seeds().clone();
    for query in ["abcdez", "zzzzzq", "qqq", "abcdef", "nothing alike", ""] {
        let q = signature_of(query, &seeds, lo, hi);
        let scores: Vec<usize> = data.iter().map(|d| score(&signature_of(d, &seeds, lo, hi), &q)).collect();
        let best = *scores.iter().max().unwrap();
        let first = scores.iter().position(|&s| s == best).unwrap();
        assert_eq!(fuzzer.match_closest(&query.to_string()).unwrap(), data[first], "query {query}");
    }
}

#[test]
fn duplicate_corpus_strings_resolve_to_the_first() {
    let data = corpus(&["same text", "other", "same text"]);
    let fuzzer = BinaryTokenFuzzer::new(data, 32, 0, 4);
    assert_eq!(fuzzer.match_closest(&"same text".to_string()).unwrap(), "same text");
}

#[test]
fn no_shared_component_returns_first_string() {
    // Tokens must be longer than 10 bytes: these short strings have none,
    // so every signature is all `u64::MAX`, and so is the query's.
    let data = corpus(&["short", "tiny"]);
    let fuzzer = BinaryTokenFuzzer::new(data, 16, 10, 12);
    assert_eq!(fuzzer.match_closest(&"a query that is long enough".to_string()).unwrap(), "short");
}

#[test]
fn exact_query_matches_identical_signature() {
    let data = corpus(&["Aachener Strasse 1, Koeln", "Berliner Allee 7, Duesseldorf", "Hauptstrasse 3, Bonn"]);
    let fuzzer = BinaryTokenFuzzer::new(data.clone(), 128, 2, 6);
    for d in &data {
        assert_eq!(fuzzer.match_closest(d).unwrap(), *d);
    }
}

#[test]
fn binary_build_is_deterministic() {
    let data = corpus(&["apple", "banana", "apple", "cherry"]);
    let a = BinaryTokenFuzzer::new(data.clone(), 16, 1, 4);
    let b = BinaryTokenFuzzer::new(data, 16, 1, 4);
    assert_eq!(format!("{:?}", a.reverse_index()), format!("{:?}", b.reverse_index()));
    assert_eq!(a.hash_seeds(), b.hash_seeds());
}
