use wordpass::{
    generate_words, generate_words_naive, pick_weighted, step_weights, sum_weights, Algorithm, BigInteger, GenerationError, RichWord,
    RngWrapper, WordDb,
};

fn plain(words: &[&str]) -> Vec<RichWord> {
    words.iter().map(|w| RichWord::new(w.to_string(), Vec::new())).collect()
}

fn small_dictionary() -> Vec<RichWord> {
    plain(&["a", "at", "it", "cat", "dog"])
}

fn counter_for(words: Vec<RichWord>) -> Algorithm {
    Algorithm::new(WordDb::build_database(words).expect("usable words"))
}

fn big(n: usize) -> BigInteger {
    BigInteger::from_usize(n)
}

#[test]
fn variations_match_brute_force_count() {
    let words = small_dictionary();
    let mut brute = 0;
    for first in &words {
        for second in &words {
            if first.word.len() + second.word.len() <= 5 {
                brute += 1;
            }
        }
    }
    assert_eq!(brute, 21);
    let mut alg = counter_for(words);
    assert_eq!(alg.variations_for_length_and_depth(5, 2), big(brute));
}

#[test]
fn variations_match_brute_force_for_three_words() {
    let words = small_dictionary();
    let mut brute = 0;
    for a in &words {
        for b in &words {
            for c in &words {
                if a.word.len() + b.word.len() + c.word.len() <= 8 {
                    brute += 1;
                }
            }
        }
    }
    let mut alg = counter_for(words);
    assert_eq!(alg.variations_for_length_and_depth(8, 3), big(brute));
}

#[test]
fn reachable_of_zero_is_one() {
    let mut alg = counter_for(small_dictionary());
    assert_eq!(alg.variations_for_length(0), big(1));
    let mut other = counter_for(plain(&["longword"]));
    assert_eq!(other.variations_for_length(0), big(1));
}

#[test]
fn reachable_counts_exact_totals() {
    // lengths 1, 2, 2, 3, 3: r(1) = 1, r(2) = 1 + 2 = 3, r(3) = 3 + 2 + 2 = 7
    let mut alg = counter_for(small_dictionary());
    assert_eq!(alg.variations_for_length(1), big(1));
    assert_eq!(alg.variations_for_length(2), big(3));
    assert_eq!(alg.variations_for_length(3), big(7));
}

#[test]
fn unreachable_at_depth_zero_is_reachable_minus_one() {
    let mut alg = counter_for(small_dictionary());
    assert_eq!(alg.unreachable_variations_at_depth(3, 0), big(6));
    // with two-byte words only, no sequence adds up to one byte
    let mut gaps = counter_for(plain(&["ab", "cd"]));
    assert_eq!(gaps.variations_for_length(1), BigInteger::zero());
    assert_eq!(gaps.unreachable_variations_at_depth(1, 0), BigInteger::from_le_bytes(vec![255]));
}

#[test]
fn no_words_have_one_variation() {
    let mut alg = counter_for(small_dictionary());
    for length in 0..20 {
        assert_eq!(alg.variations_for_length_and_depth(length, 0), big(1));
    }
}

#[test]
fn variations_do_not_decrease_with_length() {
    let mut alg = counter_for(small_dictionary());
    for depth in 1..4 {
        let mut previous = alg.variations_for_length_and_depth(0, depth);
        for length in 1..16 {
            let current = alg.variations_for_length_and_depth(length, depth);
            let previous_bytes = previous.to_le_bytes();
            let current_bytes = current.to_le_bytes();
            assert!(
                le_number(&previous_bytes) <= le_number(&current_bytes),
                "depth {} length {}",
                depth,
                length
            );
            previous = current;
        }
    }
}

fn le_number(bytes: &[u8]) -> u128 {
    let mut value: u128 = 0;
    for (i, b) in bytes.iter().enumerate() {
        value += (*b as u128) << (8 * i);
    }
    value
}

#[test]
fn variation_count_of_many_words_is_large_and_exact() {
    // with one word of one byte, D words within L bytes: one sequence when L >= D
    let mut alg = counter_for(plain(&["x"]));
    assert_eq!(alg.variations_for_length_and_depth(40, 40), big(1));
    // 10 words of one byte, 20 words: 10^20, beyond 64 bits
    let digits: Vec<String> = (0..10).map(|d| d.to_string()).collect();
    let words: Vec<RichWord> = digits.into_iter().map(|w| RichWord::new(w, Vec::new())).collect();
    let mut alg = counter_for(words);
    let count = alg.variations_for_length_and_depth(20, 20);
    assert_eq!(le_number(&count.to_le_bytes()), 10u128.pow(20));
}

#[test]
fn sampler_respects_length_and_count() {
    for seed in 0..40u64 {
        for depth in 1..4usize {
            for max_length in depth..12 {
                let mut rng = RngWrapper::from_seed(seed);
                let (words, count) =
                    generate_words(&mut rng, small_dictionary(), depth, max_length)
                        .expect("feasible request");
                assert_eq!(words.len(), depth);
                let total: usize = words.iter().map(|w| w.word.len()).sum();
                assert!(total <= max_length);
                let mut alg = counter_for(small_dictionary());
                assert_eq!(count, alg.variations_for_length_and_depth(max_length, depth));
                for w in &words {
                    assert!(["a", "at", "it", "cat", "dog"].contains(&w.word.as_str()));
                }
            }
        }
    }
}

#[test]
fn sampler_is_reproducible_with_a_seed() {
    let mut first = RngWrapper::from_seed(7);
    let mut second = RngWrapper::from_seed(7);
    let (a, _) = generate_words(&mut first, small_dictionary(), 3, 9).unwrap();
    let (b, _) = generate_words(&mut second, small_dictionary(), 3, 9).unwrap();
    let a: Vec<String> = a.into_iter().map(|w| w.word).collect();
    let b: Vec<String> = b.into_iter().map(|w| w.word).collect();
    assert_eq!(a, b);
}

#[test]
fn sampler_is_uniform_on_equal_length_words() {
    let words = plain(&["ab", "cd", "ef"]);
    let mut rng = RngWrapper::from_seed(2024);
    let mut counts = std::collections::HashMap::new();
    let draws = 9000;
    for _ in 0..draws {
        let (out, count) = generate_words(&mut rng, words.clone(), 2, 4).unwrap();
        assert_eq!(count, big(9));
        let key: Vec<String> = out.into_iter().map(|w| w.word).collect();
        *counts.entry(key).or_insert(0usize) += 1;
    }
    assert_eq!(counts.len(), 9);
    for (_, seen) in counts {
        assert!(seen > 850 && seen < 1150, "{}", seen);
    }
}

#[test]
fn infeasible_exactly_when_shortest_words_do_not_fit() {
    let words = plain(&["cat", "dog", "mouse"]);
    let mut rng = RngWrapper::from_seed(1);
    for depth in 0..5usize {
        for max_length in 0..16usize {
            let result = generate_words(&mut rng, words.clone(), depth, max_length);
            if depth * 3 > max_length {
                assert_eq!(result.unwrap_err(), GenerationError::InfeasibleConstraints);
            } else {
                assert_ne!(
                    result.err(),
                    Some(GenerationError::InfeasibleConstraints),
                    "depth {} length {}",
                    depth,
                    max_length
                );
            }
        }
    }
}

#[test]
fn empty_dictionary_exactly_when_no_usable_word() {
    let mut rng = RngWrapper::from_seed(3);
    assert_eq!(
        generate_words(&mut rng, Vec::new(), 2, 10).unwrap_err(),
        GenerationError::EmptyDictionary
    );
    assert_eq!(
        generate_words(&mut rng, plain(&["", ""]), 2, 10).unwrap_err(),
        GenerationError::EmptyDictionary
    );
    assert!(generate_words(&mut rng, plain(&["", "a"]), 2, 10).is_ok());
    assert!(WordDb::build_database(plain(&[""])).is_none());
    assert_eq!(
        generate_words_naive(&mut rng, plain(&[""]), 2, None).unwrap_err(),
        GenerationError::EmptyDictionary
    );
}

#[test]
fn feasible_requests_without_short_words_succeed() {
    let mut rng = RngWrapper::from_seed(5);
    let (out, count) = generate_words(&mut rng, plain(&["abc", "def", "ghijk"]), 2, 7).unwrap();
    assert_eq!(count, big(4));
    assert_eq!(out.len(), 2);
    for w in &out {
        assert_eq!(w.word.len(), 3);
    }
    let (out, _) = generate_words(&mut rng, plain(&["at", "it"]), 2, 5).unwrap();
    assert_eq!(out.len(), 2);
    let (out, count) = generate_words(&mut rng, plain(&["cat", "dog"]), 2, 6).unwrap();
    assert_eq!(count, big(4));
    assert_eq!(out.len(), 2);
    assert_eq!(
        generate_words(&mut rng, plain(&["cat", "dog"]), 2, 5).unwrap_err(),
        GenerationError::InfeasibleConstraints
    );
}

#[test]
fn single_word_repeated_is_the_only_choice() {
    let mut rng = RngWrapper::from_seed(6);
    let (out, count) = generate_words(&mut rng, plain(&["ab"]), 2, 4).unwrap();
    assert_eq!(count, big(1));
    let words: Vec<String> = out.iter().map(|w| w.word.clone()).collect();
    assert_eq!(words, vec!["ab".to_string(), "ab".to_string()]);
    assert!(out.iter().all(|w| w.meanings.is_empty()));
}

#[test]
fn errors_leave_the_generator_untouched() {
    let mut used = RngWrapper::from_seed(21);
    let mut fresh = RngWrapper::from_seed(21);
    assert!(generate_words(&mut used, plain(&["cat"]), 3, 5).is_err());
    assert!(generate_words(&mut used, Vec::new(), 3, 5).is_err());
    assert!(generate_words_naive(&mut used, plain(&["cat"]), 3, Some(5)).is_err());
    assert_eq!(used.generate_digits(20), fresh.generate_digits(20));
}

#[test]
fn sampler_is_uniform_over_mixed_lengths() {
    let mut rng = RngWrapper::from_seed(77);
    let mut counts = std::collections::HashMap::new();
    let draws = 21000;
    for _ in 0..draws {
        let (out, count) = generate_words(&mut rng, small_dictionary(), 2, 5).unwrap();
        assert_eq!(count, big(21));
        let key: Vec<String> = out.into_iter().map(|w| w.word).collect();
        *counts.entry(key).or_insert(0usize) += 1;
    }
    assert_eq!(counts.len(), 21);
    for (key, seen) in counts {
        assert!(seen > 820 && seen < 1180, "{:?} {}", key, seen);
    }
}

#[test]
fn naive_bound_applies_to_normalized_length() {
    // U+0958 is three bytes, its canonical decomposition six
    let words = plain(&["\u{958}", "ab"]);
    let mut rng = RngWrapper::from_seed(14);
    let (out, count) = generate_words_naive(&mut rng, words, 2, Some(6)).unwrap();
    assert_eq!(count, big(1));
    assert!(out.iter().all(|w| w.word == "ab"));
}

#[test]
fn naive_count_is_power_of_filtered_size() {
    let words = plain(&["ab", "cd", "ef", "ghijk"]);
    let mut rng = RngWrapper::from_seed(11);
    let (out, count) = generate_words_naive(&mut rng, words, 4, Some(9)).unwrap();
    assert_eq!(count, big(81));
    assert_eq!(out.len(), 4);
    for w in &out {
        assert_eq!(w.word.len(), 2);
    }
}

#[test]
fn naive_without_bound_uses_every_word() {
    let words = plain(&["ab", "cd", "ef", "ghijk", "ab"]);
    let mut rng = RngWrapper::from_seed(12);
    let (out, count) = generate_words_naive(&mut rng, words, 3, None).unwrap();
    assert_eq!(count, big(64));
    assert_eq!(out.len(), 3);
}

#[test]
fn naive_with_too_small_bound_has_no_words() {
    let words = plain(&["abc", "def"]);
    let mut rng = RngWrapper::from_seed(13);
    assert_eq!(
        generate_words_naive(&mut rng, words, 4, Some(8)).unwrap_err(),
        GenerationError::EmptyDictionary
    );
}

#[test]
fn generate_digits_are_decimal() {
    let mut rng = RngWrapper::from_seed(99);
    let digits = rng.generate_digits(200);
    assert_eq!(digits.len(), 200);
    assert!(digits.iter().all(|d| *d < 10));
    assert!(digits.iter().any(|d| *d != digits[0]));
}

#[test]
fn weighted_pick_follows_cumulative_weights() {
    let weights = vec![big(0), big(3), big(0), big(2)];
    assert_eq!(sum_weights(&weights), big(5));
    assert_eq!(pick_weighted(&weights, &big(0)), 1);
    assert_eq!(pick_weighted(&weights, &big(2)), 1);
    assert_eq!(pick_weighted(&weights, &big(3)), 3);
    assert_eq!(pick_weighted(&weights, &big(4)), 3);
}

#[test]
fn step_weights_are_completion_counts() {
    // lengths 1, 2, 2, 3, 3; two words within five bytes, the first at most four bytes:
    // after one byte 5 completions, after two 5 each, after three 3 each
    let mut alg = counter_for(small_dictionary());
    let weights = step_weights(&mut alg, 4, 5, 2);
    assert_eq!(weights, vec![big(5), big(10), big(6), big(0)]);
}

#[test]
fn variations_include_shorter_sequences_that_fill_the_bound() {
    // three two-byte words and one three-byte word
    let mut alg = counter_for(plain(&["ab", "cd", "ef", "ghi"]));
    assert_eq!(alg.variations_for_length_and_depth(4, 3), big(9));
    assert_eq!(alg.variations_for_length_and_depth(5, 3), big(6));
    assert_eq!(alg.variations_for_length_and_depth(6, 3), big(28));
}
