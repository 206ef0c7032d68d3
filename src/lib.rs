//! Uniform passphrase generation under a byte-length bound.
//!
//! Words are bucketed by byte length, the number of admissible word sequences is
//! counted exactly with arbitrary-precision integers, and one sequence is drawn
//! word by word with exact integer weights.

mod bigint;
mod combinatorics;
mod counter;
mod database;
mod lexical;
mod preprocess;
mod rng;
mod sampler;
mod words;

pub use bigint::{le_value, signed_value, BigInteger};
pub use combinatorics::{
    fewer, fewer_sum, lemma_reachable_empty, lemma_variations_count_sequences,
    lemma_variations_decomposition, lemma_variations_monotonic, lemma_variations_no_words,
    lemma_variations_nonnegative, within, within_sum,
};
pub use counter::{
    reachable, reachable_sum, unreachable_count, unreachable_count_sum, variations, Algorithm,
};
pub use database::{clean_count, WordDb};
pub use lexical::{compare_bytes, lex_le};
pub use preprocess::{
    entry_views, filter_word_list, lower_of, preprocess_word_list, preprocessed, survives,
    PreprocessOptions,
};
pub use rng::RngWrapper;
pub use sampler::{
    clean_total, fits_limit, generate_words, generate_words_naive, keep_short, naive_limit, naive_pool,
    pick_weighted, prefix_sum, step_weights, sum_weights, total_bytes, weight_values, word_texts,
    GenerationError,
};
pub use words::{
    byte_len, is_clean_word, is_cleaned, merged_meanings, nfc_of, strictly_sorted, RichWord,
};
