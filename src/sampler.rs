use vstd::arithmetic::power::pow;
use vstd::prelude::*;

use crate::bigint::{draw_below, ibig_add, ibig_lt, BigInteger};
use crate::combinatorics::within;
use crate::counter::{variations, Algorithm};
use crate::database::{clean_count, WordDb};
use crate::rng::{draw_index, RngWrapper};
use crate::bigint::ibig_mul_usize;
use crate::words::{byte_len, clean_word_list, normalize, is_clean_word, is_cleaned, merged_meanings, strictly_sorted, RichWord};

verus! {

/// Why no words were generated.
#[derive(Debug, Clone, Copy, PartialEq, Eq, Structural)]
pub enum GenerationError {
    /// No usable word remains once the list is normalized and empty words are dropped.
    EmptyDictionary,
    /// The requested number of words does not fit in the length bound even when every
    /// word is a shortest one.
    InfeasibleConstraints,
}

pub open spec fn weight_values(ws: Seq<BigInteger>) -> Seq<int> {
    ws.map_values(|b: BigInteger| b@)
}

/// Sum of the first `m` weights.
pub open spec fn prefix_sum(w: Seq<int>, m: int) -> int
    decreases m,
{
    if m <= 0 {
        0
    } else {
        prefix_sum(w, m - 1) + w[m - 1]
    }
}

proof fn lemma_prefix_at_least(w: Seq<int>, m: int, i: int)
    requires
        0 <= i < m <= w.len(),
        forall|j: int| 0 <= j < m ==> #[trigger] w[j] >= 0,
    ensures
        prefix_sum(w, m) >= w[i],
    decreases m,
{
    if m - 1 > i {
        lemma_prefix_at_least(w, m - 1, i);
    } else {
        lemma_prefix_nonnegative(w, m - 1);
    }
}

proof fn lemma_prefix_nonnegative(w: Seq<int>, m: int)
    requires
        m <= w.len(),
        forall|j: int| 0 <= j < m ==> #[trigger] w[j] >= 0,
    ensures
        prefix_sum(w, m) >= 0,
    decreases m,
{
    if m > 0 {
        lemma_prefix_nonnegative(w, m - 1);
    }
}

/// Total byte length of a sequence of words.
pub open spec fn total_bytes(ws: Seq<Seq<char>>) -> int
    decreases ws.len(),
{
    if ws.len() == 0 {
        0
    } else {
        total_bytes(ws.drop_last()) + byte_len(ws.last())
    }
}

pub open spec fn word_texts(ws: Seq<RichWord>) -> Seq<Seq<char>> {
    ws.map_values(|e: RichWord| e.word@)
}

/// The sum of all weights.
pub fn sum_weights(weights: &Vec<BigInteger>) -> (r: BigInteger)
    ensures
        r@ == prefix_sum(weight_values(weights@), weights@.len() as int),
{
    let ghost wv = weight_values(weights@);
    let mut acc = BigInteger::zero();
    for i in 0..weights.len()
        invariant
            wv == weight_values(weights@),
            acc@ == prefix_sum(wv, i as int),
    {
        acc = ibig_add(&acc, &weights[i]);
    }
    acc
}

/// Picks the index whose share of the cumulative weights holds `draw`: with `draw`
/// uniform in `[0, total)`, index `i` comes with probability `weights[i] / total`.
pub fn pick_weighted(weights: &Vec<BigInteger>, draw: &BigInteger) -> (i: usize)
    requires
        0 <= draw@ < prefix_sum(weight_values(weights@), weights@.len() as int),
    ensures
        i < weights@.len(),
        prefix_sum(weight_values(weights@), i as int) <= draw@ < prefix_sum(
            weight_values(weights@),
            i + 1,
        ),
{
    let ghost wv = weight_values(weights@);
    let mut acc = BigInteger::zero();
    let mut i: usize = 0;
    while i < weights.len()
        invariant
            i <= weights@.len(),
            wv == weight_values(weights@),
            acc@ == prefix_sum(wv, i as int),
            acc@ <= draw@,
            draw@ < prefix_sum(wv, weights@.len() as int),
        decreases weights@.len() - i,
    {
        let next = ibig_add(&acc, &weights[i]);
        if ibig_lt(draw, &next) {
            return i;
        }
        acc = next;
        i = i + 1;
    }
    0
}

/// The weights of the candidate lengths `1..=step_max_len` of the next word when
/// `words_left` words are still to be chosen within `length_left` bytes: the number of
/// words of that length times the number of ways to choose the remaining words in the
/// bytes that are left, so that every admissible sequence is equally likely.
pub fn step_weights(
    alg: &mut Algorithm,
    step_max_len: usize,
    length_left: usize,
    words_left: usize,
) -> (r: Vec<BigInteger>)
    requires
        old(alg).wf(),
        words_left >= 1,
        step_max_len <= length_left,
    ensures
        final(alg).wf(),
        final(alg).db() == old(alg).db(),
        final(alg).keeps(*old(alg)),
        r@.len() == step_max_len,
        forall|k: int|
            0 <= k < step_max_len ==> (#[trigger] r@[k])@ == old(alg).db().group(k + 1).len()
                * within(old(alg).sizes(), (length_left - (k + 1)) as nat, (words_left - 1) as nat),
        (forall|e: int|
            0 <= e < words_left ==> #[trigger] old(alg).within_known(e) > length_left)
            ==> final(alg).same_tables(*old(alg)),
{
    let ghost covered = forall|e: int|
        0 <= e < words_left ==> #[trigger] old(alg).within_known(e) > length_left;
    let mut r: Vec<BigInteger> = Vec::new();
    proof {
        Algorithm::lemma_keeps_refl(*alg);
    }
    for k in 0..step_max_len
        invariant
            covered == (forall|e: int|
                0 <= e < words_left ==> #[trigger] old(alg).within_known(e) > length_left),
            alg.wf(),
            alg.db() == old(alg).db(),
            alg.keeps(*old(alg)),
            covered ==> alg.same_tables(*old(alg)),
            words_left >= 1,
            step_max_len <= length_left,
            r@.len() == k,
            forall|j: int|
                0 <= j < k ==> (#[trigger] r@[j])@ == old(alg).db().group(j + 1).len() * within(
                    old(alg).sizes(),
                    (length_left - (j + 1)) as nat,
                    (words_left - 1) as nat,
                ),
    {
        let n_k = alg.word_db().group_size(k + 1);
        let ghost before = *alg;
        let rest = alg.sequences_within(length_left - (k + 1), words_left - 1);
        proof {
            Algorithm::lemma_keeps_trans(*alg, before, *old(alg));
            if covered {
                Algorithm::lemma_same_tables_known(before, *old(alg));
                assert(forall|e: int|
                    0 <= e <= words_left - 1 ==> #[trigger] before.within_known(e) > length_left - (k + 1));
                Algorithm::lemma_keeps_trans(*old(alg), before, *alg);
            }
        }
        let w = crate::bigint::ibig_mul_usize(&rest, n_k);
        assert(rest@ * n_k == n_k * rest@) by (nonlinear_arith);
        r.push(w);
    }
    r
}

/// Draws `word_count` words from `input_words` with a combined length of at most
/// `max_length` bytes, uniformly among all such sequences, word by word: the next word may
/// be at most `length_left - (words_left - 1) * shortest` bytes long, each candidate length
/// is weighed by `step_weights`, one length is drawn with exact integer weights, and one
/// word of that length uniformly. The result comes with the number of variations of the
/// request. Errors come before any draw.
pub fn generate_words(
    rng: &mut RngWrapper,
    input_words: Vec<RichWord>,
    word_count: usize,
    max_length: usize,
) -> (r: Result<(Vec<RichWord>, BigInteger), GenerationError>)
    ensures
        (r matches Err(GenerationError::EmptyDictionary)) <==> forall|w: Seq<char>|
            !is_clean_word(input_words@, w),
        (r matches Err(GenerationError::InfeasibleConstraints)) <==> (exists|w: Seq<char>|
            is_clean_word(input_words@, w)) && forall|w: Seq<char>|
            #[trigger] is_clean_word(input_words@, w) ==> word_count * byte_len(w) > max_length,
        (r is Ok) <==> exists|w: Seq<char>|
            #[trigger] is_clean_word(input_words@, w) && word_count * byte_len(w) <= max_length,
        r is Err ==> *final(rng) == *old(rng),
        r matches Ok((words, count)) ==> {
            &&& words@.len() == word_count
            &&& total_bytes(word_texts(words@)) <= max_length
            &&& forall|i: int|
                0 <= i < words@.len() ==> is_clean_word(input_words@, (#[trigger] words@[i]).word@)
                    && words@[i].meanings.deep_view() == merged_meanings(
                    input_words@,
                    words@[i].word@,
                )
            &&& count@ == variations(
                |k: int| clean_count(input_words@, k),
                max_length as nat,
                word_count as nat,
            )
        },
{
    let ghost input = input_words@;
    let db = match WordDb::build_database(input_words) {
        None => {
            return Err(GenerationError::EmptyDictionary);
        },
        Some(db) => db,
    };
    let shortest = db.shortest_group_len();
    let ghost witness = db.group(shortest as int)[0];
    assert(db.group(shortest as int).contains(witness));
    let infeasible = match word_count.checked_mul(shortest) {
        Some(p) => p > max_length,
        None => true,
    };
    if infeasible {
        assert forall|w: Seq<char>| #[trigger] is_clean_word(input, w) implies word_count * byte_len(
            w,
        ) > max_length by {
            assert(word_count * shortest <= word_count * byte_len(w)) by (nonlinear_arith)
                requires
                    shortest <= byte_len(w),
            ;
        }
        return Err(GenerationError::InfeasibleConstraints);
    }
    assert(is_clean_word(input, witness) && byte_len(witness) == shortest);
    let mut alg = Algorithm::new(db);
    let ghost db0 = alg.db();
    assert forall|k: int| (alg.sizes())(k) == clean_count(input, k) by {
        db0.lemma_group_size(input, k);
    }
    assert(alg.sizes() =~= (|k: int| clean_count(input, k)));

    // fills every table entry that the steps below read
    let count = alg.variations_for_length_and_depth(max_length, word_count);
    if word_count > 0 {
        alg.sequences_within(max_length, word_count - 1);
    }

    let mut generated: Vec<String> = Vec::new();
    let mut length_left: usize = max_length;
    let mut words_left: usize = word_count;
    while words_left > 0
        invariant
            alg.wf(),
            alg.db() == db0,
            db0.built_from(input),
            input == input_words@,
            is_clean_word(input, witness),
            byte_len(witness) == shortest,
            word_count * shortest <= max_length,
            shortest == db0.shortest(),
            shortest >= 1,
            db0.group(shortest as int).len() > 0,
            length_left >= words_left * shortest,
            generated@.len() + words_left == word_count,
            total_bytes(generated.deep_view()) + length_left == max_length,
            forall|i: int| 0 <= i < generated@.len() ==> is_clean_word(input, (#[trigger] generated@[i])@),
        decreases words_left,
    {
        assert((words_left - 1) * shortest <= words_left * shortest) by (nonlinear_arith);
        let step_max_len = length_left - (words_left - 1) * shortest;
        assert(step_max_len >= shortest) by (nonlinear_arith)
            requires
                length_left >= words_left * shortest,
                step_max_len == length_left - (words_left - 1) * shortest,
                words_left >= 1,
        ;
        let weights = step_weights(&mut alg, step_max_len, length_left, words_left);
        let total = sum_weights(&weights);
        proof {
            let sizes = alg.sizes();
            let wv = weight_values(weights@);
            assert forall|j: int| 0 <= j < wv.len() implies #[trigger] wv[j] >= 0 by {
                let v = within(sizes, (length_left - (j + 1)) as nat, (words_left - 1) as nat);
                crate::combinatorics::lemma_within_nonnegative(
                    sizes,
                    (length_left - (j + 1)) as nat,
                    (words_left - 1) as nat,
                );
                let c = db0.group(j + 1).len();
                assert(c * v >= 0) by (nonlinear_arith)
                    requires
                        c >= 0,
                        v >= 0,
                ;
            }
            let j = shortest - 1;
            assert(length_left - shortest >= (words_left - 1) * shortest) by (nonlinear_arith)
                requires
                    length_left >= words_left * shortest,
                    words_left >= 1,
            ;
            crate::combinatorics::lemma_within_positive_from(
                sizes,
                shortest as nat,
                (length_left - shortest) as nat,
                (words_left - 1) as nat,
            );
            let v = within(sizes, (length_left - shortest) as nat, (words_left - 1) as nat);
            let c = db0.group(shortest as int).len();
            assert(c * v > 0) by (nonlinear_arith)
                requires
                    c > 0,
                    v > 0,
            ;
            assert(wv[j] == c * v);
            lemma_prefix_at_least(wv, wv.len() as int, j);
        }
        let draw = draw_below(&mut rng.0, &total);
        let i = pick_weighted(&weights, &draw);
        let group_len = i + 1;
        let size = alg.word_db().group_size(group_len);
        proof {
            let wv = weight_values(weights@);
            assert(prefix_sum(wv, i + 1) == prefix_sum(wv, i as int) + wv[i as int]);
            assert(weights@[i as int]@ > 0);
            let v = within(alg.sizes(), (length_left - group_len) as nat, (words_left - 1) as nat);
            assert(weights@[i as int]@ == size * v);
            if size == 0 {
                assert(size * v == 0) by (nonlinear_arith)
                    requires
                        size == 0,
                ;
            }
        }
        let index = draw_index(&mut rng.0, size);
        let word = alg.word_db().word_at(group_len, index);
        proof {
            assert(db0.group(group_len as int).contains(word@));
            assert((words_left - 1) * shortest + shortest == words_left * shortest) by (nonlinear_arith);
        }
        let ghost before = generated.deep_view();
        let ghost old_generated = generated@;
        generated.push(word);
        assert(generated.deep_view().drop_last() =~= before);
        assert(forall|j: int| 0 <= j < old_generated.len() ==> generated@[j] == old_generated[j]);
        length_left = length_left - group_len;
        words_left = words_left - 1;
    }
    let words = alg.word_db().attach_meanings(generated.as_slice());
    assert(word_texts(words@) =~= generated.deep_view());
    assert forall|i: int|
        0 <= i < words@.len() implies is_clean_word(input, (#[trigger] words@[i]).word@)
            && words@[i].meanings.deep_view() == merged_meanings(input, words@[i].word@) by {
        assert(is_clean_word(input, generated@[i]@));
    }
    Ok((words, count))
}

/// The longest word that the simple strategy admits: `max_length / word_count` bytes, or
/// no bound when no length bound is given or no word is asked for.
pub open spec fn naive_limit(max_length: Option<usize>, word_count: usize) -> Option<nat> {
    match max_length {
        Some(l) => if word_count > 0 {
            Some((l / word_count) as nat)
        } else {
            None
        },
        None => None,
    }
}

/// The entries whose word is at most `limit` bytes long once normalized; all of them when
/// there is no limit.
pub open spec fn keep_short(words: Seq<RichWord>, limit: Option<nat>) -> Seq<RichWord>
    decreases words.len(),
{
    if words.len() == 0 {
        seq![]
    } else {
        let rest = keep_short(words.drop_last(), limit);
        if fits_limit(words.last(), limit) {
            rest.push(words.last())
        } else {
            rest
        }
    }
}

/// The normal form of the entry's word is at most `limit` bytes long.
pub open spec fn fits_limit(w: RichWord, limit: Option<nat>) -> bool {
    match limit {
        Some(l) => byte_len(crate::words::nfc_of(w.word@)) <= l,
        None => true,
    }
}

proof fn lemma_keep_short_fits(words: Seq<RichWord>, limit: Option<nat>)
    ensures
        forall|i: int|
            0 <= i < keep_short(words, limit).len() ==> fits_limit(
                #[trigger] keep_short(words, limit)[i],
                limit,
            ),
    decreases words.len(),
{
    if words.len() > 0 {
        lemma_keep_short_fits(words.drop_last(), limit);
        let rest = keep_short(words.drop_last(), limit);
        let all = keep_short(words, limit);
        assert forall|i: int| 0 <= i < all.len() implies fits_limit(#[trigger] all[i], limit) by {
            if i < rest.len() {
                assert(all[i] == rest[i]);
            }
        }
    }
}

/// The entries that the simple strategy draws from.
pub open spec fn naive_pool(
    words: Seq<RichWord>,
    max_length: Option<usize>,
    word_count: usize,
) -> Seq<RichWord> {
    keep_short(words, naive_limit(max_length, word_count))
}

/// Number of distinct usable words of a list.
pub open spec fn clean_total(words: Seq<RichWord>) -> nat {
    Set::new(|w: Seq<char>| is_clean_word(words, w)).len()
}

/// Draws `word_count` words independently and uniformly from the usable words of at
/// most `max_length / word_count` bytes. The number of variations is the number of those
/// words to the power `word_count`. An error comes before any draw.
pub fn generate_words_naive(
    rng: &mut RngWrapper,
    input_words: Vec<RichWord>,
    word_count: usize,
    max_length: Option<usize>,
) -> (r: Result<(Vec<RichWord>, BigInteger), GenerationError>)
    ensures
        (r is Err) <==> forall|w: Seq<char>|
            !is_clean_word(naive_pool(input_words@, max_length, word_count), w),
        r is Err ==> r matches Err(GenerationError::EmptyDictionary),
        r is Err ==> *final(rng) == *old(rng),
        r matches Ok((words, count)) ==> {
            let pool = naive_pool(input_words@, max_length, word_count);
            &&& words@.len() == word_count
            &&& max_length matches Some(l) ==> total_bytes(word_texts(words@)) <= l
            &&& forall|i: int|
                0 <= i < words@.len() ==> is_clean_word(pool, (#[trigger] words@[i]).word@)
                    && words@[i].meanings.deep_view() == merged_meanings(pool, words@[i].word@)
            &&& count@ == pow(clean_total(pool) as int, word_count as nat)
        },
{
    let limit: Option<usize> = match max_length {
        Some(l) => if word_count > 0 {
            Some(l / word_count)
        } else {
            None
        },
        None => None,
    };
    let ghost spec_limit = naive_limit(max_length, word_count);
    let ghost given = input_words@;
    let mut input_words = input_words;
    let n = input_words.len();
    let mut kept: Vec<RichWord> = Vec::new();
    for i in 0..n
        invariant
            n == given.len(),
            input_words@.len() == n,
            forall|j: int| i <= j < n ==> #[trigger] input_words@[j] == given[j],
            kept@ == keep_short(given.take(i as int), spec_limit),
            spec_limit == match limit {
                Some(l) => Some(l as nat),
                None => None::<nat>,
            },
    {
        let mut entry = RichWord { word: String::new(), meanings: Vec::new() };
        input_words.set_and_swap(i, &mut entry);
        assert(entry == given[i as int]);
        assert(given.take(i + 1).drop_last() =~= given.take(i as int));
        assert(given.take(i + 1).last() == given[i as int]);
        let fits = match limit {
            Some(l) => normalize(entry.word.as_str()).as_str().as_bytes().len() <= l,
            None => true,
        };
        if fits {
            kept.push(entry);
        }
    }
    assert(given.take(n as int) =~= given);
    let ghost pool = kept@;
    proof {
        lemma_keep_short_fits(given, spec_limit);
    }
    let (list, meanings) = clean_word_list(&kept);
    let ghost ws = list.deep_view();
    let ghost ms = meanings.deep_view();
    assert(forall|j: int| 0 <= j < list@.len() ==> ws[j] == (#[trigger] list@[j])@);
    assert(forall|j: int| 0 <= j < meanings@.len() ==> ms[j] == (#[trigger] meanings@[j]).deep_view());
    proof {
        assert(ws.no_duplicates());
        ws.unique_seq_to_set();
        assert forall|w: Seq<char>| is_clean_word(pool, w) implies ws.to_set().contains(w) by {
            let i = choose|i: int| 0 <= i < pool.len() && crate::words::nfc_of(#[trigger] pool[i].word@) == w;
            let j = choose|j: int| 0 <= j < ws.len() && ws[j] == crate::words::nfc_of(pool[i].word@);
            assert(ws[j] == w);
        }
        assert(ws.to_set() =~= Set::new(|w: Seq<char>| is_clean_word(pool, w)));
    }
    if list.len() == 0 {
        assert forall|w: Seq<char>| !is_clean_word(pool, w) by {
            if is_clean_word(pool, w) {
                assert(ws.to_set().contains(w));
            }
        }
        return Err(GenerationError::EmptyDictionary);
    }
    assert(is_clean_word(pool, ws[0]));
    let size = list.len();
    let mut out: Vec<RichWord> = Vec::new();
    let mut count = BigInteger::from_usize(1);
    proof {
        vstd::arithmetic::power::lemma_pow0(size as int);
    }
    for i in 0..word_count
        invariant
            size == list@.len(),
            size > 0,
            size == clean_total(pool),
            ws == list.deep_view(),
            ms == meanings.deep_view(),
            forall|j: int| 0 <= j < list@.len() ==> ws[j] == (#[trigger] list@[j])@,
            forall|j: int| 0 <= j < meanings@.len() ==> ms[j] == (#[trigger] meanings@[j]).deep_view(),
            is_cleaned(pool, ws, ms),
            pool == naive_pool(given, max_length, word_count),
            is_clean_word(pool, ws[0]),
            out@.len() == i,
            i <= word_count,
            forall|j: int| 0 <= j < pool.len() ==> fits_limit(#[trigger] pool[j], spec_limit),
            spec_limit == naive_limit(max_length, word_count),
            word_count > 0 ==> (max_length matches Some(l) ==> total_bytes(word_texts(out@)) <= i
                * (l / word_count)),
            count@ == pow(size as int, i as nat),
            forall|k: int|
                0 <= k < i ==> is_clean_word(pool, (#[trigger] out@[k]).word@)
                    && out@[k].meanings.deep_view() == merged_meanings(pool, out@[k].word@),
    {
        let j = draw_index(&mut rng.0, size);
        let m = meanings[j].clone();
        assert(m.deep_view() =~= ms[j as int]);
        let ghost before = out@;
        out.push(RichWord { word: list[j].clone(), meanings: m });
        proof {
            assert(word_texts(out@).drop_last() =~= word_texts(before));
            assert(is_clean_word(pool, ws[j as int]));
            let e = choose|e: int| 0 <= e < pool.len() && crate::words::nfc_of(#[trigger] pool[e].word@) == ws[j as int];
            assert(fits_limit(pool[e], spec_limit));
            if let Some(l) = max_length {
                if word_count > 0 {
                    let q = l / word_count;
                    assert(byte_len(ws[j as int]) <= q);
                    assert(i * q + q == (i + 1) * q) by (nonlinear_arith);
                }
            }
        }
        proof {
            vstd::arithmetic::power::lemma_pow_adds(size as int, i as nat, 1);
            vstd::arithmetic::power::lemma_pow1(size as int);
        }
        count = ibig_mul_usize(&count, size);
    }
    proof {
        if let Some(l) = max_length {
            if word_count > 0 {
                assert(word_count * (l / word_count) <= l) by (nonlinear_arith)
                    requires
                        word_count > 0,
                ;
            } else {
                assert(word_texts(out@) =~= Seq::<Seq<char>>::empty());
            }
        }
    }
    Ok((out, count))
}

} // verus!
