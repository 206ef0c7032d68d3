use vstd::prelude::*;
use vstd::string::is_ascii;

use regex::{Regex, RegexBuilder};

use crate::words::{byte_len, RichWord};

verus! {

#[verifier::external_type_specification]
#[verifier::external_body]
pub struct ExRegex(regex::Regex);

#[verifier::external_type_specification]
#[verifier::external_body]
pub struct ExRegexError(regex::Error);

/// Lower-case form of a character sequence, as Unicode defines it.
pub uninterp spec fn lower_of(s: Seq<char>) -> Seq<char>;

/// Relies on `str::to_lowercase`: the lower-case form of the characters of `s`.
#[verifier::external_body]
fn lowercase(s: &str) -> (r: String)
    ensures
        r@ == lower_of(s@),
{
    s.to_lowercase()
}

/// Relies on `RegexBuilder::build` with `case_insensitive(true)`: the pattern compiled to
/// match regardless of case, or the error that stops it.
#[verifier::external_body]
fn compile_case_insensitive(pattern: &str) -> Result<Regex, regex::Error> {
    let mut builder = RegexBuilder::new(pattern);
    builder.case_insensitive(true);
    builder.build()
}

/// Relies on the `Display` of `regex::Error` to describe why a pattern was refused.
#[verifier::external_body]
fn regex_error_text(err: &regex::Error) -> String {
    err.to_string()
}

/// Relies on `Regex::is_match`: whether the pattern matches somewhere in `text`.
#[verifier::external_body]
fn regex_matches(re: &Regex, text: &str) -> bool {
    re.is_match(text)
}

/// Options of the word-list preprocessing.
pub struct PreprocessOptions {
    pub keep_case: bool,
    pub use_umlauts: bool,
    pub min_word_length: Option<usize>,
    pub exclude_regexes: Vec<Regex>,
}

impl PreprocessOptions {
    pub fn new(keep_case: bool, use_umlauts: bool, min_word_length: Option<usize>) -> (r:
        PreprocessOptions)
        ensures
            r.keep_case == keep_case,
            r.use_umlauts == use_umlauts,
            r.min_word_length == min_word_length,
            r.exclude_regexes@.len() == 0,
    {
        PreprocessOptions { keep_case, use_umlauts, min_word_length, exclude_regexes: Vec::new() }
    }

    /// Adds a pattern, matched regardless of case, whose matching words are removed; an
    /// invalid pattern is reported and leaves the options as they were.
    pub fn add_exclude_regex(&mut self, regex: &str) -> (r: Result<(), String>)
        ensures
            final(self).keep_case == old(self).keep_case,
            final(self).use_umlauts == old(self).use_umlauts,
            final(self).min_word_length == old(self).min_word_length,
            r is Ok ==> final(self).exclude_regexes@.len() == old(self).exclude_regexes@.len() + 1
                && final(self).exclude_regexes@.take(old(self).exclude_regexes@.len() as int)
                == old(self).exclude_regexes@,
            r is Err ==> final(self).exclude_regexes@ == old(self).exclude_regexes@,
    {
        match compile_case_insensitive(regex) {
            Ok(re) => {
                self.exclude_regexes.push(re);
                assert(self.exclude_regexes@.take(old(self).exclude_regexes@.len() as int)
                    =~= old(self).exclude_regexes@);
                Ok(())
            },
            Err(err) => {
                let mut message = String::from_str("Invalid regex: ");
                let detail = regex_error_text(&err);
                message.append(detail.as_str());
                Err(message)
            },
        }
    }
}

/// The entry survives preprocessing: long enough, ASCII unless umlauts are wanted, and
/// not excluded by a pattern.
pub open spec fn survives(
    w: RichWord,
    use_umlauts: bool,
    min_word_length: Option<usize>,
    excluded: bool,
) -> bool {
    &&& match min_word_length {
        Some(m) => byte_len(w.word@) >= m,
        None => true,
    }
    &&& use_umlauts || vstd::utf8::is_ascii_chars(w.word@)
    &&& !excluded
}

/// The words and meanings that preprocessing leaves, in list order, where `excluded[i]`
/// tells whether a pattern matches the `i`-th word.
pub open spec fn preprocessed(
    words: Seq<RichWord>,
    keep_case: bool,
    use_umlauts: bool,
    min_word_length: Option<usize>,
    excluded: Seq<bool>,
) -> Seq<(Seq<char>, Seq<Seq<char>>)>
    decreases words.len(),
{
    if words.len() == 0 {
        seq![]
    } else {
        let rest = preprocessed(
            words.drop_last(),
            keep_case,
            use_umlauts,
            min_word_length,
            excluded.take(words.len() - 1),
        );
        let w = words.last();
        if survives(w, use_umlauts, min_word_length, excluded[words.len() - 1]) {
            let text = if keep_case {
                w.word@
            } else {
                lower_of(w.word@)
            };
            rest.push((text, w.meanings.deep_view()))
        } else {
            rest
        }
    }
}

pub open spec fn entry_views(ws: Seq<RichWord>) -> Seq<(Seq<char>, Seq<Seq<char>>)> {
    ws.map_values(|e: RichWord| (e.word@, e.meanings.deep_view()))
}

/// Keeps the entries that survive preprocessing and lower-cases them unless the case is
/// kept; `excluded[i]` tells whether a pattern matches the `i`-th word.
pub fn filter_word_list(
    words: Vec<RichWord>,
    keep_case: bool,
    use_umlauts: bool,
    min_word_length: Option<usize>,
    excluded: &Vec<bool>,
) -> (r: Vec<RichWord>)
    requires
        excluded@.len() == words@.len(),
    ensures
        entry_views(r@) == preprocessed(words@, keep_case, use_umlauts, min_word_length, excluded@),
{
    let ghost given = words@;
    let mut words = words;
    let n = words.len();
    let mut r: Vec<RichWord> = Vec::new();
    for i in 0..n
        invariant
            n == given.len(),
            excluded@.len() == n,
            words@.len() == n,
            forall|j: int| i <= j < n ==> #[trigger] words@[j] == given[j],
            entry_views(r@) == preprocessed(
                given.take(i as int),
                keep_case,
                use_umlauts,
                min_word_length,
                excluded@.take(i as int),
            ),
    {
        let mut entry = RichWord { word: String::new(), meanings: Vec::new() };
        words.set_and_swap(i, &mut entry);
        assert(entry == given[i as int]);
        assert(given.take(i + 1).drop_last() =~= given.take(i as int));
        assert(excluded@.take(i + 1).take(i as int) =~= excluded@.take(i as int));
        let long_enough = match min_word_length {
            Some(m) => entry.word.as_str().as_bytes().len() >= m,
            None => true,
        };
        if long_enough && (use_umlauts || entry.word.as_str().is_ascii()) && !excluded[i] {
            let ghost before = r@;
            if keep_case {
                r.push(entry);
            } else {
                let lowered = lowercase(entry.word.as_str());
                r.push(RichWord { word: lowered, meanings: entry.meanings });
            }
            assert(entry_views(r@) =~= entry_views(before).push(entry_views(r@).last()));
        }
    }
    assert(given.take(n as int) =~= given);
    assert(excluded@.take(n as int) =~= excluded@);
    r
}

/// Filters and lower-cases a word list as the options say; a word is excluded when one
/// of the patterns matches it.
pub fn preprocess_word_list(words: Vec<RichWord>, options: &PreprocessOptions) -> (r: Vec<
    RichWord,
>)
    ensures
        exists|excluded: Seq<bool>|
            excluded.len() == words@.len() && entry_views(r@) == preprocessed(
                words@,
                options.keep_case,
                options.use_umlauts,
                options.min_word_length,
                excluded,
            ),
        options.exclude_regexes@.len() == 0 ==> entry_views(r@) == preprocessed(
            words@,
            options.keep_case,
            options.use_umlauts,
            options.min_word_length,
            Seq::new(words@.len(), |i: int| false),
        ),
{
    let mut excluded: Vec<bool> = Vec::new();
    for i in 0..words.len()
        invariant
            excluded@.len() == i,
            options.exclude_regexes@.len() == 0 ==> forall|j: int| 0 <= j < i ==> !#[trigger] excluded@[j],
    {
        let mut hit = false;
        for j in 0..options.exclude_regexes.len()
            invariant
                i < words@.len(),
                options.exclude_regexes@.len() == 0 ==> !hit,
        {
            if regex_matches(&options.exclude_regexes[j], words[i].word.as_str()) {
                hit = true;
            }
        }
        excluded.push(hit);
    }
    assert(options.exclude_regexes@.len() == 0 ==> excluded@ =~= Seq::new(words@.len(), |i: int| false));
    filter_word_list(
        words,
        options.keep_case,
        options.use_umlauts,
        options.min_word_length,
        &excluded,
    )
}

} // verus!
