use vstd::prelude::*;
use vstd::utf8::encode_utf8;

use unicode_normalization::UnicodeNormalization;

use crate::lexical::{compare_bytes, lemma_lex_antisymmetric, lex_le};

verus! {

broadcast use vstd::seq_lib::group_to_multiset_ensures;

/// A word together with the meanings attached to it.
#[derive(Debug, Clone)]
pub struct RichWord {
    pub word: String,
    pub meanings: Vec<String>,
}

impl RichWord {
    /// A word with the given meanings.
    pub fn new(word: String, meanings: Vec<String>) -> (r: RichWord)
        ensures
            r.word == word,
            r.meanings == meanings,
    {
        RichWord { word, meanings }
    }
}

/// Length of a word in bytes of its UTF-8 encoding.
pub open spec fn byte_len(w: Seq<char>) -> nat {
    encode_utf8(w).len()
}

/// Canonical composition (Unicode NFC) of a character sequence.
pub uninterp spec fn nfc_of(s: Seq<char>) -> Seq<char>;

/// Relies on `UnicodeNormalization::nfc` from unicode-normalization: the result is the
/// canonical composition of the characters of `s`.
#[verifier::external_body]
pub(crate) fn normalize(s: &str) -> (r: String)
    ensures
        r@ == nfc_of(s@),
{
    s.nfc().collect()
}

/// Relies on `slice::sort_unstable`: it permutes the strings into ascending order, and
/// `String`s are ordered lexicographically by their bytes.
#[verifier::external_body]
fn sort_strings(v: &mut Vec<String>)
    ensures
        final(v).deep_view().to_multiset() == old(v).deep_view().to_multiset(),
        forall|i: int, j: int|
            0 <= i < j < final(v)@.len() ==> lex_le(
                encode_utf8(#[trigger] final(v)@[i]@),
                encode_utf8(#[trigger] final(v)@[j]@),
            ),
{
    v.sort_unstable()
}

/// `w` is a usable word of the list: non-empty, and the normal form of one of its words.
pub open spec fn is_clean_word(words: Seq<RichWord>, w: Seq<char>) -> bool {
    w.len() > 0 && exists|i: int| 0 <= i < words.len() && nfc_of(#[trigger] words[i].word@) == w
}

/// The meanings of every entry of `words` whose normal form is `w`, in list order.
pub open spec fn merged_meanings(words: Seq<RichWord>, w: Seq<char>) -> Seq<Seq<char>>
    decreases words.len(),
{
    if words.len() == 0 {
        seq![]
    } else {
        let rest = merged_meanings(words.drop_last(), w);
        if nfc_of(words.last().word@) == w {
            rest + words.last().meanings.deep_view()
        } else {
            rest
        }
    }
}

/// Distinct words in strictly ascending byte order.
pub open spec fn strictly_sorted(ws: Seq<Seq<char>>) -> bool {
    forall|i: int, j: int|
        0 <= i < j < ws.len() ==> lex_le(encode_utf8(#[trigger] ws[i]), encode_utf8(#[trigger] ws[j]))
            && ws[i] != ws[j]
}

/// `ws` and `ms` are the cleaned form of `words`: each usable word once, in ascending byte
/// order, beside the merged meanings of all entries that normalize to it.
pub open spec fn is_cleaned(
    words: Seq<RichWord>,
    ws: Seq<Seq<char>>,
    ms: Seq<Seq<Seq<char>>>,
) -> bool {
    &&& ws.len() == ms.len()
    &&& strictly_sorted(ws)
    &&& forall|j: int| 0 <= j < ws.len() ==> is_clean_word(words, #[trigger] ws[j])
    &&& forall|i: int|
        0 <= i < words.len() && nfc_of(#[trigger] words[i].word@).len() > 0 ==> exists|j: int|
            0 <= j < ws.len() && ws[j] == nfc_of(words[i].word@)
    &&& forall|j: int| 0 <= j < ws.len() ==> #[trigger] ms[j] == merged_meanings(words, ws[j])
}

/// Different words have different UTF-8 encodings.
pub proof fn lemma_encode_injective(a: Seq<char>, b: Seq<char>)
    requires
        encode_utf8(a) == encode_utf8(b),
    ensures
        a == b,
{
    vstd::utf8::encode_utf8_decode_utf8(a);
    vstd::utf8::encode_utf8_decode_utf8(b);
}

/// A word has a positive byte length exactly when it has a character.
pub proof fn lemma_byte_len_positive(w: Seq<char>)
    ensures
        (byte_len(w) > 0) == (w.len() > 0),
{
    if w.len() > 0 {
        assert(encode_utf8(w) == vstd::utf8::encode_scalar(w[0] as u32) + encode_utf8(w.drop_first()));
    }
}

/// Finds the position of `target` in a list of distinct words in ascending byte order.
pub(crate) fn find_word(list: &Vec<String>, target: &String) -> (r: Option<usize>)
    requires
        strictly_sorted(list.deep_view()),
    ensures
        match r {
            Some(j) => j < list@.len() && list@[j as int]@ == target@,
            None => forall|k: int| 0 <= k < list@.len() ==> list@[k]@ != target@,
        },
{
    let ghost dv = list.deep_view();
    assert(forall|k: int| 0 <= k < list@.len() ==> dv[k] == list@[k]@);
    let mut lo: usize = 0;
    let mut hi: usize = list.len();
    while lo < hi
        invariant
            0 <= lo <= hi <= list@.len(),
            dv == list.deep_view(),
            strictly_sorted(dv),
            forall|k: int| 0 <= k < list@.len() ==> dv[k] == list@[k]@,
            forall|k: int| 0 <= k < lo ==> list@[k]@ != target@,
            forall|k: int| hi <= k < list@.len() ==> list@[k]@ != target@,
        decreases hi - lo,
    {
        let mid = lo + (hi - lo) / 2;
        let c = compare_bytes(list[mid].as_str().as_bytes(), target.as_str().as_bytes());
        match c {
            std::cmp::Ordering::Equal => {
                proof {
                    lemma_encode_injective(list@[mid as int]@, target@);
                }
                return Some(mid);
            },
            std::cmp::Ordering::Less => {
                assert forall|k: int| 0 <= k <= mid implies list@[k]@ != target@ by {
                    if k < mid {
                        assert(lex_le(encode_utf8(dv[k]), encode_utf8(dv[mid as int])));
                    }
                    if list@[k]@ == target@ {
                        lemma_lex_antisymmetric(
                            encode_utf8(list@[mid as int]@),
                            encode_utf8(target@),
                        );
                    }
                }
                lo = mid + 1;
            },
            std::cmp::Ordering::Greater => {
                assert forall|k: int| mid <= k < list@.len() implies list@[k]@ != target@ by {
                    if k > mid {
                        assert(lex_le(encode_utf8(dv[mid as int]), encode_utf8(dv[k])));
                    }
                    if list@[k]@ == target@ {
                        lemma_lex_antisymmetric(
                            encode_utf8(list@[mid as int]@),
                            encode_utf8(target@),
                        );
                    }
                }
                hi = mid;
            },
        }
    }
    None
}

/// Normalizes the words of a list, removes empty ones, merges duplicates and orders the
/// rest by their bytes; the meanings of merged entries are concatenated in list order.
pub(crate) fn clean_word_list(words: &Vec<RichWord>) -> (r: (Vec<String>, Vec<Vec<String>>))
    ensures
        is_cleaned(words@, r.0.deep_view(), r.1.deep_view()),
{
    // normal forms, in list order and in sorted order
    let mut normalized: Vec<String> = Vec::new();
    let mut sorted: Vec<String> = Vec::new();
    for i in 0..words.len()
        invariant
            normalized@.len() == i,
            sorted@.len() == i,
            forall|k: int| 0 <= k < i ==> (#[trigger] normalized@[k])@ == nfc_of(words@[k].word@),
            forall|k: int| 0 <= k < i ==> (#[trigger] sorted@[k]) == normalized@[k],
    {
        let n = normalize(words[i].word.as_str());
        sorted.push(n.clone());
        normalized.push(n);
    }
    assert(sorted.deep_view() =~= normalized.deep_view());
    let ghost ndv = normalized.deep_view();
    sort_strings(&mut sorted);
    let ghost sdv = sorted.deep_view();
    assert(forall|k: int| 0 <= k < sorted@.len() ==> sdv[k] == (#[trigger] sorted@[k])@);
    assert(forall|k: int| 0 <= k < normalized@.len() ==> ndv[k] == (#[trigger] normalized@[k])@);

    // distinct non-empty words
    let mut distinct: Vec<String> = Vec::new();
    for i in 0..sorted.len()
        invariant
            sdv == sorted.deep_view(),
            forall|k: int| 0 <= k < sorted@.len() ==> sdv[k] == (#[trigger] sorted@[k])@,
            forall|a: int, b: int|
                0 <= a < b < sorted@.len() ==> lex_le(
                    encode_utf8(#[trigger] sorted@[a]@),
                    encode_utf8(#[trigger] sorted@[b]@),
                ),
            strictly_sorted(distinct.deep_view()),
            forall|j: int|
                0 <= j < distinct@.len() ==> (#[trigger] distinct@[j])@.len() > 0 && sdv.contains(
                    distinct@[j]@,
                ),
            forall|k: int|
                0 <= k < i && (#[trigger] sdv[k]).len() > 0 ==> exists|j: int|
                    0 <= j < distinct@.len() && distinct@[j]@ == sdv[k],
            forall|j: int, c: int|
                0 <= j < distinct@.len() && i <= c < sorted@.len() ==> lex_le(
                    encode_utf8((#[trigger] distinct@[j])@),
                    encode_utf8((#[trigger] sorted@[c])@),
                ),
    {
        let ghost ddv = distinct.deep_view();
        assert(forall|j: int| 0 <= j < distinct@.len() ==> ddv[j] == (#[trigger] distinct@[j])@);
        proof {
            lemma_byte_len_positive(sorted@[i as int]@);
        }
        let fresh = !sorted[i].as_str().is_empty() && (distinct.len() == 0 || distinct[distinct.len()
            - 1] != sorted[i]);
        if fresh {
            let s = sorted[i].clone();
            proof {
                assert forall|j: int| 0 <= j < distinct@.len() implies ddv[j] != s@ by {
                    let last = distinct@.len() - 1;
                    if j < last && ddv[j] == s@ {
                        assert(lex_le(encode_utf8(ddv[j]), encode_utf8(ddv[last])));
                        assert(lex_le(encode_utf8(distinct@[last]@), encode_utf8(sorted@[i as int]@)));
                        lemma_lex_antisymmetric(encode_utf8(ddv[last]), encode_utf8(s@));
                        lemma_encode_injective(ddv[last], s@);
                    }
                }
            }
            let ghost prev = distinct@;
            distinct.push(s);
            assert(distinct.deep_view() =~= ddv.push(s@));
            assert(sdv[i as int] == s@);
            assert forall|k: int| 0 <= k < i + 1 && (#[trigger] sdv[k]).len() > 0 implies exists|j: int|
                0 <= j < distinct@.len() && distinct@[j]@ == sdv[k] by {
                if k < i {
                    let j = choose|j: int| 0 <= j < prev.len() && prev[j]@ == sdv[k];
                    assert(distinct@[j] == prev[j]);
                } else {
                    assert(distinct@[prev.len() as int]@ == sdv[k]);
                }
            }
        } else {
            assert(distinct.deep_view() =~= ddv);
            proof {
                if sdv[i as int].len() > 0 {
                    assert(distinct@[distinct@.len() - 1]@ == sdv[i as int]);
                }
            }
        }
    }

    // merged meanings, in list order
    let mut merged: Vec<Vec<String>> = Vec::new();
    for j in 0..distinct.len()
        invariant
            merged@.len() == j,
            forall|k: int| 0 <= k < j ==> (#[trigger] merged@[k])@.len() == 0,
    {
        merged.push(Vec::new());
    }
    let ghost ddv = distinct.deep_view();
    assert(forall|j: int| 0 <= j < distinct@.len() ==> ddv[j] == (#[trigger] distinct@[j])@);
    assert forall|k: int| 0 <= k < words@.len() && (#[trigger] ndv[k]).len() > 0 implies exists|j: int|
        0 <= j < distinct@.len() && ddv[j] == ndv[k] by {
        assert(ndv.contains(ndv[k]));
        assert(ndv.to_multiset().count(ndv[k]) > 0);
        assert(sdv.contains(ndv[k]));
        let c = choose|c: int| 0 <= c < sdv.len() && sdv[c] == ndv[k];
        assert(sdv[c].len() > 0);
    }
    assert(forall|j: int| 0 <= j < distinct@.len() ==> (#[trigger] merged@[j]).deep_view() =~= merged_meanings(words@.take(0), ddv[j]));
    for i in 0..words.len()
        invariant
            merged@.len() == distinct@.len(),
            ddv == distinct.deep_view(),
            strictly_sorted(ddv),
            forall|j: int| 0 <= j < distinct@.len() ==> ddv[j] == (#[trigger] distinct@[j])@,
            forall|j: int| 0 <= j < distinct@.len() ==> (#[trigger] ddv[j]).len() > 0,
            normalized@.len() == words@.len(),
            ndv.len() == words@.len(),
            forall|k: int| 0 <= k < normalized@.len() ==> ndv[k] == (#[trigger] normalized@[k])@,
            forall|k: int| 0 <= k < words@.len() ==> (#[trigger] ndv[k]) == nfc_of(words@[k].word@),
            forall|k: int|
                0 <= k < words@.len() && (#[trigger] ndv[k]).len() > 0 ==> exists|j: int|
                    0 <= j < distinct@.len() && ddv[j] == ndv[k],
            forall|j: int|
                0 <= j < distinct@.len() ==> (#[trigger] merged@[j]).deep_view() == merged_meanings(
                    words@.take(i as int),
                    ddv[j],
                ),
    {
        assert(words@.take(i + 1).drop_last() =~= words@.take(i as int));
        proof {
            lemma_byte_len_positive(normalized@[i as int]@);
        }
        if !normalized[i].as_str().is_empty() {
            let found = find_word(&distinct, &normalized[i]);
            let j = match found {
                Some(j) => j,
                None => {
                    proof {
                        let k = choose|k: int| 0 <= k < distinct@.len() && ddv[k] == ndv[i as int];
                        assert(distinct@[k]@ == normalized@[i as int]@);
                    }
                    0
                },
            };
            let mut m: Vec<String> = Vec::new();
            merged.set_and_swap(j, &mut m);
            let ghost before = m.deep_view();
            let extra = words[i].meanings.clone();
            assert(extra.deep_view() =~= words@[i as int].meanings.deep_view());
            let mut extra = extra;
            m.append(&mut extra);
            assert(m.deep_view() =~= before + words@[i as int].meanings.deep_view());
            merged.set(j, m);
            assert forall|k: int| 0 <= k < distinct@.len() && k != j implies ddv[k] != ndv[i as int] by {
                if k < j {
                    assert(ddv[k] != ddv[j as int]);
                } else {
                    assert(ddv[j as int] != ddv[k]);
                }
            }
        } else {
            assert forall|k: int| 0 <= k < distinct@.len() implies ddv[k] != ndv[i as int] by {}
        }
    }
    assert(words@.take(words@.len() as int) =~= words@);

    let ghost mdv = merged.deep_view();
    assert(forall|j: int| 0 <= j < merged@.len() ==> mdv[j] == (#[trigger] merged@[j]).deep_view());
    proof {
        assert forall|j: int| 0 <= j < ddv.len() implies is_clean_word(words@, #[trigger] ddv[j]) by {
            assert(sdv.contains(ddv[j]));
            assert(ndv.to_multiset().count(ddv[j]) > 0);
            let k = choose|k: int| 0 <= k < ndv.len() && ndv[k] == ddv[j];
            assert(nfc_of(words@[k].word@) == ddv[j]);
        }
        assert forall|i: int| 0 <= i < words@.len() && nfc_of(#[trigger] words@[i].word@).len() > 0 implies exists|j: int|
            0 <= j < ddv.len() && ddv[j] == nfc_of(words@[i].word@) by {
            assert(ndv[i] == nfc_of(words@[i].word@));
        }
    }
    (distinct, merged)
}

} // verus!
