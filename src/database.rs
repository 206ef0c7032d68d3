use vstd::prelude::*;
use vstd::utf8::encode_utf8;

use crate::lexical::lex_le;
use crate::words::{
    byte_len, clean_word_list, find_word, is_clean_word, is_cleaned, lemma_byte_len_positive,
    merged_meanings, nfc_of, strictly_sorted, RichWord,
};

verus! {

/// Number of distinct usable words of `k` bytes in a word list.
pub open spec fn clean_count(words: Seq<RichWord>, k: int) -> nat {
    Set::new(|w: Seq<char>| is_clean_word(words, w) && byte_len(w) == k).len()
}

/// The usable words of a list, bucketed by their length in bytes.
pub struct WordDb {
    /// `word_groups[k - 1]` holds the words of `k` bytes, in ascending byte order.
    word_groups: Vec<Vec<String>>,
    min_length: usize,
    /// Every word once, in ascending byte order.
    dictionary: Vec<String>,
    /// `meanings[j]` belongs to `dictionary[j]`.
    meanings: Vec<Vec<String>>,
}

impl WordDb {
    /// The words of `k` bytes; empty for a length that no word has.
    pub closed spec fn group(&self, k: int) -> Seq<Seq<char>> {
        if 1 <= k <= self.word_groups@.len() {
            self.word_groups@[k - 1].deep_view()
        } else {
            seq![]
        }
    }

    /// Length in bytes of the longest word.
    pub closed spec fn longest(&self) -> nat {
        self.word_groups@.len()
    }

    /// Length in bytes of the shortest word.
    pub closed spec fn shortest(&self) -> nat {
        self.min_length as nat
    }

    /// The meanings attached to `w`; none for a word that the database does not hold.
    pub closed spec fn meanings_of(&self, w: Seq<char>) -> Seq<Seq<char>> {
        if exists|j: int| 0 <= j < self.dictionary@.len() && self.dictionary@[j]@ == w {
            let j = choose|j: int| 0 <= j < self.dictionary@.len() && self.dictionary@[j]@ == w;
            self.meanings@[j].deep_view()
        } else {
            seq![]
        }
    }

    /// The dictionary is in ascending byte order beside its meanings, the shortest length
    /// is the first one with words, and every group holds words of its own length.
    pub closed spec fn wf(&self) -> bool {
        &&& strictly_sorted(self.dictionary.deep_view())
        &&& self.meanings@.len() == self.dictionary@.len()
        &&& 1 <= self.min_length <= self.word_groups@.len()
        &&& self.group(self.min_length as int).len() > 0
        &&& forall|k: int| 1 <= k < self.min_length ==> (#[trigger] self.group(k)).len() == 0
        &&& forall|k: int, i: int|
            0 <= i < self.group(k).len() ==> byte_len(#[trigger] self.group(k)[i]) == k
    }

    /// The database holds exactly the usable words of `words`, grouped by byte length,
    /// with their merged meanings.
    pub open spec fn built_from(&self, words: Seq<RichWord>) -> bool {
        &&& self.wf()
        &&& self.group(self.shortest() as int).len() > 0
        &&& forall|k: int, w: Seq<char>|
            #![trigger self.group(k).contains(w)]
            self.group(k).contains(w) ==> is_clean_word(words, w) && byte_len(w) == k
        &&& forall|w: Seq<char>|
            #![trigger is_clean_word(words, w)]
            is_clean_word(words, w) ==> self.group(byte_len(w) as int).contains(w)
                && self.shortest() <= byte_len(w) <= self.longest()
                && self.meanings_of(w) == merged_meanings(words, w)
        &&& forall|k: int| strictly_sorted(#[trigger] self.group(k))
        &&& forall|w: Seq<char>|
            #![trigger self.meanings_of(w)]
            !is_clean_word(words, w) ==> self.meanings_of(w).len() == 0
    }

    /// Builds the database from a raw word list: words are normalized, empty ones dropped,
    /// duplicates merged, and the rest bucketed by byte length. `None` when no usable
    /// word remains.
    pub fn build_database(words: Vec<RichWord>) -> (r: Option<WordDb>)
        ensures
            r is None <==> forall|w: Seq<char>| !is_clean_word(words@, w),
            r matches Some(db) ==> db.built_from(words@),
    {
        let (dictionary, meanings) = clean_word_list(&words);
        let ghost ws = dictionary.deep_view();
        let ghost ms = meanings.deep_view();
        assert(forall|j: int| 0 <= j < dictionary@.len() ==> ws[j] == (#[trigger] dictionary@[j])@);
        assert(forall|j: int| 0 <= j < meanings@.len() ==> ms[j] == (#[trigger] meanings@[j]).deep_view());
        if dictionary.len() == 0 {
            assert forall|w: Seq<char>| !is_clean_word(words@, w) by {
                if is_clean_word(words@, w) {
                    let i = choose|i: int| 0 <= i < words@.len() && nfc_of(words@[i].word@) == w;
                    assert(nfc_of(words@[i].word@).len() > 0);
                }
            }
            return None;
        }
        proof {
            assert(ws[0].len() > 0) by {
                assert(is_clean_word(words@, ws[0]));
            }
        }
        // byte lengths
        let first = dictionary[0].as_str().as_bytes().len();
        let mut lengths: Vec<usize> = Vec::new();
        lengths.push(first);
        let mut min_length: usize = first;
        let mut max_length: usize = first;
        let mut min_at: usize = 0;
        for j in 1..dictionary.len()
            invariant
                1 <= j <= dictionary@.len(),
                lengths@.len() == j,
                forall|a: int| 0 <= a < j ==> #[trigger] lengths@[a] == byte_len(dictionary@[a]@),
                forall|a: int| 0 <= a < j ==> min_length <= #[trigger] lengths@[a] <= max_length,
                min_at < j,
                lengths@[min_at as int] == min_length,
        {
            let l = dictionary[j].as_str().as_bytes().len();
            lengths.push(l);
            if l > max_length {
                max_length = l;
            }
            if l < min_length {
                min_length = l;
                min_at = j;
            }
        }
        proof {
            assert(is_clean_word(words@, ws[min_at as int]));
            lemma_byte_len_positive(ws[min_at as int]);
        }
        let n = dictionary.len();
        // one group per length from 1 to the longest
        let mut word_groups: Vec<Vec<String>> = Vec::new();
        for k in 0..max_length
            invariant
                n == dictionary@.len(),
                lengths@.len() == n,
                ws == dictionary.deep_view(),
                strictly_sorted(ws),
                forall|a: int| 0 <= a < n ==> ws[a] == (#[trigger] dictionary@[a])@,
                forall|a: int| 0 <= a < n ==> #[trigger] lengths@[a] == byte_len(ws[a]),
                word_groups@.len() == k,
                forall|g: int| 0 <= g < k ==> strictly_sorted(#[trigger] word_groups@[g].deep_view()),
                forall|g: int, w: Seq<char>|
                    #![trigger word_groups@[g].deep_view().contains(w)]
                    0 <= g < k && word_groups@[g].deep_view().contains(w) ==> exists|a: int|
                        0 <= a < n && ws[a] == w && lengths@[a] == g + 1,
                forall|a: int|
                    0 <= a < n && 1 <= #[trigger] lengths@[a] <= k ==> word_groups@[lengths@[a] - 1].deep_view().contains(ws[a]),
        {
            let mut group: Vec<String> = Vec::new();
            let ghost mut src: Seq<int> = Seq::empty();
            for j in 0..n
                invariant
                    n == dictionary@.len(),
                    lengths@.len() == n,
                    ws == dictionary.deep_view(),
                    strictly_sorted(ws),
                    forall|a: int| 0 <= a < n ==> ws[a] == (#[trigger] dictionary@[a])@,
                    strictly_sorted(group.deep_view()),
                    k < max_length,
                    src.len() == group@.len(),
                    forall|b: int|
                        0 <= b < group@.len() ==> 0 <= #[trigger] src[b] < j && ws[src[b]] == group@[b]@
                            && lengths@[src[b]] == k + 1,
                    forall|b: int, c: int|
                        0 <= b < group@.len() && j <= c < n ==> lex_le(
                            encode_utf8((#[trigger] group@[b])@),
                            encode_utf8(#[trigger] ws[c]),
                        ) && group@[b]@ != ws[c],
                    forall|a: int|
                        0 <= a < j && #[trigger] lengths@[a] == k + 1 ==> group.deep_view().contains(ws[a]),
            {
                let ghost before = group.deep_view();
                let ghost old_group = group@;
                assert(forall|b: int| 0 <= b < group@.len() ==> before[b] == (#[trigger] group@[b])@);
                if lengths[j] == k + 1 {
                    let w = dictionary[j].clone();
                    group.push(w);
                    assert(group.deep_view() =~= before.push(ws[j as int]));
                    assert forall|b: int, c: int|
                        0 <= b < group@.len() && j + 1 <= c < n implies lex_le(
                            encode_utf8((#[trigger] group@[b])@),
                            encode_utf8(#[trigger] ws[c]),
                        ) && group@[b]@ != ws[c] by {
                        if b < before.len() {
                            assert(lex_le(encode_utf8(ws[j as int]), encode_utf8(ws[c])));
                            crate::lexical::lemma_lex_transitive(
                                encode_utf8(group@[b]@),
                                encode_utf8(ws[j as int]),
                                encode_utf8(ws[c]),
                            );
                            if group@[b]@ == ws[c] {
                                crate::lexical::lemma_lex_antisymmetric(
                                    encode_utf8(ws[j as int]),
                                    encode_utf8(ws[c]),
                                );
                                crate::words::lemma_encode_injective(ws[j as int], ws[c]);
                            }
                        } else {
                            assert(group@[b]@ == ws[j as int]);
                        }
                    }
                    proof {
                        src = src.push(j as int);
                        assert forall|b: int| 0 <= b < group@.len() implies 0 <= #[trigger] src[b] < j + 1
                            && ws[src[b]] == group@[b]@ && lengths@[src[b]] == k + 1 by {
                            if b < before.len() {
                                assert(group@[b] == old_group[b]);
                            }
                        }
                    }
                    assert forall|a: int|
                        0 <= a < j + 1 && #[trigger] lengths@[a] == k + 1 implies group.deep_view().contains(ws[a]) by {
                        if a == j {
                            assert(group.deep_view()[before.len() as int] == ws[a]);
                        } else {
                            let b = choose|b: int| 0 <= b < before.len() && before[b] == ws[a];
                            assert(group.deep_view()[b] == ws[a]);
                        }
                    }
                } else {
                    assert(group.deep_view() =~= before);
                }
            }
            let ghost gdv = group.deep_view();
            assert forall|w: Seq<char>| gdv.contains(w) implies exists|a: int|
                0 <= a < n && ws[a] == w && lengths@[a] == k + 1 by {
                let b = choose|b: int| 0 <= b < gdv.len() && gdv[b] == w;
                assert(gdv[b] == group@[b]@);
                assert(ws[src[b]] == w);
            }
            word_groups.push(group);
            assert(word_groups@[k as int].deep_view() == gdv);
        }
        let db = WordDb { word_groups, min_length, dictionary, meanings };
        proof {
            assert forall|k: int, i: int|
                0 <= i < db.group(k).len() implies byte_len(#[trigger] db.group(k)[i]) == k by {
                let w = db.group(k)[i];
                assert(db.word_groups@[k - 1].deep_view().contains(w));
            }
            assert(db.group(min_length as int).contains(ws[min_at as int]));
            assert forall|k: int| 1 <= k < min_length implies (#[trigger] db.group(k)).len() == 0 by {
                if db.group(k).len() > 0 {
                    assert(db.word_groups@[k - 1].deep_view().contains(db.group(k)[0]));
                }
            }
            assert forall|k: int, w: Seq<char>|
                #![trigger db.group(k).contains(w)]
                db.group(k).contains(w) implies is_clean_word(words@, w) && byte_len(w) == k by {
                assert(db.word_groups@[k - 1].deep_view().contains(w));
                let a = choose|a: int| 0 <= a < n && ws[a] == w && lengths@[a] == k;
                assert(is_clean_word(words@, ws[a]));
            }
            assert forall|w: Seq<char>|
                #![trigger is_clean_word(words@, w)]
                is_clean_word(words@, w) implies db.group(byte_len(w) as int).contains(w)
                    && db.shortest() <= byte_len(w) <= db.longest()
                    && db.meanings_of(w) == merged_meanings(words@, w) by {
                let i = choose|i: int| 0 <= i < words@.len() && nfc_of(#[trigger] words@[i].word@) == w;
                let a = choose|a: int| 0 <= a < ws.len() && ws[a] == nfc_of(words@[i].word@);
                assert(lengths@[a] == byte_len(w));
                lemma_byte_len_positive(w);
                assert(1 <= lengths@[a]);
                assert(db.dictionary@[a]@ == w);
                let c = choose|c: int| 0 <= c < db.dictionary@.len() && db.dictionary@[c]@ == w;
                if c != a {
                    if c < a {
                        assert(ws[c] != ws[a]);
                    } else {
                        assert(ws[a] != ws[c]);
                    }
                }
            }
            assert forall|w: Seq<char>|
                #![trigger db.meanings_of(w)]
                !is_clean_word(words@, w) implies db.meanings_of(w).len() == 0 by {
                if exists|j: int| 0 <= j < db.dictionary@.len() && db.dictionary@[j]@ == w {
                    let j = choose|j: int| 0 <= j < db.dictionary@.len() && db.dictionary@[j]@ == w;
                    assert(is_clean_word(words@, ws[j]));
                }
            }
            assert forall|k: int| strictly_sorted(#[trigger] db.group(k)) by {
                if 1 <= k <= db.word_groups@.len() {
                    assert(strictly_sorted(db.word_groups@[k - 1].deep_view()));
                }
            }
        }
        Some(db)
    }

    /// The words of `len` bytes, in ascending byte order; empty for a length that no
    /// word has.
    pub fn get_group(&self, len: usize) -> (r: &[String])
        ensures
            r@.len() == self.group(len as int).len(),
            forall|i: int| 0 <= i < r@.len() ==> (#[trigger] r@[i])@ == self.group(len as int)[i],
    {
        if 1 <= len && len <= self.word_groups.len() {
            let g = self.word_groups[len - 1].as_slice();
            assert(forall|i: int| 0 <= i < g@.len() ==> (#[trigger] g@[i])@ == self.group(len as int)[i]);
            g
        } else {
            &[]
        }
    }

    /// The number of words of `len` bytes.
    pub fn group_size(&self, len: usize) -> (r: usize)
        ensures
            r == self.group(len as int).len(),
    {
        if 1 <= len && len <= self.word_groups.len() {
            self.word_groups[len - 1].len()
        } else {
            0
        }
    }

    /// Length in bytes of the shortest word.
    pub fn shortest_group_len(&self) -> (r: usize)
        ensures
            r == self.shortest(),
    {
        self.min_length
    }

    /// Pairs each word with the meanings that the database holds for it.
    pub fn attach_meanings(&self, words: &[String]) -> (r: Vec<RichWord>)
        requires
            self.wf(),
        ensures
            r@.len() == words@.len(),
            forall|i: int|
                0 <= i < words@.len() ==> (#[trigger] r@[i]).word@ == words@[i]@
                    && r@[i].meanings.deep_view() == self.meanings_of(words@[i]@),
    {
        let ghost ws = self.dictionary.deep_view();
        assert(forall|j: int| 0 <= j < self.dictionary@.len() ==> ws[j] == (#[trigger] self.dictionary@[j])@);
        let mut r: Vec<RichWord> = Vec::new();
        for i in 0..words.len()
            invariant
                self.wf(),
                ws == self.dictionary.deep_view(),
                forall|j: int| 0 <= j < self.dictionary@.len() ==> ws[j] == (#[trigger] self.dictionary@[j])@,
                r@.len() == i,
                forall|k: int|
                    0 <= k < i ==> (#[trigger] r@[k]).word@ == words@[k]@
                        && r@[k].meanings.deep_view() == self.meanings_of(words@[k]@),
        {
            let word = words[i].clone();
            let meanings = match find_word(&self.dictionary, &word) {
                Some(j) => {
                    let m = self.meanings[j].clone();
                    proof {
                        let c = choose|c: int|
                            0 <= c < self.dictionary@.len() && self.dictionary@[c]@ == word@;
                        if c != j {
                            if c < j {
                                assert(ws[c] != ws[j as int]);
                            } else {
                                assert(ws[j as int] != ws[c]);
                            }
                        }
                        assert(m.deep_view() =~= self.meanings@[j as int].deep_view());
                    }
                    m
                },
                None => {
                    let m: Vec<String> = Vec::new();
                    assert(m.deep_view() =~= Seq::<Seq<char>>::empty());
                    m
                },
            };
            r.push(RichWord { word, meanings });
        }
        r
    }

    /// The `index`-th word of `len` bytes.
    pub(crate) fn word_at(&self, len: usize, index: usize) -> (r: String)
        requires
            index < self.group(len as int).len(),
        ensures
            r@ == self.group(len as int)[index as int],
    {
        self.word_groups[len - 1][index].clone()
    }

    /// The number of words of `k` bytes is the number of distinct usable words of that length.
    pub proof fn lemma_group_size(&self, words: Seq<RichWord>, k: int)
        requires
            self.built_from(words),
        ensures
            self.group(k).len() == clean_count(words, k),
    {
        let g = self.group(k);
        assert(strictly_sorted(g));
        assert(g.no_duplicates());
        g.unique_seq_to_set();
        assert(g.to_set() =~= Set::new(|w: Seq<char>| is_clean_word(words, w) && byte_len(w) == k));
    }
}

} // verus!
