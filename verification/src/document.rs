//! Documents: a text with its word counts and its sentences.

use vstd::prelude::*;
use std::sync::Arc;

use crate::filter::{EmptyWordFilter, WordFilter};
use crate::text::{
    is_word, join_spaced, law_split_join, law_words_are_words, lowercase, split_words, views,
    words_of,
};
use crate::tokenizer::{SimpleTokenizer, TokenizerStrategie};

verus! {

/// Anything that can be turned into the text of a document.
pub trait IntoDocumentString {
    /// The text that this value becomes.
    spec fn document_text(&self) -> Seq<char>;

    fn into_document_string(self) -> (r: String)
        ensures
            r@ == self.document_text(),
    ;
}

impl IntoDocumentString for String {
    open spec fn document_text(&self) -> Seq<char> {
        self@
    }

    fn into_document_string(self) -> (r: String)
        ensures
            r@ == self@,
    {
        self
    }
}

/// How often `w` occurs in `tokens`.
pub open spec fn occurrences(tokens: Seq<Seq<char>>, w: Seq<char>) -> nat
    decreases tokens.len(),
{
    if tokens.len() == 0 {
        0
    } else {
        occurrences(tokens.drop_last(), w) + if tokens.last() == w {
            1nat
        } else {
            0nat
        }
    }
}

/// The words of a word-count table.
pub open spec fn word_keys(words: Seq<(String, u64)>) -> Seq<Seq<char>> {
    words.map_values(|p: (String, u64)| p.0@)
}

/// `words` is the word-count table of `tokens`: each distinct token appears
/// once, with the number of its occurrences.
pub open spec fn counts_tokens(words: Seq<(String, u64)>, tokens: Seq<Seq<char>>) -> bool {
    &&& word_keys(words).no_duplicates()
    &&& forall|i: int| 0 <= i < words.len() ==> words[i].1 == occurrences(tokens, #[trigger] words[i].0@)
    &&& forall|t: Seq<char>| tokens.contains(t) ==> word_keys(words).contains(t)
    &&& forall|i: int| 0 <= i < words.len() ==> tokens.contains(#[trigger] words[i].0@)
}

/// The sum of the counts of a word-count table.
pub open spec fn sum_counts(words: Seq<(String, u64)>) -> int
    decreases words.len(),
{
    if words.len() == 0 {
        0
    } else {
        sum_counts(words.drop_last()) + words.last().1
    }
}

/// Lemma: changing one count of a table changes its sum by the difference.
proof fn lemma_sum_counts_update(words: Seq<(String, u64)>, j: int, entry: (String, u64))
    requires
        0 <= j < words.len(),
    ensures
        sum_counts(words.update(j, entry)) == sum_counts(words) - words[j].1 + entry.1,
    decreases words.len(),
{
    let up = words.update(j, entry);
    if j == words.len() - 1 {
        assert(up.drop_last() == words.drop_last());
    } else {
        lemma_sum_counts_update(words.drop_last(), j, entry);
        assert(up.drop_last() == words.drop_last().update(j, entry));
    }
}

/// The count that a word-count table gives to `w`: the count of its first
/// entry for `w`, or 0 where it has none.
pub open spec fn count_in(words: Seq<(String, u64)>, w: Seq<char>) -> nat
    decreases words.len(),
{
    if words.len() == 0 {
        0
    } else if words[0].0@ == w {
        words[0].1 as nat
    } else {
        count_in(words.drop_first(), w)
    }
}

/// The words of `ws` that `filter` keeps, in order.
pub open spec fn kept_words<F: WordFilter>(ws: Seq<Seq<char>>, filter: &F) -> Seq<Seq<char>>
    decreases ws.len(),
{
    if ws.len() == 0 {
        seq![]
    } else if filter.spec_filter(ws.last()) {
        kept_words(ws.drop_last(), filter).push(ws.last())
    } else {
        kept_words(ws.drop_last(), filter)
    }
}

/// The tokens that a document with text `text` counts: the words of the
/// text that the filter keeps, joined by single spaces, then tokenized.
pub open spec fn document_tokens<T: TokenizerStrategie, F: WordFilter>(
    text: Seq<char>,
    filter: &F,
    tokenizer: &T,
) -> Seq<Seq<char>> {
    tokenizer.spec_tokenize(join_spaced(kept_words(words_of(text), filter)))
}

/// `Arc::clone`: a new pointer to the same value.
#[verifier::external_body]
fn share<I>(a: &Arc<I>) -> (r: Arc<I>)
    ensures
        r == *a,
{
    Arc::clone(a)
}

/// A document: its id, its word counts, its sentences, its token count and
/// its text.
#[derive(Debug, Clone)]
pub struct Document<I> {
    pub id: Arc<I>,
    pub words: Vec<(String, u64)>,
    pub sentences: Vec<String>,
    pub total_words: u64,
    pub data: String,
}

impl<I> Document<I> {
    /// The id of this document.
    pub open spec fn key(&self) -> I {
        *self.id
    }

    /// The set of words that this document counts.
    pub open spec fn word_set(&self) -> Set<Seq<char>> {
        word_keys(self.words@).to_set()
    }

    /// Build a document from its id and text: count the tokens of the text
    /// (as `document_tokens` defines them) and cut it into sentences.
    pub fn new<D, T, F>(id: I, data: D, filter: &F, tokenizer: &T) -> (r: Self)
        where
            D: IntoDocumentString,
            T: TokenizerStrategie,
            F: WordFilter,
        ensures
            *r.id == id,
            r.data@ == data.document_text(),
            views(r.sentences@) == tokenizer.spec_sentences(data.document_text()),
            counts_tokens(r.words@, document_tokens(data.document_text(), filter, tokenizer)),
            r.total_words == document_tokens(data.document_text(), filter, tokenizer).len(),
            sum_counts(r.words@) == r.total_words,
            r.word_set() == document_tokens(data.document_text(), filter, tokenizer).to_set(),
            forall|w: Seq<char>|
                #[trigger] count_in(r.words@, w) == occurrences(
                    document_tokens(data.document_text(), filter, tokenizer),
                    w,
                ),
    {
        let data_str = data.into_document_string();
        let (words, total) = Self::count_words(data_str.as_str(), filter, tokenizer);
        let sentences = tokenizer.sentences(data_str.as_str());
        proof {
            assert forall|w: Seq<char>|
                #[trigger] count_in(words@, w) == occurrences(
                    document_tokens(data.document_text(), filter, tokenizer),
                    w,
                ) by {
                law_count_in_counts(words@, document_tokens(data_str@, filter, tokenizer), w);
            }
            law_word_set_is_token_set(words@, document_tokens(data_str@, filter, tokenizer));
        }
        Document { id: Arc::new(id), words, sentences, total_words: total, data: data_str }
    }

    /// The word-count table and the token count of `document`.
    fn count_words<T, F>(document: &str, filter: &F, tokenizer: &T) -> (r: (Vec<(String, u64)>, u64))
        where
            T: TokenizerStrategie,
            F: WordFilter,
        ensures
            counts_tokens(r.0@, document_tokens(document@, filter, tokenizer)),
            r.1 == document_tokens(document@, filter, tokenizer).len(),
            sum_counts(r.0@) == r.1,
    {
        let all_words = split_words(document);
        let ghost ws = words_of(document@);
        let mut content = String::new();
        let ghost mut kept: Seq<Seq<char>> = seq![];
        let mut any = false;
        let n = all_words.len();
        let mut i: usize = 0;
        while i < n
            invariant
                n == all_words.len(),
                i <= n,
                views(all_words@) == ws,
                kept == kept_words(ws.take(i as int), filter),
                any == (kept.len() > 0),
                content@ == join_spaced(kept),
            decreases n - i,
        {
            assert(ws.take(i + 1).drop_last() == ws.take(i as int));
            if filter.filter(all_words[i].as_str()) {
                let ghost w = ws[i as int];
                if any {
                    content.append(" ");
                    proof {
                        reveal_strlit(" ");
                        assert(kept.push(w).drop_last() == kept);
                    }
                } else {
                    assert(kept.push(w) == seq![w]);
                }
                content.append(all_words[i].as_str());
                proof {
                    kept = kept.push(w);
                }
                any = true;
            }
            i = i + 1;
        }
        assert(ws.take(n as int) == ws);
        let tokens = tokenizer.tokenize(content.as_str());
        let ghost toks = views(tokens@);
        let mut words: Vec<(String, u64)> = Vec::new();
        let mut total: u64 = 0;
        let m = tokens.len();
        let mut k: usize = 0;
        while k < m
            invariant
                m == tokens.len(),
                k <= m,
                toks == views(tokens@),
                total == k,
                sum_counts(words@) == k,
                counts_tokens(words@, toks.take(k as int)),
            decreases m - k,
        {
            let ghost prev = toks.take(k as int);
            let ghost next = toks.take(k + 1);
            assert(next.drop_last() == prev);
            assert(next.last() == tokens@[k as int]@);
            proof {
                lemma_occurrences_bound(prev, tokens@[k as int]@);
            }
            match find_word(&words, &tokens[k]) {
                Some(j) => {
                    let ghost before = words@;
                    let c = words[j].1;
                    let key = words[j].0.clone();
                    words.set(j, (key, c + 1));
                    proof {
                        lemma_sum_counts_update(before, j as int, words@[j as int]);
                    }
                    assert(word_keys(words@) == word_keys(before));
                    assert forall|q: int| 0 <= q < words@.len() implies next.contains(#[trigger] words@[q].0@) by {
                        assert(prev.contains(before[q].0@));
                        let z = choose|z: int| 0 <= z < prev.len() && prev[z] == before[q].0@;
                        assert(next[z] == prev[z]);
                    }
                    assert forall|q: int| 0 <= q < words@.len() implies words@[q].1 == occurrences(
                        next,
                        #[trigger] words@[q].0@,
                    ) by {
                        if q != j {
                            assert(word_keys(before)[q] != word_keys(before)[j as int]);
                        }
                    }
                    assert forall|t: Seq<char>| next.contains(t) implies word_keys(words@).contains(t) by {
                        let q = choose|q: int| 0 <= q < next.len() && next[q] == t;
                        if q < prev.len() {
                            assert(prev[q] == t);
                            assert(prev.contains(t));
                        } else {
                            assert(word_keys(words@)[j as int] == t);
                        }
                    }
                },
                None => {
                    let ghost before = words@;
                    let key = tokens[k].clone();
                    words.push((key, 1));
                    assert(words@.drop_last() == before);
                    assert(word_keys(words@) == word_keys(before).push(tokens@[k as int]@));
                    assert forall|q: int| 0 <= q < words@.len() implies next.contains(#[trigger] words@[q].0@) by {
                        if q < before.len() {
                            assert(prev.contains(before[q].0@));
                            let z = choose|z: int| 0 <= z < prev.len() && prev[z] == before[q].0@;
                            assert(next[z] == prev[z]);
                        } else {
                            assert(next[k as int] == tokens@[k as int]@);
                        }
                    }
                    proof {
                        lemma_occurrences_absent(prev, tokens@[k as int]@);
                    }
                    assert forall|q: int| 0 <= q < words@.len() implies words@[q].1 == occurrences(
                        next,
                        #[trigger] words@[q].0@,
                    ) by {
                        if q < before.len() {
                            assert(word_keys(before)[q] == before[q].0@);
                            assert(before[q].0@ != tokens@[k as int]@);
                        }
                    }
                    assert forall|a: int, b: int|
                        0 <= a < word_keys(words@).len() && 0 <= b < word_keys(words@).len() && a != b
                        implies word_keys(words@)[a] != word_keys(words@)[b] by {
                        if a < before.len() && b < before.len() {
                            assert(word_keys(before)[a] != word_keys(before)[b]);
                        } else if a < before.len() {
                            assert(word_keys(before)[a] != tokens@[k as int]@);
                        } else if b < before.len() {
                            assert(word_keys(before)[b] != tokens@[k as int]@);
                        }
                    }
                    assert forall|t: Seq<char>| next.contains(t) implies word_keys(words@).contains(t) by {
                        let q = choose|q: int| 0 <= q < next.len() && next[q] == t;
                        if q < prev.len() {
                            assert(prev[q] == t);
                            assert(prev.contains(t));
                            assert(word_keys(before).contains(t));
                            let z = choose|z: int| 0 <= z < word_keys(before).len() && word_keys(before)[z] == t;
                            assert(word_keys(words@)[z] == t);
                        } else {
                            assert(word_keys(words@)[before.len() as int] == t);
                        }
                    }
                },
            }
            total = total + 1;
            k = k + 1;
        }
        assert(toks.take(m as int) == toks);
        (words, total)
    }

    pub fn get_id(&self) -> (r: Arc<I>)
        ensures
            r == self.id,
    {
        share(&self.id)
    }

    pub fn get_words_ref(&self) -> (r: &Vec<(String, u64)>)
        ensures
            r == &self.words,
    {
        &self.words
    }

    pub fn get_sentences_ref(&self) -> (r: &Vec<String>)
        ensures
            r == &self.sentences,
    {
        &self.sentences
    }

    pub fn get_total_count(&self) -> (r: u64)
        ensures
            r == self.total_words,
    {
        self.total_words
    }

    /// How often `word` was counted in this document (0 where it was not).
    pub fn count_of(&self, word: &str) -> (r: u64)
        ensures
            r == count_in(self.words@, word@),
    {
        let n = self.words.len();
        let mut i: usize = 0;
        assert(self.words@.skip(0) == self.words@);
        while i < n
            invariant
                n == self.words.len(),
                i <= n,
                count_in(self.words@, word@) == count_in(self.words@.skip(i as int), word@),
            decreases n - i,
        {
            assert(self.words@.skip(i as int).drop_first() == self.words@.skip(i + 1));
            if str_equal(self.words[i].0.as_str(), word) {
                return self.words[i].1;
            }
            i = i + 1;
        }
        0
    }
}

/// Whether two strings hold the same characters.
fn str_equal(a: &str, b: &str) -> (r: bool)
    ensures
        r == (a@ == b@),
{
    let x = a.to_owned();
    let y = b.to_owned();
    x == y
}

/// The index of the entry for `w` in a word-count table, if it has one.
fn find_word(words: &Vec<(String, u64)>, w: &String) -> (r: Option<usize>)
    ensures
        match r {
            Some(j) => j < words.len() && words@[j as int].0@ == w@,
            None => !word_keys(words@).contains(w@),
        },
{
    let n = words.len();
    let mut i: usize = 0;
    while i < n
        invariant
            n == words.len(),
            i <= n,
            forall|q: int| 0 <= q < i ==> words@[q].0@ != w@,
        decreases n - i,
    {
        if words[i].0 == *w {
            return Some(i);
        }
        i = i + 1;
    }
    assert forall|q: int| 0 <= q < word_keys(words@).len() implies word_keys(words@)[q] != w@ by {
        assert(word_keys(words@)[q] == words@[q].0@);
    }
    None
}

/// Law: the words of a word-count table of `tokens` are exactly the
/// distinct tokens.
pub proof fn law_word_set_is_token_set(words: Seq<(String, u64)>, tokens: Seq<Seq<char>>)
    requires
        counts_tokens(words, tokens),
    ensures
        word_keys(words).to_set() == tokens.to_set(),
{
    assert forall|t: Seq<char>| #[trigger] word_keys(words).to_set().contains(t) <==> tokens.to_set().contains(t) by {
        if word_keys(words).contains(t) {
            let q = choose|q: int| 0 <= q < word_keys(words).len() && word_keys(words)[q] == t;
            assert(word_keys(words)[q] == words[q].0@);
            assert(tokens.contains(words[q].0@));
        }
    }
    assert(word_keys(words).to_set() =~= tokens.to_set());
}

/// Lemma: `count_in` finds the first entry for `w`, and gives 0 where there
/// is none.
proof fn lemma_count_in_first(words: Seq<(String, u64)>, w: Seq<char>, j: int)
    requires
        0 <= j <= words.len(),
        forall|q: int| 0 <= q < j ==> words[q].0@ != w,
        j < words.len() ==> words[j].0@ == w,
    ensures
        count_in(words, w) == if j < words.len() {
            words[j].1 as nat
        } else {
            0nat
        },
    decreases words.len(),
{
    if words.len() > 0 && j > 0 {
        let rest = words.drop_first();
        assert forall|q: int| 0 <= q < j - 1 implies rest[q].0@ != w by {
            assert(rest[q] == words[q + 1]);
        }
        lemma_count_in_first(rest, w, j - 1);
    }
}

/// Law: in a word-count table of `tokens`, the count of every word is its
/// number of occurrences among the tokens (0 for a word that is not one).
pub proof fn law_count_in_counts(words: Seq<(String, u64)>, tokens: Seq<Seq<char>>, w: Seq<char>)
    requires
        counts_tokens(words, tokens),
    ensures
        count_in(words, w) == occurrences(tokens, w),
{
    if word_keys(words).contains(w) {
        let j = choose|j: int| 0 <= j < word_keys(words).len() && word_keys(words)[j] == w;
        assert forall|q: int| 0 <= q < j implies words[q].0@ != w by {
            assert(word_keys(words)[q] == words[q].0@);
        }
        assert(words[j].0@ == w);
        lemma_count_in_first(words, w, j);
    } else {
        assert forall|q: int| 0 <= q < words.len() implies words[q].0@ != w by {
            assert(word_keys(words)[q] == words[q].0@);
        }
        lemma_count_in_first(words, w, words.len() as int);
        if tokens.contains(w) {
            assert(word_keys(words).contains(w));
        }
        lemma_occurrences_absent(tokens, w);
    }
}

/// Lemma: the words that a filter keeps are words.
proof fn lemma_kept_words_are_words<F: WordFilter>(ws: Seq<Seq<char>>, filter: &F)
    requires
        forall|i: int| 0 <= i < ws.len() ==> is_word(#[trigger] ws[i]),
    ensures
        forall|i: int| 0 <= i < kept_words(ws, filter).len() ==> is_word(#[trigger] kept_words(ws, filter)[i]),
    decreases ws.len(),
{
    if ws.len() > 0 {
        let dl = ws.drop_last();
        assert forall|i: int| 0 <= i < dl.len() implies is_word(#[trigger] dl[i]) by {
            assert(dl[i] == ws[i]);
        }
        lemma_kept_words_are_words(dl, filter);
        let k = kept_words(dl, filter);
        if filter.spec_filter(ws.last()) {
            assert forall|i: int| 0 <= i < kept_words(ws, filter).len() implies is_word(
                #[trigger] kept_words(ws, filter)[i],
            ) by {
                if i < k.len() {
                    assert(kept_words(ws, filter)[i] == k[i]);
                } else {
                    assert(kept_words(ws, filter)[i] == ws[ws.len() - 1]);
                }
            }
        }
    }
}

/// Law: with the simple tokenizer, a document counts exactly the words of
/// its text that the filter keeps, each lowercased, in order.
pub proof fn law_simple_document_tokens<F: WordFilter>(text: Seq<char>, filter: &F, tokenizer: &SimpleTokenizer)
    ensures
        document_tokens(text, filter, tokenizer) == kept_words(words_of(text), filter).map_values(
            |w: Seq<char>| lowercase(w),
        ),
{
    law_words_are_words(text);
    lemma_kept_words_are_words(words_of(text), filter);
    law_split_join(kept_words(words_of(text), filter));
}

/// Law: a string turned into a document text is the string itself,
/// unchanged, so a document made from a `String` keeps its whole text.
pub proof fn law_string_document_text(s: String)
    ensures
        s.document_text() == s@,
{
}

/// Law: filtering a list made of two parts filters each part: the kept
/// words of `a + b` are the kept words of `a` followed by those of `b`.
pub proof fn law_kept_words_concat<F: WordFilter>(a: Seq<Seq<char>>, b: Seq<Seq<char>>, filter: &F)
    ensures
        kept_words(a + b, filter) == kept_words(a, filter) + kept_words(b, filter),
    decreases b.len(),
{
    if b.len() == 0 {
        assert(a + b == a);
        assert(kept_words(a, filter) + kept_words(b, filter) == kept_words(a, filter));
    } else {
        let b1 = b.drop_last();
        law_kept_words_concat(a, b1, filter);
        assert((a + b).drop_last() == a + b1);
        assert((a + b).last() == b.last());
        if filter.spec_filter(b.last()) {
            assert(kept_words(a, filter) + kept_words(b1, filter).push(b.last()) == (kept_words(a, filter)
                + kept_words(b1, filter)).push(b.last()));
        }
    }
}

/// Law: a single word is kept exactly when the filter keeps it.
pub proof fn law_kept_words_single<F: WordFilter>(w: Seq<char>, filter: &F)
    ensures
        kept_words(seq![w], filter) == (if filter.spec_filter(w) {
            seq![w]
        } else {
            Seq::<Seq<char>>::empty()
        }),
{
    let one = seq![w];
    assert(one.drop_last() == Seq::<Seq<char>>::empty());
    assert(one.last() == w);
    assert(kept_words(one.drop_last(), filter) == Seq::<Seq<char>>::empty());
    if filter.spec_filter(w) {
        assert(Seq::<Seq<char>>::empty().push(w) == one);
    }
}

/// Law: the empty filter keeps every word: filtering any list of words with
/// it gives the same list.
pub proof fn law_empty_filter_keeps_all(ws: Seq<Seq<char>>)
    ensures
        kept_words(ws, &EmptyWordFilter {}) == ws,
    decreases ws.len(),
{
    if ws.len() > 0 {
        law_empty_filter_keeps_all(ws.drop_last());
        assert(ws.drop_last().push(ws.last()) == ws);
    }
}

/// Law: a document made with the empty filter and the simple tokenizer
/// counts every word of its text, lowercased, in order.
pub proof fn law_empty_filter_document_tokens(text: Seq<char>)
    ensures
        document_tokens(text, &EmptyWordFilter {}, &SimpleTokenizer) == words_of(text).map_values(
            |w: Seq<char>| lowercase(w),
        ),
{
    law_simple_document_tokens(text, &EmptyWordFilter {}, &SimpleTokenizer);
    law_empty_filter_keeps_all(words_of(text));
}

/// Law: the occurrences of a word in two lists of tokens one after the
/// other add up.
pub proof fn law_occurrences_concat(a: Seq<Seq<char>>, b: Seq<Seq<char>>, w: Seq<char>)
    ensures
        occurrences(a + b, w) == occurrences(a, w) + occurrences(b, w),
    decreases b.len(),
{
    if b.len() == 0 {
        assert(a + b == a);
    } else {
        law_occurrences_concat(a, b.drop_last(), w);
        assert((a + b).drop_last() == a + b.drop_last());
        assert((a + b).last() == b.last());
    }
}

/// Law: a single token occurs once if it is the word, else not at all.
pub proof fn law_occurrences_single(t: Seq<char>, w: Seq<char>)
    ensures
        occurrences(seq![t], w) == (if t == w {
            1nat
        } else {
            0nat
        }),
{
    let one = seq![t];
    assert(one.drop_last() == Seq::<Seq<char>>::empty());
    assert(one.last() == t);
    assert(occurrences(one.drop_last(), w) == 0);
}

/// Law: the sum of the counts of two word-count tables one after the other
/// is the sum of their sums.
pub proof fn law_sum_counts_concat(a: Seq<(String, u64)>, b: Seq<(String, u64)>)
    ensures
        sum_counts(a + b) == sum_counts(a) + sum_counts(b),
    decreases b.len(),
{
    if b.len() == 0 {
        assert(a + b == a);
    } else {
        law_sum_counts_concat(a, b.drop_last());
        assert((a + b).drop_last() == a + b.drop_last());
        assert((a + b).last() == b.last());
    }
}

/// Lemma: a word occurs at most as often as there are tokens.
pub proof fn lemma_occurrences_bound(tokens: Seq<Seq<char>>, w: Seq<char>)
    ensures
        occurrences(tokens, w) <= tokens.len(),
    decreases tokens.len(),
{
    if tokens.len() > 0 {
        lemma_occurrences_bound(tokens.drop_last(), w);
    }
}

/// Lemma: a word that is not among the tokens occurs zero times.
pub proof fn lemma_occurrences_absent(tokens: Seq<Seq<char>>, w: Seq<char>)
    requires
        !tokens.contains(w),
    ensures
        occurrences(tokens, w) == 0,
    decreases tokens.len(),
{
    if tokens.len() > 0 {
        assert(tokens.drop_last().len() < tokens.len());
        assert forall|q: int| 0 <= q < tokens.drop_last().len() implies tokens.drop_last()[q] != w by {
            assert(tokens[q] != w);
        }
        lemma_occurrences_absent(tokens.drop_last(), w);
        assert(tokens[tokens.len() - 1] != w);
    }
}

} // verus!
