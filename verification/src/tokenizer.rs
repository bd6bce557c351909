//! Tokenizer strategies: how a text is cut into tokens and into sentences.

use vstd::prelude::*;

use crate::text::{
    all_white_space, is_white_space, is_word, law_words_of_white_space, law_words_of_word,
    law_words_split_at_space, lowercase, sentence_pieces, split_sentences, split_words, to_lowercase,
    views, words_of,
};

verus! {

/// Defines a custom tokenizer strategy that is used for `Document<I>` token
/// generation.
pub trait TokenizerStrategie {
    /// The tokens of a text under this strategy.
    spec fn spec_tokenize(&self, input: Seq<char>) -> Seq<Seq<char>>;

    /// The sentences of a text under this strategy.
    spec fn spec_sentences(&self, input: Seq<char>) -> Seq<Seq<char>>;

    /// Generate a list of single tokens.
    fn tokenize(&self, input: &str) -> (r: Vec<String>)
        ensures
            views(r@) == self.spec_tokenize(input@),
    ;

    /// Generate a list of sentences.
    fn sentences(&self, input: &str) -> (r: Vec<String>)
        ensures
            views(r@) == self.spec_sentences(input@),
    ;
}

/// Splits at white space and lowercases every token; sentences end at `.\n`.
pub struct SimpleTokenizer;

impl SimpleTokenizer {
    pub fn new() -> (r: Self)
        ensures
            r == SimpleTokenizer,
    {
        SimpleTokenizer
    }
}

/// The tokens of `input` for `SimpleTokenizer`: its white-space separated
/// words, each lowercased.
pub open spec fn simple_tokens(input: Seq<char>) -> Seq<Seq<char>> {
    words_of(input).map_values(|w: Seq<char>| lowercase(w))
}

/// Law: a white-space character separates tokens: the tokens of a text
/// with a white-space character in it are the tokens before it followed by
/// the tokens after it.
pub proof fn law_tokens_split_at_space(s: Seq<char>, c: char, t: Seq<char>)
    requires
        is_white_space(c),
    ensures
        simple_tokens(s.push(c) + t) == simple_tokens(s) + simple_tokens(t),
{
    law_words_split_at_space(s, c, t);
    assert(simple_tokens(s.push(c) + t) =~= simple_tokens(s) + simple_tokens(t));
}

/// Law: a non-empty run of non-white-space characters is one token, the
/// run lowercased.
pub proof fn law_tokens_of_word(w: Seq<char>)
    requires
        is_word(w),
    ensures
        simple_tokens(w) == seq![lowercase(w)],
{
    law_words_of_word(w);
    assert(simple_tokens(w) =~= seq![lowercase(w)]);
}

/// Law: a text of white space alone has no tokens.
pub proof fn law_tokens_of_white_space(g: Seq<char>)
    requires
        all_white_space(g),
    ensures
        simple_tokens(g) == Seq::<Seq<char>>::empty(),
{
    law_words_of_white_space(g);
    assert(simple_tokens(g) =~= Seq::<Seq<char>>::empty());
}

impl TokenizerStrategie for SimpleTokenizer {
    open spec fn spec_tokenize(&self, input: Seq<char>) -> Seq<Seq<char>> {
        simple_tokens(input)
    }

    open spec fn spec_sentences(&self, input: Seq<char>) -> Seq<Seq<char>> {
        sentence_pieces(input)
    }

    fn tokenize(&self, input: &str) -> (r: Vec<String>) {
        let words = split_words(input);
        let mut r: Vec<String> = Vec::new();
        let n = words.len();
        let mut i: usize = 0;
        while i < n
            invariant
                n == words.len(),
                i <= n,
                views(words@) == words_of(input@),
                views(r@) == words_of(input@).take(i as int).map_values(
                    |w: Seq<char>| lowercase(w),
                ),
            decreases n - i,
        {
            let ghost before = r@;
            let low = to_lowercase(words[i].as_str());
            r.push(low);
            assert(views(r@) == views(before).push(low@));
            assert(words_of(input@).take(i + 1) == words_of(input@).take(i as int).push(
                words@[i as int]@,
            ));
            i = i + 1;
        }
        assert(words_of(input@).take(n as int) == words_of(input@));
        r
    }

    fn sentences(&self, input: &str) -> (r: Vec<String>) {
        split_sentences(input)
    }
}

/// A tokenizer for queries: tokens as the wrapped tokenizer makes them, and
/// the whole query as its one sentence.
pub struct QueryTokenizer<'b, T> where T: TokenizerStrategie {
    normal: &'b T,
}

impl<'b, T> QueryTokenizer<'b, T> where T: TokenizerStrategie {
    /// The tokenizer that this query tokenizer delegates tokens to.
    pub closed spec fn inner(&self) -> &'b T {
        self.normal
    }

    pub fn new(other: &'b T) -> (r: Self)
        ensures
            r.inner() == other,
    {
        QueryTokenizer { normal: other }
    }
}

impl<'b, T> TokenizerStrategie for QueryTokenizer<'b, T> where T: TokenizerStrategie {
    open spec fn spec_tokenize(&self, input: Seq<char>) -> Seq<Seq<char>> {
        self.inner().spec_tokenize(input)
    }

    open spec fn spec_sentences(&self, input: Seq<char>) -> Seq<Seq<char>> {
        seq![input]
    }

    fn tokenize(&self, input: &str) -> (r: Vec<String>) {
        self.normal.tokenize(input)
    }

    fn sentences(&self, input: &str) -> (r: Vec<String>) {
        let s = input.to_owned();
        let r = vec![s];
        assert(views(r@) == seq![input@]);
        r
    }
}

} // verus!
