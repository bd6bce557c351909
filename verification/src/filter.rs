//! Word filters: which words of a text are kept for counting.

use vstd::prelude::*;
use vstd::hash_map::StringHashMap;

use crate::text::{lines_of, lowercase, split_lines, to_lowercase, trim, trimmed, views};

verus! {

/// Filter definition to filter out useless or bad words.
pub trait WordFilter {
    /// Whether this filter keeps the word `input`.
    spec fn spec_filter(&self, input: Seq<char>) -> bool;

    /// Filter a token: `true` keeps it.
    fn filter(&self, input: &str) -> (r: bool)
        ensures
            r == self.spec_filter(input@),
    ;
}

/// A filter that drops every word of a list of forbidden words.
pub struct SimpleWordFilter {
    forbidden_words: StringHashMap<()>,
}

/// The forbidden words that a word list file names: each of its lines,
/// trimmed of white space and lowercased.
pub open spec fn forbidden_of(words_file: Seq<char>) -> Set<Seq<char>> {
    lines_of(words_file).map_values(|l: Seq<char>| lowercase(trimmed(l))).to_set()
}

impl SimpleWordFilter {
    /// The set of forbidden words.
    pub closed spec fn forbidden(&self) -> Set<Seq<char>> {
        self.forbidden_words@.dom()
    }

    /// A filter whose forbidden words are the lines of `words_file` (the
    /// text of a word list file), each trimmed and lowercased.
    pub fn from_words(words_file: &str) -> (r: Self)
        ensures
            r.forbidden() == forbidden_of(words_file@),
            forall|i: int|
                0 <= i < lines_of(words_file@).len() ==> !r.spec_filter(
                    lowercase(trimmed(#[trigger] lines_of(words_file@)[i])),
                ),
            forall|x: Seq<char>|
                !r.spec_filter(x) ==> exists|i: int|
                    0 <= i < lines_of(words_file@).len() && x == lowercase(trimmed(#[trigger] lines_of(words_file@)[i])),
    {
        let lines = split_lines(words_file);
        let ghost target = lines_of(words_file@).map_values(|l: Seq<char>| lowercase(trimmed(l)));
        let mut forbidden_words: StringHashMap<()> = StringHashMap::new();
        let n = lines.len();
        let mut i: usize = 0;
        while i < n
            invariant
                n == lines.len(),
                i <= n,
                views(lines@) == lines_of(words_file@),
                target == lines_of(words_file@).map_values(|l: Seq<char>| lowercase(trimmed(l))),
                forbidden_words@.dom() == target.take(i as int).to_set(),
            decreases n - i,
        {
            let t = trim(lines[i].as_str());
            let w = to_lowercase(t.as_str());
            assert(w@ == target[i as int]);
            forbidden_words.insert(w, ());
            assert(target.take(i + 1) == target.take(i as int).push(target[i as int]));
            proof {
                target.take(i as int).lemma_push_to_set_commute(target[i as int]);
            }
            i = i + 1;
        }
        assert(target.take(n as int) == target);
        let r = SimpleWordFilter { forbidden_words };
        proof {
            law_filter_forbids_lines(r, words_file@);
        }
        r
    }
}

/// Law: a filter made from a word list drops exactly the lines of the list,
/// each trimmed and lowercased: it drops the word of every line, and every
/// word that it drops is the word of some line.
pub proof fn law_filter_forbids_lines(f: SimpleWordFilter, words_file: Seq<char>)
    requires
        f.forbidden() == forbidden_of(words_file),
    ensures
        forall|i: int|
            0 <= i < lines_of(words_file).len() ==> !f.spec_filter(lowercase(trimmed(#[trigger] lines_of(words_file)[i]))),
        forall|x: Seq<char>|
            !f.spec_filter(x) ==> exists|i: int|
                0 <= i < lines_of(words_file).len() && x == lowercase(trimmed(#[trigger] lines_of(words_file)[i])),
{
    let ls = lines_of(words_file);
    let ws = ls.map_values(|l: Seq<char>| lowercase(trimmed(l)));
    assert forall|i: int| 0 <= i < ls.len() implies !f.spec_filter(lowercase(trimmed(#[trigger] ls[i]))) by {
        assert(ws[i] == lowercase(trimmed(ls[i])));
        assert(ws.contains(ws[i]));
    }
    assert forall|x: Seq<char>| !f.spec_filter(x) implies exists|i: int|
        0 <= i < ls.len() && x == lowercase(trimmed(#[trigger] ls[i])) by {
        assert(ws.to_set().contains(x));
        let i = choose|i: int| 0 <= i < ws.len() && ws[i] == x;
        assert(x == lowercase(trimmed(ls[i])));
    }
}

impl WordFilter for SimpleWordFilter {
    open spec fn spec_filter(&self, input: Seq<char>) -> bool {
        !self.forbidden().contains(input)
    }

    fn filter(&self, input: &str) -> (r: bool) {
        !self.forbidden_words.contains_key(input)
    }
}

/// A filter that keeps every word.
pub struct EmptyWordFilter {}

impl WordFilter for EmptyWordFilter {
    open spec fn spec_filter(&self, input: Seq<char>) -> bool {
        true
    }

    fn filter(&self, _input: &str) -> (r: bool)
        ensures
            r,
    {
        true
    }
}

} // verus!
