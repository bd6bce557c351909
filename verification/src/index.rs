//! The non-numeric side of searching the index: which tokens a query asks
//! for, and which stored documents a search over all documents scores.

use vstd::prelude::*;
use vstd::std_specs::hash::obeys_key_model;
use std::collections::HashSet;
use std::hash::Hash;

use crate::document::{kept_words, Document};
use crate::filter::WordFilter;
use crate::storage_engine::{
    deref_documents, document_keys, index_after_remove, index_after_store, index_matches, keyed,
    law_remove_keeps_index, law_store_keeps_index, lemma_present_documents, present_documents, StorageEngine,
};
use crate::text::views;
use crate::tokenizer::TokenizerStrategie;

verus! {

/// The tokens of `query` that `filter` keeps, in order: the terms that a
/// tf-idf search over all documents scores.
pub fn query_tokens<T, F>(query: &str, tokenizer: &T, filter: &F) -> (r: Vec<String>)
    where
        T: TokenizerStrategie,
        F: WordFilter,
    ensures
        views(r@) == kept_words(tokenizer.spec_tokenize(query@), filter),
{
    let tokens = tokenizer.tokenize(query);
    let ghost toks = views(tokens@);
    let mut r: Vec<String> = Vec::new();
    let n = tokens.len();
    let mut i: usize = 0;
    while i < n
        invariant
            n == tokens.len(),
            i <= n,
            toks == views(tokens@),
            views(r@) == kept_words(toks.take(i as int), filter),
        decreases n - i,
    {
        assert(toks.take(i + 1).drop_last() == toks.take(i as int));
        assert(toks.take(i + 1).last() == tokens@[i as int]@);
        if filter.filter(tokens[i].as_str()) {
            let ghost before = r@;
            r.push(tokens[i].clone());
            assert(views(r@) == views(before).push(tokens@[i as int]@));
        }
        i = i + 1;
    }
    assert(toks.take(n as int) == toks);
    r
}

/// The stored documents that the reverse index lists for `term`, or none
/// where the term has no entry.
pub fn relevant_documents<'a, I, S>(storage: &'a S, term: &str) -> (r: Vec<&'a Document<I>>)
    where
        S: StorageEngine<I>,
    requires
        storage.consistent(),
    ensures
        storage.reverse_index().contains_key(term@) ==> exists|ids: Seq<I>|
            {
                &&& ids.no_duplicates()
                &&& ids.to_set() == storage.reverse_index()[term@]
                &&& #[trigger] deref_documents(r@) == present_documents(
                    ids,
                    storage.stored(),
                )
            },
        !storage.reverse_index().contains_key(term@) ==> r@.len() == 0,
{
    match storage.get_reverse_documents(term) {
        Ok(docs) => docs,
        Err(_) => Vec::new(),
    }
}

/// `x` is stored under an id that the reverse index lists for one of the
/// tokens `toks`.
pub open spec fn listed_for_one_of<I>(
    docs: Map<I, Document<I>>,
    rev: Map<Seq<char>, Set<I>>,
    toks: Seq<Seq<char>>,
    x: Document<I>,
) -> bool {
    exists|j: int, id: I|
        #![trigger rev[toks[j]].contains(id)]
        0 <= j < toks.len() && rev.contains_key(toks[j]) && rev[toks[j]].contains(id) && docs.contains_key(id)
            && docs[id] == x
}

/// `d` has one of the words `toks`.
pub open spec fn has_one_of<I>(d: Document<I>, toks: Seq<Seq<char>>) -> bool {
    exists|j: int| 0 <= j < toks.len() && d.word_set().contains(#[trigger] toks[j])
}

/// Lemma: the documents that a lookup of `toks[j]` yields are listed for
/// one of `toks`.
proof fn lemma_lookup_listed<I>(
    found: Seq<Document<I>>,
    ids: Seq<I>,
    docs: Map<I, Document<I>>,
    rev: Map<Seq<char>, Set<I>>,
    toks: Seq<Seq<char>>,
    j: int,
)
    requires
        0 <= j < toks.len(),
        rev.contains_key(toks[j]),
        ids.to_set() == rev[toks[j]],
        found == present_documents(ids, docs),
    ensures
        forall|q: int| 0 <= q < found.len() ==> listed_for_one_of(docs, rev, toks, #[trigger] found[q]),
{
    lemma_present_documents(ids, docs);
    assert forall|q: int| 0 <= q < found.len() implies listed_for_one_of(docs, rev, toks, #[trigger] found[q]) by {
        assert(crate::storage_engine::stored_under_one_of(ids, docs, found[q]));
        let p = choose|p: int| 0 <= p < ids.len() && docs.contains_key(#[trigger] ids[p]) && found[q] == docs[ids[p]];
        assert(ids.to_set().contains(ids[p]));
        assert(rev[toks[j]].contains(ids[p]));
    }
}

/// The stored documents that a search over all documents for `query`
/// scores: for each token of the query that `filter` keeps, the documents
/// that the reverse index lists for it; each document once (where the
/// lookups yield it again, its first appearance is kept).
pub fn query_documents<'a, I, S, T, F>(storage: &'a S, query: &str, tokenizer: &T, filter: &F) -> (r: Vec<
    &'a Document<I>,
>)
    where
        I: Copy + Eq + Hash,
        S: StorageEngine<I>,
        T: TokenizerStrategie,
        F: WordFilter,
    requires
        storage.consistent(),
        obeys_key_model::<I>(),
    ensures
        document_keys(deref_documents(r@)).no_duplicates(),
        forall|i: int|
            0 <= i < r@.len() ==> listed_for_one_of(
                storage.stored(),
                storage.reverse_index(),
                kept_words(tokenizer.spec_tokenize(query@), filter),
                *#[trigger] r@[i],
            ),
        keyed(storage.stored()) ==> forall|i: int|
            0 <= i < r@.len() ==> storage.stored().contains_key((*#[trigger] r@[i]).key()) && storage.stored()[(
            *r@[i]).key()] == *r@[i],
        index_matches(storage.stored(), storage.reverse_index()) && keyed(storage.stored()) ==> forall|id: I|
            #[trigger] storage.stored().contains_key(id) ==> (deref_documents(r@).contains(storage.stored()[id])
                <==> has_one_of(storage.stored()[id], kept_words(tokenizer.spec_tokenize(query@), filter))),
{
    let tokens = query_tokens(query, tokenizer, filter);
    let ghost toks = views(tokens@);
    let ghost docs = storage.stored();
    let ghost rev = storage.reverse_index();
    let ghost exact = index_matches(docs, rev) && keyed(docs);
    let mut seen: HashSet<I> = HashSet::new();
    let mut r: Vec<&'a Document<I>> = Vec::new();
    let n = tokens.len();
    let mut i: usize = 0;
    while i < n
        invariant
            storage.consistent(),
            obeys_key_model::<I>(),
            n == tokens.len(),
            i <= n,
            toks == views(tokens@),
            docs == storage.stored(),
            rev == storage.reverse_index(),
            exact == (index_matches(docs, rev) && keyed(docs)),
            document_keys(deref_documents(r@)).no_duplicates(),
            seen@ == document_keys(deref_documents(r@)).to_set(),
            forall|q: int| 0 <= q < r@.len() ==> listed_for_one_of(docs, rev, toks, *#[trigger] r@[q]),
            exact ==> forall|j: int, id: I|
                0 <= j < i && docs.contains_key(id) && #[trigger] docs[id].word_set().contains(toks[j])
                    ==> seen@.contains(id),
        decreases n - i,
    {
        let ghost tok = toks[i as int];
        assert(tokens[i as int]@ == tok);
        match storage.get_reverse_documents(tokens[i].as_str()) {
            Ok(v) => {
                let ghost found = deref_documents(v@);
                proof {
                    let ids = choose|ids: Seq<I>|
                        {
                            &&& ids.no_duplicates()
                            &&& ids.to_set() == rev[tok]
                            &&& #[trigger] deref_documents(v@) == present_documents(ids, docs)
                        };
                    lemma_lookup_listed(found, ids, docs, rev, toks, i as int);
                }
                let m = v.len();
                let mut k: usize = 0;
                while k < m
                    invariant
                        obeys_key_model::<I>(),
                        m == v.len(),
                        k <= m,
                        found == deref_documents(v@),
                        forall|q: int| 0 <= q < found.len() ==> listed_for_one_of(docs, rev, toks, #[trigger] found[q]),
                        document_keys(deref_documents(r@)).no_duplicates(),
                        seen@ == document_keys(deref_documents(r@)).to_set(),
                        forall|q: int| 0 <= q < r@.len() ==> listed_for_one_of(docs, rev, toks, *#[trigger] r@[q]),
                        forall|q: int| 0 <= q < k ==> seen@.contains(#[trigger] found[q].key()),
                        exact ==> forall|j: int, id: I|
                            0 <= j < i && docs.contains_key(id) && #[trigger] docs[id].word_set().contains(toks[j])
                                ==> seen@.contains(id),
                    decreases m - k,
                {
                    let d = v[k];
                    let key: I = *d.id;
                    assert(found[k as int] == *d);
                    if !seen.contains(&key) {
                        let ghost before = r@;
                        seen.insert(key);
                        r.push(d);
                        assert(deref_documents(r@) == deref_documents(before).push(*d));
                        assert(document_keys(deref_documents(r@)) == document_keys(deref_documents(before)).push(key));
                        assert(document_keys(deref_documents(r@)).to_set() == document_keys(deref_documents(before)).to_set().insert(key)) by {
                            document_keys(deref_documents(before)).lemma_push_to_set_commute(key);
                        }
                        assert(r@[r@.len() - 1] == d);
                    }
                    k = k + 1;
                }
                proof {
                    if exact {
                        assert forall|j: int, id: I|
                            0 <= j < i + 1 && docs.contains_key(id) && #[trigger] docs[id].word_set().contains(toks[j])
                            implies seen@.contains(id) by {
                            if j == i {
                                assert(found.contains(docs[id]));
                                let q = choose|q: int| 0 <= q < found.len() && found[q] == docs[id];
                                assert(seen@.contains(found[q].key()));
                            }
                        }
                    }
                }
            },
            Err(_) => {},
        }
        i = i + 1;
    }
    proof {
        if exact {
            lemma_query_exact(deref_documents(r@), seen@, docs, rev, toks);
        }
        assert forall|q: int| 0 <= q < r@.len() implies listed_for_one_of(docs, rev, toks, *#[trigger] r@[q]) by {}
        if keyed(docs) {
            assert forall|q: int| 0 <= q < r@.len() implies docs.contains_key((*#[trigger] r@[q]).key())
                && docs[(*r@[q]).key()] == *r@[q] by {
                assert(listed_for_one_of(docs, rev, toks, *r@[q]));
                let (j, id) = choose|j: int, id: I|
                    #![trigger rev[toks[j]].contains(id)]
                    0 <= j < toks.len() && rev.contains_key(toks[j]) && rev[toks[j]].contains(id) && docs.contains_key(id)
                        && docs[id] == *r@[q];
                assert(docs[id].key() == id);
            }
        }
    }
    r
}

/// Lemma: where the index agrees with the stored documents and each stored
/// document sits under its own id, documents listed for one of `toks`
/// whose ids cover every stored document with one of the words are exactly
/// the stored documents with one of the words.
proof fn lemma_query_exact<I>(
    found: Seq<Document<I>>,
    seen: Set<I>,
    docs: Map<I, Document<I>>,
    rev: Map<Seq<char>, Set<I>>,
    toks: Seq<Seq<char>>,
)
    requires
        index_matches(docs, rev),
        keyed(docs),
        seen == document_keys(found).to_set(),
        forall|q: int| 0 <= q < found.len() ==> listed_for_one_of(docs, rev, toks, #[trigger] found[q]),
        forall|j: int, id: I|
            0 <= j < toks.len() && docs.contains_key(id) && #[trigger] docs[id].word_set().contains(toks[j])
                ==> seen.contains(id),
    ensures
        forall|id: I|
            #[trigger] docs.contains_key(id) ==> (found.contains(docs[id]) <==> has_one_of(docs[id], toks)),
{
    assert forall|id: I| #[trigger] docs.contains_key(id) implies (found.contains(docs[id]) <==> has_one_of(
        docs[id],
        toks,
    )) by {
        if found.contains(docs[id]) {
            let q = choose|q: int| 0 <= q < found.len() && found[q] == docs[id];
            assert(listed_for_one_of(docs, rev, toks, found[q]));
            let (j, id2) = choose|j: int, id2: I|
                #![trigger rev[toks[j]].contains(id2)]
                0 <= j < toks.len() && rev.contains_key(toks[j]) && rev[toks[j]].contains(id2) && docs.contains_key(id2)
                    && docs[id2] == found[q];
            assert(docs[id2].word_set().contains(toks[j]));
        }
        if has_one_of(docs[id], toks) {
            let j = choose|j: int| 0 <= j < toks.len() && docs[id].word_set().contains(#[trigger] toks[j]);
            assert(seen.contains(id));
            let q = choose|q: int| 0 <= q < document_keys(found).len() && document_keys(found)[q] == id;
            assert(found[q].key() == id);
            assert(listed_for_one_of(docs, rev, toks, found[q]));
            let (j2, id2) = choose|j2: int, id2: I|
                #![trigger rev[toks[j2]].contains(id2)]
                0 <= j2 < toks.len() && rev.contains_key(toks[j2]) && rev[toks[j2]].contains(id2) && docs.contains_key(id2)
                    && docs[id2] == found[q];
            assert(docs[id2].key() == id2);
            assert(found[q] == docs[id]);
        }
    }
}

/// Law: once a document is inserted into a storage whose reverse index
/// agrees with its documents, the index still agrees, the document is
/// stored under its id, and it has one of the words of any query that
/// keeps one of its words; so `query_documents` finds it.
pub proof fn law_insert_then_query<I>(
    docs: Map<I, Document<I>>,
    rev: Map<Seq<char>, Set<I>>,
    d: Document<I>,
    toks: Seq<Seq<char>>,
)
    requires
        index_matches(docs, rev),
        keyed(docs),
        has_one_of(d, toks),
    ensures
        index_matches(docs.insert(d.key(), d), index_after_store(rev, docs, d)),
        keyed(docs.insert(d.key(), d)),
        docs.insert(d.key(), d).contains_key(d.key()),
        has_one_of(docs.insert(d.key(), d)[d.key()], toks),
{
    law_store_keeps_index(docs, rev, d);
}

/// Law: once the document stored under `id` is removed from a storage whose
/// reverse index agrees with its documents, the index still agrees and
/// nothing is stored under `id`; so no document that `query_documents`
/// finds has that id.
pub proof fn law_remove_then_query<I>(docs: Map<I, Document<I>>, rev: Map<Seq<char>, Set<I>>, id: I)
    requires
        index_matches(docs, rev),
        keyed(docs),
        docs.contains_key(id),
    ensures
        index_matches(docs.remove(id), index_after_remove(rev, docs[id].word_set(), id)),
        keyed(docs.remove(id)),
        !docs.remove(id).contains_key(id),
{
    law_remove_keeps_index(docs, rev, id);
}

} // verus!
