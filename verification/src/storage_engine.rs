//! Storage engines: documents by id, and a reverse index from each token to
//! the ids of the documents that contain it.

use vstd::prelude::*;
use vstd::hash_map::StringHashMap;
use vstd::std_specs::hash::{obeys_key_model, spec_hash_keys_iter, spec_hash_map_iter};
use vstd::std_specs::iter::IteratorSpec;
use std::collections::{HashMap, HashSet};
use std::hash::Hash;
use std::sync::Arc;

use crate::document::{word_keys, Document};

verus! {

/// Why a storage request was refused.
#[derive(Debug, PartialEq, Eq, Structural, Clone, Copy)]
pub enum StorageError {
    /// No document is stored under the requested id.
    DocumentNotFound,
    /// The reverse index has no entry for the requested token.
    TokenNotFound,
}

/// The reverse index after a document with id `id` and word set `words` is
/// indexed: the entry of every word of it holds `id` (a new word gets a new
/// entry); other entries are unchanged.
pub open spec fn index_after_insert<I>(
    rev: Map<Seq<char>, Set<I>>,
    words: Set<Seq<char>>,
    id: I,
) -> Map<Seq<char>, Set<I>> {
    Map::new(
        |k: Seq<char>| rev.contains_key(k) || words.contains(k),
        |k: Seq<char>|
            if words.contains(k) {
                if rev.contains_key(k) {
                    rev[k].insert(id)
                } else {
                    set![id]
                }
            } else {
                rev[k]
            },
    )
}

/// The reverse index after the document with id `id` and word set `words`
/// is taken out: the entries of its words no longer hold `id`; every token
/// keeps its entry, even where it becomes empty.
pub open spec fn index_after_remove<I>(
    rev: Map<Seq<char>, Set<I>>,
    words: Set<Seq<char>>,
    id: I,
) -> Map<Seq<char>, Set<I>> {
    Map::new(
        |k: Seq<char>| rev.contains_key(k),
        |k: Seq<char>|
            if words.contains(k) {
                rev[k].remove(id)
            } else {
                rev[k]
            },
    )
}

/// The reverse index after `d` is stored under its id, given the stored
/// documents `docs`: the id of a document it replaces is first taken out of
/// the entries of that document's words, then the id is listed in the entry
/// of each word of `d`.
pub open spec fn index_after_store<I>(
    rev: Map<Seq<char>, Set<I>>,
    docs: Map<I, Document<I>>,
    d: Document<I>,
) -> Map<Seq<char>, Set<I>> {
    index_after_insert(
        if docs.contains_key(d.key()) {
            index_after_remove(rev, docs[d.key()].word_set(), d.key())
        } else {
            rev
        },
        d.word_set(),
        d.key(),
    )
}

/// The reverse index agrees with the stored documents: a token's entry
/// lists an id exactly when a document is stored under that id and has that
/// word.
pub open spec fn index_matches<I>(docs: Map<I, Document<I>>, rev: Map<Seq<char>, Set<I>>) -> bool {
    &&& forall|k: Seq<char>, id: I|
        #![trigger rev[k].contains(id)]
        rev.contains_key(k) && rev[k].contains(id) ==> docs.contains_key(id) && docs[id].word_set().contains(k)
    &&& forall|k: Seq<char>, id: I|
        #![trigger docs[id].word_set().contains(k)]
        docs.contains_key(id) && docs[id].word_set().contains(k) ==> rev.contains_key(k) && rev[k].contains(id)
}

/// Each stored document sits under its own id.
pub open spec fn keyed<I>(docs: Map<I, Document<I>>) -> bool {
    forall|id: I| #[trigger] docs.contains_key(id) ==> docs[id].key() == id
}

/// The ids of a sequence of documents.
pub open spec fn document_keys<I>(ds: Seq<Document<I>>) -> Seq<I> {
    ds.map_values(|d: Document<I>| d.key())
}

/// The documents stored under the ids of `ids` that are stored, in the
/// order of `ids`.
pub open spec fn present_documents<I>(ids: Seq<I>, docs: Map<I, Document<I>>) -> Seq<Document<I>>
    decreases ids.len(),
{
    if ids.len() == 0 {
        seq![]
    } else if docs.contains_key(ids.last()) {
        present_documents(ids.drop_last(), docs).push(docs[ids.last()])
    } else {
        present_documents(ids.drop_last(), docs)
    }
}

/// `d` is stored under some id.
pub open spec fn is_stored<I>(docs: Map<I, Document<I>>, d: Document<I>) -> bool {
    exists|id: I| #[trigger] docs.contains_key(id) && docs[id] == d
}

/// `found` holds exactly the stored documents that have the word `w`: each
/// of its documents is stored and has `w`, and each stored document with
/// `w` is in it.
pub open spec fn holds_documents_with<I>(found: Seq<Document<I>>, docs: Map<I, Document<I>>, w: Seq<char>) -> bool {
    &&& forall|i: int| 0 <= i < found.len() ==> is_stored(docs, #[trigger] found[i])
    &&& forall|i: int| 0 <= i < found.len() ==> (#[trigger] found[i]).word_set().contains(w)
    &&& forall|id: I| #[trigger] docs.contains_key(id) && docs[id].word_set().contains(w) ==> found.contains(docs[id])
}

/// `x` is the document stored under one of the stored ids of `ids`.
pub open spec fn stored_under_one_of<I>(ids: Seq<I>, docs: Map<I, Document<I>>, x: Document<I>) -> bool {
    exists|j: int| 0 <= j < ids.len() && docs.contains_key(#[trigger] ids[j]) && x == docs[ids[j]]
}

/// Lemma: the present documents of `ids` are the documents stored under
/// its stored ids.
pub proof fn lemma_present_documents<I>(ids: Seq<I>, docs: Map<I, Document<I>>)
    ensures
        forall|i: int|
            0 <= i < present_documents(ids, docs).len() ==> stored_under_one_of(
                ids,
                docs,
                #[trigger] present_documents(ids, docs)[i],
            ),
        forall|j: int|
            0 <= j < ids.len() && docs.contains_key(#[trigger] ids[j]) ==> present_documents(ids, docs).contains(
                docs[ids[j]],
            ),
    decreases ids.len(),
{
    if ids.len() > 0 {
        let dl = ids.drop_last();
        let p = present_documents(dl, docs);
        let q = present_documents(ids, docs);
        lemma_present_documents(dl, docs);
        assert forall|i: int| 0 <= i < q.len() implies stored_under_one_of(ids, docs, #[trigger] q[i]) by {
            if i < p.len() {
                assert(q[i] == p[i]);
                assert(stored_under_one_of(dl, docs, p[i]));
                let j = choose|j: int| 0 <= j < dl.len() && docs.contains_key(#[trigger] dl[j]) && p[i] == docs[dl[j]];
                assert(ids[j] == dl[j]);
            } else {
                let j = ids.len() - 1;
                assert(q[i] == docs[ids[j]]);
                assert(docs.contains_key(ids[j]));
            }
        }
        assert forall|j: int| 0 <= j < ids.len() && docs.contains_key(#[trigger] ids[j]) implies q.contains(docs[ids[j]]) by {
            if j < dl.len() {
                assert(dl[j] == ids[j]);
                assert(p.contains(docs[dl[j]]));
                let i = choose|i: int| 0 <= i < p.len() && p[i] == docs[dl[j]];
                assert(q[i] == p[i]);
            } else {
                assert(q[q.len() - 1] == docs[ids[j]]);
            }
        }
    }
}

/// Lemma: where each stored document sits under its own id, the present
/// documents of ids listed once have distinct ids, each of them one of
/// `ids`.
pub proof fn lemma_present_keys<I>(ids: Seq<I>, docs: Map<I, Document<I>>)
    requires
        keyed(docs),
        ids.no_duplicates(),
    ensures
        document_keys(present_documents(ids, docs)).no_duplicates(),
        forall|i: int|
            0 <= i < present_documents(ids, docs).len() ==> ids.contains(
                (#[trigger] present_documents(ids, docs)[i]).key(),
            ),
    decreases ids.len(),
{
    if ids.len() > 0 {
        let dl = ids.drop_last();
        let p = present_documents(dl, docs);
        let q = present_documents(ids, docs);
        assert(dl.no_duplicates());
        lemma_present_keys(dl, docs);
        assert forall|i: int| 0 <= i < q.len() implies ids.contains((#[trigger] q[i]).key()) by {
            if i < p.len() {
                assert(q[i] == p[i]);
                let j = choose|j: int| 0 <= j < dl.len() && dl[j] == p[i].key();
                assert(ids[j] == dl[j]);
            } else {
                assert(ids[ids.len() - 1] == q[i].key());
            }
        }
        if docs.contains_key(ids.last()) {
            let kp = document_keys(p);
            let kq = document_keys(q);
            assert forall|a: int, b: int| 0 <= a < kq.len() && 0 <= b < kq.len() && a != b implies kq[a] != kq[b] by {
                if a < p.len() && b < p.len() {
                    assert(kq[a] == kp[a] && kq[b] == kp[b]);
                } else if a < p.len() {
                    let j = choose|j: int| 0 <= j < dl.len() && dl[j] == p[a].key();
                    assert(kq[a] == dl[j]);
                    assert(ids[j] == dl[j]);
                    assert(kq[b] == ids.last());
                } else {
                    let j = choose|j: int| 0 <= j < dl.len() && dl[j] == p[b].key();
                    assert(kq[b] == dl[j]);
                    assert(ids[j] == dl[j]);
                    assert(kq[a] == ids.last());
                }
            }
        } else {
            assert(document_keys(q) == document_keys(p));
        }
    }
}

/// Lemma: where the index agrees with the stored documents, the present
/// documents of an enumeration of a token's entry are exactly the stored
/// documents with that word.
pub proof fn lemma_lookup_exact<I>(ids: Seq<I>, docs: Map<I, Document<I>>, rev: Map<Seq<char>, Set<I>>, w: Seq<char>)
    requires
        index_matches(docs, rev),
        rev.contains_key(w),
        ids.to_set() == rev[w],
    ensures
        holds_documents_with(present_documents(ids, docs), docs, w),
{
    lemma_present_documents(ids, docs);
    let q = present_documents(ids, docs);
    assert forall|i: int| 0 <= i < q.len() implies (#[trigger] q[i]).word_set().contains(w) by {
        assert(stored_under_one_of(ids, docs, q[i]));
        let j = choose|j: int| 0 <= j < ids.len() && docs.contains_key(#[trigger] ids[j]) && q[i] == docs[ids[j]];
        assert(ids.to_set().contains(ids[j]));
        assert(rev[w].contains(ids[j]));
    }
    assert forall|i: int| 0 <= i < q.len() implies is_stored(docs, #[trigger] q[i]) by {
        assert(stored_under_one_of(ids, docs, q[i]));
        let j = choose|j: int| 0 <= j < ids.len() && docs.contains_key(#[trigger] ids[j]) && q[i] == docs[ids[j]];
        assert(docs.contains_key(ids[j]));
    }
    assert forall|id: I| #[trigger] docs.contains_key(id) && docs[id].word_set().contains(w) implies q.contains(docs[id]) by {
        assert(rev[w].contains(id));
        assert(ids.to_set().contains(id));
        let j = choose|j: int| 0 <= j < ids.len() && ids[j] == id;
        assert(docs.contains_key(ids[j]));
    }
}

/// The documents of a sequence of document references.
pub open spec fn deref_documents<I>(v: Seq<&Document<I>>) -> Seq<Document<I>> {
    v.map_values(|d: &Document<I>| *d)
}

/// Lemma: indexing a document's words one after another indexes their set.
proof fn lemma_index_after_insert_step<I>(
    rev: Map<Seq<char>, Set<I>>,
    words: Set<Seq<char>>,
    w: Seq<char>,
    id: I,
)
    ensures
        index_after_insert(index_after_insert(rev, words, id), set![w], id) == index_after_insert(
            rev,
            words.insert(w),
            id,
        ),
{
    let lhs = index_after_insert(index_after_insert(rev, words, id), set![w], id);
    let rhs = index_after_insert(rev, words.insert(w), id);
    assert forall|k: Seq<char>| #[trigger] lhs.contains_key(k) implies lhs[k] == rhs[k] by {
        if k == w {
            if words.contains(k) && rev.contains_key(k) {
                assert(lhs[k] =~= rev[k].insert(id));
            } else if words.contains(k) {
                assert(lhs[k] =~= set![id]);
            }
        }
    }
    assert(lhs =~= rhs);
}

/// Lemma: taking a document's words out one after another takes out their
/// set.
proof fn lemma_index_after_remove_step<I>(
    rev: Map<Seq<char>, Set<I>>,
    words: Set<Seq<char>>,
    w: Seq<char>,
    id: I,
)
    ensures
        index_after_remove(index_after_remove(rev, words, id), set![w], id) == index_after_remove(
            rev,
            words.insert(w),
            id,
        ),
{
    let lhs = index_after_remove(index_after_remove(rev, words, id), set![w], id);
    let rhs = index_after_remove(rev, words.insert(w), id);
    assert forall|k: Seq<char>| #[trigger] lhs.contains_key(k) implies lhs[k] == rhs[k] by {
        if k == w && words.contains(k) {
            assert(lhs[k] =~= rev[k].remove(id));
        }
    }
    assert(lhs =~= rhs);
}

/// The map that a list of key-value pairs builds when they are inserted in
/// order (a later pair for a key replaces an earlier one).
pub open spec fn map_of_pairs<K, V>(pairs: Seq<(K, V)>) -> Map<K, V>
    decreases pairs.len(),
{
    if pairs.len() == 0 {
        Map::empty()
    } else {
        map_of_pairs(pairs.drop_last()).insert(pairs.last().0, pairs.last().1)
    }
}

/// Lemma: the map that a list of pairs builds is finite.
pub proof fn lemma_map_of_pairs_finite<K, V>(pairs: Seq<(K, V)>)
    ensures
        map_of_pairs(pairs).dom().finite(),
    decreases pairs.len(),
{
    if pairs.len() > 0 {
        lemma_map_of_pairs_finite(pairs.drop_last());
    }
}

/// The keys of a list of key-value pairs.
pub open spec fn pair_keys<K, V>(pairs: Seq<(K, V)>) -> Seq<K> {
    pairs.map_values(|p: (K, V)| p.0)
}

/// Reverse-index entries as token and set of ids.
pub open spec fn entry_sets<I>(entries: Seq<(String, Vec<I>)>) -> Seq<(Seq<char>, Set<I>)> {
    entries.map_values(|e: (String, Vec<I>)| (e.0@, e.1@.to_set()))
}

/// Listed documents as id and document.
pub open spec fn listed_documents<I>(pairs: Seq<(I, &Document<I>)>) -> Seq<(I, Document<I>)> {
    pairs.map_values(|p: (I, &Document<I>)| (p.0, *p.1))
}

/// Lemma: the keys of the map that pairs build are the keys of the pairs;
/// where the keys are distinct, each pair's value is its key's value.
pub proof fn lemma_map_of_pairs<K, V>(pairs: Seq<(K, V)>)
    ensures
        forall|k: K| #[trigger] map_of_pairs(pairs).contains_key(k) <==> pair_keys(pairs).contains(k),
        pair_keys(pairs).no_duplicates() ==> forall|i: int|
            0 <= i < pairs.len() ==> #[trigger] map_of_pairs(pairs)[pairs[i].0] == pairs[i].1,
    decreases pairs.len(),
{
    if pairs.len() > 0 {
        let rest = pairs.drop_last();
        let last = pairs.len() - 1;
        lemma_map_of_pairs(rest);
        assert(pair_keys(rest) == pair_keys(pairs).drop_last());
        assert(pair_keys(pairs)[last] == pairs[last].0);
        assert forall|k: K| #[trigger] map_of_pairs(pairs).contains_key(k) <==> pair_keys(pairs).contains(k) by {
            assert(map_of_pairs(rest).contains_key(k) <==> pair_keys(rest).contains(k));
            if pair_keys(rest).contains(k) {
                let q = choose|q: int| 0 <= q < pair_keys(rest).len() && pair_keys(rest)[q] == k;
                assert(pair_keys(pairs)[q] == k);
            }
            if pair_keys(pairs).contains(k) && k != pairs[last].0 {
                let q = choose|q: int| 0 <= q < pair_keys(pairs).len() && pair_keys(pairs)[q] == k;
                assert(pair_keys(rest)[q] == k);
            }
        }
        if pair_keys(pairs).no_duplicates() {
            assert forall|i: int| 0 <= i < pairs.len() implies #[trigger] map_of_pairs(pairs)[pairs[i].0] == pairs[i].1 by {
                if i < last {
                    assert(pair_keys(pairs)[i] == pairs[i].0);
                    assert(pairs[i].0 != pairs[last].0);
                    assert(rest[i] == pairs[i]);
                    assert(map_of_pairs(rest)[rest[i].0] == rest[i].1);
                }
            }
        }
    }
}

/// `pairs` lists exactly the entries of `m`, each key once.
pub open spec fn lists_exactly<K, V>(pairs: Seq<(K, V)>, m: Map<K, V>) -> bool {
    &&& pair_keys(pairs).no_duplicates()
    &&& forall|i: int| 0 <= i < pairs.len() ==> #[trigger] m.contains_key(pairs[i].0) && m[pairs[i].0] == pairs[i].1
    &&& forall|k: K| #[trigger] m.contains_key(k) ==> pair_keys(pairs).contains(k)
}

/// Lemma: pairs that list exactly the entries of `m` build `m`.
pub proof fn lemma_map_of_pairs_lists<K, V>(pairs: Seq<(K, V)>, m: Map<K, V>)
    requires
        lists_exactly(pairs, m),
    ensures
        map_of_pairs(pairs) == m,
{
    lemma_map_of_pairs(pairs);
    assert forall|k: K| #[trigger] map_of_pairs(pairs).contains_key(k) <==> m.contains_key(k) by {
        if pair_keys(pairs).contains(k) {
            let q = choose|q: int| 0 <= q < pair_keys(pairs).len() && pair_keys(pairs)[q] == k;
            assert(pairs[q].0 == k);
            assert(m.contains_key(pairs[q].0));
        }
    }
    assert forall|k: K| #[trigger] map_of_pairs(pairs).contains_key(k) implies map_of_pairs(pairs)[k] == m[k] by {
        let q = choose|q: int| 0 <= q < pair_keys(pairs).len() && pair_keys(pairs)[q] == k;
        assert(pairs[q].0 == k);
        assert(map_of_pairs(pairs)[pairs[q].0] == pairs[q].1);
        assert(m.contains_key(pairs[q].0) && m[pairs[q].0] == pairs[q].1);
    }
    assert(map_of_pairs(pairs) =~= m);
}

/// Defines a storage container that may be used to store documents, with a
/// reverse index from tokens to the ids of the documents that contain them.
pub trait StorageEngine<I>: Sized {
    /// The stored documents, by id.
    spec fn stored(&self) -> Map<I, Document<I>>;

    /// The reverse index: for each token, the ids listed for it.
    spec fn reverse_index(&self) -> Map<Seq<char>, Set<I>>;

    /// The engine's internal consistency, which every operation keeps.
    spec fn consistent(&self) -> bool;

    /// Insert a single document into the storage engine, replacing any
    /// document stored under its id. Also this will update the reverse
    /// index: the replaced document's words no longer list the id, the new
    /// document's words do.
    fn insert_document(&mut self, value: Document<I>) -> (r: Result<(), StorageError>)
        requires
            old(self).consistent(),
        ensures
            final(self).consistent(),
            r is Ok,
            final(self).stored() == old(self).stored().insert(*value.id, value),
            final(self).reverse_index() == index_after_store(
                old(self).reverse_index(),
                old(self).stored(),
                value,
            ),
    ;

    /// Deletes a document from the storage engine and returns it.
    /// Also, this will delete the entry from the reverse index.
    fn remove_document(&mut self, key: Arc<I>) -> (r: Result<Document<I>, StorageError>)
        requires
            old(self).consistent(),
        ensures
            final(self).consistent(),
            old(self).stored().contains_key(*key) ==> {
                &&& r == Ok::<Document<I>, StorageError>(old(self).stored()[*key])
                &&& final(self).stored() == old(self).stored().remove(*key)
                &&& final(self).reverse_index() == index_after_remove(
                    old(self).reverse_index(),
                    old(self).stored()[*key].word_set(),
                    *key,
                )
            },
            !old(self).stored().contains_key(*key) ==> {
                &&& r == Err::<Document<I>, StorageError>(StorageError::DocumentNotFound)
                &&& final(self).stored() == old(self).stored()
                &&& final(self).reverse_index() == old(self).reverse_index()
            },
    ;

    /// Get a document from the storage engine.
    fn get_document(&self, key: Arc<I>) -> (r: Result<&Document<I>, StorageError>)
        requires
            self.consistent(),
        ensures
            match r {
                Ok(d) => self.stored().contains_key(*key) && *d == self.stored()[*key],
                Err(e) => !self.stored().contains_key(*key) && e == StorageError::DocumentNotFound,
            },
    ;

    /// The number of stored documents.
    fn get_document_len(&self) -> (r: usize)
        requires
            self.consistent(),
        ensures
            r == self.stored().len(),
    ;

    /// Get all documents from the storage engine that contain the given
    /// token: the stored documents whose ids the token's entry lists, each
    /// once, in some order.
    fn get_reverse_documents(&self, token: &str) -> (r: Result<Vec<&Document<I>>, StorageError>)
        requires
            self.consistent(),
        ensures
            match r {
                Ok(v) => {
                    &&& self.reverse_index().contains_key(token@)
                    &&& exists|ids: Seq<I>|
                        {
                            &&& ids.no_duplicates()
                            &&& ids.to_set() == self.reverse_index()[token@]
                            &&& #[trigger] deref_documents(v@) == present_documents(ids, self.stored())
                        }
                    &&& index_matches(self.stored(), self.reverse_index()) ==> holds_documents_with(
                        deref_documents(v@),
                        self.stored(),
                        token@,
                    )
                    &&& keyed(self.stored()) ==> document_keys(deref_documents(v@)).no_duplicates()
                },
                Err(e) => {
                    &&& !self.reverse_index().contains_key(token@)
                    &&& e == StorageError::TokenNotFound
                    &&& index_matches(self.stored(), self.reverse_index()) ==> forall|id: I|
                        #[trigger] self.stored().contains_key(id) ==> !self.stored()[id].word_set().contains(token@)
                },
            },
    ;
}

/// Law: storing a document keeps the reverse index in agreement with the
/// stored documents.
pub proof fn law_store_keeps_index<I>(docs: Map<I, Document<I>>, rev: Map<Seq<char>, Set<I>>, d: Document<I>)
    requires
        index_matches(docs, rev),
    ensures
        index_matches(docs.insert(d.key(), d), index_after_store(rev, docs, d)),
        keyed(docs) ==> keyed(docs.insert(d.key(), d)),
{
    let id = d.key();
    let docs2 = docs.insert(id, d);
    let base = if docs.contains_key(id) {
        index_after_remove(rev, docs[id].word_set(), id)
    } else {
        rev
    };
    let rev2 = index_after_store(rev, docs, d);
    assert forall|k: Seq<char>, x: I| rev2.contains_key(k) && #[trigger] rev2[k].contains(x) implies docs2.contains_key(x)
        && docs2[x].word_set().contains(k) by {
        if x != id {
            if d.word_set().contains(k) && !base.contains_key(k) {
                assert(rev2[k] == set![id]);
            } else {
                assert(base[k].contains(x));
                assert(rev[k].contains(x));
            }
        } else if !d.word_set().contains(k) {
            assert(base[k].contains(id));
            if docs.contains_key(id) {
                assert(rev[k].contains(id));
                assert(docs[id].word_set().contains(k));
                assert(!base[k].contains(id));
            } else {
                assert(rev[k].contains(id));
            }
        }
    }
    assert forall|k: Seq<char>, x: I| docs2.contains_key(x) && #[trigger] docs2[x].word_set().contains(k) implies rev2.contains_key(k)
        && rev2[k].contains(x) by {
        if x != id {
            assert(docs[x].word_set().contains(k));
            assert(rev.contains_key(k) && rev[k].contains(x));
            assert(base.contains_key(k) && base[k].contains(x));
        }
    }
}

/// Law: removing a stored document keeps the reverse index in agreement
/// with the stored documents; its id is then listed nowhere.
pub proof fn law_remove_keeps_index<I>(docs: Map<I, Document<I>>, rev: Map<Seq<char>, Set<I>>, id: I)
    requires
        index_matches(docs, rev),
        docs.contains_key(id),
    ensures
        index_matches(docs.remove(id), index_after_remove(rev, docs[id].word_set(), id)),
        keyed(docs) ==> keyed(docs.remove(id)),
        forall|k: Seq<char>| #[trigger] index_after_remove(rev, docs[id].word_set(), id).contains_key(k)
            ==> !index_after_remove(rev, docs[id].word_set(), id)[k].contains(id),
{
    let docs2 = docs.remove(id);
    let rev2 = index_after_remove(rev, docs[id].word_set(), id);
    assert forall|k: Seq<char>| #[trigger] rev2.contains_key(k) implies !rev2[k].contains(id) by {
        if !docs[id].word_set().contains(k) && rev[k].contains(id) {
            assert(docs[id].word_set().contains(k));
        }
    }
    assert forall|k: Seq<char>, x: I| rev2.contains_key(k) && #[trigger] rev2[k].contains(x) implies docs2.contains_key(x)
        && docs2[x].word_set().contains(k) by {
        assert(rev[k].contains(x));
    }
    assert forall|k: Seq<char>, x: I| docs2.contains_key(x) && #[trigger] docs2[x].word_set().contains(k) implies rev2.contains_key(k)
        && rev2[k].contains(x) by {
        assert(docs[x].word_set().contains(k));
        assert(rev[k].contains(x));
    }
}

/// The reverse index of a storage: the tokens, the position of each
/// token's entry, and the entries' ids.
struct Postings<I> {
    tokens: Vec<String>,
    postings: Vec<HashSet<I>>,
    positions: StringHashMap<usize>,
}

impl<I> Postings<I> {
    /// For each token, the ids of its entry.
    closed spec fn entries(&self) -> Map<Seq<char>, Set<I>> {
        Map::new(
            |k: Seq<char>| self.positions@.contains_key(k),
            |k: Seq<char>| self.postings@[self.positions@[k] as int]@,
        )
    }

    /// Each token has one position, and the position of each listed token
    /// holds it.
    closed spec fn wf(&self) -> bool {
        &&& self.tokens.len() == self.postings.len()
        &&& forall|k: Seq<char>|
            #[trigger] self.positions@.contains_key(k) ==> {
                &&& self.positions@[k] < self.tokens.len()
                &&& self.tokens@[self.positions@[k] as int]@ == k
            }
        &&& forall|i: int|
            0 <= i < self.tokens.len() ==> {
                &&& self.positions@.contains_key(#[trigger] self.tokens@[i]@)
                &&& self.positions@[self.tokens@[i]@] == i
            }
    }
}

impl<I: Copy + Eq + Hash> Postings<I> {
    /// A reverse index with no entry.
    fn new() -> (r: Self)
        ensures
            r.wf(),
            r.entries() == Map::<Seq<char>, Set<I>>::empty(),
    {
        let r = Postings { tokens: Vec::new(), postings: Vec::new(), positions: StringHashMap::new() };
        assert(r.entries() =~= Map::<Seq<char>, Set<I>>::empty());
        r
    }

    /// List `id` in the entry of `word`, creating the entry if needed.
    fn index_word(&mut self, word: &String, id: I)
        requires
            old(self).wf(),
            obeys_key_model::<I>(),
        ensures
            final(self).wf(),
            final(self).entries() == index_after_insert(old(self).entries(), set![word@], id),
    {
        match self.positions.get(word.as_str()) {
            Some(p) => {
                let pos = *p;
                let set = &mut self.postings[pos];
                set.insert(id);
                assert(self.entries() =~= index_after_insert(old(self).entries(), set![word@], id));
            },
            None => {
                let n = self.tokens.len();
                self.tokens.push(word.clone());
                let mut set: HashSet<I> = HashSet::new();
                set.insert(id);
                self.postings.push(set);
                self.positions.insert(word.clone(), n);
                assert(self.entries() =~= index_after_insert(old(self).entries(), set![word@], id));
            },
        }
    }

    /// Take `id` out of the entry of `word`, if it has one.
    fn unindex_word(&mut self, word: &String, id: I)
        requires
            old(self).wf(),
            obeys_key_model::<I>(),
        ensures
            final(self).wf(),
            final(self).entries() == index_after_remove(old(self).entries(), set![word@], id),
    {
        match self.positions.get(word.as_str()) {
            Some(p) => {
                let pos = *p;
                let set = &mut self.postings[pos];
                set.remove(&id);
                assert(self.entries() =~= index_after_remove(old(self).entries(), set![word@], id));
            },
            None => {
                assert(self.entries() =~= index_after_remove(old(self).entries(), set![word@], id));
            },
        }
    }

    /// List `id` in the entries of every word of `doc`.
    fn index_words(&mut self, doc: &Document<I>, id: I)
        requires
            old(self).wf(),
            obeys_key_model::<I>(),
        ensures
            final(self).wf(),
            final(self).entries() == index_after_insert(old(self).entries(), doc.word_set(), id),
    {
        let ghost keys = word_keys(doc.words@);
        let n = doc.words.len();
        let mut i: usize = 0;
        assert(keys.take(0).to_set() =~= Set::<Seq<char>>::empty());
        assert(old(self).entries() =~= index_after_insert(old(self).entries(), Set::<Seq<char>>::empty(), id));
        while i < n
            invariant
                obeys_key_model::<I>(),
                n == doc.words.len(),
                i <= n,
                keys == word_keys(doc.words@),
                self.wf(),
                self.entries() == index_after_insert(old(self).entries(), keys.take(i as int).to_set(), id),
            decreases n - i,
        {
            self.index_word(&doc.words[i].0, id);
            proof {
                assert(keys[i as int] == doc.words@[i as int].0@);
                assert(keys.take(i + 1) == keys.take(i as int).push(keys[i as int]));
                keys.take(i as int).lemma_push_to_set_commute(keys[i as int]);
                lemma_index_after_insert_step(old(self).entries(), keys.take(i as int).to_set(), keys[i as int], id);
                assert(self.entries() =~= index_after_insert(
                    old(self).entries(),
                    keys.take(i + 1).to_set(),
                    id,
                ));
            }
            i = i + 1;
        }
        assert(keys.take(n as int) == keys);
    }

    /// Take `id` out of the entries of every word of `doc`.
    fn unindex_words(&mut self, doc: &Document<I>, id: I)
        requires
            old(self).wf(),
            obeys_key_model::<I>(),
        ensures
            final(self).wf(),
            final(self).entries() == index_after_remove(old(self).entries(), doc.word_set(), id),
    {
        let ghost keys = word_keys(doc.words@);
        let n = doc.words.len();
        let mut i: usize = 0;
        assert(keys.take(0).to_set() =~= Set::<Seq<char>>::empty());
        assert(old(self).entries() =~= index_after_remove(old(self).entries(), Set::<Seq<char>>::empty(), id));
        while i < n
            invariant
                obeys_key_model::<I>(),
                n == doc.words.len(),
                i <= n,
                keys == word_keys(doc.words@),
                self.wf(),
                self.entries() == index_after_remove(old(self).entries(), keys.take(i as int).to_set(), id),
            decreases n - i,
        {
            self.unindex_word(&doc.words[i].0, id);
            proof {
                assert(keys[i as int] == doc.words@[i as int].0@);
                assert(keys.take(i + 1) == keys.take(i as int).push(keys[i as int]));
                keys.take(i as int).lemma_push_to_set_commute(keys[i as int]);
                lemma_index_after_remove_step(old(self).entries(), keys.take(i as int).to_set(), keys[i as int], id);
                assert(self.entries() =~= index_after_remove(
                    old(self).entries(),
                    keys.take(i + 1).to_set(),
                    id,
                ));
            }
            i = i + 1;
        }
        assert(keys.take(n as int) == keys);
    }

    /// Make `set` the entry of `token`.
    fn set_entry(&mut self, token: String, set: HashSet<I>)
        requires
            old(self).wf(),
        ensures
            final(self).wf(),
            final(self).entries() == old(self).entries().insert(token@, set@),
    {
        match self.positions.get(token.as_str()) {
            Some(p) => {
                let pos = *p;
                self.postings.set(pos, set);
                assert(self.entries() =~= old(self).entries().insert(token@, set@));
            },
            None => {
                let n = self.tokens.len();
                self.tokens.push(token.clone());
                self.postings.push(set);
                self.positions.insert(token, n);
                assert(self.entries() =~= old(self).entries().insert(token@, set@));
            },
        }
    }
}

/// A storage engine that keeps everything in memory.
///
/// Document ids are copied into the reverse index and looked up by hash, so
/// an id type must be `Copy` and hash as its value: `new` and `from_parts`
/// ask for `obeys_key_model::<I>()`, which vstd gives the primitive integer
/// types (and `bool`). Ids such as `String` are not taken.
pub struct MemoryStorage<I> {
    documents: HashMap<I, Document<I>>,
    index: Postings<I>,
}

impl<I> MemoryStorage<I> {
    /// Ids hash as their values, finitely many documents are stored, and
    /// each token of the reverse index has one entry.
    #[verifier::type_invariant]
    spec fn well_formed(self) -> bool {
        &&& obeys_key_model::<I>()
        &&& self.documents@.dom().finite()
        &&& self.index.wf()
    }

    /// The stored documents, by id.
    pub closed spec fn docs(&self) -> Map<I, Document<I>> {
        self.documents@
    }

    /// The reverse index: for each token, the ids of the documents listed
    /// for it.
    pub closed spec fn rev(&self) -> Map<Seq<char>, Set<I>> {
        self.index.entries()
    }

    /// The reverse index agrees with the stored documents, and each stored
    /// document sits under its own id.
    pub open spec fn indexed(&self) -> bool {
        index_matches(self.docs(), self.rev()) && keyed(self.docs())
    }
}

impl<I: Copy + Eq + Hash> MemoryStorage<I> {
    /// An empty storage.
    pub fn new() -> (r: Self)
        requires
            obeys_key_model::<I>(),
        ensures
            r.docs() == Map::<I, Document<I>>::empty(),
            r.rev() == Map::<Seq<char>, Set<I>>::empty(),
            r.indexed(),
    {
        MemoryStorage { documents: HashMap::new(), index: Postings::new() }
    }

    /// Store `document` under its id, replacing any document stored under
    /// that id: the replaced document's id is first taken out of the
    /// reverse-index entries of its words, then the id is listed in the
    /// entry of each word of `document`.
    pub fn insert_document(&mut self, document: Document<I>) -> (r: Result<(), StorageError>)
        ensures
            r is Ok,
            final(self).docs() == old(self).docs().insert(*document.id, document),
            final(self).docs().dom().finite(),
            final(self).rev() == index_after_store(old(self).rev(), old(self).docs(), document),
            old(self).indexed() ==> final(self).indexed(),
    {
        proof {
            use_type_invariant(&*self);
        }
        let id: I = *document.id;
        let ghost docs0 = old(self).docs();
        let ghost rev0 = old(self).rev();
        let mut documents: HashMap<I, Document<I>> = HashMap::new();
        std::mem::swap(&mut documents, &mut self.documents);
        let mut index: Postings<I> = Postings::new();
        std::mem::swap(&mut index, &mut self.index);
        match documents.remove(&id) {
            Some(replaced) => {
                index.unindex_words(&replaced, id);
            },
            None => {},
        }
        index.index_words(&document, id);
        documents.insert(id, document);
        assert(documents@ =~= docs0.insert(id, document));
        self.documents = documents;
        self.index = index;
        proof {
            if index_matches(docs0, rev0) {
                law_store_keeps_index(docs0, rev0, document);
            }
        }
        Ok(())
    }

    /// Take the document stored under `key` out of the storage and out of
    /// the reverse-index entries of its words, and return it; a
    /// `DocumentNotFound` error, with nothing changed, where none is stored.
    pub fn remove_document(&mut self, key: Arc<I>) -> (r: Result<Document<I>, StorageError>)
        ensures
            final(self).docs().dom().finite(),
            old(self).indexed() ==> final(self).indexed(),
            old(self).docs().contains_key(*key) ==> {
                &&& r == Ok::<Document<I>, StorageError>(old(self).docs()[*key])
                &&& final(self).docs() == old(self).docs().remove(*key)
                &&& final(self).rev() == index_after_remove(
                    old(self).rev(),
                    old(self).docs()[*key].word_set(),
                    *key,
                )
            },
            !old(self).docs().contains_key(*key) ==> {
                &&& r == Err::<Document<I>, StorageError>(StorageError::DocumentNotFound)
                &&& final(self).docs() == old(self).docs()
                &&& final(self).rev() == old(self).rev()
            },
    {
        proof {
            use_type_invariant(&*self);
        }
        let id: I = *key;
        if !self.documents.contains_key(&id) {
            return Err(StorageError::DocumentNotFound);
        }
        let mut documents: HashMap<I, Document<I>> = HashMap::new();
        std::mem::swap(&mut documents, &mut self.documents);
        let mut index: Postings<I> = Postings::new();
        std::mem::swap(&mut index, &mut self.index);
        let removed = documents.remove(&id);
        let r = match removed {
            Some(doc) => {
                index.unindex_words(&doc, id);
                proof {
                    if old(self).indexed() {
                        law_remove_keeps_index(old(self).docs(), old(self).rev(), id);
                    }
                }
                Ok(doc)
            },
            None => Err(StorageError::DocumentNotFound),
        };
        self.documents = documents;
        self.index = index;
        r
    }

    /// The document stored under `key`, or a `DocumentNotFound` error.
    pub fn get_document(&self, key: Arc<I>) -> (r: Result<&Document<I>, StorageError>)
        ensures
            match r {
                Ok(d) => self.docs().contains_key(*key) && *d == self.docs()[*key],
                Err(e) => !self.docs().contains_key(*key) && e == StorageError::DocumentNotFound,
            },
    {
        proof {
            use_type_invariant(self);
        }
        let id: I = *key;
        match self.documents.get(&id) {
            Some(d) => Ok(d),
            None => Err(StorageError::DocumentNotFound),
        }
    }

    /// The number of stored documents.
    pub fn get_document_len(&self) -> (r: usize)
        ensures
            r == self.docs().len(),
            self.docs().dom().finite(),
    {
        proof {
            use_type_invariant(self);
        }
        self.documents.len()
    }

    /// A storage that holds the documents of `documents`, inserted in order
    /// (a later pair for an id replaces an earlier one), and the reverse
    /// index of `reverse_index`, each token's ids taken as a set (a later
    /// entry for a token replaces an earlier one).
    pub fn from_parts(documents: Vec<(I, Document<I>)>, reverse_index: Vec<(String, Vec<I>)>) -> (r: Self)
        requires
            obeys_key_model::<I>(),
        ensures
            r.docs() == map_of_pairs(documents@),
            r.rev() == map_of_pairs(entry_sets(reverse_index@)),
    {
        let ghost pairs = documents@;
        let ghost entries = entry_sets(reverse_index@);
        let mut stored: HashMap<I, Document<I>> = HashMap::new();
        for pair in it: documents
            invariant
                obeys_key_model::<I>(),
                it.seq() == pairs,
                stored@ == map_of_pairs(pairs.take(it.index())),
        {
            assert(pairs.take(it.index() + 1).drop_last() == pairs.take(it.index()));
            let (id, doc) = pair;
            stored.insert(id, doc);
        }
        assert(pairs.take(pairs.len() as int) == pairs);
        proof {
            lemma_map_of_pairs_finite(pairs);
        }
        let mut index: Postings<I> = Postings::new();
        let ghost raw = reverse_index@;
        for entry in it: reverse_index
            invariant
                obeys_key_model::<I>(),
                it.seq() == raw,
                entries == entry_sets(raw),
                index.wf(),
                index.entries() == map_of_pairs(entries.take(it.index())),
        {
            assert(entries.take(it.index() + 1).drop_last() == entries.take(it.index()));
            let (token, ids) = entry;
            let set = set_of_ids(&ids);
            index.set_entry(token, set);
        }
        assert(entries.take(entries.len() as int) == entries);
        MemoryStorage { documents: stored, index }
    }

    /// The stored documents, each with its id, and the reverse index, each
    /// token with the ids listed for it; what `from_parts` takes back.
    pub fn to_parts(&self) -> (r: (Vec<(I, &Document<I>)>, Vec<(String, Vec<I>)>))
        ensures
            lists_exactly(listed_documents(r.0@), self.docs()),
            lists_exactly(entry_sets(r.1@), self.rev()),
            forall|i: int| 0 <= i < r.1@.len() ==> (#[trigger] r.1@[i]).1@.no_duplicates(),
    {
        proof {
            use_type_invariant(self);
        }
        let mut docs: Vec<(I, &Document<I>)> = Vec::new();
        let ghost all = spec_hash_map_iter(&self.documents).remaining();
        for kv in it: self.documents.iter()
            invariant
                it.seq() == all,
                listed_documents(docs@) == all.take(it.index()).map_values(
                    |p: (&I, &Document<I>)| (*p.0, *p.1),
                ),
        {
            let (k, v) = kv;
            let ghost before = docs@;
            docs.push((*k, v));
            assert(all.take(it.index() + 1) == all.take(it.index()).push(all[it.index()]));
            assert(listed_documents(docs@) == listed_documents(before).push((*k, *v)));
            assert(listed_documents(docs@) == all.take(it.index() + 1).map_values(
                |p: (&I, &Document<I>)| (*p.0, *p.1),
            ));
        }
        let ghost listed = listed_documents(docs@);
        assert(all.take(all.len() as int) == all);
        assert forall|i: int, j: int|
            0 <= i < pair_keys(listed).len() && 0 <= j < pair_keys(listed).len() && i != j
            implies pair_keys(listed)[i] != pair_keys(listed)[j] by {
            assert(pair_keys(listed)[i] == *all[i].0);
            assert(pair_keys(listed)[j] == *all[j].0);
            assert(self.documents@.contains_key(*all[i].0) && self.documents@[*all[i].0] == *all[i].1);
            assert(self.documents@.contains_key(*all[j].0) && self.documents@[*all[j].0] == *all[j].1);
            assert(all[i] != all[j]);
        }
        assert forall|k: I| #[trigger] self.documents@.contains_key(k) implies pair_keys(listed).contains(k) by {
            assert(all.contains((&k, &self.documents@[k])));
            let q = choose|q: int| 0 <= q < all.len() && all[q] == (&k, &self.documents@[k]);
            assert(pair_keys(listed)[q] == k);
        }
        assert forall|i: int| 0 <= i < listed.len() implies #[trigger] self.documents@.contains_key(listed[i].0)
            && self.documents@[listed[i].0] == listed[i].1 by {
            assert(listed[i] == (*all[i].0, *all[i].1));
            assert(self.documents@.contains_key(*all[i].0) && self.documents@[*all[i].0] == *all[i].1);
        }
        let mut entries: Vec<(String, Vec<I>)> = Vec::new();
        let n = self.index.tokens.len();
        let mut t: usize = 0;
        while t < n
            invariant
                obeys_key_model::<I>(),
                self.index.wf(),
                n == self.index.tokens.len(),
                t <= n,
                entries@.len() == t,
                forall|q: int| 0 <= q < t ==> (#[trigger] entries@[q]).1@.no_duplicates(),
                forall|q: int| 0 <= q < t ==> #[trigger] entry_sets(entries@)[q] == (
                    self.index.tokens@[q]@,
                    self.index.postings@[q]@,
                ),
            decreases n - t,
        {
            let ids = ids_of_set(&self.index.postings[t]);
            let ghost before = entries@;
            entries.push((self.index.tokens[t].clone(), ids));
            assert forall|q: int| 0 <= q < t + 1 implies #[trigger] entry_sets(entries@)[q] == (
                self.index.tokens@[q]@,
                self.index.postings@[q]@,
            ) by {
                if q < t {
                    assert(entries@[q] == before[q]);
                    assert(entry_sets(before)[q] == entry_sets(entries@)[q]);
                }
            }
            t = t + 1;
        }
        let ghost es = entry_sets(entries@);
        assert forall|i: int, j: int|
            0 <= i < pair_keys(es).len() && 0 <= j < pair_keys(es).len() && i != j
            implies pair_keys(es)[i] != pair_keys(es)[j] by {
            assert(pair_keys(es)[i] == es[i].0);
            assert(pair_keys(es)[j] == es[j].0);
            assert(self.index.positions@[self.index.tokens@[i]@] == i);
            assert(self.index.positions@[self.index.tokens@[j]@] == j);
        }
        assert forall|k: Seq<char>| #[trigger] self.rev().contains_key(k) implies pair_keys(es).contains(k) by {
            let q = self.index.positions@[k] as int;
            assert(self.index.tokens@[q]@ == k);
            assert(pair_keys(es)[q] == es[q].0);
        }
        assert forall|i: int| 0 <= i < es.len() implies #[trigger] self.rev().contains_key(es[i].0)
            && self.rev()[es[i].0] == es[i].1 by {
            assert(self.index.positions@.contains_key(self.index.tokens@[i]@));
        }
        (docs, entries)
    }

    /// The stored documents listed in the reverse-index entry of `token`,
    /// each once, in the order in which the entry's set yields them; a
    /// `TokenNotFound` error where the token has no entry.
    pub fn get_reverse_documents(&self, token: &str) -> (r: Result<Vec<&Document<I>>, StorageError>)
        ensures
            match r {
                Ok(v) => {
                    &&& self.rev().contains_key(token@)
                    &&& exists|ids: Seq<I>|
                        {
                            &&& ids.no_duplicates()
                            &&& ids.to_set() == self.rev()[token@]
                            &&& #[trigger] deref_documents(v@) == present_documents(ids, self.docs())
                        }
                    &&& index_matches(self.docs(), self.rev()) ==> holds_documents_with(
                        deref_documents(v@),
                        self.docs(),
                        token@,
                    )
                    &&& keyed(self.docs()) ==> document_keys(deref_documents(v@)).no_duplicates()
                },
                Err(e) => {
                    &&& !self.rev().contains_key(token@)
                    &&& e == StorageError::TokenNotFound
                    &&& index_matches(self.docs(), self.rev()) ==> forall|id: I|
                        #[trigger] self.docs().contains_key(id) ==> !self.docs()[id].word_set().contains(token@)
                },
            },
    {
        proof {
            use_type_invariant(self);
        }
        match self.index.positions.get(token) {
            Some(p) => {
                let pos = *p;
                let set = &self.index.postings[pos];
                let ghost all = spec_hash_keys_iter(set).remaining().unref();
                let mut v: Vec<&Document<I>> = Vec::new();
                for id in it: set.iter()
                    invariant
                        obeys_key_model::<I>(),
                        it.seq().unref() == all,
                        deref_documents(v@) == present_documents(
                            all.take(it.index()),
                            self.docs(),
                        ),
                {
                    let ghost before = v@;
                    let k: I = *id;
                    assert(all.take(it.index() + 1).drop_last() == all.take(it.index()));
                    match self.documents.get(&k) {
                        Some(d) => {
                            v.push(d);
                            assert(deref_documents(v@) == deref_documents(before).push(*d));
                        },
                        None => {},
                    }
                }
                assert(all.take(all.len() as int) == all);
                assert(all.to_set() == self.rev()[token@]);
                proof {
                    if index_matches(self.docs(), self.rev()) {
                        lemma_lookup_exact(all, self.docs(), self.rev(), token@);
                    }
                    if keyed(self.docs()) {
                        lemma_present_keys(all, self.docs());
                    }
                }
                Ok(v)
            },
            None => Err(StorageError::TokenNotFound),
        }
    }
}

/// A set of the ids of `ids`.
fn set_of_ids<I: Copy + Eq + Hash>(ids: &Vec<I>) -> (r: HashSet<I>)
    requires
        obeys_key_model::<I>(),
    ensures
        r@ == ids@.to_set(),
{
    let mut r: HashSet<I> = HashSet::new();
    let n = ids.len();
    let mut i: usize = 0;
    while i < n
        invariant
            obeys_key_model::<I>(),
            n == ids.len(),
            i <= n,
            r@ == ids@.take(i as int).to_set(),
        decreases n - i,
    {
        assert(ids@.take(i + 1) == ids@.take(i as int).push(ids@[i as int]));
        proof {
            ids@.take(i as int).lemma_push_to_set_commute(ids@[i as int]);
        }
        r.insert(ids[i]);
        i = i + 1;
    }
    assert(ids@.take(n as int) == ids@);
    r
}

/// The ids of a set, each once, in the order the set yields them.
fn ids_of_set<I: Copy + Eq + Hash>(set: &HashSet<I>) -> (r: Vec<I>)
    requires
        obeys_key_model::<I>(),
    ensures
        r@.no_duplicates(),
        r@.to_set() == set@,
{
    let ghost all = spec_hash_keys_iter(set).remaining().unref();
    let mut r: Vec<I> = Vec::new();
    for id in it: set.iter()
        invariant
            it.seq().unref() == all,
            r@ == all.take(it.index()),
    {
        r.push(*id);
    }
    assert(all.take(all.len() as int) == all);
    r
}

impl<I: Copy + Eq + Hash> StorageEngine<I> for MemoryStorage<I> {
    open spec fn stored(&self) -> Map<I, Document<I>> {
        self.docs()
    }

    open spec fn reverse_index(&self) -> Map<Seq<char>, Set<I>> {
        self.rev()
    }

    /// Every in-memory storage is consistent: its invariant is a type
    /// invariant.
    open spec fn consistent(&self) -> bool {
        true
    }

    fn insert_document(&mut self, value: Document<I>) -> (r: Result<(), StorageError>) {
        MemoryStorage::insert_document(self, value)
    }

    fn remove_document(&mut self, key: Arc<I>) -> (r: Result<Document<I>, StorageError>) {
        MemoryStorage::remove_document(self, key)
    }

    fn get_document(&self, key: Arc<I>) -> (r: Result<&Document<I>, StorageError>) {
        MemoryStorage::get_document(self, key)
    }

    fn get_document_len(&self) -> (r: usize) {
        MemoryStorage::get_document_len(self)
    }

    fn get_reverse_documents(&self, token: &str) -> (r: Result<Vec<&Document<I>>, StorageError>) {
        MemoryStorage::get_reverse_documents(self, token)
    }
}

} // verus!

verus! {

/// Law: after a document is inserted, it is what is stored under its id,
/// and the reverse-index entry of each of its words lists that id, so that
/// `get_reverse_documents` of any of its words yields it.
pub proof fn law_insert_then_read<I>(docs: Map<I, Document<I>>, rev: Map<Seq<char>, Set<I>>, d: Document<I>)
    ensures
        docs.insert(*d.id, d).contains_key(*d.id),
        docs.insert(*d.id, d)[*d.id] == d,
        forall|w: Seq<char>|
            #[trigger] d.word_set().contains(w) ==> {
                &&& index_after_store(rev, docs, d).contains_key(w)
                &&& index_after_store(rev, docs, d)[w].contains(*d.id)
            },
{
}

/// Law: inserting a document under an id that is neither stored nor listed
/// anywhere, then removing that id, gives back the stored documents, the
/// document itself, and the same ids for every token that had an entry;
/// tokens that only the document brought keep an empty entry.
pub proof fn law_insert_then_remove<I>(docs: Map<I, Document<I>>, rev: Map<Seq<char>, Set<I>>, d: Document<I>)
    requires
        !docs.contains_key(*d.id),
        forall|k: Seq<char>| #[trigger] rev.contains_key(k) ==> !rev[k].contains(*d.id),
    ensures
        docs.insert(*d.id, d)[*d.id] == d,
        docs.insert(*d.id, d).remove(*d.id) == docs,
        ({
            let after = index_after_remove(index_after_store(rev, docs, d), d.word_set(), *d.id);
            &&& forall|k: Seq<char>| #[trigger] rev.contains_key(k) ==> after.contains_key(k) && after[k] == rev[k]
            &&& forall|k: Seq<char>| #[trigger] after.contains_key(k) && !rev.contains_key(k) ==> after[k] == Set::<I>::empty()
            &&& forall|k: Seq<char>| #[trigger] after.contains_key(k) ==> rev.contains_key(k) || d.word_set().contains(k)
        }),
{
    assert(docs.insert(*d.id, d).remove(*d.id) =~= docs);
    let ghost mid = index_after_store(rev, docs, d);
    let ghost after = index_after_remove(mid, d.word_set(), d.key());
    assert forall|k: Seq<char>| #[trigger] rev.contains_key(k) implies after.contains_key(k) && after[k] == rev[k] by {
        if d.word_set().contains(k) {
            assert(after[k] =~= rev[k]);
        }
    }
    assert forall|k: Seq<char>| #[trigger] after.contains_key(k) && !rev.contains_key(k) implies after[k] == Set::<I>::empty() by {
        assert(after[k] =~= Set::<I>::empty());
    }
}

/// Law: after a document is removed, no entry of its words lists its id
/// any more, and nothing is stored under that id.
pub proof fn law_remove_unlists<I>(docs: Map<I, Document<I>>, rev: Map<Seq<char>, Set<I>>, id: I)
    requires
        docs.contains_key(id),
    ensures
        !docs.remove(id).contains_key(id),
        forall|w: Seq<char>|
            #[trigger] index_after_remove(rev, docs[id].word_set(), id).contains_key(w) && docs[id].word_set().contains(w)
                ==> !index_after_remove(rev, docs[id].word_set(), id)[w].contains(id),
{
}

/// Law: the number of stored documents grows by one when a document with a
/// new id is inserted and shrinks by one when a stored id is removed.
pub proof fn law_document_count<I>(docs: Map<I, Document<I>>, d: Document<I>, id: I)
    requires
        docs.dom().finite(),
    ensures
        !docs.contains_key(*d.id) ==> docs.insert(*d.id, d).len() == docs.len() + 1,
        docs.contains_key(*d.id) ==> docs.insert(*d.id, d).len() == docs.len(),
        docs.contains_key(id) ==> docs.remove(id).len() == docs.len() - 1,
{
}

/// Law: loading what `to_parts` lists gives back the same storage.
/// `to_parts` lists exactly the stored documents and the reverse-index
/// entries, and `from_parts` stores the map that the listed pairs build;
/// pairs that list a map exactly build that map.
pub proof fn law_parts_round_trip<I: Copy + Eq + Hash>(
    saved: MemoryStorage<I>,
    docs: Seq<(I, Document<I>)>,
    entries: Seq<(Seq<char>, Set<I>)>,
)
    requires
        lists_exactly(docs, saved.docs()),
        lists_exactly(entries, saved.rev()),
    ensures
        map_of_pairs(docs) == saved.docs(),
        map_of_pairs(entries) == saved.rev(),
{
    lemma_map_of_pairs_lists(docs, saved.docs());
    lemma_map_of_pairs_lists(entries, saved.rev());
}

} // verus!
