use std::collections::HashSet;
use std::sync::Arc;

use search_index::document::Document;
use search_index::filter::EmptyWordFilter;
use search_index::index::{query_tokens, relevant_documents};
use search_index::storage_engine::{MemoryStorage, StorageEngine, StorageError};
use search_index::tokenizer::SimpleTokenizer;

fn doc(id: i64, text: &str) -> Document<i64> {
    Document::new(id, text.to_string(), &EmptyWordFilter {}, &SimpleTokenizer::new())
}

fn filled() -> MemoryStorage<i64> {
    let mut s = MemoryStorage::new();
    s.insert_document(doc(1, "a quick brown fox lazily shakes a banana tree")).unwrap();
    s.insert_document(doc(2, "a quick brown fox pulls a gun fast")).unwrap();
    s.insert_document(doc(3, "test me fast")).unwrap();
    s
}

fn ids(docs: &[&Document<i64>]) -> HashSet<i64> {
    docs.iter().map(|d| *d.id).collect()
}

#[test]
fn reverse_index_finds_documents_by_token() {
    let s = filled();
    assert_eq!(s.get_document_len(), 3);
    let brown = s.get_reverse_documents("brown").unwrap();
    assert_eq!(brown.len(), 2);
    assert_eq!(ids(&brown), HashSet::from([1, 2]));
    let fast = s.get_reverse_documents("fast").unwrap();
    assert_eq!(ids(&fast), HashSet::from([2, 3]));
    assert!(matches!(s.get_reverse_documents("zebra"), Err(StorageError::TokenNotFound)));
}

#[test]
fn get_document_reads_back_what_was_inserted() {
    let s = filled();
    let d = s.get_document(Arc::new(3)).unwrap();
    assert_eq!(d.data, "test me fast");
    assert!(matches!(s.get_document(Arc::new(9)), Err(StorageError::DocumentNotFound)));
}

#[test]
fn remove_document_returns_it_and_unlists_it() {
    let mut s = filled();
    let removed = s.remove_document(Arc::new(2)).unwrap();
    assert_eq!(*removed.id, 2);
    assert_eq!(removed.data, "a quick brown fox pulls a gun fast");
    assert_eq!(s.get_document_len(), 2);
    assert!(matches!(s.get_document(Arc::new(2)), Err(StorageError::DocumentNotFound)));
    assert_eq!(ids(&s.get_reverse_documents("fast").unwrap()), HashSet::from([3]));
    // the entry of a token whose documents are all gone stays, empty
    assert_eq!(s.get_reverse_documents("gun").unwrap().len(), 0);
    assert!(matches!(s.remove_document(Arc::new(2)), Err(StorageError::DocumentNotFound)));
    assert_eq!(s.get_document_len(), 2);
}

#[test]
fn reinserting_an_id_replaces_the_document() {
    let mut s = filled();
    s.insert_document(doc(3, "completely different")).unwrap();
    assert_eq!(s.get_document_len(), 3);
    assert_eq!(s.get_document(Arc::new(3)).unwrap().data, "completely different");
    assert_eq!(ids(&s.get_reverse_documents("different").unwrap()), HashSet::from([3]));
    // the replaced document's words no longer list its id
    assert_eq!(ids(&s.get_reverse_documents("fast").unwrap()), HashSet::from([2]));
    assert_eq!(s.get_reverse_documents("test").unwrap().len(), 0);
}

#[test]
fn trait_calls_agree_with_inherent_calls() {
    let mut s: MemoryStorage<i64> = MemoryStorage::new();
    StorageEngine::insert_document(&mut s, doc(4, "hello world")).unwrap();
    assert_eq!(StorageEngine::get_document_len(&s), 1);
    assert_eq!(StorageEngine::get_reverse_documents(&s, "world").unwrap().len(), 1);
    assert_eq!(*StorageEngine::remove_document(&mut s, Arc::new(4)).unwrap().id, 4);
}

#[test]
fn parts_round_trip() {
    let s = filled();
    let (docs, entries) = s.to_parts();
    assert_eq!(docs.len(), 3);
    assert_eq!(entries.len(), 13);
    let owned: Vec<(i64, Document<i64>)> = docs
        .iter()
        .map(|(id, d)| (*id, Document::new(*id, d.data.clone(), &EmptyWordFilter {}, &SimpleTokenizer::new())))
        .collect();
    let t = MemoryStorage::from_parts(owned, entries);
    assert_eq!(t.get_document_len(), 3);
    assert_eq!(ids(&t.get_reverse_documents("brown").unwrap()), HashSet::from([1, 2]));
    assert_eq!(ids(&t.get_reverse_documents("fast").unwrap()), HashSet::from([2, 3]));
    assert_eq!(t.get_document(Arc::new(1)).unwrap().data, "a quick brown fox lazily shakes a banana tree");
}

#[test]
fn from_parts_later_entries_replace_earlier_ones() {
    let entries = vec![
        ("x".to_string(), vec![1, 1, 2]),
        ("y".to_string(), vec![3]),
        ("x".to_string(), vec![5]),
    ];
    let docs = vec![(5, doc(5, "x")), (5, doc(5, "x y"))];
    let t = MemoryStorage::from_parts(docs, entries);
    assert_eq!(t.get_document_len(), 1);
    assert_eq!(t.get_document(Arc::new(5)).unwrap().data, "x y");
    assert_eq!(ids(&t.get_reverse_documents("x").unwrap()), HashSet::from([5]));
    assert_eq!(t.get_reverse_documents("y").unwrap().len(), 0);
}

#[test]
fn query_tokens_keeps_filtered_tokens() {
    let f = search_index::filter::SimpleWordFilter::from_words("fox\n");
    let t = query_tokens("Brown FOX fox", &SimpleTokenizer::new(), &f);
    assert_eq!(t, vec!["brown".to_string()]);
    let u = query_tokens("brown fox", &SimpleTokenizer::new(), &search_index::filter::SimpleWordFilter::from_words("brown"));
    assert_eq!(u, vec!["fox".to_string()]);
}

#[test]
fn relevant_documents_of_unknown_term_is_empty() {
    let s = filled();
    assert!(relevant_documents(&s, "zebra").is_empty());
    assert_eq!(ids(&relevant_documents(&s, "quick")), HashSet::from([1, 2]));
}

#[test]
fn reverse_lookup_after_replacing_with_no_words_is_empty() {
    let mut s: MemoryStorage<i64> = MemoryStorage::new();
    s.insert_document(doc(1, "w")).unwrap();
    s.insert_document(doc(1, "")).unwrap();
    assert_eq!(s.get_document_len(), 1);
    assert_eq!(s.get_reverse_documents("w").unwrap().len(), 0);
}

#[test]
fn to_parts_lists_each_id_once_per_token() {
    let s = filled();
    let (_, entries) = s.to_parts();
    for (_, list) in entries {
        let set: HashSet<i64> = list.iter().copied().collect();
        assert_eq!(set.len(), list.len());
    }
}
