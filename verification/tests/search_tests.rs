use search_index::document::Document;
use search_index::filter::EmptyWordFilter;
use search_index::index::query_documents;
use search_index::storage_engine::MemoryStorage;
use search_index::tokenizer::SimpleTokenizer;

#[test]
fn store_and_find() {
    let tokenizer = SimpleTokenizer::new();
    let filter = EmptyWordFilter {};
    let mut index: MemoryStorage<i64> = MemoryStorage::new();

    let document1 = Document::new(
        1,
        "a quick brown fox lazily shakes a banana tree".to_string(),
        &filter,
        &tokenizer,
    );
    let document2 = Document::new(
        2,
        "a quick brown fox pulls a gun fast".to_string(),
        &filter,
        &tokenizer,
    );
    let document3 = Document::new(3, "test me fast".to_string(), &filter, &tokenizer);

    index.insert_document(document1).unwrap();
    index.insert_document(document2).unwrap();
    index.insert_document(document3).unwrap();

    let result = query_documents(&index, "brown fox", &tokenizer, &filter);
    assert!(result.len() == 2);
    assert!(result.iter().any(|e| e.id.as_ref() == &1));
    assert!(result.iter().any(|e| e.id.as_ref() == &2));
    assert!(!result.iter().any(|e| e.id.as_ref() == &3));

    let result = query_documents(&index, "fast", &tokenizer, &filter);
    assert!(result.len() == 2);
    assert!(!result.iter().any(|e| e.id.as_ref() == &1));
    assert!(result.iter().any(|e| e.id.as_ref() == &2));
    assert!(result.iter().any(|e| e.id.as_ref() == &3));
}

fn sample_index() -> MemoryStorage<i64> {
    let tokenizer = SimpleTokenizer::new();
    let filter = EmptyWordFilter {};
    let mut index: MemoryStorage<i64> = MemoryStorage::new();
    for (id, text) in [
        (1, "a quick brown fox lazily shakes a banana tree"),
        (2, "a quick brown fox pulls a gun fast"),
        (3, "test me fast"),
    ] {
        index.insert_document(Document::new(id, text.to_string(), &filter, &tokenizer)).unwrap();
    }
    index
}

fn sorted_ids(docs: &[&Document<i64>]) -> Vec<i64> {
    let mut ids: Vec<i64> = docs.iter().map(|d| *d.id).collect();
    ids.sort();
    ids
}

#[test]
fn query_documents_lists_each_document_once() {
    let index = sample_index();
    let tokenizer = SimpleTokenizer::new();
    let filter = EmptyWordFilter {};
    let result = query_documents(&index, "quick brown fox fast", &tokenizer, &filter);
    assert_eq!(result.len(), 3);
    assert_eq!(sorted_ids(&result), vec![1, 2, 3]);
}

#[test]
fn query_documents_skips_unknown_tokens() {
    let index = sample_index();
    let tokenizer = SimpleTokenizer::new();
    let filter = EmptyWordFilter {};
    assert_eq!(sorted_ids(&query_documents(&index, "zebra fast", &tokenizer, &filter)), vec![2, 3]);
    assert!(query_documents(&index, "zebra", &tokenizer, &filter).is_empty());
    assert!(query_documents(&index, "", &tokenizer, &filter).is_empty());
}

#[test]
fn query_documents_follows_the_filter_and_removals() {
    let mut index = sample_index();
    let tokenizer = SimpleTokenizer::new();
    let no_fast = search_index::filter::SimpleWordFilter::from_words("fast");
    assert_eq!(sorted_ids(&query_documents(&index, "tree fast", &tokenizer, &no_fast)), vec![1]);
    index.remove_document(std::sync::Arc::new(2)).unwrap();
    let filter = EmptyWordFilter {};
    assert_eq!(sorted_ids(&query_documents(&index, "brown fast", &tokenizer, &filter)), vec![1, 3]);
}
