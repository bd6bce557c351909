use search_index::document::Document;
use search_index::filter::{EmptyWordFilter, SimpleWordFilter, WordFilter};
use search_index::tokenizer::{QueryTokenizer, SimpleTokenizer, TokenizerStrategie};

fn doc(id: i64, text: &str) -> Document<i64> {
    Document::new(id, text.to_string(), &EmptyWordFilter {}, &SimpleTokenizer::new())
}

#[test]
fn document_counts_every_token() {
    let d = doc(1, "a quick brown fox lazily shakes a banana tree");
    assert_eq!(*d.get_id(), 1);
    assert_eq!(d.get_total_count(), 9);
    assert_eq!(d.count_of("a"), 2);
    assert_eq!(d.count_of("quick"), 1);
    assert_eq!(d.count_of("tree"), 1);
    assert_eq!(d.count_of("zebra"), 0);
    assert_eq!(d.get_words_ref().len(), 8);
    assert_eq!(d.data, "a quick brown fox lazily shakes a banana tree");
}

#[test]
fn document_lowercases_tokens() {
    let d = doc(7, "The THE the\tthE\n");
    assert_eq!(d.get_total_count(), 4);
    assert_eq!(d.count_of("the"), 4);
    assert_eq!(d.count_of("The"), 0);
    assert_eq!(d.get_words_ref().len(), 1);
}

#[test]
fn document_of_empty_text() {
    let d = doc(0, "   \n\t ");
    assert_eq!(d.get_total_count(), 0);
    assert!(d.get_words_ref().is_empty());
    assert_eq!(d.get_sentences_ref(), &vec!["   \n\t ".to_string()]);
}

#[test]
fn document_sentences_split_at_period_newline() {
    let d = doc(2, "First one.\nSecond.\nThird");
    assert_eq!(
        d.get_sentences_ref(),
        &vec!["First one".to_string(), "Second".to_string(), "Third".to_string()]
    );
    let e = doc(3, "End.\n");
    assert_eq!(e.get_sentences_ref(), &vec!["End".to_string(), "".to_string()]);
    let f = doc(4, "a..\nb.\n\nc");
    assert_eq!(
        f.get_sentences_ref(),
        &vec!["a.".to_string(), "b".to_string(), "\nc".to_string()]
    );
}

#[test]
fn simple_tokenizer_splits_on_unicode_white_space() {
    let t = SimpleTokenizer::new();
    assert_eq!(
        t.tokenize("  Hello\tWORLD \u{3000}Grüße\u{a0}x "),
        vec!["hello".to_string(), "world".to_string(), "grüße".to_string(), "x".to_string()]
    );
    assert!(t.tokenize("").is_empty());
}

#[test]
fn query_tokenizer_keeps_the_query_as_one_sentence() {
    let inner = SimpleTokenizer::new();
    let q = QueryTokenizer::new(&inner);
    assert_eq!(q.sentences("one.\ntwo"), vec!["one.\ntwo".to_string()]);
    assert_eq!(q.tokenize("One TWO"), vec!["one".to_string(), "two".to_string()]);
}

#[test]
fn simple_word_filter_drops_listed_words() {
    let f = SimpleWordFilter::from_words("A\n  Brown  \r\nfox\n");
    assert!(!f.filter("a"));
    assert!(!f.filter("brown"));
    assert!(!f.filter("fox"));
    assert!(f.filter("A"));
    assert!(f.filter("quick"));
    assert!(EmptyWordFilter {}.filter("anything"));
}

#[test]
fn document_counts_only_kept_words() {
    let f = SimpleWordFilter::from_words("a\nbrown\n");
    let d = Document::new(5i64, "a quick brown fox A".to_string(), &f, &SimpleTokenizer::new());
    assert_eq!(d.get_total_count(), 3);
    assert_eq!(d.count_of("quick"), 1);
    assert_eq!(d.count_of("fox"), 1);
    assert_eq!(d.count_of("brown"), 0);
    assert_eq!(d.count_of("a"), 1);
}
