use search_index::document::Document;
use search_index::filter::EmptyWordFilter;
use search_index::text::{char_is_whitespace, split_lines, split_sentences, split_words, trim};
use search_index::tokenizer::SimpleTokenizer;

fn strings(v: &[&str]) -> Vec<String> {
    v.iter().map(|s| s.to_string()).collect()
}

#[test]
fn split_words_drops_empty_pieces() {
    assert_eq!(split_words("  a  bb\n\tccc "), strings(&["a", "bb", "ccc"]));
    assert_eq!(split_words(""), Vec::<String>::new());
    assert_eq!(split_words(" \u{2003} "), Vec::<String>::new());
}

#[test]
fn split_lines_matches_str_lines() {
    for text in ["a\nb", "a\r\nb\r\n", "\n\nx", "", "x\r", "one\n", "r\r\r\n"] {
        let expected: Vec<String> = text.lines().map(|l| l.to_string()).collect();
        assert_eq!(split_lines(text), expected, "{:?}", text);
    }
}

#[test]
fn trim_matches_str_trim() {
    for text in ["  a b  ", "\u{a0}x\u{3000}", "   ", "", "no"] {
        assert_eq!(trim(text), text.trim().to_string());
    }
}

#[test]
fn split_sentences_matches_str_split() {
    for text in ["a.\nb", "..\n.\n", "", ".\n", "x.\ny.\n\nz"] {
        let expected: Vec<String> = text.split(".\n").map(|l| l.to_string()).collect();
        assert_eq!(split_sentences(text), expected, "{:?}", text);
    }
}

#[test]
fn word_counts_add_up_to_the_total() {
    let d = Document::new(1i64, "b a b c b a".to_string(), &EmptyWordFilter {}, &SimpleTokenizer::new());
    let sum: u64 = d.get_words_ref().iter().map(|(_, c)| *c).sum();
    assert_eq!(sum, d.get_total_count());
    assert_eq!(sum, 6);
    let mut words: Vec<String> = d.get_words_ref().iter().map(|(w, _)| w.clone()).collect();
    words.sort();
    assert_eq!(words, strings(&["a", "b", "c"]));
    assert_eq!(d.count_of("b"), 3);
}

#[test]
fn char_is_whitespace_matches_std() {
    for code in 0u32..=0x10FFFF {
        if let Some(c) = char::from_u32(code) {
            assert_eq!(char_is_whitespace(c), c.is_whitespace(), "{:?}", c);
        }
    }
}
