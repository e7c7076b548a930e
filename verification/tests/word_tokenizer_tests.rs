use crep_indexer::tokenizer::Tokenizer;
use crep_indexer::tokenizer::TokenizerResult;
use crep_indexer::tokenizer::WordPosition;
use crep_indexer::word_tokenizer::is_word_separator;
use crep_indexer::word_tokenizer::words_by_line;
use crep_indexer::word_tokenizer::words_by_position;
use std::collections::HashMap;
use std::collections::HashSet;

fn word_set(result: &TokenizerResult) -> HashSet<String> {
    result.total_words.iter().cloned().collect()
}

fn names(words: &[&str]) -> HashSet<String> {
    words.iter().map(|w| w.to_string()).collect()
}

fn columns(result: &TokenizerResult) -> HashMap<String, Vec<(usize, usize)>> {
    match &result.word_pos {
        WordPosition::LineNumWithColNoDedup(list) => list.iter().cloned().collect(),
        WordPosition::LineNumOnlyWithDedup(_) => panic!("columns expected"),
    }
}

fn line_numbers(result: &TokenizerResult) -> HashMap<String, Vec<usize>> {
    match &result.word_pos {
        WordPosition::LineNumOnlyWithDedup(list) => list.iter().cloned().collect(),
        WordPosition::LineNumWithColNoDedup(_) => panic!("lines expected"),
    }
}

fn expected_columns(entries: Vec<(&str, Vec<(usize, usize)>)>) -> HashMap<String, Vec<(usize, usize)>> {
    entries.into_iter().map(|(w, p)| (w.to_string(), p)).collect()
}

fn expected_lines(entries: Vec<(&str, Vec<usize>)>) -> HashMap<String, Vec<usize>> {
    entries.into_iter().map(|(w, p)| (w.to_string(), p)).collect()
}

#[test]
fn test_parsing_empty_line() {
    let result = Tokenizer::split_to_words_with_col("");
    assert_eq!(word_set(&result), names(&[]));
    assert_eq!(result.word_pos, WordPosition::LineNumWithColNoDedup(vec![]));
}

#[test]
fn test_parsing_words() {
    let result = Tokenizer::split_to_words_with_col("this is  a word");
    assert_eq!(word_set(&result), names(&["this", "is", "a", "word"]));
    assert_eq!(
        columns(&result),
        expected_columns(vec![
            ("this", vec![(0, 0)]),
            ("is", vec![(0, 5)]),
            ("a", vec![(0, 9)]),
            ("word", vec![(0, 11)]),
        ])
    );
}

#[test]
fn test_parsing_non_ascii_words() {
    let result = Tokenizer::split_to_words_with_col("中文 한글 English");
    assert_eq!(word_set(&result), names(&["中文", "한글", "English"]));
    assert_eq!(
        columns(&result),
        expected_columns(vec![
            ("中文", vec![(0, 0)]),
            ("한글", vec![(0, 7)]),
            ("English", vec![(0, 14)]),
        ])
    );
}

#[test]
fn test_parsing_punctuations() {
    let result = Tokenizer::split_to_words_with_col(" std::vector<int> ");
    assert_eq!(word_set(&result), names(&["std", "vector", "int"]));
    assert_eq!(
        columns(&result),
        expected_columns(vec![
            ("std", vec![(0, 1)]),
            ("vector", vec![(0, 6)]),
            ("int", vec![(0, 13)]),
        ])
    );
}

#[test]
fn test_same_words() {
    let result = Tokenizer::split_to_words_with_col("a ab a");
    assert_eq!(word_set(&result), names(&["a", "ab"]));
    assert_eq!(
        columns(&result),
        expected_columns(vec![("a", vec![(0, 0), (0, 5)]), ("ab", vec![(0, 2)])])
    );
}

#[test]
fn words_are_listed_in_the_order_of_their_first_place() {
    let result = Tokenizer::split_to_words_with_col("b a b\na c");
    assert_eq!(result.total_words, vec!["b".to_string(), "a".to_string(), "c".to_string()]);
    assert_eq!(
        result.word_pos,
        WordPosition::LineNumWithColNoDedup(vec![
            ("b".to_string(), vec![(0, 0), (0, 4)]),
            ("a".to_string(), vec![(0, 2), (1, 0)]),
            ("c".to_string(), vec![(1, 2)]),
        ])
    );
}

#[test]
fn every_line_starts_anew() {
    let result = Tokenizer::split_to_words_with_col("first second\nab cd");
    assert_eq!(
        columns(&result),
        expected_columns(vec![
            ("first", vec![(0, 0)]),
            ("second", vec![(0, 6)]),
            ("ab", vec![(1, 0)]),
            ("cd", vec![(1, 3)]),
        ])
    );
}

#[test]
fn lines_of_a_word_are_listed_once_each() {
    let result = Tokenizer::split_to_word_line_only("a a b\nb\na b a");
    assert_eq!(word_set(&result), names(&["a", "b"]));
    assert_eq!(
        line_numbers(&result),
        expected_lines(vec![("a", vec![0, 2]), ("b", vec![0, 1, 2])])
    );
}

#[test]
fn line_numbers_start_at_the_given_number() {
    let lines = vec!["x y".to_string(), "".to_string(), "y,z".to_string()];
    let result = Tokenizer::split_lines_to_word_line_only(&lines, 10);
    assert_eq!(
        line_numbers(&result),
        expected_lines(vec![("x", vec![10]), ("y", vec![10, 12]), ("z", vec![12])])
    );
    let same = words_by_line(&lines, 10);
    assert_eq!(same.word_pos, result.word_pos);
}

#[test]
fn columns_count_bytes_not_characters() {
    let lines = vec!["é ü".to_string()];
    let result = words_by_position(&lines, 3);
    assert_eq!(
        columns(&result),
        expected_columns(vec![("é", vec![(3, 0)]), ("ü", vec![(3, 3)])])
    );
}

#[test]
fn text_without_words_has_no_entries() {
    let result = Tokenizer::split_to_words_with_col(" ,;\n\t.\n");
    assert!(result.total_words.is_empty());
    assert_eq!(result.word_pos, WordPosition::LineNumWithColNoDedup(vec![]));
}

#[test]
fn separators_are_ascii_space_and_punctuation() {
    for c in [' ', '\t', '\n', '\r', '\u{c}', '!', '/', ':', '@', '[', '`', '{', '~'] {
        assert!(is_word_separator(c));
    }
    for c in ['a', 'Z', '0', '9', '\u{b}', '\u{7f}', 'é', '中', '\u{a0}'] {
        assert!(!is_word_separator(c));
    }
    for c in '\u{0}'..='\u{ff}' {
        assert_eq!(
            is_word_separator(c),
            c.is_ascii_punctuation() || c.is_ascii_whitespace()
        );
    }
}
