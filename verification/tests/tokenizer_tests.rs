use std::collections::HashMap;
use std::collections::HashSet;

use crep_indexer::tokenizer::split_lines_to_token_set;
use crep_indexer::tokenizer::split_lines_to_tokens;
use crep_indexer::tokenizer::Tokenizer;
use crep_indexer::tokenizer::WordPosition;
use crep_indexer::trigram_key::TrigramKey;

#[test]
fn trigram() {
    let lines = vec![
        "".to_owned(),
        "a".to_owned(),
        "ab".to_owned(),
        "abc".to_owned(),
        "1234".to_owned(),
        "56789".to_owned(),
    ];

    let result = Tokenizer::split_lines_to_tokens(&lines, 1);

    assert_eq!(
        result
            .total_words
            .iter()
            .map(|s| s.as_str())
            .collect::<HashSet<&str>>(),
        HashSet::from_iter(vec!["a", "ab", "abc", "123", "234", "567", "678", "789"])
    );

    let WordPosition::LineNumOnlyWithDedup(word_pos) = result.word_pos else {
        panic!("the trigram tokenizer lists line numbers only");
    };
    assert_eq!(
        word_pos
            .iter()
            .map(|(word, lines)| (word.as_str(), lines.clone()))
            .collect::<HashMap<&str, Vec<usize>>>(),
        HashMap::from_iter(vec![
            ("a", vec![2]),
            ("ab", vec![3]),
            ("abc", vec![4]),
            ("123", vec![5]),
            ("234", vec![5]),
            ("567", vec![6]),
            ("678", vec![6]),
            ("789", vec![6])
        ])
    );
}

#[test]
fn sort_key_test() {
    let mut v: Vec<TrigramKey> = vec![
        TrigramKey::from_utf8("a"),
        TrigramKey::from_utf8("bc"),
        TrigramKey::from_utf8("def"),
        TrigramKey::from_utf8("efa"),
    ];

    v.sort();
    assert_eq!(
        v,
        vec![
            TrigramKey::from_utf8("a"),
            TrigramKey::from_utf8("bc"),
            TrigramKey::from_utf8("def"),
            TrigramKey::from_utf8("efa")
        ]
    )
}

#[test]
fn keys_order_like_their_bytes() {
    let mut v: Vec<TrigramKey> = vec![
        TrigramKey::from_utf8("b"),
        TrigramKey::from_utf8("ab"),
        TrigramKey::from_utf8("a"),
        TrigramKey::from_utf8("abc"),
    ];
    v.sort();
    assert_eq!(
        v.iter().map(|k| k.to_bytes()).collect::<Vec<_>>(),
        vec![b"a".to_vec(), b"ab".to_vec(), b"abc".to_vec(), b"b".to_vec()]
    );
}

#[test]
fn key_word_holds_the_bytes_and_their_count() {
    // bytes in the low places, lowest first; the count in the thirteenth place
    assert_eq!(TrigramKey::from_utf8("").as_u128(), 0);
    assert_eq!(TrigramKey::from_utf8("a").as_u128(), 0x61 + (1u128 << 96));
    assert_eq!(
        TrigramKey::from_utf8("abc").as_u128(),
        0x61 + (0x62 << 8) + (0x63 << 16) + (3u128 << 96)
    );
    assert_eq!(TrigramKey::from_bytes(&[1, 2]).to_bytes(), vec![1, 2]);
    assert_ne!(
        TrigramKey::from_utf8("a").as_u128(),
        TrigramKey::from_bytes(&[0x61, 0]).as_u128()
    );
}

#[test]
fn lines_of_a_repeated_trigram_are_listed_once_and_ascending() {
    let lines = vec![
        "abcabc".to_owned(),
        "xx".to_owned(),
        "zabc".to_owned(),
    ];
    let tokens = split_lines_to_tokens(&lines, 10);
    let listed: Vec<(String, Vec<usize>)> = tokens
        .iter()
        .map(|t| (t.token.clone(), t.lines.clone()))
        .collect();
    assert_eq!(
        listed,
        vec![
            ("abc".to_owned(), vec![10, 12]),
            ("bca".to_owned(), vec![10]),
            ("cab".to_owned(), vec![10]),
            ("xx".to_owned(), vec![11]),
            ("zab".to_owned(), vec![12]),
        ]
    );
    for t in &tokens {
        assert_eq!(t.key, TrigramKey::from_utf8(&t.token));
    }
}

#[test]
fn windows_count_characters_not_bytes() {
    let lines = vec!["가나a다".to_owned(), "한글".to_owned()];
    let tokens = split_lines_to_tokens(&lines, 0);
    let words: Vec<&str> = tokens.iter().map(|t| t.token.as_str()).collect();
    assert_eq!(words, vec!["가나a", "나a다", "한글"]);
    assert_eq!(tokens[0].key.to_bytes(), "가나a".as_bytes().to_vec());
}

#[test]
fn token_set_has_each_trigram_once() {
    let lines = vec!["abab".to_owned(), "bab".to_owned()];
    let keys = split_lines_to_token_set(&lines);
    assert_eq!(
        keys,
        vec![TrigramKey::from_utf8("aba"), TrigramKey::from_utf8("bab")]
    );
}
