use ahash::AHashSet;
use crep_indexer::document::Document;
use crep_indexer::document::WordKey;
use crep_indexer::tokenizer::TokenLines;
use crep_indexer::trigram_key::TrigramKey;
use roaring::RoaringBitmap;

fn token(word: &str, lines: &[usize]) -> TokenLines {
    TokenLines {
        token: word.to_string(),
        key: TrigramKey::from_utf8(word),
        lines: lines.to_vec(),
    }
}

fn history(document: &Document, word: &str) -> AHashSet<(usize, usize)> {
    let at = document.index.find(&TrigramKey::from_utf8(word)).unwrap();
    document.words[at].word_history.clone()
}

fn commits(document: &Document, word: &str) -> Vec<u32> {
    document
        .commits(&TrigramKey::from_utf8(word))
        .unwrap()
        .iter()
        .collect()
}

#[test]
fn document_add_words() {
    let words = vec![token("hi", &[1, 2]), token("hello", &[1, 3])];

    let mut document = Document::new();

    document.add_words(1, &words);

    assert_eq!(document.index.keys.len(), 2);
    assert_eq!(
        history(&document, "hi"),
        AHashSet::from_iter([(1, 1), (1, 2)])
    );
    assert_eq!(commits(&document, "hi"), vec![1]);
    assert_eq!(
        history(&document, "hello"),
        AHashSet::from_iter([(1, 1), (1, 3)])
    );
    assert_eq!(commits(&document, "hello"), vec![1]);
    assert!(document.all_words.is_none());
    assert_eq!(document.doc_modified_commits, RoaringBitmap::from([1]));
}

#[test]
fn removing_the_last_introduction_closes_the_run() {
    let mut document = Document::new();
    document.add_words(2, &vec![token("abc", &[0, 4]), token("xyz", &[1])]);
    document.add_words(4, &vec![token("xyz", &[7])]);

    // one of two introductions ends: the word lives on
    document.remove_words(
        6,
        &vec![(
            TrigramKey::from_utf8("abc"),
            vec![WordKey {
                commit_id: 2,
                line: 0,
            }],
        )],
    );
    assert_eq!(history(&document, "abc"), AHashSet::from_iter([(2, 4)]));
    assert_eq!(commits(&document, "abc"), vec![2]);

    // the last one ends at commit 9: commits 2 .. 7 are filled in
    document.remove_words(
        9,
        &vec![
            (
                TrigramKey::from_utf8("abc"),
                vec![WordKey {
                    commit_id: 2,
                    line: 4,
                }],
            ),
            (
                TrigramKey::from_utf8("abc"),
                vec![WordKey {
                    commit_id: 2,
                    line: 4,
                }],
            ),
            (TrigramKey::from_utf8("nope"), vec![]),
        ],
    );
    assert_eq!(history(&document, "abc"), AHashSet::new());
    assert_eq!(commits(&document, "abc"), vec![2, 3, 4, 5, 6, 7]);
    assert_eq!(commits(&document, "xyz"), vec![2, 4]);
    assert_eq!(
        document.doc_modified_commits,
        RoaringBitmap::from([2, 4, 6, 9])
    );
    assert!(document
        .index
        .find(&TrigramKey::from_utf8("nope"))
        .is_none());
}

#[test]
fn closing_a_run_right_behind_its_last_commit_adds_nothing() {
    let mut document = Document::new();
    document.add_words(3, &vec![token("abc", &[0])]);
    document.remove_words(
        4,
        &vec![(
            TrigramKey::from_utf8("abc"),
            vec![WordKey {
                commit_id: 3,
                line: 0,
            }],
        )],
    );
    assert_eq!(commits(&document, "abc"), vec![3]);
}

#[test]
fn finalize_fills_live_runs_up_to_the_head() {
    let mut document = Document::new();
    document.add_words(1, &vec![token("live", &[0]), token("dead", &[1])]);
    document.remove_words(
        3,
        &vec![(
            TrigramKey::from_utf8("dead"),
            vec![WordKey {
                commit_id: 1,
                line: 1,
            }],
        )],
    );
    document.finalize(5);

    assert_eq!(commits(&document, "live"), vec![1, 2, 3, 4, 5]);
    assert_eq!(commits(&document, "dead"), vec![1]);
    assert_eq!(document.doc_modified_commits, RoaringBitmap::from([1, 3]));
    let all: Vec<Vec<u8>> = {
        let set = document.all_words.as_ref().unwrap();
        fst::IntoStreamer::into_stream(set).into_bytes()
    };
    assert_eq!(all, vec![b"dead".to_vec(), b"live".to_vec()]);

    // a word that is there at the head already stays as it is
    let mut other = Document::new();
    other.add_words(0, &vec![token("abc", &[0])]);
    other.add_words(4, &vec![token("abc", &[9])]);
    other.finalize(4);
    assert_eq!(commits(&other, "abc"), vec![0, 4]);
}

#[test]
fn remove_document_ends_every_run() {
    let mut document = Document::new();
    document.add_words(0, &vec![token("one", &[0]), token("two", &[1])]);
    document.remove_words(
        2,
        &vec![(
            TrigramKey::from_utf8("two"),
            vec![WordKey {
                commit_id: 0,
                line: 1,
            }],
        )],
    );
    document.remove_document(6);

    assert_eq!(history(&document, "one"), AHashSet::new());
    assert_eq!(commits(&document, "one"), vec![0, 1, 2, 3, 4]);
    assert_eq!(commits(&document, "two"), vec![0]);
    assert_eq!(
        document.doc_modified_commits,
        RoaringBitmap::from([0, 2, 6])
    );
    assert!(!document.is_deleted);
}
