use crep_indexer::document::Document;
use crep_indexer::git_index::GitIndex;
use crep_indexer::git_indexer::DeltaStatus;
use crep_indexer::git_indexer::GitDelta;
use crep_indexer::git_indexer::GitIndexer;
use crep_indexer::git_indexer::IndexError;
use crep_indexer::git_searcher::GitSearcher;
use crep_indexer::store::StoredDocument;
use crep_indexer::store::StoredIndex;
use crep_indexer::store::StoredWord;

fn lines(text: &[&str]) -> Vec<String> {
    text.iter().map(|s| s.to_string()).collect()
}

fn small_index() -> GitIndex {
    let mut indexer = GitIndexer::new();
    indexer.add_commit([0; 20]);
    let a = indexer.get_file_id_insert_if_missing("a.txt").unwrap();
    indexer
        .add_new_lines(0, a, 0, 0, &lines(&["alpha", "beta"]))
        .unwrap();
    let b = indexer.get_file_id_insert_if_missing("b.txt").unwrap();
    indexer.add_new_lines(0, b, 0, 0, &lines(&["beta"])).unwrap();
    indexer.add_commit([1; 20]);
    indexer
        .index_git_delta(
            Some((a, DeltaStatus::Modified)),
            &vec![GitDelta {
                prev_line_start_num: 2,
                prev_line_count: 1,
                new_line_start_num: 2,
                new_line_count: 1,
                added_lines: lines(&["gamma"]),
                deleted_lines: lines(&["beta"]),
            }],
            1,
        )
        .unwrap();
    indexer.add_commit([2; 20]);
    indexer
        .index_git_delta(
            Some((b, DeltaStatus::Deleted)),
            &vec![GitDelta {
                prev_line_start_num: 1,
                prev_line_count: 1,
                new_line_start_num: 0,
                new_line_count: 0,
                added_lines: vec![],
                deleted_lines: lines(&["beta"]),
            }],
            2,
        )
        .unwrap();
    GitIndex::build(indexer).unwrap()
}

fn sorted(mut stored: StoredIndex) -> StoredIndex {
    for document in &mut stored.file_id_to_document {
        for word in &mut document.words {
            word.history.sort();
        }
        document.words.sort_by(|a, b| a.key.cmp(&b.key));
    }
    stored
}

#[test]
fn stored_index_comes_back_the_same() {
    let index = small_index();
    let stored = index.export();
    assert_eq!(stored.file_id_to_path, vec!["a.txt", "b.txt"]);
    assert_eq!(stored.commit_index_to_commit_id.len(), 3);
    assert!(stored.file_id_to_document[1].is_deleted);

    let restored = GitIndex::restore(stored.clone()).unwrap();
    assert_eq!(sorted(restored.export()), sorted(stored));
    assert_eq!(restored.not_deleted_files_head, index.not_deleted_files_head);

    for query in ["beta", "alpha", "gamma", "a", "et"] {
        let before: Vec<(u32, Vec<u32>)> = GitSearcher::new(&index)
            .search(query, None)
            .iter()
            .map(|r| (r.file_id, r.overlapped_commits.iter().collect()))
            .collect();
        let after: Vec<(u32, Vec<u32>)> = GitSearcher::new(&restored)
            .search(query, None)
            .iter()
            .map(|r| (r.file_id, r.overlapped_commits.iter().collect()))
            .collect();
        assert_eq!(before, after);
        assert!(!before.is_empty());
    }
    let regex = GitSearcher::new(&restored).regex_search("b[a-z]ta", None).unwrap();
    assert_eq!(
        regex.iter().map(|r| r.file_id).collect::<Vec<_>>(),
        vec![0, 1]
    );
}

#[test]
fn stored_document_is_what_the_document_knows() {
    let index = small_index();
    let stored = sorted(index.export());
    let beta: Vec<&StoredWord> = stored.file_id_to_document[0]
        .words
        .iter()
        .filter(|w| w.key == b"bet".to_vec())
        .collect();
    assert_eq!(beta.len(), 1);
    assert_eq!(beta[0].history, vec![]);
    assert_eq!(beta[0].commits, vec![0]);
    let alpha: Vec<&StoredWord> = stored.file_id_to_document[0]
        .words
        .iter()
        .filter(|w| w.key == b"alp".to_vec())
        .collect();
    assert_eq!(alpha[0].history, vec![(0, 0)]);
    assert_eq!(alpha[0].commits, vec![0, 1, 2]);
    assert_eq!(stored.file_id_to_document[0].modified_commits, vec![0, 1]);
    assert_eq!(stored.file_id_to_document[1].modified_commits, vec![0, 2]);
}

#[test]
fn malformed_stored_values_are_refused() {
    let word = StoredWord {
        key: b"abc".to_vec(),
        history: vec![],
        commits: vec![0],
    };
    let document = StoredDocument {
        words: vec![word.clone()],
        modified_commits: vec![0],
        is_deleted: false,
    };
    assert!(Document::restore(&document).is_some());

    let twice = StoredDocument {
        words: vec![word.clone(), word.clone()],
        ..document.clone()
    };
    assert!(Document::restore(&twice).is_none());
    let no_commit = StoredDocument {
        words: vec![StoredWord {
            commits: vec![],
            ..word.clone()
        }],
        ..document.clone()
    };
    assert!(Document::restore(&no_commit).is_none());
    let long_key = StoredDocument {
        words: vec![StoredWord {
            key: vec![b'x'; 13],
            ..word.clone()
        }],
        ..document.clone()
    };
    assert!(Document::restore(&long_key).is_none());

    let no_path = StoredIndex {
        commit_index_to_commit_id: vec![[0; 20]],
        file_id_to_path: vec![],
        file_id_to_document: vec![document.clone()],
    };
    assert_eq!(
        GitIndex::restore(no_path).map(|_| ()),
        Err(IndexError::Malformed)
    );
    let bad_document = StoredIndex {
        commit_index_to_commit_id: vec![[0; 20]],
        file_id_to_path: vec!["a".to_string()],
        file_id_to_document: vec![twice],
    };
    assert_eq!(
        GitIndex::restore(bad_document).map(|_| ()),
        Err(IndexError::Malformed)
    );
}

#[test]
fn a_stored_document_is_taken_back_exactly_when_it_is_sound() {
    let word = |key: &[u8], commits: Vec<u32>| StoredWord {
        key: key.to_vec(),
        history: vec![(0, 1)],
        commits,
    };
    let document = |words: Vec<StoredWord>| StoredDocument {
        words,
        modified_commits: vec![0],
        is_deleted: false,
    };
    // sound: short keys, each once, each with a commit
    assert!(Document::restore(&document(vec![])).is_some());
    assert!(Document::restore(&document(vec![
        word(b"abc", vec![0]),
        word(b"ab", vec![0, 1]),
        word(b"abc\0", vec![2]),
        word(b"twelve bytes", vec![3]),
    ]))
    .is_some());
    // a key of thirteen bytes
    assert!(Document::restore(&document(vec![word(b"thirteenbytes", vec![0])])).is_none());
    // a key without a commit
    assert!(Document::restore(&document(vec![word(b"abc", vec![])])).is_none());
    // a key listed twice, not next to itself
    assert!(Document::restore(&document(vec![
        word(b"abc", vec![0]),
        word(b"abd", vec![0]),
        word(b"abc", vec![1]),
    ]))
    .is_none());
}
