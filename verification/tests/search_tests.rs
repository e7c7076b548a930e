use crep_indexer::git_index::GitIndex;
use crep_indexer::git_indexer::DeltaStatus;
use crep_indexer::git_indexer::GitDelta;
use crep_indexer::git_indexer::GitIndexer;
use crep_indexer::git_indexer::IndexError;
use crep_indexer::git_searcher::GitSearcher;
use crep_indexer::git_searcher::Query;
use crep_indexer::git_searcher::RawPerFileSearchResult;
use crep_indexer::git_searcher::SearchOption;
use crep_indexer::regex_search::QueryError;
use crep_indexer::search_result::MatchingWordPos;
use crep_indexer::search_result::SearchError;
use crep_indexer::search_result::SearchResult;
use crep_indexer::search_result::SingleCommitSearchResult;
use crep_indexer::search_result::SnapshotReader;
use roaring::RoaringBitmap;
use crep_indexer::git_searcher::find_all_words_containing_key;
use crep_indexer::regex_query::find_matching_trigram;
use crep_indexer::regex_search::CharRange;
use crep_indexer::regex_search::CharacterClass;
use crep_indexer::regex_search::Trigram;
use crep_indexer::trigram_key::TrigramKey;

fn lines(text: &[&str]) -> Vec<String> {
    text.iter().map(|s| s.to_string()).collect()
}

fn hunk(
    prev_start: u32,
    deleted: &[&str],
    new_start: u32,
    added: &[&str],
) -> GitDelta {
    GitDelta {
        prev_line_start_num: prev_start,
        prev_line_count: deleted.len() as u32,
        new_line_start_num: new_start,
        new_line_count: added.len() as u32,
        added_lines: lines(added),
        deleted_lines: lines(deleted),
    }
}

fn commits_of(result: &RawPerFileSearchResult) -> Vec<u32> {
    result.overlapped_commits.iter().collect()
}

fn words_of(result: &RawPerFileSearchResult) -> Vec<String> {
    match &result.query {
        Query::Words(words) => words.clone(),
        Query::Regex(_) => panic!("a word query was asked"),
    }
}

/// One file `path`, whose version at commit `i` is `versions[i]`; each
/// commit replaces all lines of the one before it.
fn history_of(path: &str, versions: &[&[&str]]) -> (GitIndex, SnapshotReader) {
    let mut indexer = GitIndexer::new();
    let mut reader = SnapshotReader {
        commits: vec![],
        missing: "invalid commit index".to_string(),
    };
    for (i, version) in versions.iter().enumerate() {
        let commit = indexer.add_commit([i as u8; 20]);
        assert_eq!(commit, i);
        if i == 0 {
            let id = indexer.get_file_id_insert_if_missing(path).unwrap();
            assert_eq!(id, 0);
            indexer
                .add_new_lines(0, id, 0, 0, &lines(version))
                .unwrap();
        } else {
            let before = versions[i - 1];
            indexer
                .index_git_delta(
                    Some((0, DeltaStatus::Modified)),
                    &vec![hunk(1, before, 1, version)],
                    i,
                )
                .unwrap();
        }
        reader
            .commits
            .push(vec![Some((path.to_string(), version.join("\n")))]);
    }
    (GitIndex::build(indexer).unwrap(), reader)
}

#[test]
fn root_only_file_single_word() {
    let (index, reader) = history_of("foo.rs", &[&["let quick = 1;"]]);
    let searcher = GitSearcher::new(&index);

    let raw = searcher.search("quick", None);
    assert_eq!(raw.len(), 1);
    assert_eq!(raw[0].file_id, 0);
    assert_eq!(commits_of(&raw[0]), vec![0]);
    assert_eq!(words_of(&raw[0]), vec!["quick".to_string()]);

    let hit = SearchResult::new(&reader, &raw[0]).unwrap().unwrap();
    assert_eq!(hit.file_path, "foo.rs");
    assert_eq!(hit.first_match.commit_id, 0);
    assert_eq!(hit.last_match, None);
    assert_eq!(
        hit.first_match.words_per_line,
        vec![(0, vec![("quick".to_string(), 4)])]
    );
    assert_eq!(
        hit.first_match.lines,
        vec![(0, "let quick = 1;".to_string())]
    );
}

#[test]
fn introduce_then_remove() {
    let mut indexer = GitIndexer::new();
    indexer.add_commit([0; 20]);
    let id = indexer.get_file_id_insert_if_missing("a.txt").unwrap();
    indexer
        .add_new_lines(0, id, 0, 0, &lines(&["alpha", "beta"]))
        .unwrap();
    indexer.add_commit([1; 20]);
    indexer
        .index_git_delta(
            Some((id, DeltaStatus::Modified)),
            &vec![hunk(2, &["beta"], 2, &["gamma"])],
            1,
        )
        .unwrap();
    let index = GitIndex::build(indexer).unwrap();
    let reader = SnapshotReader {
        commits: vec![
            vec![Some(("a.txt".to_string(), "alpha\nbeta".to_string()))],
            vec![Some(("a.txt".to_string(), "alpha\ngamma".to_string()))],
        ],
        missing: "invalid commit index".to_string(),
    };
    let searcher = GitSearcher::new(&index);

    let raw = searcher.search("beta", None);
    assert_eq!(raw.len(), 1);
    assert_eq!(commits_of(&raw[0]), vec![0]);

    let hit = SearchResult::new(&reader, &raw[0]).unwrap().unwrap();
    assert_eq!(hit.first_match.commit_id, 0);
    assert_eq!(hit.last_match, None);

    let gamma = searcher.search("gamma", None);
    assert_eq!(gamma.len(), 1);
    assert_eq!(commits_of(&gamma[0]), vec![1]);
    let alpha = searcher.search("alpha", None);
    assert_eq!(commits_of(&alpha[0]), vec![0, 1]);
}

#[test]
fn persisting_word() {
    let (index, reader) = history_of("a", &[&["hello world"], &["hello brave world"]]);
    let searcher = GitSearcher::new(&index);

    let raw = searcher.search("hello", None);
    assert_eq!(raw.len(), 1);
    assert_eq!(commits_of(&raw[0]), vec![0, 1]);

    let hit = SearchResult::new(&reader, &raw[0]).unwrap().unwrap();
    assert_eq!(hit.first_match.commit_id, 0);
    assert_eq!(hit.last_match.unwrap().commit_id, 1);
}

#[test]
fn regex_character_class() {
    let mut indexer = GitIndexer::new();
    indexer.add_commit([0; 20]);
    let id = indexer.get_file_id_insert_if_missing("spelling.txt").unwrap();
    indexer
        .add_new_lines(0, id, 0, 0, &lines(&["color"]))
        .unwrap();
    indexer.add_commit([1; 20]);
    // a hunk that only adds: the new line comes behind line one
    indexer
        .index_git_delta(
            Some((id, DeltaStatus::Modified)),
            &vec![hunk(1, &[], 2, &["colour"])],
            1,
        )
        .unwrap();
    let index = GitIndex::build(indexer).unwrap();
    let reader = SnapshotReader {
        commits: vec![
            vec![Some(("spelling.txt".to_string(), "color".to_string()))],
            vec![Some((
                "spelling.txt".to_string(),
                "color\ncolour".to_string(),
            ))],
        ],
        missing: "invalid commit index".to_string(),
    };
    let searcher = GitSearcher::new(&index);

    let raw = searcher.regex_search("colou?r", None).unwrap();
    // one result for each branch of the plan: "color", then "colour"
    assert_eq!(raw.len(), 2);
    assert_eq!(raw[0].file_id, 0);
    assert_eq!(commits_of(&raw[0]), vec![0, 1]);
    assert_eq!(commits_of(&raw[1]), vec![1]);
    match &raw[0].query {
        Query::Regex(q) => assert_eq!(q, "colou?r"),
        Query::Words(_) => panic!("a regular expression was asked"),
    }

    let hit = SearchResult::new(&reader, &raw[0]).unwrap().unwrap();
    assert_eq!(hit.first_match.commit_id, 0);
    assert_eq!(
        hit.first_match.words_per_line,
        vec![(0, vec![("color".to_string(), 0)])]
    );
    let last = hit.last_match.unwrap();
    assert_eq!(last.commit_id, 1);
    assert_eq!(
        last.words_per_line,
        vec![
            (0, vec![("color".to_string(), 0)]),
            (1, vec![("colour".to_string(), 0)])
        ]
    );
}

#[test]
fn planner_limits() {
    let (index, _) = history_of("a", &[&["abababab"]]);
    let searcher = GitSearcher::new(&index);

    // zero repetitions are allowed: the branch without trigrams filters
    // nothing and adds no result; the other branches are looked up
    let raw = searcher.regex_search("(?:xy){0,10}", None).unwrap();
    assert_eq!(raw.len(), 0);
    let raw = searcher.regex_search("(?:ab){0,10}", None).unwrap();
    assert_eq!(
        raw.iter().map(|r| r.file_id).collect::<Vec<_>>(),
        vec![0, 0, 0]
    );
    // a capturing group is refused
    assert_eq!(
        searcher.regex_search("(ab){0,10}", None).map(|r| r.len()),
        Err(QueryError::Unsupported)
    );
}

#[test]
fn empty_and_blank_queries_find_nothing() {
    let (index, _) = history_of("a", &[&["hello world"]]);
    let searcher = GitSearcher::new(&index);

    assert_eq!(searcher.search("", None).len(), 0);
    assert_eq!(searcher.search("   \t  ", None).len(), 0);
    assert_eq!(searcher.regex_search("", None).unwrap().len(), 0);
}

#[test]
fn query_with_unknown_characters_finds_nothing() {
    let (index, _) = history_of("a", &[&["hello world"]]);
    let searcher = GitSearcher::new(&index);

    assert_eq!(searcher.search("z", None).len(), 0);
    assert_eq!(searcher.search("zz", None).len(), 0);
    assert_eq!(searcher.search("hellz", None).len(), 0);
    assert_eq!(searcher.search("hello zzz", None).len(), 0);
    assert_eq!(searcher.get_document_bitmap_containing_word("z"), None);
}

#[test]
fn short_words_are_found_inside_tokens() {
    let (index, _) = history_of("a", &[&["hello world"], &["hexagon"]]);
    let searcher = GitSearcher::new(&index);

    let raw = searcher.search("he", None);
    assert_eq!(raw.len(), 1);
    assert_eq!(commits_of(&raw[0]), vec![0, 1]);
    let raw = searcher.search("o", None);
    assert_eq!(commits_of(&raw[0]), vec![0, 1]);
    let raw = searcher.search("x", None);
    assert_eq!(commits_of(&raw[0]), vec![1]);
    // every word must be there at the same commit
    let raw = searcher.search("wor x", None);
    assert_eq!(raw.len(), 0);
    let raw = searcher.search("hel  wor", None);
    assert_eq!(commits_of(&raw[0]), vec![0]);
    assert_eq!(
        words_of(&raw[0]),
        vec!["hel".to_string(), "wor".to_string()]
    );
}

#[test]
fn results_come_by_ascending_file_and_stop_at_the_bound() {
    let mut indexer = GitIndexer::new();
    indexer.add_commit([0; 20]);
    for name in ["a", "b", "c", "d"] {
        let id = indexer.get_file_id_insert_if_missing(name).unwrap();
        let text = if name == "c" { "other" } else { "needle" };
        indexer.add_new_lines(0, id, 0, 0, &lines(&[text])).unwrap();
    }
    assert_eq!(indexer.get_file_id_insert_if_missing("b"), Ok(1));
    let index = GitIndex::build(indexer).unwrap();
    let searcher = GitSearcher::new(&index);

    let all = searcher.search("needle", None);
    assert_eq!(
        all.iter().map(|r| r.file_id).collect::<Vec<_>>(),
        vec![0, 1, 3]
    );
    let two = searcher.search(
        "needle",
        Some(SearchOption {
            max_num_to_find: Some(2),
        }),
    );
    assert_eq!(
        two.iter().map(|r| r.file_id).collect::<Vec<_>>(),
        vec![0, 1]
    );
    let none = searcher.search(
        "needle",
        Some(SearchOption {
            max_num_to_find: Some(0),
        }),
    );
    assert!(none.is_empty());
    let regex_none = searcher
        .regex_search(
            "needle",
            Some(SearchOption {
                max_num_to_find: Some(0),
            }),
        )
        .unwrap();
    assert!(regex_none.is_empty());
    let one = searcher.search(
        "needle",
        Some(SearchOption {
            max_num_to_find: Some(1),
        }),
    );
    assert_eq!(one.iter().map(|r| r.file_id).collect::<Vec<_>>(), vec![0]);
    let regex_two = searcher
        .regex_search(
            "needle",
            Some(SearchOption {
                max_num_to_find: Some(2),
            }),
        )
        .unwrap();
    assert_eq!(
        regex_two.iter().map(|r| r.file_id).collect::<Vec<_>>(),
        vec![0, 1]
    );
    assert_eq!(index.not_deleted_files_head, RoaringBitmap::from([0, 1, 2, 3]));
}

#[test]
fn regex_errors() {
    let (index, _) = history_of("a", &[&["hello world"]]);
    let searcher = GitSearcher::new(&index);

    assert!(matches!(
        searcher.regex_search("a(", None),
        Err(QueryError::Parse(_))
    ));
    assert!(matches!(
        searcher.regex_search("(?=a)", None),
        Err(QueryError::Parse(_))
    ));
    assert!(matches!(
        searcher.regex_search("\\bhello", None),
        Err(QueryError::Unsupported)
    ));
    // the trigram "(h" is written into a pattern as it is
    assert!(matches!(
        searcher.regex_search("\\(h", None),
        Err(QueryError::Automaton)
    ));
}

#[test]
fn regex_with_a_class_inside_a_trigram() {
    let (index, _) = history_of("a", &[&["cat"], &["cut"], &["cot"]]);
    let searcher = GitSearcher::new(&index);

    let raw = searcher.regex_search("c[au]t", None).unwrap();
    assert_eq!(raw.len(), 1);
    assert_eq!(commits_of(&raw[0]), vec![0, 1]);
}

#[test]
fn deleted_file_keeps_its_history() {
    let mut indexer = GitIndexer::new();
    indexer.add_commit([0; 20]);
    let id = indexer.get_file_id_insert_if_missing("gone.txt").unwrap();
    indexer
        .index_git_delta(
            Some((id, DeltaStatus::Added)),
            &vec![hunk(0, &[], 1, &["short lived"])],
            0,
        )
        .unwrap();
    indexer.add_commit([1; 20]);
    indexer.add_commit([2; 20]);
    indexer.add_commit([3; 20]);
    indexer
        .index_git_delta(
            Some((id, DeltaStatus::Deleted)),
            &vec![hunk(1, &["short lived"], 0, &[])],
            3,
        )
        .unwrap();
    let index = GitIndex::build(indexer).unwrap();
    assert!(index.file_id_to_document[0].is_deleted);
    assert_eq!(index.not_deleted_files_head, RoaringBitmap::new());
    assert_eq!(
        index.file_id_to_document[0].doc_modified_commits,
        RoaringBitmap::from([0, 3])
    );
    let key = crep_indexer::trigram_key::TrigramKey::from_utf8("sho");
    // the run is closed before the commit that precedes the deletion
    assert_eq!(
        index.file_id_to_document[0].commits(&key),
        Some(&RoaringBitmap::from([0, 1]))
    );
    let searcher = GitSearcher::new(&index);
    let raw = searcher.search("short", None);
    assert_eq!(commits_of(&raw[0]), vec![0]);
}

#[test]
fn index_errors() {
    let mut indexer = GitIndexer::new();
    indexer.add_commit([0; 20]);
    let id = indexer.get_file_id_insert_if_missing("a").unwrap();
    assert_eq!(
        indexer.index_git_delta(None, &vec![], 0),
        Err(IndexError::MissingFile)
    );
    assert_eq!(
        indexer.index_git_delta(
            Some((id, DeltaStatus::Added)),
            &vec![hunk(0, &[], 2, &["x"])],
            0
        ),
        Err(IndexError::BadHunk)
    );
    assert_eq!(
        indexer.index_git_delta(Some((id, DeltaStatus::Deleted)), &vec![], 1),
        Err(IndexError::BadHunk)
    );
    assert_eq!(
        indexer.delete_lines(1, id, 0, &lines(&["x"])),
        Err(IndexError::UnknownFile)
    );
    assert_eq!(
        indexer.delete_entire_file(1, id),
        Err(IndexError::UnknownFile)
    );
    indexer.add_new_lines(0, id, 0, 0, &lines(&["x"])).unwrap();
    assert_eq!(
        indexer.delete_lines(1, id, 0, &lines(&["x", "y"])),
        Err(IndexError::LinesOutOfRange)
    );
    assert_eq!(
        indexer.delete_lines(0, id, 0, &lines(&["x"])),
        Err(IndexError::TooLarge)
    );
    assert_eq!(
        indexer.add_new_lines(1usize << 40, id, 0, 0, &lines(&["x"])),
        Err(IndexError::TooLarge)
    );
    assert_eq!(
        indexer.index_git_delta(Some((id, DeltaStatus::Other)), &vec![], 1),
        Ok(())
    );
}

#[test]
fn commit_hashes_are_found_again() {
    let (index, _) = history_of("a", &[&["x"], &["y"], &["z"]]);
    assert_eq!(index.commit_index_of(&[1; 20]), Some(1));
    assert_eq!(index.commit_index_of(&[2; 20]), Some(2));
    assert_eq!(index.commit_index_of(&[9; 20]), None);
    assert_eq!(index.file_id_to_path, vec!["a".to_string()]);
}

#[test]
fn first_and_last_match_skip_commits_without_a_real_match() {
    // every trigram of "abcd" is there at each commit, the word only at
    // commits 1 and 2
    let (index, reader) = history_of(
        "a",
        &[
            &["abc", "bcd"],
            &["abcd"],
            &["abcd", "more"],
            &["abc bcd"],
        ],
    );
    let searcher = GitSearcher::new(&index);
    let raw = searcher.search("abcd", None);
    assert_eq!(commits_of(&raw[0]), vec![0, 1, 2, 3]);

    let hit = SearchResult::new(&reader, &raw[0]).unwrap().unwrap();
    assert_eq!(hit.first_match.commit_id, 1);
    assert_eq!(hit.last_match.unwrap().commit_id, 2);

    let never = RawPerFileSearchResult {
        query: Query::Words(vec!["abcd".to_string()]),
        file_id: 0,
        overlapped_commits: RoaringBitmap::from([0, 3]),
    };
    assert_eq!(SearchResult::new(&reader, &never), Ok(None));

    let beyond = RawPerFileSearchResult {
        query: Query::Words(vec!["abcd".to_string()]),
        file_id: 0,
        overlapped_commits: RoaringBitmap::from([0, 7]),
    };
    assert_eq!(
        SearchResult::new(&reader, &beyond),
        Err(SearchError::Read("invalid commit index".to_string()))
    );
    let bad_pattern = RawPerFileSearchResult {
        query: Query::Regex("a(".to_string()),
        file_id: 0,
        overlapped_commits: RoaringBitmap::from([0]),
    };
    assert_eq!(
        SearchResult::new(&reader, &bad_pattern),
        Err(SearchError::Pattern)
    );
}

#[test]
fn shown_match_has_its_context_lines() {
    let content: Vec<String> = lines(&["l0", "l1", "l2", "needle here", "l4", "l5", "l6"]);
    let shown = SingleCommitSearchResult::new(
        &Query::Words(vec!["here".to_string(), "needle".to_string()]),
        5,
        &content,
    )
    .unwrap()
    .unwrap();
    assert_eq!(shown.commit_id, 5);
    assert_eq!(
        shown.words_per_line,
        vec![(
            3,
            vec![("needle".to_string(), 0), ("here".to_string(), 7)]
        )]
    );
    assert_eq!(
        shown.lines,
        vec![
            (1, "l1".to_string()),
            (2, "l2".to_string()),
            (3, "needle here".to_string()),
            (4, "l4".to_string()),
            (5, "l5".to_string())
        ]
    );
    assert_eq!(
        SingleCommitSearchResult::new(
            &Query::Words(vec!["needle".to_string(), "absent".to_string()]),
            5,
            &content
        ),
        Ok(None)
    );
    assert_eq!(
        SingleCommitSearchResult::from_matches(5, vec![], &content),
        None
    );
    let far = SingleCommitSearchResult::from_matches(
        1,
        vec![
            ("b".to_string(), MatchingWordPos { line_num: 6, col: 9 }),
            ("a".to_string(), MatchingWordPos { line_num: 0, col: 3 }),
            ("c".to_string(), MatchingWordPos { line_num: 6, col: 2 }),
        ],
        &content,
    )
    .unwrap();
    assert_eq!(
        far.words_per_line,
        vec![
            (0, vec![("a".to_string(), 3)]),
            (6, vec![("c".to_string(), 2), ("b".to_string(), 9)])
        ]
    );
    assert_eq!(
        far.lines.iter().map(|l| l.0).collect::<Vec<_>>(),
        vec![0, 1, 2, 4, 5, 6]
    );
}

#[test]
fn regex_matches_stop_after_eleven_lines() {
    let content: Vec<String> = (0..20).map(|i| format!("match {i}")).collect();
    let shown = SingleCommitSearchResult::new(&Query::Regex("match \\d+".to_string()), 0, &content)
        .unwrap()
        .unwrap();
    assert_eq!(shown.words_per_line.len(), 11);
    assert_eq!(shown.words_per_line[10], (10, vec![("match 10".to_string(), 0)]));
}

#[test]
fn tokens_that_hold_a_short_word_are_found_in_a_set() {
    let set = fst::Set::from_iter(["abc", "bcd", "cab", "xay", "xyz", "é", "éab"]).unwrap();
    let found = find_all_words_containing_key("a", &set).unwrap();
    assert_eq!(
        found,
        vec![b"abc".to_vec(), b"cab".to_vec(), b"xay".to_vec(), "éab".as_bytes().to_vec()]
    );
    let found = find_all_words_containing_key("ab", &set).unwrap();
    assert_eq!(found, vec![b"abc".to_vec(), b"cab".to_vec(), "éab".as_bytes().to_vec()]);
    // a character that stands for something in a pattern is taken as itself
    let dots = fst::Set::from_iter(["..x", "a.b", "axb"]).unwrap();
    let found = find_all_words_containing_key(".", &dots).unwrap();
    assert_eq!(found, vec![b"..x".to_vec(), b"a.b".to_vec()]);
    let found = find_all_words_containing_key("q", &set).unwrap();
    assert!(found.is_empty());
}

#[test]
fn keys_that_match_a_trigram_are_found_in_a_set() {
    let set = fst::Set::from_iter(["a1c", "abc", "abd", "xabc", "zzz"]).unwrap();
    // three plain characters are their own key, in the set or not
    assert_eq!(
        find_matching_trigram(&Trigram::new("abc"), &set).unwrap(),
        vec![TrigramKey::from_utf8("abc")]
    );
    assert_eq!(
        find_matching_trigram(&Trigram::new("qqq"), &set).unwrap(),
        vec![TrigramKey::from_utf8("qqq")]
    );
    // a shorter trigram selects the tokens that hold it
    assert_eq!(
        find_matching_trigram(&Trigram::new("ab"), &set).unwrap(),
        vec![
            TrigramKey::from_utf8("abc"),
            TrigramKey::from_utf8("abd"),
            TrigramKey::from_utf8("xabc")
        ]
    );
    let digit_or_b = Trigram::from_classes(&vec![
        CharacterClass::Char('a'),
        CharacterClass::CharRange(vec![
            CharRange { start: 0x30, end: 0x39 },
            CharRange { start: 0x62, end: 0x62 },
        ]),
        CharacterClass::Char('c'),
    ]);
    assert_eq!(
        find_matching_trigram(&digit_or_b, &set).unwrap(),
        vec![
            TrigramKey::from_utf8("a1c"),
            TrigramKey::from_utf8("abc"),
            TrigramKey::from_utf8("xabc")
        ]
    );
}
