use crep_indexer::search_hit::convert_search_result_to_lines;
use crep_indexer::search_hit::commit_sha_hex;
use crep_indexer::search_hit::CommitInfo;
use crep_indexer::search_hit::LineHighlight;
use crep_indexer::search_hit::LineMatch;
use crep_indexer::search_hit::SearchHit;
use crep_indexer::search_result::SearchResult;
use crep_indexer::search_result::SingleCommitSearchResult;

fn shown(commit_id: usize) -> SingleCommitSearchResult {
    SingleCommitSearchResult {
        commit_id,
        words_per_line: vec![(0, vec![("quick".to_string(), 4)])],
        lines: vec![
            (0, "let quick = 1;".to_string()),
            (1, "next".to_string()),
        ],
    }
}

fn info(summary: &str) -> CommitInfo {
    CommitInfo {
        commit_date: "2024-01-02T03:04:05+00:00".to_string(),
        commit_summary: summary.to_string(),
    }
}

#[test]
fn lines_are_counted_from_one() {
    assert_eq!(
        LineMatch::new(&shown(0)),
        vec![
            LineMatch {
                line_number: 1,
                content: "let quick = 1;".to_string(),
                highlights: vec![LineHighlight {
                    term: "quick".to_string(),
                    column: 4
                }],
            },
            LineMatch {
                line_number: 2,
                content: "next".to_string(),
                highlights: vec![],
            },
        ]
    );
}

#[test]
fn hash_is_written_in_forty_digits() {
    let mut id = [0u8; 20];
    id[0] = 0xab;
    id[1] = 0x01;
    id[19] = 0xf0;
    assert_eq!(
        commit_sha_hex(&id),
        "ab010000000000000000000000000000000000f0"
    );
}

#[test]
fn hit_carries_what_is_known_of_its_commits() {
    let commits = vec![[0u8; 20], [0x11u8; 20], [0x22u8; 20]];
    let result = SearchResult {
        file_path: "foo.rs".to_string(),
        first_match: shown(0),
        last_match: Some(shown(2)),
    };
    let hit =
        SearchHit::from_search_result(&commits, info("first"), Some(info("last")), &result)
            .unwrap();
    assert_eq!(hit.file_path, "foo.rs");
    assert_eq!(hit.first_match.commit_index, 0);
    assert_eq!(hit.first_match.commit_sha, "0".repeat(40));
    assert_eq!(hit.first_match.commit_summary, "first");
    assert_eq!(hit.first_match.commit_date, "2024-01-02T03:04:05+00:00");
    assert_eq!(hit.first_match.lines, LineMatch::new(&shown(0)));
    let last = hit.last_match.unwrap();
    assert_eq!(last.commit_index, 2);
    assert_eq!(last.commit_sha, "2".repeat(40));
    assert_eq!(last.commit_summary, "last");

    assert_eq!(
        SearchHit::from_search_result(&commits, info("first"), None, &result),
        None
    );
    assert_eq!(
        SearchHit::from_search_result(
            &commits[..2].to_vec(),
            info("first"),
            Some(info("last")),
            &result
        ),
        None
    );
    let single = SearchResult {
        file_path: "foo.rs".to_string(),
        first_match: shown(1),
        last_match: None,
    };
    let hit = SearchHit::from_search_result(&commits, info("only"), None, &single).unwrap();
    assert_eq!(hit.last_match, None);
    assert_eq!(hit.first_match.commit_sha, "1".repeat(40));
}

#[test]
fn the_lines_of_a_result_are_shown_with_their_matches() {
    let result = SingleCommitSearchResult {
        commit_id: 3,
        words_per_line: vec![(1, vec![("quick".to_string(), 4)])],
        lines: vec![
            (0, "// before".to_string()),
            (1, "let quick = 1;".to_string()),
            (2, "".to_string()),
        ],
    };
    assert_eq!(
        convert_search_result_to_lines(&result),
        Some(vec![
            "\u{1b}[33m     1\u{1b}[39m| // before".to_string(),
            "\u{1b}[33m     2\u{1b}[39m| let \u{1b}[31mquick\u{1b}[39m = 1;".to_string(),
            "\u{1b}[33m     3\u{1b}[39m| ".to_string(),
        ])
    );
    let broken = SingleCommitSearchResult {
        commit_id: 3,
        words_per_line: vec![(0, vec![("quick".to_string(), 40)])],
        lines: vec![(0, "short".to_string())],
    };
    assert_eq!(convert_search_result_to_lines(&broken), None);
}
