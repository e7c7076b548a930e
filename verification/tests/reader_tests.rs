use std::cell::RefCell;

use crep_indexer::git_searcher::Query;
use crep_indexer::git_searcher::RawPerFileSearchResult;
use crep_indexer::search_result::find_word_matches_in_document;
use crep_indexer::search_result::word_matches_with;
use crep_indexer::search_result::MatchingWordPos;
use crep_indexer::search_result::RepoReader;
use crep_indexer::search_result::SearchError;
use crep_indexer::search_result::SearchResult;
use roaring::RoaringBitmap;

/// A file that holds "needle" at the commits 3, 4 and 6 and is missing at
/// commit 2. It counts how often it is read.
struct Counting {
    reads: RefCell<Vec<usize>>,
}

impl RepoReader for Counting {
    fn content_at(
        &self,
        commit_id: usize,
        file_id: usize,
    ) -> Result<Option<(String, String)>, String> {
        self.read_file_at_commit(commit_id, file_id)
    }

    fn read_file_at_commit(
        &self,
        commit_id: usize,
        file_id: usize,
    ) -> Result<Option<(String, String)>, String> {
        self.reads.borrow_mut().push(commit_id);
        if file_id != 7 || commit_id > 8 {
            return Err("no such file".to_string());
        }
        Ok(match commit_id {
            2 => None,
            3 | 4 | 6 => Some(("src/x.rs".to_string(), "a\r\nthe needle\n".to_string())),
            _ => Some(("src/x.rs".to_string(), "nothing".to_string())),
        })
    }
}

#[test]
fn first_match_is_the_least_and_last_match_the_greatest_commit() {
    let reader = Counting {
        reads: RefCell::new(vec![]),
    };
    let raw = RawPerFileSearchResult {
        query: Query::Words(vec!["needle".to_string()]),
        file_id: 7,
        overlapped_commits: RoaringBitmap::from([1, 2, 3, 4, 5, 6, 8]),
    };
    let hit = SearchResult::new(&reader, &raw).unwrap().unwrap();
    assert_eq!(hit.file_path, "src/x.rs");
    assert_eq!(hit.first_match.commit_id, 3);
    assert_eq!(hit.first_match.lines, vec![(0, "a".to_string()), (1, "the needle".to_string())]);
    let last = hit.last_match.unwrap();
    assert_eq!(last.commit_id, 6);
    // ascending up to the first match, then descending down to the last
    assert_eq!(*reader.reads.borrow(), vec![1, 2, 3, 8, 6]);
}

#[test]
fn a_single_matching_commit_has_no_last_match() {
    let reader = Counting {
        reads: RefCell::new(vec![]),
    };
    let raw = RawPerFileSearchResult {
        query: Query::Regex("n.{2}dle".to_string()),
        file_id: 7,
        overlapped_commits: RoaringBitmap::from([0, 4, 5]),
    };
    let hit = SearchResult::new(&reader, &raw).unwrap().unwrap();
    assert_eq!(hit.first_match.commit_id, 4);
    assert_eq!(hit.last_match, None);
    assert_eq!(
        hit.first_match.words_per_line,
        vec![(1, vec![("needle".to_string(), 4)])]
    );
}

#[test]
fn a_read_error_ends_the_search() {
    let reader = Counting {
        reads: RefCell::new(vec![]),
    };
    let raw = RawPerFileSearchResult {
        query: Query::Words(vec!["needle".to_string()]),
        file_id: 7,
        overlapped_commits: RoaringBitmap::from([3, 9]),
    };
    assert_eq!(
        SearchResult::new(&reader, &raw),
        Err(SearchError::Read("no such file".to_string()))
    );
    let other_file = RawPerFileSearchResult {
        query: Query::Words(vec!["needle".to_string()]),
        file_id: 1,
        overlapped_commits: RoaringBitmap::from([3]),
    };
    assert_eq!(
        SearchResult::new(&reader, &other_file),
        Err(SearchError::Read("no such file".to_string()))
    );
}

#[test]
fn each_word_is_found_where_it_stands_first() {
    let words = vec!["beta".to_string(), "alpha".to_string(), "gone".to_string()];
    let content = vec![
        "no match here".to_string(),
        "x alpha beta alpha".to_string(),
        "beta first".to_string(),
    ];
    let expected = vec![
        Some(MatchingWordPos { line_num: 1, col: 8 }),
        Some(MatchingWordPos { line_num: 1, col: 2 }),
        None,
    ];
    assert_eq!(find_word_matches_in_document(&words, &content), Some(expected.clone()));
    let matcher = aho_corasick::AhoCorasick::builder()
        .match_kind(aho_corasick::MatchKind::LeftmostFirst)
        .build(&words)
        .unwrap();
    assert_eq!(word_matches_with(&matcher, &words, &content), expected);
    // of words that start at one place the one listed first is matched
    let nested = vec!["ab".to_string(), "abc".to_string()];
    let text = vec!["abc".to_string()];
    assert_eq!(
        find_word_matches_in_document(&nested, &text),
        Some(vec![Some(MatchingWordPos { line_num: 0, col: 0 }), None])
    );
    assert_eq!(find_word_matches_in_document(&vec![], &text), Some(vec![]));
    assert_eq!(
        find_word_matches_in_document(&words, &vec![]),
        Some(vec![None, None, None])
    );
}
