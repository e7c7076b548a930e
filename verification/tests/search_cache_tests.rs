use crep_indexer::git_index::GitIndex;
use crep_indexer::git_indexer::GitIndexer;
use crep_indexer::git_searcher::GitSearcher;
use crep_indexer::git_searcher::Query;
use crep_indexer::git_searcher::RawPerFileSearchResult;
use crep_indexer::regex_search::QueryError;
use crep_indexer::search_cache::key_of_query;
use crep_indexer::search_cache::CacheResult;
use crep_indexer::search_cache::CachedSearchResults;
use crep_indexer::search_cache::SearchCache;
use crep_indexer::search_page::convert;
use crep_indexer::search_page::fresh_page;
use crep_indexer::search_page::keep_page;
use crep_indexer::search_page::normal_query;
use crep_indexer::search_page::numbers;
use crep_indexer::search_page::page_answers;
use crep_indexer::search_page::page_range;
use crep_indexer::search_page::trim;
use crep_indexer::search_page::updates;
use crep_indexer::search_page::RequestError;
use crep_indexer::search_page::SearchConversionResult;
use crep_indexer::search_page::SearchMode;
use crep_indexer::search_page::SearchRequest;
use crep_indexer::search_result::SearchResult;
use crep_indexer::search_result::SingleCommitSearchResult;
use crep_indexer::search_result::SnapshotReader;
use roaring::RoaringBitmap;

fn words(list: &[&str]) -> Query {
    Query::Words(list.iter().map(|w| w.to_string()).collect())
}

fn raw(file_id: u32, commits: &[u32]) -> RawPerFileSearchResult {
    RawPerFileSearchResult {
        query: words(&["quick"]),
        file_id,
        overlapped_commits: commits.iter().copied().collect::<RoaringBitmap>(),
    }
}

fn hit(path: &str, commit: usize) -> SearchResult {
    SearchResult {
        file_path: path.to_string(),
        first_match: SingleCommitSearchResult {
            commit_id: commit,
            words_per_line: vec![(3, vec![("quick".to_string(), 4)])],
            lines: vec![(2, "before".to_string()), (3, "let quick".to_string())],
        },
        last_match: None,
    }
}

/// What an answer is, in short: "hit <path>", "miss <file id>" or "none".
fn short(answers: &[CacheResult]) -> Vec<String> {
    answers
        .iter()
        .map(|a| match a {
            CacheResult::Hit(h) => format!("hit {}", h.file_path),
            CacheResult::Miss(r) => format!("miss {}", r.file_id),
            CacheResult::NotExist => "none".to_string(),
        })
        .collect()
}

/// Three files; the word `quick` stands in the first and the third.
fn three_files() -> (GitIndex, SnapshotReader) {
    let mut indexer = GitIndexer::new();
    let commit = indexer.add_commit([7; 20]);
    let texts = ["let quick = 1;", "let slow = 2;", "quick brown fox"];
    let mut files = vec![];
    for (i, text) in texts.iter().enumerate() {
        let path = format!("f{i}.rs");
        let id = indexer.get_file_id_insert_if_missing(&path).unwrap();
        indexer
            .add_new_lines(commit, id, 0, 0, &vec![text.to_string()])
            .unwrap();
        files.push(Some((path, text.to_string())));
    }
    let reader = SnapshotReader {
        commits: vec![files],
        missing: "invalid commit index".to_string(),
    };
    (GitIndex::build(indexer).unwrap(), reader)
}

#[test]
fn a_query_that_is_not_kept_is_not_found() {
    let mut cache = SearchCache::new(4);
    assert!(cache.find(&words(&["quick"]), &vec![0, 1]).is_none());
    assert!(cache.entries.is_empty());
}

#[test]
fn raw_results_that_were_not_looked_at_are_misses() {
    let mut cache = SearchCache::new(4);
    let q = words(&["quick"]);
    cache.put_raw_result(&q, vec![raw(0, &[1]), raw(5, &[2, 3])]);
    let found = cache.find(&q, &vec![0, 1, 2, 9]).unwrap();
    assert_eq!(short(&found), vec!["miss 0", "miss 5", "none", "none"]);
    match &found[1] {
        CacheResult::Miss(r) => {
            assert_eq!(r.overlapped_commits.iter().collect::<Vec<u32>>(), vec![2, 3]);
            assert!(matches!(&r.query, Query::Words(w) if w == &vec!["quick".to_string()]));
        }
        _ => panic!("a miss was expected"),
    }
    // another query with the same words in another order is another query
    assert!(cache.find(&words(&["quick", "fox"]), &vec![0]).is_none());
    assert!(cache.find(&Query::Regex("quick".to_string()), &vec![0]).is_none());
}

#[test]
fn what_was_found_is_a_hit_and_nothing_found_does_not_exist() {
    let mut cache = SearchCache::new(4);
    let q = words(&["quick"]);
    cache.put_raw_result(&q, vec![raw(0, &[1]), raw(5, &[2]), raw(6, &[2])]);
    cache.put_search_results(&q, &vec![(0, Some(hit("a.rs", 1))), (2, None)]);
    let found = cache.find(&q, &vec![0, 1, 2, 3]).unwrap();
    assert_eq!(short(&found), vec!["hit a.rs", "miss 5", "none", "none"]);
    match &found[0] {
        CacheResult::Hit(h) => assert_eq!(h, &hit("a.rs", 1)),
        _ => panic!("a hit was expected"),
    }
    // a later result for the same raw result replaces the earlier one
    cache.put_search_results(&q, &vec![(1, None), (1, Some(hit("b.rs", 2))), (0, None)]);
    let found = cache.find(&q, &vec![0, 1, 2]).unwrap();
    assert_eq!(short(&found), vec!["none", "hit b.rs", "none"]);
}

#[test]
fn results_kept_before_the_raw_results_show_once_these_are_kept() {
    let mut cache = SearchCache::new(4);
    let q = Query::Regex("qu.ck".to_string());
    cache.put_search_results(&q, &vec![(1, Some(hit("a.rs", 1)))]);
    assert_eq!(short(&cache.find(&q, &vec![0, 1]).unwrap()), vec!["none", "none"]);
    cache.put_raw_result(&q, vec![raw(0, &[1]), raw(5, &[2])]);
    assert_eq!(short(&cache.find(&q, &vec![0, 1]).unwrap()), vec!["miss 0", "hit a.rs"]);
    // new raw results keep what was found
    cache.put_raw_result(&q, vec![raw(7, &[1])]);
    assert_eq!(short(&cache.find(&q, &vec![0, 1]).unwrap()), vec!["miss 7", "none"]);
}

#[test]
fn no_results_to_keep_change_nothing() {
    let mut cache = SearchCache::new(1);
    let q = words(&["a"]);
    cache.put_raw_result(&q, vec![raw(0, &[1])]);
    cache.put_search_results(&words(&["b"]), &vec![]);
    assert!(cache.find(&words(&["b"]), &vec![0]).is_none());
    assert_eq!(short(&cache.find(&q, &vec![0]).unwrap()), vec!["miss 0"]);
}

#[test]
fn the_query_asked_for_least_recently_goes_first() {
    let mut cache = SearchCache::new(2);
    let (a, b, c) = (words(&["a"]), words(&["b"]), words(&["c"]));
    cache.put_raw_result(&a, vec![raw(1, &[1])]);
    cache.put_raw_result(&b, vec![raw(2, &[1])]);
    // `a` is asked for, so `b` is the one used least recently
    assert!(cache.find(&a, &vec![0]).is_some());
    cache.put_raw_result(&c, vec![raw(3, &[1])]);
    assert!(cache.find(&b, &vec![0]).is_none());
    assert_eq!(short(&cache.find(&a, &vec![0]).unwrap()), vec!["miss 1"]);
    assert_eq!(short(&cache.find(&c, &vec![0]).unwrap()), vec!["miss 3"]);
    assert_eq!(cache.entries.len(), 2);
    // the slot of `b` was taken over empty: nothing of `b` shows under `c`
    cache.put_search_results(&b, &vec![(0, Some(hit("b.rs", 1)))]);
    assert!(cache.find(&a, &vec![0]).is_none());
    assert_eq!(short(&cache.find(&b, &vec![0]).unwrap()), vec!["none"]);
    assert_eq!(short(&cache.find(&c, &vec![0]).unwrap()), vec!["miss 3"]);
}

#[test]
fn a_cache_for_one_query_keeps_the_last_one() {
    let mut cache = SearchCache::new(1);
    for i in 0..5u32 {
        let q = words(&[&format!("w{i}")]);
        cache.put_raw_result(&q, vec![raw(i, &[1])]);
        assert_eq!(
            short(&cache.find(&q, &vec![0]).unwrap()),
            vec![format!("miss {i}")]
        );
        if i > 0 {
            let before = words(&[&format!("w{}", i - 1)]);
            assert!(cache.find(&before, &vec![0]).is_none());
        }
    }
    assert_eq!(cache.entries.len(), 1);
}

#[test]
fn keys_tell_word_lists_from_patterns() {
    assert_eq!(key_of_query(&words(&["a", "b"])), vec!["w", "a", "b"]);
    assert_eq!(key_of_query(&words(&[])), vec!["w"]);
    assert_eq!(key_of_query(&Query::Regex("a b".to_string())), vec!["r", "a b"]);
    assert_eq!(key_of_query(&words(&["r", "x"])), vec!["w", "r", "x"]);
}

#[test]
fn an_entry_answers_by_the_number_of_the_raw_result() {
    let mut entry = CachedSearchResults::new();
    assert!(matches!(entry.answer(0), CacheResult::NotExist));
    entry.set_raw(vec![raw(4, &[1]), raw(8, &[1])]);
    assert!(matches!(entry.answer(1), CacheResult::Miss(r) if r.file_id == 8));
    entry.note(1, None);
    assert!(matches!(entry.answer(1), CacheResult::NotExist));
    entry.note(1, Some(hit("x.rs", 3)));
    assert!(matches!(entry.answer(1), CacheResult::Hit(h) if h == hit("x.rs", 3)));
    assert!(matches!(entry.answer(0), CacheResult::Miss(r) if r.file_id == 4));
    assert!(matches!(entry.answer(2), CacheResult::NotExist));
}

#[test]
fn white_space_at_the_ends_is_cut() {
    assert_eq!(trim("  a b \t\n"), "a b");
    assert_eq!(trim("a"), "a");
    assert_eq!(trim(" \u{3000}\u{a0} "), "");
    assert_eq!(trim(""), "");
    assert_eq!(trim("\u{2003}x\u{2003}y\u{2003}"), "x\u{2003}y");
    for text in [" a ", "\u{b}b\u{c}", "c\u{85}", "\u{1680}d", "\u{200b}e", "\u{feff}f"] {
        assert_eq!(trim(text), text.trim());
    }
}

#[test]
fn the_query_of_a_request_is_normal() {
    assert!(matches!(
        normal_query(SearchMode::Plain, "  quick   fox "),
        Ok(Query::Words(w)) if w == vec!["quick".to_string(), "fox".to_string()]
    ));
    assert!(matches!(
        normal_query(SearchMode::Regex, "  qu.ck fox "),
        Ok(Query::Regex(p)) if p == "qu.ck fox"
    ));
    assert!(matches!(normal_query(SearchMode::Plain, " \t"), Err(RequestError::EmptyQuery)));
    assert!(matches!(normal_query(SearchMode::Regex, ""), Err(RequestError::EmptyQuery)));
}

#[test]
fn a_page_is_a_stretch_of_numbers() {
    assert_eq!(page_range(0, 10), Some((0, 10)));
    assert_eq!(page_range(3, 10), Some((30, 40)));
    assert_eq!(page_range(3, 0), Some((0, 0)));
    assert_eq!(page_range(usize::MAX, 0), Some((0, 0)));
    assert_eq!(page_range(usize::MAX, 1), None);
    assert_eq!(page_range(usize::MAX / 2, 2), None);
    assert_eq!(page_range(usize::MAX / 2 - 1, 2), Some((usize::MAX - 3, usize::MAX - 1)));
    assert_eq!(numbers(3, 6), vec![3, 4, 5]);
    assert_eq!(numbers(6, 3), Vec::<usize>::new());
    assert_eq!(numbers(usize::MAX - 1, usize::MAX), vec![usize::MAX - 1]);
}

#[test]
fn a_fresh_page_holds_the_raw_results_that_lie_in_it() {
    let list = vec![raw(1, &[1]), raw(2, &[1]), raw(3, &[1])];
    assert_eq!(short(&fresh_page(&list, 0, 2)), vec!["miss 1", "miss 2"]);
    assert_eq!(short(&fresh_page(&list, 2, 4)), vec!["miss 3"]);
    assert_eq!(short(&fresh_page(&list, 3, 6)), Vec::<String>::new());
    assert_eq!(short(&fresh_page(&list, 5, 2)), Vec::<String>::new());
}

#[test]
fn a_page_is_searched_once_and_then_taken_from_the_cache() {
    let (index, reader) = three_files();
    let searcher = GitSearcher::new(&index);
    let mut cache = SearchCache::new(2);
    let request = SearchRequest {
        query: " quick ".to_string(),
        mode: SearchMode::Plain,
        page: 0,
        page_size: 3,
    };

    // not kept: the page holds the raw results that there are
    let first = page_answers(&mut cache, &searcher, &request).unwrap();
    assert_eq!(short(&first), vec!["miss 0", "miss 2"]);

    let page: Vec<SearchConversionResult> =
        first.iter().map(|a| convert(&reader, a).unwrap()).collect();
    assert!(page.iter().all(|c| c.should_update_cache));
    assert_eq!(page[0].result.as_ref().unwrap().file_path, "f0.rs");
    assert_eq!(page[1].result.as_ref().unwrap().file_path, "f2.rs");
    keep_page(&mut cache, &request, &page);

    // kept: one answer for each number of the page
    let second = page_answers(&mut cache, &searcher, &request).unwrap();
    assert_eq!(short(&second), vec!["hit f0.rs", "hit f2.rs", "none"]);
    let again: Vec<SearchConversionResult> =
        second.iter().map(|a| convert(&reader, a).unwrap()).collect();
    assert!(again.iter().all(|c| !c.should_update_cache));
    assert_eq!(again[0].result, page[0].result);
    assert!(again[2].result.is_none());
    assert!(updates(0, &again).is_empty());

    // the second page of the same query
    let next = SearchRequest { page: 1, page_size: 1, ..request };
    assert_eq!(
        short(&page_answers(&mut cache, &searcher, &next).unwrap()),
        vec!["hit f2.rs"]
    );
}

#[test]
fn a_request_is_turned_down_before_anything_is_searched() {
    let (index, _) = three_files();
    let searcher = GitSearcher::new(&index);
    let mut cache = SearchCache::new(2);
    let empty = SearchRequest {
        query: "  ".to_string(),
        mode: SearchMode::Plain,
        page: 0,
        page_size: 3,
    };
    assert!(matches!(
        page_answers(&mut cache, &searcher, &empty),
        Err(RequestError::EmptyQuery)
    ));
    let far = SearchRequest {
        query: "quick".to_string(),
        mode: SearchMode::Plain,
        page: usize::MAX,
        page_size: 3,
    };
    assert!(matches!(
        page_answers(&mut cache, &searcher, &far),
        Err(RequestError::PageOutOfRange)
    ));
    let broken = SearchRequest {
        query: "qu(ick".to_string(),
        mode: SearchMode::Regex,
        page: 0,
        page_size: 3,
    };
    assert!(matches!(
        page_answers(&mut cache, &searcher, &broken),
        Err(RequestError::Query(QueryError::Parse(_)))
    ));
    assert!(cache.entries.is_empty());
    keep_page(&mut cache, &empty, &vec![]);
    assert!(cache.entries.is_empty());
}

#[test]
fn only_what_was_looked_at_goes_into_the_cache() {
    let page = vec![
        SearchConversionResult { result: Some(hit("a.rs", 1)), should_update_cache: false },
        SearchConversionResult { result: None, should_update_cache: true },
        SearchConversionResult { result: Some(hit("c.rs", 2)), should_update_cache: true },
    ];
    assert_eq!(updates(10, &page), vec![(11, None), (12, Some(hit("c.rs", 2)))]);
}

#[test]
fn a_regex_page_is_kept_under_its_pattern() {
    let (index, reader) = three_files();
    let searcher = GitSearcher::new(&index);
    let mut cache = SearchCache::new(2);
    let request = SearchRequest {
        query: "qu[a-z]ck".to_string(),
        mode: SearchMode::Regex,
        page: 0,
        page_size: 1,
    };
    let first = page_answers(&mut cache, &searcher, &request).unwrap();
    assert_eq!(short(&first), vec!["miss 0"]);
    let page: Vec<SearchConversionResult> =
        first.iter().map(|a| convert(&reader, a).unwrap()).collect();
    keep_page(&mut cache, &request, &page);
    let q = Query::Regex("qu[a-z]ck".to_string());
    assert_eq!(
        short(&cache.find(&q, &vec![0, 1, 2]).unwrap()),
        vec!["hit f0.rs", "miss 2", "none"]
    );
}

#[test]
fn a_cache_can_be_made_for_any_number_of_queries() {
    let mut cache = SearchCache::new(usize::MAX);
    let q = words(&["a"]);
    cache.put_raw_result(&q, vec![raw(0, &[1])]);
    assert_eq!(short(&cache.find(&q, &vec![0]).unwrap()), vec!["miss 0"]);
}
