use crep_indexer::ignore_paths::build_gitignore_parent_index_array;
use crep_indexer::ignore_paths::find_listed;
use crep_indexer::ignore_paths::governing_index;
use crep_indexer::ignore_paths::ignore_chain;
use crep_indexer::ignore_paths::lower_bound;
use crep_indexer::ignore_paths::nearest_listed;
use crep_indexer::ignore_paths::path_order;
use crep_indexer::ignore_paths::sort_paths;
use crep_indexer::ignore_paths::PathOrder;

fn owned(paths: &[&str]) -> Vec<String> {
    paths.iter().map(|p| p.to_string()).collect()
}

#[test]
fn no_nested_paths() {
    assert_eq!(
        build_gitignore_parent_index_array(vec![
            "/b".to_owned(),
            "/c".to_owned(),
            "/a".to_owned(),
            "/d".to_owned()
        ]),
        (
            vec!["/a".to_owned(), "/b".to_owned(), "/c".to_owned(), "/d".to_owned()],
            vec![None, None, None, None],
        )
    );
}

#[test]
fn nested_paths() {
    assert_eq!(
        build_gitignore_parent_index_array(vec![
            "/".to_owned(),
            "/a".to_owned(),
            "/a/b".to_owned(),
            "/a/c".to_owned(),
            "/a/c/b".to_owned(),
            "/b".to_owned(),
            "/b/a".to_owned(),
        ]),
        (
            vec![
                "/".to_owned(),
                "/a".to_owned(),
                "/a/b".to_owned(),
                "/a/c".to_owned(),
                "/a/c/b".to_owned(),
                "/b".to_owned(),
                "/b/a".to_owned(),
            ],
            vec![None, Some(0), Some(1), Some(1), Some(3), Some(0), Some(5)],
        )
    );
}

#[test]
fn deeply_nested_path() {
    assert_eq!(
        build_gitignore_parent_index_array(vec![
            "/".to_owned(),
            "/a".to_owned(),
            "/a/b/c/d".to_owned(),
            "/a/b/e".to_owned(),
            "/a/c".to_owned(),
            "/a/c/d/e/f".to_owned(),
        ]),
        (
            vec![
                "/".to_owned(),
                "/a".to_owned(),
                "/a/b/c/d".to_owned(),
                "/a/b/e".to_owned(),
                "/a/c".to_owned(),
                "/a/c/d/e/f".to_owned(),
            ],
            vec![None, Some(0), Some(1), Some(1), Some(1), Some(4)],
        )
    );
}

#[test]
fn no_ignores() {
    assert_eq!(build_gitignore_parent_index_array(vec![]), (vec![], vec![],));
}

#[test]
fn the_separator_comes_after_every_other_byte() {
    assert_eq!(path_order("/a", "/a"), PathOrder::Same);
    assert_eq!(path_order("", ""), PathOrder::Same);
    assert_eq!(path_order("/a", "/a/b"), PathOrder::Before);
    assert_eq!(path_order("/a/b", "/a"), PathOrder::After);
    assert_eq!(path_order("/a-b", "/a/b"), PathOrder::Before);
    assert_eq!(path_order("/a/b", "/a-b"), PathOrder::After);
    assert_eq!(path_order("/az", "/a/"), PathOrder::Before);
    assert_eq!(path_order("/a\u{10ffff}", "/a/"), PathOrder::Before);
    assert_eq!(path_order("/a~", "/a!"), PathOrder::After);
    assert_eq!(path_order("", "/"), PathOrder::Before);
}

#[test]
fn sorting_puts_a_directory_before_what_is_below_it() {
    let sorted = sort_paths(&owned(&["/a/b", "/a-b", "/a", "/", "/a/b/c", "/b", "/a"]));
    assert_eq!(sorted, owned(&["/", "/a", "/a", "/a-b", "/a/b", "/a/b/c", "/b"]));
}

#[test]
fn a_listed_path_is_found_at_its_first_place() {
    let paths = owned(&["/", "/a", "/a", "/a/b", "/b"]);
    assert_eq!(find_listed(&paths, 5, "/a"), Some(1));
    assert_eq!(find_listed(&paths, 5, "/b"), Some(4));
    assert_eq!(find_listed(&paths, 4, "/b"), None);
    assert_eq!(find_listed(&paths, 5, "/c"), None);
    assert_eq!(find_listed(&paths, 0, "/"), None);
    assert_eq!(lower_bound(&paths, 5, "/a"), 1);
    assert_eq!(lower_bound(&paths, 5, "/a/a"), 3);
    assert_eq!(lower_bound(&paths, 5, "/z"), 5);
    assert_eq!(lower_bound(&paths, 5, ""), 0);
}

#[test]
fn the_nearest_directory_above_is_taken() {
    let paths = owned(&["/", "/a", "/a/b", "/a/b/c/d"]);
    let above = owned(&["/a/b/c/d", "/a/b/c", "/a/b", "/a", "/"]);
    assert_eq!(nearest_listed(&paths, 3, &above), Some(2));
    assert_eq!(nearest_listed(&paths, 2, &above), Some(1));
    assert_eq!(nearest_listed(&paths, 1, &above), Some(0));
    assert_eq!(nearest_listed(&paths, 0, &above), None);
    // the path itself, the first of the chain, is never taken
    assert_eq!(nearest_listed(&paths, 4, &owned(&["/a/b/c/d"])), None);
    assert_eq!(nearest_listed(&paths, 4, &owned(&[])), None);
}

#[test]
fn the_rules_of_a_path_are_kept_at_or_before_it() {
    let paths = owned(&["/a", "/a/b", "/c"]);
    assert_eq!(governing_index(&paths, "/a"), Some(0));
    assert_eq!(governing_index(&paths, "/a/b/x.rs"), Some(1));
    assert_eq!(governing_index(&paths, "/a/a.rs"), Some(0));
    assert_eq!(governing_index(&paths, "/a/x.rs"), Some(1));
    assert_eq!(governing_index(&paths, "/b/x.rs"), Some(1));
    assert_eq!(governing_index(&paths, "/c/x.rs"), Some(2));
    assert_eq!(governing_index(&paths, "/"), None);
    assert_eq!(governing_index(&owned(&[]), "/a"), None);
}

#[test]
fn a_root_listed_twice_has_no_directory_above() {
    assert_eq!(
        build_gitignore_parent_index_array(owned(&["/", "/"])),
        (owned(&["/", "/"]), vec![None, None])
    );
}

#[test]
fn the_ignore_files_of_a_directory_come_from_the_top_down() {
    let (paths, parents) = build_gitignore_parent_index_array(owned(&[
        "/", "/a", "/a/b", "/a/c", "/a/c/b", "/b", "/b/a",
    ]));
    assert_eq!(paths.len(), 7);
    assert_eq!(ignore_chain(&parents, 0), vec![0]);
    assert_eq!(ignore_chain(&parents, 4), vec![0, 1, 3, 4]);
    assert_eq!(ignore_chain(&parents, 6), vec![0, 5, 6]);
    assert_eq!(ignore_chain(&vec![None, None], 1), vec![1]);
}
