use crep_indexer::uncommitted::classify_change;
use crep_indexer::uncommitted::ChangeFlags;
use crep_indexer::uncommitted::FileContent;
use crep_indexer::uncommitted::IndexVerdict;
use crep_indexer::uncommitted::NotCommitedFilesIndexer;

fn clean() -> ChangeFlags {
    ChangeFlags {
        conflicted: false,
        ignored: false,
        wt_new: false,
        index_new: false,
        index_deleted: false,
        wt_deleted: false,
        index_modified: false,
        wt_modified: false,
        index_renamed: false,
        wt_renamed: false,
        index_typechange: false,
        wt_typechange: false,
    }
}

fn paths(list: &[&str]) -> Vec<String> {
    list.iter().map(|p| p.to_string()).collect()
}

fn content_of(files: &NotCommitedFilesIndexer, path: &str) -> FileContent {
    files.get_file_content(path, format!("now in {path}"))
}

#[test]
fn a_status_is_read_in_a_fixed_order() {
    assert_eq!(classify_change(clean()), IndexVerdict::Ignore);
    assert_eq!(classify_change(ChangeFlags { wt_new: true, ..clean() }), IndexVerdict::New);
    assert_eq!(classify_change(ChangeFlags { index_new: true, ..clean() }), IndexVerdict::New);
    assert_eq!(
        classify_change(ChangeFlags { index_deleted: true, ..clean() }),
        IndexVerdict::Remove
    );
    assert_eq!(classify_change(ChangeFlags { wt_deleted: true, ..clean() }), IndexVerdict::Remove);
    for flags in [
        ChangeFlags { index_modified: true, ..clean() },
        ChangeFlags { wt_modified: true, ..clean() },
        ChangeFlags { index_renamed: true, ..clean() },
        ChangeFlags { wt_renamed: true, ..clean() },
        ChangeFlags { index_typechange: true, ..clean() },
        ChangeFlags { wt_typechange: true, ..clean() },
    ] {
        assert_eq!(classify_change(flags), IndexVerdict::Modify);
    }
    // conflict and ignore come first, then new, then removed
    assert_eq!(
        classify_change(ChangeFlags { conflicted: true, wt_new: true, ..clean() }),
        IndexVerdict::Ignore
    );
    assert_eq!(
        classify_change(ChangeFlags { ignored: true, wt_deleted: true, ..clean() }),
        IndexVerdict::Ignore
    );
    assert_eq!(
        classify_change(ChangeFlags { index_new: true, wt_deleted: true, ..clean() }),
        IndexVerdict::New
    );
    assert_eq!(
        classify_change(ChangeFlags { wt_deleted: true, wt_modified: true, ..clean() }),
        IndexVerdict::Remove
    );
}

#[test]
fn files_are_sorted_by_their_status() {
    let mut files = NotCommitedFilesIndexer::new();
    assert_eq!(content_of(&files, "a.rs"), FileContent::NotChanged);
    assert!(!files.needs_content("a.rs"));
    files.reindex_files(
        &paths(&["a.rs", "b.rs", "c.rs", "d.rs", "e.rs"]),
        &vec![
            ("a.rs".to_string(), ChangeFlags { wt_new: true, ..clean() }),
            ("b.rs".to_string(), ChangeFlags { wt_modified: true, ..clean() }),
            ("c.rs".to_string(), ChangeFlags { wt_deleted: true, ..clean() }),
            ("d.rs".to_string(), ChangeFlags { ignored: true, ..clean() }),
            ("x.rs".to_string(), ChangeFlags { wt_new: true, ..clean() }),
        ],
    );
    assert_eq!(content_of(&files, "a.rs"), FileContent::Created("now in a.rs".to_string()));
    assert_eq!(content_of(&files, "b.rs"), FileContent::Modified("now in b.rs".to_string()));
    assert_eq!(content_of(&files, "c.rs"), FileContent::Deleted);
    assert_eq!(content_of(&files, "d.rs"), FileContent::NotChanged);
    assert_eq!(content_of(&files, "e.rs"), FileContent::NotChanged);
    // a file that was not asked for is not looked at
    assert_eq!(content_of(&files, "x.rs"), FileContent::NotChanged);
    assert!(files.needs_content("a.rs"));
    assert!(files.needs_content("b.rs"));
    assert!(!files.needs_content("c.rs"));
    assert!(!files.needs_content("d.rs"));
}

#[test]
fn a_file_without_a_status_is_no_longer_changed() {
    let mut files = NotCommitedFilesIndexer::new();
    let created = vec![("a.rs".to_string(), ChangeFlags { wt_new: true, ..clean() })];
    files.reindex_files(&paths(&["a.rs", "b.rs"]), &created);
    assert_eq!(content_of(&files, "a.rs"), FileContent::Created("now in a.rs".to_string()));
    // only `b.rs` is asked for: `a.rs` keeps what is known of it
    files.reindex_files(&paths(&["b.rs"]), &vec![]);
    assert_eq!(content_of(&files, "a.rs"), FileContent::Created("now in a.rs".to_string()));
    files.reindex_files(&paths(&["a.rs"]), &vec![]);
    assert_eq!(content_of(&files, "a.rs"), FileContent::NotChanged);
}

#[test]
fn what_is_noted_of_a_file_adds_up() {
    let mut files = NotCommitedFilesIndexer::new();
    let asked = paths(&["a.rs"]);
    files.reindex_files(
        &asked,
        &vec![("a.rs".to_string(), ChangeFlags { wt_new: true, ..clean() })],
    );
    files.reindex_files(
        &asked,
        &vec![("a.rs".to_string(), ChangeFlags { wt_modified: true, ..clean() })],
    );
    // created before, modified now: created wins
    assert_eq!(content_of(&files, "a.rs"), FileContent::Created("now in a.rs".to_string()));
    files.reindex_files(
        &asked,
        &vec![("a.rs".to_string(), ChangeFlags { wt_deleted: true, ..clean() })],
    );
    assert_eq!(content_of(&files, "a.rs"), FileContent::Deleted);
    // an ignored status keeps what was noted
    files.reindex_files(
        &asked,
        &vec![("a.rs".to_string(), ChangeFlags { ignored: true, ..clean() })],
    );
    assert_eq!(content_of(&files, "a.rs"), FileContent::Deleted);
}

#[test]
fn only_the_first_status_of_a_path_counts() {
    let mut files = NotCommitedFilesIndexer::new();
    files.reindex_files(
        &paths(&["a.rs", "a.rs"]),
        &vec![
            ("a.rs".to_string(), ChangeFlags { wt_modified: true, ..clean() }),
            ("a.rs".to_string(), ChangeFlags { wt_deleted: true, ..clean() }),
        ],
    );
    assert_eq!(content_of(&files, "a.rs"), FileContent::Modified("now in a.rs".to_string()));
}

#[test]
fn single_verdicts_can_be_noted_and_forgotten() {
    let mut files = NotCommitedFilesIndexer::new();
    files.note("a.rs", IndexVerdict::Modify);
    files.note("b.rs", IndexVerdict::Ignore);
    assert_eq!(content_of(&files, "a.rs"), FileContent::Modified("now in a.rs".to_string()));
    assert_eq!(content_of(&files, "b.rs"), FileContent::NotChanged);
    files.forget("a.rs");
    files.forget("never seen");
    assert_eq!(content_of(&files, "a.rs"), FileContent::NotChanged);
}
