use crep_indexer::check_binary::Utf8FileChecker;
use crep_indexer::git_index::GitIndex;
use crep_indexer::git_indexer::DeltaStatus;
use crep_indexer::git_indexer::GitDelta;
use crep_indexer::git_indexer::GitIndexer;
use crep_indexer::git_searcher::GitSearcher;
use crep_indexer::text::extension_of;
use crep_indexer::trigram_key::TrigramKey;

const PNG: &[u8] = b"\x89PNG\r\n\x1a\nIHDR and more bytes of a picture";

#[test]
fn binary_skip() {
    let checker = Utf8FileChecker::new().unwrap();
    let mut indexer = GitIndexer::new();
    indexer.add_commit([0; 20]);
    assert_eq!(
        indexer.index_blob(&checker, 0, "src/main.rs", b"fn main() {}\n"),
        Ok(Some(0))
    );
    indexer.add_commit([1; 20]);
    indexer.add_commit([2; 20]);
    assert_eq!(indexer.index_blob(&checker, 2, "logo.png", PNG), Ok(None));
    assert_eq!(indexer.file_id_to_document.len(), 1);

    for trigram in ["PNG", "IHD", "HDR", "pic"] {
        assert!(indexer
            .word_to_file_id_ever_contained
            .get(&TrigramKey::from_utf8(trigram))
            .is_none());
    }
    let index = GitIndex::build(indexer).unwrap();
    let searcher = GitSearcher::new(&index);
    assert_eq!(searcher.search("picture", None).len(), 0);
    assert_eq!(searcher.search("main", None).len(), 1);
}

#[test]
fn a_signature_counts_only_for_its_extension() {
    let checker = Utf8FileChecker::new().unwrap();
    assert!(!checker.is_utf8_document(PNG, "png"));
    assert!(checker.check_magic(PNG, "png"));
    // bytes like a picture under another name are looked at as text
    assert!(checker.is_utf8_document(PNG, "txt"));
    assert!(checker.is_utf8_document(PNG, "PNG"));
    assert!(checker.is_utf8_document(b"plain text", "png"));
    assert!(checker.is_utf8_document(b"", "png"));
    // a signature at an offset
    assert!(!checker.is_utf8_document(b"\0\0\0\x18ftypmp42", "mp4"));
    assert!(checker.is_utf8_document(b"ftypmp42", "mp4"));
    assert!(!checker.is_utf8_document(b"RIFF\x10\0\0\0WEBPVP8 ", "webp"));
    assert!(!checker.is_utf8_document(b"xxxxxxxxWEBP", "webp"));
    assert!(!checker.is_utf8_document(b"\x7fELF\x02\x01", "o"));
    assert!(!checker.is_utf8_document(b"PK\x05\x06", "zip"));
    assert!(checker.is_utf8_document(b"PK\x05\x06", "jar"));
}

#[test]
fn a_byte_order_mark_among_the_first_bytes_means_binary() {
    let checker = Utf8FileChecker::new().unwrap();
    assert!(!checker.is_utf8_document(b"\xef\xbb\xbfhello", "txt"));
    assert!(!checker.is_utf8_document(b"h\0i\0\xff\xfe", "txt"));
    assert!(!checker.is_utf8_document(b"hello \xfe\xff", ""));
    let mut big = vec![b'a'; 8190];
    big.extend_from_slice(b"\xfe\xff");
    assert!(!checker.is_utf8_document(&big, "txt"));
    let mut bigger = vec![b'a'; 8191];
    bigger.extend_from_slice(b"\xfe\xff");
    assert!(checker.is_utf8_document(&bigger, "txt"));
    let mut far = vec![b'a'; 9000];
    far.extend_from_slice(b"\xef\xbb\xbf");
    assert!(checker.is_utf8_document(&far, "txt"));
}

#[test]
fn extension_is_what_follows_the_last_dot_of_the_name() {
    assert_eq!(extension_of("logo.png"), "png");
    assert_eq!(extension_of("a/b.c/archive.tar.gz"), "gz");
    assert_eq!(extension_of("a/b.c/README"), "");
    assert_eq!(extension_of(".gitignore"), "");
    assert_eq!(extension_of("dir/.hidden"), "");
    assert_eq!(extension_of("dir/.hidden.txt"), "txt");
    assert_eq!(extension_of("name."), "");
    assert_eq!(extension_of(""), "");
}

#[test]
fn text_that_is_not_utf8_is_indexed_as_far_as_it_can_be_read() {
    let checker = Utf8FileChecker::new().unwrap();
    let mut indexer = GitIndexer::new();
    indexer.add_commit([0; 20]);
    assert_eq!(
        indexer.index_blob(&checker, 0, "notes.txt", b"caf\xe9 au lait\nsecond line"),
        Ok(Some(0))
    );
    let index = GitIndex::build(indexer).unwrap();
    let searcher = GitSearcher::new(&index);
    assert_eq!(searcher.search("lait", None).len(), 1);
    assert_eq!(searcher.search("second", None).len(), 1);
}

#[test]
fn a_checker_finds_marks_with_the_matcher_it_is_given() {
    let marks = aho_corasick::AhoCorasick::new([
        vec![0xefu8, 0xbb, 0xbf],
        vec![0xfeu8, 0xff],
        vec![0xffu8, 0xfe],
    ])
    .unwrap();
    let given = Utf8FileChecker::with_marks(marks);
    let made = Utf8FileChecker::new().unwrap();
    assert_eq!(given.signatures.len(), made.signatures.len());
    let samples: [(&[u8], &str); 5] = [
        (b"plain text", "txt"),
        (b"\xef\xbb\xbfwith a mark", "txt"),
        (b"tail \xff\xfe", "rs"),
        (b"\x89PNG\r\n\x1a\n....", "png"),
        (b"", ""),
    ];
    for (content, ext) in samples {
        assert_eq!(
            given.is_utf8_document(content, ext),
            made.is_utf8_document(content, ext)
        );
        assert_eq!(given.check_magic(content, ext), made.check_magic(content, ext));
    }
    assert!(!given.is_utf8_document(b"\xef\xbb\xbfwith a mark", "txt"));
    assert!(given.is_utf8_document(b"plain text", "txt"));
}

#[test]
fn a_change_is_indexed_only_where_it_counts() {
    let checker = Utf8FileChecker::new().unwrap();
    let mut indexer = GitIndexer::new();
    indexer.add_commit([0; 20]);
    let added = |text: &str| GitDelta {
        prev_line_start_num: 0,
        prev_line_count: 0,
        new_line_start_num: 1,
        new_line_count: 1,
        added_lines: vec![text.to_string()],
        deleted_lines: vec![],
    };
    // a binary file that comes new is left out, and stays left out
    assert_eq!(
        indexer.index_change(&checker, "logo.png", DeltaStatus::Added, Some(PNG), &vec![added("x")], 0),
        Ok(None)
    );
    assert!(indexer.files.paths.is_empty());
    assert_eq!(
        indexer.index_change(
            &checker,
            "logo.png",
            DeltaStatus::Modified,
            None,
            &vec![added("more")],
            0
        ),
        Ok(None)
    );
    // a new file without content, a change without hunks, another status
    assert_eq!(
        indexer.index_change(&checker, "a.rs", DeltaStatus::Added, None, &vec![added("x")], 0),
        Ok(None)
    );
    assert_eq!(
        indexer.index_change(&checker, "a.rs", DeltaStatus::Added, Some(b"x"), &vec![], 0),
        Ok(None)
    );
    assert_eq!(
        indexer.index_change(&checker, "a.rs", DeltaStatus::Other, Some(b"x"), &vec![added("x")], 0),
        Ok(None)
    );
    assert!(indexer.files.paths.is_empty());
    // a text file that comes new gets the next id
    assert_eq!(
        indexer.index_change(
            &checker,
            "a.rs",
            DeltaStatus::Added,
            Some(b"let needle = 1;"),
            &vec![added("let needle = 1;")],
            0
        ),
        Ok(Some(0))
    );
    indexer.add_commit([1; 20]);
    let replaced = GitDelta {
        prev_line_start_num: 1,
        prev_line_count: 1,
        new_line_start_num: 1,
        new_line_count: 1,
        added_lines: vec!["let thread = 2;".to_string()],
        deleted_lines: vec!["let needle = 1;".to_string()],
    };
    assert_eq!(
        indexer.index_change(&checker, "a.rs", DeltaStatus::Modified, None, &vec![replaced], 1),
        Ok(Some(0))
    );
    let index = GitIndex::build(indexer).unwrap();
    let searcher = GitSearcher::new(&index);
    let old = searcher.search("needle", None);
    assert_eq!(old.len(), 1);
    assert_eq!(old[0].overlapped_commits.iter().collect::<Vec<u32>>(), vec![0]);
    let new = searcher.search("thread", None);
    assert_eq!(new[0].overlapped_commits.iter().collect::<Vec<u32>>(), vec![1]);
    assert!(!index.file_id_to_document[0].is_deleted);
}
