//! Building the index commit by commit: each change of a file is applied to
//! the file's line tracker and, through the trigrams of the changed lines, to
//! the file's document.

use crate::check_binary::Utf8FileChecker;
use crate::diff::commit_span;
use crate::diff::deleted_lines;
use crate::diff::CommitIndex;
use crate::diff::FileDiffTracker;
use crate::diff::FileId;
use crate::diff::LineDeleteResult;
use crate::document::added_model;
use crate::document::closed_model;
use crate::document::deleted_model;
use crate::document::lemma_added_words;
use crate::document::lemma_removed_words;
use crate::document::removed_model;
use crate::document::Document;
use crate::document::WordKey;
use crate::git_index::files_match;
use crate::git_index::WordFiles;
use crate::keys::PathIndex;
use crate::matcher::lines_of;
use crate::text::extension_of;
use crate::text::lossy_text;
use crate::tokenizer::is_occurrence;
use crate::tokenizer::tokenize_lines;
use crate::tokenizer::tokens_cover;
use crate::tokenizer::TokenLines;
use crate::trigram_key::TrigramKey;
use vstd::prelude::*;

verus! {

/// What a commit did to a file.
#[derive(Clone, Copy, PartialEq, Eq, Debug)]
pub enum DeltaStatus {
    Added,
    Modified,
    Deleted,
    Other,
}

/// One hunk of a diff without context lines. Line numbers start at one.
#[derive(Debug)]
pub struct GitDelta {
    pub prev_line_start_num: u32,
    pub prev_line_count: u32,
    pub new_line_start_num: u32,
    pub new_line_count: u32,
    pub added_lines: Vec<String>,
    pub deleted_lines: Vec<String>,
}

/// Why a change could not be applied.
#[derive(Clone, Copy, PartialEq, Eq, Debug)]
pub enum IndexError {
    /// A hunk came without the file it belongs to.
    MissingFile,
    /// The hunks do not have the shape of the change.
    BadHunk,
    /// The file has no lines to change.
    UnknownFile,
    /// The lines to remove are not all there.
    LinesOutOfRange,
    /// A number does not fit: too many commits, files or lines.
    TooLarge,
    /// Stored values that are no index.
    Malformed,
}

pub struct GitIndexer {
    pub commit_index_to_commit_id: Vec<[u8; 20]>,
    pub files: PathIndex,
    pub file_id_to_diff_tracker: Vec<Option<FileDiffTracker>>,
    pub file_id_to_document: Vec<Document>,
    /// The files that ever held each trigram.
    pub word_to_file_id_ever_contained: WordFiles,
}

/// The (commit, line) pairs as word keys.
pub open spec fn keys_of(origins: Seq<(int, int)>) -> Seq<WordKey> {
    Seq::new(
        origins.len(),
        |i: int| WordKey { commit_id: origins[i].0 as usize, line: origins[i].1 as usize },
    )
}

/// One word key for every line that was deleted, in the order of the lines.
pub fn flatten_delete_result(delete_results: &Vec<LineDeleteResult>) -> (keys: Vec<WordKey>)
    ensures
        keys@ == keys_of(deleted_lines(delete_results@)),
{
    let mut keys: Vec<WordKey> = Vec::new();
    let mut r: usize = 0;
    proof {
        assert(delete_results@.take(0) =~= Seq::<LineDeleteResult>::empty());
        assert(keys@ =~= keys_of(deleted_lines(delete_results@.take(0))));
    }
    while r < delete_results.len()
        invariant
            r <= delete_results@.len(),
            keys@ == keys_of(deleted_lines(delete_results@.take(r as int))),
        decreases delete_results@.len() - r,
    {
        let result = &delete_results[r];
        let (start, end) = result.start_and_end;
        let ghost before = keys@;
        let ghost done = deleted_lines(delete_results@.take(r as int));
        let mut i: usize = start;
        proof {
            assert(keys@ =~= before + keys_of(commit_span(result.commit_id as int, start as int, 0)));
        }
        while i < end
            invariant
                start <= i,
                i <= end || end <= start,
                end <= start ==> i == start,
                (start, end) == result.start_and_end,
                before == keys_of(done),
                keys@ == before + keys_of(
                    commit_span(result.commit_id as int, start as int, i - start),
                ),
            decreases end - i,
        {
            keys.push(WordKey { commit_id: result.commit_id, line: i });
            proof {
                let shorter = keys_of(commit_span(result.commit_id as int, start as int, i - start));
                let longer = keys_of(
                    commit_span(result.commit_id as int, start as int, i + 1 - start),
                );
                assert(longer =~= shorter.push(WordKey { commit_id: result.commit_id, line: i }));
                assert(keys@ =~= before + longer);
            }
            i += 1;
        }
        proof {
            let longer = delete_results@.take(r + 1);
            assert(longer.drop_last() =~= delete_results@.take(r as int));
            assert(longer.last() == delete_results@[r as int]);
            let span = commit_span(result.commit_id as int, start as int, end - start);
            if end <= start {
                assert(commit_span(result.commit_id as int, start as int, 0) =~= span);
            } else {
                assert(i == end);
            }
            assert(keys_of(done + span) =~= keys_of(done) + keys_of(span));
            assert(keys@ =~= keys_of(done + span));
        }
        r += 1;
    }
    proof {
        assert(delete_results@.take(delete_results@.len() as int) =~= delete_results@);
    }
    keys
}

/// The word keys of the lines that hold a token, looked up in the keys of
/// all deleted lines.
pub open spec fn token_keys(lines: Seq<usize>, flat: Seq<WordKey>) -> Seq<WordKey> {
    Seq::new(lines.len(), |a: int| flat[lines[a] as int])
}

/// For each token of the deleted lines, the introductions that ended.
pub open spec fn removal_items(
    items: Seq<(TrigramKey, Vec<WordKey>)>,
    tokens: Seq<TokenLines>,
    flat: Seq<WordKey>,
) -> bool {
    &&& items.len() == tokens.len()
    &&& forall|e: int|
        0 <= e < items.len() ==> (#[trigger] items[e]).0 == tokens[e].key && items[e].1@
            == token_keys(tokens[e].lines@, flat)
}

impl GitIndexer {
    pub open spec fn wf(&self) -> bool {
        &&& self.files.wf()
        &&& self.file_id_to_document@.len() == self.files.count()
        &&& self.file_id_to_diff_tracker@.len() == self.files.count()
        &&& self.file_id_to_document@.len() <= u32::MAX
        &&& forall|f: int|
            0 <= f < self.file_id_to_document@.len() ==> (#[trigger] self.file_id_to_document@[f]).wf()
        &&& forall|f: int|
            0 <= f < self.file_id_to_diff_tracker@.len() ==> (
            #[trigger] self.file_id_to_diff_tracker@[f] matches Some(t) ==> t.wf())
        &&& self.word_to_file_id_ever_contained.wf()
        &&& files_match(self.word_to_file_id_ever_contained, self.file_id_to_document@)
    }

    pub fn new() -> (indexer: Self)
        ensures
            indexer.wf(),
            indexer.file_id_to_document@.len() == 0,
            indexer.commit_index_to_commit_id@.len() == 0,
    {
        let indexer = Self {
            commit_index_to_commit_id: Vec::new(),
            files: PathIndex::new(),
            file_id_to_diff_tracker: Vec::new(),
            file_id_to_document: Vec::new(),
            word_to_file_id_ever_contained: WordFiles::new(),
        };
        proof {
            assert forall|w: u128, f: u32|
                !(#[trigger] indexer.word_to_file_id_ever_contained.files_of(w).contains(f)) by {
                assert(!indexer.word_to_file_id_ever_contained.has_word(w));
            }
        }
        indexer
    }

    /// Takes note of the next commit and hands out its index.
    pub fn add_commit(&mut self, commit_id: [u8; 20]) -> (commit_index: CommitIndex)
        requires
            old(self).wf(),
        ensures
            final(self).wf(),
            commit_index == old(self).commit_index_to_commit_id@.len(),
            final(self).commit_index_to_commit_id@ == old(self).commit_index_to_commit_id@.push(
                commit_id,
            ),
            final(self).files == old(self).files,
            final(self).file_id_to_document == old(self).file_id_to_document,
            final(self).file_id_to_diff_tracker == old(self).file_id_to_diff_tracker,
            final(self).word_to_file_id_ever_contained == old(self).word_to_file_id_ever_contained,
    {
        let commit_index = self.commit_index_to_commit_id.len();
        self.commit_index_to_commit_id.push(commit_id);
        commit_index
    }

    /// The id of the file at `file_full_path`. A path that was not seen
    /// before gets the next id and an empty document.
    pub fn get_file_id_insert_if_missing(&mut self, file_full_path: &str) -> (out: Result<
        FileId,
        IndexError,
    >)
        requires
            old(self).wf(),
        ensures
            final(self).wf(),
            final(self).commit_index_to_commit_id == old(self).commit_index_to_commit_id,
            final(self).word_to_file_id_ever_contained == old(self).word_to_file_id_ever_contained,
            match out {
                Ok(id) => {
                    &&& id < final(self).file_id_to_document@.len()
                    &&& final(self).files.paths@[id as int]@ == file_full_path@
                    &&& if old(self).files.has_path(file_full_path@) {
                        &&& id == old(self).files.file_id(file_full_path@)
                        &&& final(self).file_id_to_document == old(self).file_id_to_document
                        &&& final(self).file_id_to_diff_tracker == old(self).file_id_to_diff_tracker
                        &&& final(self).files == old(self).files
                    } else {
                        &&& id == old(self).file_id_to_document@.len()
                        &&& final(self).file_id_to_document@.len() == id + 1
                        &&& final(self).file_id_to_diff_tracker@.len() == id + 1
                        &&& final(self).file_id_to_diff_tracker@[id as int] is None
                        &&& final(self).file_id_to_document@[id as int].model() == Map::<
                            u128,
                            crate::document::WordModel,
                        >::empty()
                        &&& forall|f: int|
                            0 <= f < id ==> final(self).file_id_to_document@[f] == old(self).file_id_to_document@[f] && final(self).file_id_to_diff_tracker@[f]
                                == old(self).file_id_to_diff_tracker@[f]
                    }
                },
                Err(e) => e == IndexError::TooLarge && !old(self).files.has_path(file_full_path@)
                    && old(self).file_id_to_document@.len() == u32::MAX && *final(self) == *old(self),
            },
    {
        match self.files.find(file_full_path) {
            Some(id) => Ok(id),
            None => {
                if self.file_id_to_document.len() >= u32::MAX as usize {
                    return Err(IndexError::TooLarge);
                }
                let (id, _) = self.files.find_or_add(file_full_path);
                self.file_id_to_document.push(Document::new());
                self.file_id_to_diff_tracker.push(None);
                proof {
                    let docs = self.file_id_to_document@;
                    assert forall|w: u128, f: u32|
                        #[trigger] self.word_to_file_id_ever_contained.files_of(w).contains(f)
                            <==> f < docs.len() && docs[f as int].has_word(w) by {
                        if f < old(self).file_id_to_document@.len() {
                            assert(docs[f as int] == old(self).file_id_to_document@[f as int]);
                        }
                    }
                }
                Ok(id)
            },
        }
    }

    /// Records that file `file_id` holds the words of `tokens`.
    fn note_words(&mut self, tokens: &Vec<TokenLines>, file_id: u32)
        requires
            old(self).word_to_file_id_ever_contained.wf(),
            forall|e: int| 0 <= e < tokens@.len() ==> (#[trigger] tokens@[e]).key.wf(),
        ensures
            final(self).word_to_file_id_ever_contained.wf(),
            final(self).commit_index_to_commit_id == old(self).commit_index_to_commit_id,
            final(self).files == old(self).files,
            final(self).file_id_to_document == old(self).file_id_to_document,
            final(self).file_id_to_diff_tracker == old(self).file_id_to_diff_tracker,
            forall|w: u128|
                #[trigger] final(self).word_to_file_id_ever_contained.files_of(w) == (if named(
                    tokens@,
                    tokens@.len() as int,
                    w,
                ) {
                    old(self).word_to_file_id_ever_contained.files_of(w).insert(file_id)
                } else {
                    old(self).word_to_file_id_ever_contained.files_of(w)
                }),
    {
        let mut e: usize = 0;
        while e < tokens.len()
            invariant
                e <= tokens@.len(),
                self.word_to_file_id_ever_contained.wf(),
                forall|e: int| 0 <= e < tokens@.len() ==> (#[trigger] tokens@[e]).key.wf(),
                self.commit_index_to_commit_id == old(self).commit_index_to_commit_id,
                self.files == old(self).files,
                self.file_id_to_document == old(self).file_id_to_document,
                self.file_id_to_diff_tracker == old(self).file_id_to_diff_tracker,
                forall|w: u128|
                    #[trigger] self.word_to_file_id_ever_contained.files_of(w) == (if named(
                        tokens@,
                        e as int,
                        w,
                    ) {
                        old(self).word_to_file_id_ever_contained.files_of(w).insert(file_id)
                    } else {
                        old(self).word_to_file_id_ever_contained.files_of(w)
                    }),
            decreases tokens@.len() - e,
        {
            let ghost before = self.word_to_file_id_ever_contained;
            self.word_to_file_id_ever_contained.add(tokens[e].key, file_id);
            proof {
                let key_word = tokens@[e as int].key.word();
                assert forall|w: u128|
                    #[trigger] self.word_to_file_id_ever_contained.files_of(w) == (if named(
                        tokens@,
                        e + 1,
                        w,
                    ) {
                        old(self).word_to_file_id_ever_contained.files_of(w).insert(file_id)
                    } else {
                        old(self).word_to_file_id_ever_contained.files_of(w)
                    }) by {
                    let was = before.files_of(w);
                    if named(tokens@, e as int, w) {
                        let k = choose|k: int| 0 <= k < e && (#[trigger] tokens@[k]).key.word() == w;
                        assert(0 <= k < e + 1);
                        assert(named(tokens@, e + 1, w));
                        assert(was.insert(file_id) =~= was);
                    } else if w == key_word {
                        assert(named(tokens@, e + 1, w));
                    } else {
                        if named(tokens@, e + 1, w) {
                            let k = choose|k: int|
                                0 <= k < e + 1 && (#[trigger] tokens@[k]).key.word() == w;
                            assert(k < e);
                        }
                    }
                }
            }
            e += 1;
        }
    }

    /// Commit `commit_index` added `lines` to file `file_id`, before line
    /// `prev_line_start` of what the file had. In the commit's version of the
    /// file they start at line `new_line_start`.
    pub fn add_new_lines(
        &mut self,
        commit_index: CommitIndex,
        file_id: FileId,
        prev_line_start: usize,
        new_line_start: usize,
        lines: &Vec<String>,
    ) -> (out: Result<(), IndexError>)
        requires
            old(self).wf(),
            file_id < old(self).file_id_to_document@.len(),
        ensures
            final(self).wf(),
            final(self).commit_index_to_commit_id == old(self).commit_index_to_commit_id,
            final(self).files == old(self).files,
            final(self).file_id_to_document@.len() == old(self).file_id_to_document@.len(),
            final(self).file_id_to_diff_tracker@.len() == old(self).file_id_to_diff_tracker@.len(),
            forall|f: int|
                0 <= f < old(self).file_id_to_document@.len() && f != file_id ==> final(self).file_id_to_document@[f] == old(self).file_id_to_document@[f] && final(self).file_id_to_diff_tracker@[f] == old(self).file_id_to_diff_tracker@[f],
            final(self).file_id_to_document@[file_id as int].is_deleted == old(
                self,
            ).file_id_to_document@[file_id as int].is_deleted,
            out is Ok <==> lines_fit(
                commit_index,
                new_line_start,
                lines@.len(),
                old(self).file_id_to_diff_tracker@[file_id as int],
            ),
            out matches Err(e) ==> e == IndexError::TooLarge && *final(self) == *old(self),
            out is Ok ==> exists|tokens: Seq<TokenLines>|
                tokens_cover(tokens, lines@, new_line_start as int, lines@.len() as int, 0)
                    && #[trigger] added_model(
                    old(self).file_id_to_document@[file_id as int].model(),
                    tokens,
                    commit_index,
                ) == final(self).file_id_to_document@[file_id as int].model(),
            out is Ok ==> (final(self).file_id_to_diff_tracker@[file_id as int] matches Some(t)
                && t.lines() == lines_added(
                old(self).file_id_to_diff_tracker@[file_id as int],
                commit_index,
                prev_line_start,
                new_line_start,
                lines@.len(),
            )),
    {
        if commit_index > u32::MAX as usize || new_line_start > usize::MAX - lines.len() {
            return Err(IndexError::TooLarge);
        }
        match &self.file_id_to_diff_tracker[file_id] {
            Some(tracker) => {
                if tracker.line_count() > usize::MAX - lines.len() {
                    return Err(IndexError::TooLarge);
                }
            },
            None => {},
        }
        match &mut self.file_id_to_diff_tracker[file_id] {
            Some(tracker) => {
                tracker.add_lines(prev_line_start, lines.len(), (commit_index, new_line_start));
            },
            None => {
                self.file_id_to_diff_tracker[file_id] = Some(
                    FileDiffTracker::new(commit_index, lines.len()),
                );
            },
        }
        // Now index those new lines.
        let tokens = tokenize_lines(lines.as_slice(), new_line_start);
        proof {
            assert forall|e: int| 0 <= e < tokens@.len() implies (#[trigger] tokens@[e]).key.wf() by {}
        }
        self.note_words(&tokens, file_id as u32);
        let ghost mid = *self;
        self.file_id_to_document[file_id].add_words(commit_index, &tokens);
        proof {
            let old_docs = old(self).file_id_to_document@;
            let docs = self.file_id_to_document@;
            lemma_added_words(old_docs[file_id as int].model(), tokens@, commit_index);
            assert forall|f: int| 0 <= f < docs.len() implies (#[trigger] docs[f]).wf() by {
                if f != file_id {
                    assert(docs[f] == old_docs[f]);
                }
            }
            assert forall|w: u128, f: u32|
                #[trigger] self.word_to_file_id_ever_contained.files_of(w).contains(f) <==> f
                    < docs.len() && docs[f as int].has_word(w) by {
                let was = old(self).word_to_file_id_ever_contained.files_of(w);
                assert(was.contains(f) <==> f < old_docs.len() && old_docs[f as int].has_word(w));
                if f != file_id && f < docs.len() {
                    assert(docs[f as int] == old_docs[f as int]);
                }
            }
        }
        Ok(())
    }

    /// The introductions that end when the lines of `tokens` are deleted.
    fn removal_items_of(tokens: &Vec<TokenLines>, flat: &Vec<WordKey>, count: usize) -> (items: Vec<
        (TrigramKey, Vec<WordKey>),
    >)
        requires
            flat@.len() == count,
            forall|e: int, a: int|
                0 <= e < tokens@.len() && 0 <= a < tokens@[e].lines@.len() ==> (
                #[trigger] tokens@[e].lines@[a]) < count,
        ensures
            removal_items(items@, tokens@, flat@),
    {
        let mut items: Vec<(TrigramKey, Vec<WordKey>)> = Vec::new();
        let mut e: usize = 0;
        while e < tokens.len()
            invariant
                e <= tokens@.len(),
                flat@.len() == count,
                forall|e: int, a: int|
                    0 <= e < tokens@.len() && 0 <= a < tokens@[e].lines@.len() ==> (
                    #[trigger] tokens@[e].lines@[a]) < count,
                items@.len() == e,
                forall|k: int|
                    0 <= k < e ==> (#[trigger] items@[k]).0 == tokens@[k].key && items@[k].1@
                        == token_keys(tokens@[k].lines@, flat@),
            decreases tokens@.len() - e,
        {
            let token = &tokens[e];
            let mut keys: Vec<WordKey> = Vec::new();
            let mut a: usize = 0;
            while a < token.lines.len()
                invariant
                    a <= token.lines@.len(),
                    flat@.len() == count,
                    forall|a: int| 0 <= a < token.lines@.len() ==> (#[trigger] token.lines@[a]) < count,
                    keys@.len() == a,
                    forall|k: int| 0 <= k < a ==> #[trigger] keys@[k] == flat@[token.lines@[k] as int],
                decreases token.lines@.len() - a,
            {
                keys.push(flat[token.lines[a]]);
                a += 1;
            }
            proof {
                assert(keys@ =~= token_keys(token.lines@, flat@));
            }
            items.push((token.key, keys));
            e += 1;
        }
        items
    }

    /// Commit `commit_index` deleted the lines `delete_line_start ..` of file
    /// `file_id`; `lines` is their text.
    pub fn delete_lines(
        &mut self,
        commit_index: CommitIndex,
        file_id: FileId,
        delete_line_start: usize,
        lines: &Vec<String>,
    ) -> (out: Result<(), IndexError>)
        requires
            old(self).wf(),
            file_id < old(self).file_id_to_document@.len(),
        ensures
            final(self).wf(),
            final(self).commit_index_to_commit_id == old(self).commit_index_to_commit_id,
            final(self).files == old(self).files,
            final(self).word_to_file_id_ever_contained == old(self).word_to_file_id_ever_contained,
            final(self).file_id_to_document@.len() == old(self).file_id_to_document@.len(),
            final(self).file_id_to_diff_tracker@.len() == old(self).file_id_to_diff_tracker@.len(),
            forall|f: int|
                0 <= f < old(self).file_id_to_document@.len() && f != file_id ==> final(self).file_id_to_document@[f] == old(self).file_id_to_document@[f] && final(self).file_id_to_diff_tracker@[f] == old(self).file_id_to_diff_tracker@[f],
            final(self).file_id_to_document@[file_id as int].is_deleted == old(
                self,
            ).file_id_to_document@[file_id as int].is_deleted,
            out == deletion_verdict(
                commit_index,
                delete_line_start,
                lines@.len(),
                old(self).file_id_to_diff_tracker@[file_id as int],
            ),
            out is Err ==> *final(self) == *old(self),
            out is Ok ==> (old(self).file_id_to_diff_tracker@[file_id as int] matches Some(was)
                && final(self).file_id_to_diff_tracker@[file_id as int] matches Some(t)
                && t.lines() == was.lines().subrange(0, delete_line_start as int)
                + was.lines().subrange(delete_line_start + lines@.len(), was.total_lines())
                && exists|tokens: Seq<TokenLines>, items: Seq<(TrigramKey, Vec<WordKey>)>|
                tokens_cover(tokens, lines@, 0, lines@.len() as int, 0) && #[trigger] removal_items(
                    items,
                    tokens,
                    keys_of(
                        was.lines().subrange(
                            delete_line_start as int,
                            delete_line_start + lines@.len(),
                        ),
                    ),
                ) && closed_model(
                    removed_model(old(self).file_id_to_document@[file_id as int].model(), items),
                    items,
                    commit_index - 1,
                ) == final(self).file_id_to_document@[file_id as int].model()),
    {
        if commit_index == 0 || commit_index > u32::MAX as usize {
            return Err(IndexError::TooLarge);
        }
        let count = lines.len();
        match &self.file_id_to_diff_tracker[file_id] {
            Some(tracker) => {
                let total = tracker.line_count();
                if delete_line_start > total || count > total - delete_line_start {
                    return Err(IndexError::LinesOutOfRange);
                }
            },
            None => {
                return Err(IndexError::UnknownFile);
            },
        }
        let delete_result = match &mut self.file_id_to_diff_tracker[file_id] {
            Some(tracker) => tracker.delete_lines(delete_line_start, count),
            None => Vec::new(),
        };
        let word_key_for_each_deleted_line = flatten_delete_result(&delete_result);
        let tokens = tokenize_lines(lines.as_slice(), 0);
        proof {
            assert forall|e: int, a: int|
                0 <= e < tokens@.len() && 0 <= a < tokens@[e].lines@.len() implies (
            #[trigger] tokens@[e].lines@[a]) < count by {
                let n = tokens@[e].lines@[a];
                assert(tokens@[e].lines@.contains(n));
                let (i2, j2) = choose|i2: int, j2: int| #[trigger]
                    is_occurrence(lines@, count as int, 0, i2, j2, tokens@[e].key.word()) && n == 0
                        + i2;
            }
        }
        let items = Self::removal_items_of(&tokens, &word_key_for_each_deleted_line, count);
        proof {
            assert forall|e: int| 0 <= e < items@.len() implies (#[trigger] items@[e]).0.wf() by {
                assert(items@[e].0 == tokens@[e].key);
            }
        }
        self.file_id_to_document[file_id].remove_words(commit_index, &items);
        proof {
            let old_docs = old(self).file_id_to_document@;
            let docs = self.file_id_to_document@;
            lemma_removed_words(old_docs[file_id as int].model(), items@, commit_index - 1);
            lemma_removed_words(
                removed_model(old_docs[file_id as int].model(), items@),
                items@,
                commit_index - 1,
            );
            assert forall|f: int| 0 <= f < docs.len() implies (#[trigger] docs[f]).wf() by {
                if f != file_id {
                    assert(docs[f] == old_docs[f]);
                }
            }
            assert forall|w: u128, f: u32|
                #[trigger] self.word_to_file_id_ever_contained.files_of(w).contains(f) <==> f
                    < docs.len() && docs[f as int].has_word(w) by {
                let was_in = old(self).word_to_file_id_ever_contained.files_of(w);
                assert(was_in.contains(f) <==> f < old_docs.len() && old_docs[f as int].has_word(
                    w,
                ));
                if f != file_id && f < docs.len() {
                    assert(docs[f as int] == old_docs[f as int]);
                }
            }
        }
        Ok(())
    }

    /// Commit `commit_index` deleted file `file_id`.
    pub fn delete_entire_file(&mut self, commit_index: CommitIndex, file_id: FileId) -> (out: Result<
        (),
        IndexError,
    >)
        requires
            old(self).wf(),
            file_id < old(self).file_id_to_document@.len(),
        ensures
            final(self).wf(),
            final(self).commit_index_to_commit_id == old(self).commit_index_to_commit_id,
            final(self).files == old(self).files,
            final(self).word_to_file_id_ever_contained == old(self).word_to_file_id_ever_contained,
            final(self).file_id_to_document@.len() == old(self).file_id_to_document@.len(),
            final(self).file_id_to_diff_tracker@.len() == old(self).file_id_to_diff_tracker@.len(),
            forall|f: int|
                0 <= f < old(self).file_id_to_document@.len() && f != file_id ==> final(self).file_id_to_document@[f] == old(self).file_id_to_document@[f] && final(self).file_id_to_diff_tracker@[f] == old(self).file_id_to_diff_tracker@[f],
            out == (if commit_index == 0 || commit_index > u32::MAX {
                Err::<(), IndexError>(IndexError::TooLarge)
            } else if old(self).file_id_to_diff_tracker@[file_id as int] is None {
                Err::<(), IndexError>(IndexError::UnknownFile)
            } else {
                Ok::<(), IndexError>(())
            }),
            out is Err ==> *final(self) == *old(self),
            out is Ok ==> (final(self).file_id_to_diff_tracker@[file_id as int] matches Some(t)
                && t.lines() == Seq::<(int, int)>::empty() && final(self).file_id_to_document@[file_id as int].model() == deleted_model(
                old(self).file_id_to_document@[file_id as int].model(),
                commit_index - 1,
            ) && final(self).file_id_to_document@[file_id as int].is_deleted),
    {
        if commit_index == 0 || commit_index > u32::MAX as usize {
            return Err(IndexError::TooLarge);
        }
        if self.file_id_to_diff_tracker[file_id].is_none() {
            return Err(IndexError::UnknownFile);
        }
        match &mut self.file_id_to_diff_tracker[file_id] {
            Some(tracker) => {
                tracker.delete_all();
            },
            None => {},
        }
        self.file_id_to_document[file_id].remove_document(commit_index);
        self.file_id_to_document[file_id].is_deleted = true;
        proof {
            let old_docs = old(self).file_id_to_document@;
            let docs = self.file_id_to_document@;
            assert forall|f: int| 0 <= f < docs.len() implies (#[trigger] docs[f]).wf() by {
                if f != file_id {
                    assert(docs[f] == old_docs[f]);
                }
            }
            assert forall|w: u128, f: u32|
                #[trigger] self.word_to_file_id_ever_contained.files_of(w).contains(f) <==> f
                    < docs.len() && docs[f as int].has_word(w) by {
                let was_in = old(self).word_to_file_id_ever_contained.files_of(w);
                assert(was_in.contains(f) <==> f < old_docs.len() && old_docs[f as int].has_word(
                    w,
                ));
                if f != file_id && f < docs.len() {
                    assert(docs[f as int] == old_docs[f as int]);
                }
            }
        }
        Ok(())
    }

    /// Applies what commit `commit_index` did to one file: the hunks of its
    /// diff, last hunk first, so that the line numbers of earlier hunks stay
    /// valid.
    ///
    /// A hunk of a modified file that removes lines removes them at its old
    /// start and adds its new lines there; a hunk that only adds lines adds
    /// them behind the line of its old start. An added file has one hunk, which
    /// starts at line one of the new file; a deleted file has one hunk, with no
    /// lines in the new file.
    pub fn index_git_delta(
        &mut self,
        file: Option<(FileId, DeltaStatus)>,
        hunks: &Vec<GitDelta>,
        commit_index: CommitIndex,
    ) -> (out: Result<(), IndexError>)
        requires
            old(self).wf(),
            file matches Some(f) ==> f.0 < old(self).file_id_to_document@.len(),
        ensures
            final(self).wf(),
            final(self).commit_index_to_commit_id == old(self).commit_index_to_commit_id,
            final(self).files == old(self).files,
            final(self).file_id_to_document@.len() == old(self).file_id_to_document@.len(),
            final(self).file_id_to_diff_tracker@.len() == old(self).file_id_to_diff_tracker@.len(),
            file is None <==> out == Err::<(), IndexError>(IndexError::MissingFile),
            file matches Some(f) ==> delta_indexed(
                *old(self),
                *final(self),
                f.0,
                f.1,
                hunks@,
                commit_index,
                out,
            ),
    {
        let (file_id, status) = match file {
            Some(f) => f,
            None => {
                return Err(IndexError::MissingFile);
            },
        };
        match status {
            DeltaStatus::Modified => {
                let ghost start = lines_now(old(self).file_id_to_diff_tracker@[file_id as int]);
                let ghost mut docs: Seq<crate::document::DocModel> = Seq::new(
                    (hunks@.len() + 1) as nat,
                    |i: int| old(self).file_id_to_document@[file_id as int].model(),
                );
                let mut h: usize = hunks.len();
                while h > 0
                    invariant
                        h <= hunks@.len(),
                        self.wf(),
                        start == lines_now(old(self).file_id_to_diff_tracker@[file_id as int]),
                        self.file_id_to_document@[file_id as int].is_deleted == old(
                            self,
                        ).file_id_to_document@[file_id as int].is_deleted,
                        documents_chain(docs, start, commit_index, hunks@, h as int),
                        docs[hunks@.len() as int] == old(self).file_id_to_document@[file_id as int].model(),
                        docs[h as int] == self.file_id_to_document@[file_id as int].model(),
                        hunks_applied(start, commit_index, hunks@, h as int) == Ok::<
                            Option<Seq<(int, int)>>,
                            IndexError,
                        >(lines_now(self.file_id_to_diff_tracker@[file_id as int])),
                        file == Some((file_id, status)),
                        status == DeltaStatus::Modified,
                        file_id < self.file_id_to_document@.len(),
                        self.commit_index_to_commit_id == old(self).commit_index_to_commit_id,
                        self.files == old(self).files,
                        self.file_id_to_document@.len() == old(self).file_id_to_document@.len(),
                        self.file_id_to_diff_tracker@.len() == old(self).file_id_to_diff_tracker@.len(),
                        forall|k: int|
                            0 <= k < old(self).file_id_to_document@.len() && k != file_id
                                ==> self.file_id_to_document@[k] == old(self).file_id_to_document@[k]
                                && self.file_id_to_diff_tracker@[k] == old(self).file_id_to_diff_tracker@[k],
                    decreases h,
                {
                    h -= 1;
                    let hunk = &hunks[h];
                    let ghost now = lines_now(self.file_id_to_diff_tracker@[file_id as int]);
                    let ghost mid_model = self.file_id_to_document@[file_id as int].model();
                    let ghost next = hunk_applied(now, commit_index, *hunk);
                    proof {
                        assert(hunks_applied(start, commit_index, hunks@, h as int) == next);
                        if next is Err {
                            lemma_hunk_fails(start, commit_index, hunks@, h as int);
                        }
                    }
                    if (hunk.prev_line_start_num == 0 && hunk.prev_line_count != 0) || (
                    hunk.new_line_start_num == 0 && hunk.new_line_count != 0) {
                        return Err(IndexError::BadHunk);
                    }
                    if hunk.prev_line_count > 0 {
                        // A hunk counts lines from one and names the first
                        // line that it removes.
                        let at = (hunk.prev_line_start_num - 1) as usize;
                        match self.delete_lines(commit_index, file_id, at, &hunk.deleted_lines) {
                            Ok(()) => {},
                            Err(e) => {
                                return Err(e);
                            },
                        }
                        let ghost cut_model = self.file_id_to_document@[file_id as int].model();
                        proof {
                            assert(removed_by(
                                mid_model,
                                now->Some_0.subrange(at as int, at + hunk.deleted_lines@.len()),
                                hunk.deleted_lines@,
                                commit_index,
                                cut_model,
                            ));
                        }
                        if hunk.new_line_count > 0 {
                            match self.add_new_lines(
                                commit_index,
                                file_id,
                                at,
                                (hunk.new_line_start_num - 1) as usize,
                                &hunk.added_lines,
                            ) {
                                Ok(()) => {},
                                Err(e) => {
                                    return Err(e);
                                },
                            }
                        }
                    } else if hunk.new_line_count > 0 {
                        // Nothing is removed: the new lines come behind the
                        // line that the hunk names.
                        match self.add_new_lines(
                            commit_index,
                            file_id,
                            hunk.prev_line_start_num as usize,
                            (hunk.new_line_start_num - 1) as usize,
                            &hunk.added_lines,
                        ) {
                            Ok(()) => {},
                            Err(e) => {
                                return Err(e);
                            },
                        }
                    }
                    proof {
                        assert(next == Ok::<Option<Seq<(int, int)>>, IndexError>(
                            lines_now(self.file_id_to_diff_tracker@[file_id as int]),
                        ));
                        let after = self.file_id_to_document@[file_id as int].model();
                        assert(hunk_document(mid_model, now, commit_index, *hunk, after));
                        assert(*hunk == hunks@[h as int]);
                        let longer = docs.update(h as int, after);
                        assert forall|k: int| h <= k < hunks@.len() implies #[trigger] chain_step(
                            longer,
                            start,
                            commit_index,
                            hunks@,
                            k,
                        ) by {
                            if k > h {
                                assert(chain_step(docs, start, commit_index, hunks@, k));
                                assert(longer[k] == docs[k]);
                                assert(longer[k + 1] == docs[k + 1]);
                            } else {
                                assert(longer[k + 1] == mid_model);
                                assert(hunks_applied(start, commit_index, hunks@, k + 1) == Ok::<
                                    Option<Seq<(int, int)>>,
                                    IndexError,
                                >(now));
                            }
                        }
                        assert(longer.len() == hunks@.len() + 1);
                        assert(documents_chain(longer, start, commit_index, hunks@, h as int));
                        docs = longer;
                    }
                }
                proof {
                    assert(documents_chain(docs, start, commit_index, hunks@, 0));
                }
                Ok(())
            },
            DeltaStatus::Added => {
                if hunks.len() != 1 || hunks[0].new_line_start_num != 1
                    || hunks[0].prev_line_start_num != 0 {
                    return Err(IndexError::BadHunk);
                }
                match self.add_new_lines(commit_index, file_id, 0, 0, &hunks[0].added_lines) {
                    Ok(()) => {},
                    Err(e) => {
                        return Err(e);
                    },
                }
                let ghost mid = *self;
                self.file_id_to_document[file_id].is_deleted = false;
                proof {
                    self.lemma_flag_changed(mid, file_id as int);
                }
                Ok(())
            },
            DeltaStatus::Deleted => {
                if hunks.len() != 1 || hunks[0].new_line_start_num != 0 {
                    return Err(IndexError::BadHunk);
                }
                self.delete_entire_file(commit_index, file_id)
            },
            DeltaStatus::Other => Ok(()),
        }
    }

    /// A change of the deletion flag of one document keeps the indexer well
    /// formed.
    proof fn lemma_flag_changed(&self, before: Self, file_id: int)
        requires
            before.wf(),
            0 <= file_id < before.file_id_to_document@.len(),
            self.commit_index_to_commit_id == before.commit_index_to_commit_id,
            self.files == before.files,
            self.file_id_to_diff_tracker == before.file_id_to_diff_tracker,
            self.word_to_file_id_ever_contained == before.word_to_file_id_ever_contained,
            self.file_id_to_document@.len() == before.file_id_to_document@.len(),
            forall|k: int|
                0 <= k < before.file_id_to_document@.len() && k != file_id
                    ==> self.file_id_to_document@[k] == before.file_id_to_document@[k],
            self.file_id_to_document@[file_id].index == before.file_id_to_document@[file_id].index,
            self.file_id_to_document@[file_id].words == before.file_id_to_document@[file_id].words,
            self.file_id_to_document@[file_id].all_words
                == before.file_id_to_document@[file_id].all_words,
            self.file_id_to_document@[file_id].doc_modified_commits
                == before.file_id_to_document@[file_id].doc_modified_commits,
        ensures
            self.wf(),
            self.file_id_to_document@[file_id].model() == before.file_id_to_document@[file_id].model(),
    {
        let docs = self.file_id_to_document@;
        let old_docs = before.file_id_to_document@;
        assert(docs[file_id].model() =~= old_docs[file_id].model());
        assert forall|f: int| 0 <= f < docs.len() implies (#[trigger] docs[f]).wf() by {
            if f != file_id {
                assert(docs[f] == old_docs[f]);
            } else {
                assert(old_docs[f].wf());
            }
        }
        assert forall|w: u128, f: u32|
            #[trigger] self.word_to_file_id_ever_contained.files_of(w).contains(f) <==> f
                < docs.len() && docs[f as int].has_word(w) by {
            assert(before.word_to_file_id_ever_contained.files_of(w).contains(f) <==> f
                < old_docs.len() && old_docs[f as int].has_word(w));
            if f != file_id && f < docs.len() {
                assert(docs[f as int] == old_docs[f as int]);
            }
        }
    }

    /// Indexes a file of the root commit, unless its content is taken as
    /// binary: the file gets an id, and its lines are the lines `0 ..` of the
    /// commit.
    pub fn index_blob(
        &mut self,
        checker: &Utf8FileChecker,
        commit_index: CommitIndex,
        path: &str,
        content: &[u8],
    ) -> (out: Result<Option<FileId>, IndexError>)
        requires
            old(self).wf(),
        ensures
            final(self).wf(),
            final(self).commit_index_to_commit_id == old(self).commit_index_to_commit_id,
            out == Ok::<Option<FileId>, IndexError>(None) <==> !is_text(checker, path@, content@),
            !is_text(checker, path@, content@) ==> *final(self) == *old(self),
            out matches Ok(Some(id)) ==> id < final(self).file_id_to_document@.len() && final(self).files.paths@[id as int]@ == path@,
            out matches Ok(Some(id)) ==> (exists|lines: Seq<String>, tokens: Seq<TokenLines>|
                crate::matcher::strings_view(lines) == blob_lines(content@) && #[trigger] tokens_cover(
                    tokens,
                    lines,
                    0,
                    lines.len() as int,
                    0,
                ) && added_model(blob_model(*old(self), path@), tokens, commit_index)
                    == final(self).file_id_to_document@[id as int].model()),
            out matches Err(e) ==> e == IndexError::TooLarge,
            out is Err <==> is_text(checker, path@, content@) && (table_full(*old(self), path@)
                || !lines_fit(
                commit_index,
                0,
                blob_lines(content@).len(),
                blob_tracker(*old(self), path@),
            )),
    {
        let ext = extension_of(path);
        if !checker.is_utf8_document(content, ext.as_str()) {
            return Ok(None);
        }
        let text = lossy_text(content);
        let lines = lines_of(text.as_str());
        let file_id = match self.get_file_id_insert_if_missing(path) {
            Ok(id) => id,
            Err(e) => {
                return Err(e);
            },
        };
        let ghost mid = *self;
        proof {
            assert(mid.file_id_to_document@[file_id as int].model() == blob_model(
                *old(self),
                path@,
            ));
        }
        match self.add_new_lines(commit_index, file_id, 0, 0, &lines) {
            Ok(()) => Ok(Some(file_id)),
            Err(e) => Err(e),
        }
    }

    /// Indexes what a commit did to the file at `path`, where the change
    /// counts. It does not count where the file comes new and its content is
    /// missing or taken as binary, where it has no hunk, where its status is
    /// none of added, modified and deleted, and where the file was left out
    /// when it came: then nothing changes. Else the change is indexed under
    /// the id of the path, which a new path gets now.
    pub fn index_change(
        &mut self,
        checker: &Utf8FileChecker,
        path: &str,
        status: DeltaStatus,
        new_content: Option<&[u8]>,
        hunks: &Vec<GitDelta>,
        commit_index: CommitIndex,
    ) -> (out: Result<Option<FileId>, IndexError>)
        requires
            old(self).wf(),
        ensures
            final(self).wf(),
            final(self).commit_index_to_commit_id == old(self).commit_index_to_commit_id,
            left_out(*old(self), checker, path@, status, new_content, hunks@) ==> out == Ok::<
                Option<FileId>,
                IndexError,
            >(None) && *final(self) == *old(self),
            !left_out(*old(self), checker, path@, status, new_content, hunks@) && table_full(
                *old(self),
                path@,
            ) ==> out == Err::<Option<FileId>, IndexError>(IndexError::TooLarge) && *final(self)
                == *old(self),
            !left_out(*old(self), checker, path@, status, new_content, hunks@) && !table_full(
                *old(self),
                path@,
            ) ==> change_indexed(*old(self), *final(self), path@, status, hunks@, commit_index, out),
    {
        if hunks.len() == 0 {
            return Ok(None);
        }
        match status {
            DeltaStatus::Other => {
                return Ok(None);
            },
            DeltaStatus::Added => {
                let text = match new_content {
                    Some(content) => {
                        let ext = extension_of(path);
                        checker.is_utf8_document(content, ext.as_str())
                    },
                    None => false,
                };
                if !text {
                    return Ok(None);
                }
            },
            _ => {},
        }
        let added = match status {
            DeltaStatus::Added => true,
            _ => false,
        };
        let file_id = match self.files.find(path) {
            Some(id) => {
                if !added && self.file_id_to_diff_tracker[id].is_none() {
                    // The file was left out when it came.
                    return Ok(None);
                }
                id
            },
            None => {
                if !added {
                    return Ok(None);
                }
                match self.get_file_id_insert_if_missing(path) {
                    Ok(id) => id,
                    Err(e) => {
                        return Err(e);
                    },
                }
            },
        };
        let ghost mid = *self;
        proof {
            assert(path_known(*old(self), mid, path@, file_id));
        }
        match self.index_git_delta(Some((file_id, status)), hunks, commit_index) {
            Ok(()) => {
                proof {
                    assert(delta_indexed(
                        mid,
                        *self,
                        file_id,
                        status,
                        hunks@,
                        commit_index,
                        Ok::<(), IndexError>(()),
                    ));
                }
                Ok(Some(file_id))
            },
            Err(e) => {
                proof {
                    assert(delta_indexed(
                        mid,
                        *self,
                        file_id,
                        status,
                        hunks@,
                        commit_index,
                        Err::<(), IndexError>(e),
                    ));
                }
                Err(e)
            },
        }
    }
}

/// The change of the file at `path` does not count: the file comes new and
/// its content is missing or taken as binary, or the change has no hunk or
/// a status that is none of added, modified and deleted, or the file is
/// modified or deleted and was left out when it came.
pub open spec fn left_out(
    indexer: GitIndexer,
    checker: &Utf8FileChecker,
    path: Seq<char>,
    status: DeltaStatus,
    new_content: Option<&[u8]>,
    hunks: Seq<GitDelta>,
) -> bool {
    ||| hunks.len() == 0
    ||| status == DeltaStatus::Other
    ||| (status == DeltaStatus::Added && !(new_content matches Some(content) && is_text(
        checker,
        path,
        content@,
    )))
    ||| (status != DeltaStatus::Added && (!indexer.files.has_path(path)
        || indexer.file_id_to_diff_tracker@[indexer.files.file_id(path)] is None))
}

/// The indexer with the path known: as it was where the path was known,
/// else with the next file id given to the path, an empty document and no
/// lines yet.
pub open spec fn path_known(before: GitIndexer, after: GitIndexer, path: Seq<char>, id: FileId) -> bool {
    &&& after.wf()
    &&& after.commit_index_to_commit_id == before.commit_index_to_commit_id
    &&& id < after.file_id_to_document@.len()
    &&& after.files.paths@[id as int]@ == path
    &&& if before.files.has_path(path) {
        after == before && id == before.files.file_id(path)
    } else {
        &&& id == before.file_id_to_document@.len()
        &&& after.file_id_to_document@.len() == id + 1
        &&& after.file_id_to_diff_tracker@.len() == id + 1
        &&& after.file_id_to_diff_tracker@[id as int] is None
        &&& after.file_id_to_document@[id as int].model() == Map::<
            u128,
            crate::document::WordModel,
        >::empty()
        &&& forall|f: int|
            0 <= f < id ==> after.file_id_to_document@[f] == before.file_id_to_document@[f]
                && after.file_id_to_diff_tracker@[f] == before.file_id_to_diff_tracker@[f]
    }
}

/// A change that counts was indexed: the path is known, under the id that
/// is handed back, and the change of the file with that id was indexed.
pub open spec fn change_indexed(
    before: GitIndexer,
    after: GitIndexer,
    path: Seq<char>,
    status: DeltaStatus,
    hunks: Seq<GitDelta>,
    commit_index: CommitIndex,
    out: Result<Option<FileId>, IndexError>,
) -> bool {
    exists|mid: GitIndexer, id: FileId|
        {
            &&& #[trigger] path_known(before, mid, path, id)
            &&& match out {
                Ok(Some(given)) => given == id && delta_indexed(
                    mid,
                    after,
                    id,
                    status,
                    hunks,
                    commit_index,
                    Ok(()),
                ),
                Ok(None) => false,
                Err(e) => delta_indexed(mid, after, id, status, hunks, commit_index, Err(e)),
            }
        }
}

/// Whether the checker takes the content of the file at `path` as text.
pub open spec fn is_text(checker: &Utf8FileChecker, path: Seq<char>, content: Seq<u8>) -> bool {
    !crate::check_binary::magic_matches(
        crate::check_binary::table_view(checker.signatures@),
        content,
        vstd::utf8::encode_utf8(crate::text::extension(path)),
    ) && !crate::matcher::any_occurs(
        crate::check_binary::head_of(content),
        crate::matcher::matcher_patterns(checker.marks),
    )
}

/// The lines of a blob: those of its text, which is read with what is no
/// UTF-8 replaced. Well-formed UTF-8 is read as it is.
pub open spec fn blob_lines(content: Seq<u8>) -> Seq<Seq<char>> {
    crate::matcher::text_lines(crate::text::lossy(content))
}

/// The path is new, and no file id is left for it.
pub open spec fn table_full(indexer: GitIndexer, path: Seq<char>) -> bool {
    !indexer.files.has_path(path) && indexer.file_id_to_document@.len() == u32::MAX
}

/// The line tracker of the file at `path` before it is indexed: none for a
/// path that is new.
pub open spec fn blob_tracker(indexer: GitIndexer, path: Seq<char>) -> Option<FileDiffTracker> {
    if indexer.files.has_path(path) {
        indexer.file_id_to_diff_tracker@[indexer.files.file_id(path)]
    } else {
        None
    }
}

/// The document of the file at `path` before it is indexed: empty for a path
/// that is new.
pub open spec fn blob_model(indexer: GitIndexer, path: Seq<char>) -> crate::document::DocModel {
    if indexer.files.has_path(path) {
        indexer.file_id_to_document@[indexer.files.file_id(path)].model()
    } else {
        Map::empty()
    }
}

/// The lines of a file as a value: for each line the commit and the line of
/// that commit that brought it. `None` for a file that never had lines.
pub open spec fn lines_now(tracker: Option<FileDiffTracker>) -> Option<Seq<(int, int)>> {
    match tracker {
        Some(t) => Some(t.lines()),
        None => None,
    }
}

/// The lines of a file after `count` lines of a commit came in before line
/// `prev_line_start`, or the error where the numbers do not fit.
pub open spec fn inserted(
    lines: Option<Seq<(int, int)>>,
    commit_index: CommitIndex,
    prev_line_start: int,
    new_line_start: int,
    count: nat,
) -> Result<Option<Seq<(int, int)>>, IndexError> {
    if commit_index > u32::MAX || new_line_start + count > usize::MAX || (lines matches Some(l)
        && l.len() + count > usize::MAX) {
        Err(IndexError::TooLarge)
    } else {
        Ok(
            Some(
                match lines {
                    Some(l) => {
                        let at = if prev_line_start <= l.len() {
                            prev_line_start
                        } else {
                            l.len() as int
                        };
                        l.subrange(0, at) + commit_span(
                            commit_index as int,
                            new_line_start,
                            count as int,
                        ) + l.subrange(at, l.len() as int)
                    },
                    None => commit_span(commit_index as int, 0, count as int),
                },
            ),
        )
    }
}

/// The lines of a file after one hunk of a change: the lines that the
/// hunk removes go, then the lines that it adds come in at their place.
pub open spec fn hunk_applied(
    lines: Option<Seq<(int, int)>>,
    commit_index: CommitIndex,
    hunk: GitDelta,
) -> Result<Option<Seq<(int, int)>>, IndexError> {
    if (hunk.prev_line_start_num == 0 && hunk.prev_line_count != 0) || (hunk.new_line_start_num
        == 0 && hunk.new_line_count != 0) {
        Err(IndexError::BadHunk)
    } else if hunk.prev_line_count > 0 {
        let at = hunk.prev_line_start_num - 1;
        let gone = hunk.deleted_lines@.len();
        if commit_index == 0 || commit_index > u32::MAX {
            Err(IndexError::TooLarge)
        } else {
            match lines {
                None => Err(IndexError::UnknownFile),
                Some(l) => if at + gone > l.len() {
                    Err(IndexError::LinesOutOfRange)
                } else {
                    let rest = l.subrange(0, at) + l.subrange(at + gone, l.len() as int);
                    if hunk.new_line_count > 0 {
                        inserted(
                            Some(rest),
                            commit_index,
                            at,
                            hunk.new_line_start_num - 1,
                            hunk.added_lines@.len(),
                        )
                    } else {
                        Ok(Some(rest))
                    }
                },
            }
        }
    } else if hunk.new_line_count > 0 {
        inserted(
            lines,
            commit_index,
            hunk.prev_line_start_num as int,
            hunk.new_line_start_num - 1,
            hunk.added_lines@.len(),
        )
    } else {
        Ok(lines)
    }
}

/// The lines of a file after the hunks from `h` on, the last hunk first.
pub open spec fn hunks_applied(
    lines: Option<Seq<(int, int)>>,
    commit_index: CommitIndex,
    hunks: Seq<GitDelta>,
    h: int,
) -> Result<Option<Seq<(int, int)>>, IndexError>
    decreases hunks.len() - h,
{
    if h < 0 || h >= hunks.len() {
        Ok(lines)
    } else {
        match hunks_applied(lines, commit_index, hunks, h + 1) {
            Ok(later) => hunk_applied(later, commit_index, hunks[h]),
            Err(e) => Err(e),
        }
    }
}

/// What indexing the change of one file makes of the indexer: the other
/// files stay; of the file itself the lines and the document change as the
/// status and the hunks say, or the error says why they could not.
pub open spec fn delta_indexed(
    before: GitIndexer,
    after: GitIndexer,
    file_id: FileId,
    status: DeltaStatus,
    hunks: Seq<GitDelta>,
    commit_index: CommitIndex,
    out: Result<(), IndexError>,
) -> bool {
    let doc = before.file_id_to_document@[file_id as int];
    let now = after.file_id_to_document@[file_id as int];
    let tracker = before.file_id_to_diff_tracker@[file_id as int];
    &&& forall|k: int|
        0 <= k < before.file_id_to_document@.len() && k != file_id ==> after.file_id_to_document@[k]
            == before.file_id_to_document@[k] && after.file_id_to_diff_tracker@[k]
            == before.file_id_to_diff_tracker@[k]
    &&& match status {
        DeltaStatus::Other => out is Ok && after == before,
        DeltaStatus::Modified => {
            &&& match hunks_applied(lines_now(tracker), commit_index, hunks, 0) {
                Ok(lines) => out is Ok && lines_now(
                    after.file_id_to_diff_tracker@[file_id as int],
                ) == lines,
                Err(e) => out == Err::<(), IndexError>(e),
            }
            &&& out is Ok ==> hunks_document(
                doc.model(),
                lines_now(tracker),
                commit_index,
                hunks,
                now.model(),
            )
            &&& now.is_deleted == doc.is_deleted
        },
        DeltaStatus::Added => if added_shape(hunks) {
            &&& out is Ok <==> lines_fit(commit_index, 0, hunks[0].added_lines@.len(), tracker)
            &&& out is Ok ==> !now.is_deleted && added_by(
                doc.model(),
                hunks[0].added_lines@,
                0,
                commit_index,
                now.model(),
            )
        } else {
            out == Err::<(), IndexError>(IndexError::BadHunk) && after == before
        },
        DeltaStatus::Deleted => if deleted_shape(hunks) {
            &&& out == (if commit_index == 0 || commit_index > u32::MAX {
                Err::<(), IndexError>(IndexError::TooLarge)
            } else if tracker is None {
                Err::<(), IndexError>(IndexError::UnknownFile)
            } else {
                Ok::<(), IndexError>(())
            })
            &&& out is Ok ==> now.model() == deleted_model(doc.model(), commit_index - 1)
                && now.is_deleted
        } else {
            out == Err::<(), IndexError>(IndexError::BadHunk) && after == before
        },
    }
}

/// The document after the lines `added`, which are the lines `first_line ..`
/// of the commit, came in.
pub open spec fn added_by(
    before: crate::document::DocModel,
    added: Seq<String>,
    first_line: int,
    commit_index: CommitIndex,
    after: crate::document::DocModel,
) -> bool {
    exists|tokens: Seq<TokenLines>|
        tokens_cover(tokens, added, first_line, added.len() as int, 0) && #[trigger] added_model(
            before,
            tokens,
            commit_index,
        ) == after
}

/// The document after the lines `deleted` went, which were brought by the
/// commits and lines `origins`: their introductions are gone, and a trigram
/// that has none left ends at the commit before.
pub open spec fn removed_by(
    before: crate::document::DocModel,
    origins: Seq<(int, int)>,
    deleted: Seq<String>,
    commit_index: CommitIndex,
    after: crate::document::DocModel,
) -> bool {
    exists|tokens: Seq<TokenLines>, items: Seq<(TrigramKey, Vec<WordKey>)>|
        tokens_cover(tokens, deleted, 0, deleted.len() as int, 0) && #[trigger] removal_items(
            items,
            tokens,
            keys_of(origins),
        ) && closed_model(removed_model(before, items), items, commit_index - 1) == after
}

/// The document after one hunk of a change to a file with the lines `lines`.
pub open spec fn hunk_document(
    before: crate::document::DocModel,
    lines: Option<Seq<(int, int)>>,
    commit_index: CommitIndex,
    hunk: GitDelta,
    after: crate::document::DocModel,
) -> bool {
    if hunk.prev_line_count > 0 {
        let at = hunk.prev_line_start_num - 1;
        let gone = hunk.deleted_lines@.len();
        lines matches Some(l) && exists|mid: crate::document::DocModel| #[trigger]
            removed_by(before, l.subrange(at, at + gone), hunk.deleted_lines@, commit_index, mid)
                && (if hunk.new_line_count > 0 {
                added_by(mid, hunk.added_lines@, hunk.new_line_start_num - 1, commit_index, after)
            } else {
                after == mid
            })
    } else if hunk.new_line_count > 0 {
        added_by(before, hunk.added_lines@, hunk.new_line_start_num - 1, commit_index, after)
    } else {
        after == before
    }
}

/// `docs[h]` is the document after the hunks from `h` on, the last hunk
/// first, of a change to a file that had the lines `lines`; behind the last
/// hunk stands the document before the change.
pub open spec fn documents_chain(
    docs: Seq<crate::document::DocModel>,
    lines: Option<Seq<(int, int)>>,
    commit_index: CommitIndex,
    hunks: Seq<GitDelta>,
    from: int,
) -> bool {
    &&& docs.len() == hunks.len() + 1
    &&& forall|h: int|
        from <= h < hunks.len() ==> #[trigger] chain_step(docs, lines, commit_index, hunks, h)
}

/// Hunk `h` makes `docs[h]` of `docs[h + 1]`.
pub open spec fn chain_step(
    docs: Seq<crate::document::DocModel>,
    lines: Option<Seq<(int, int)>>,
    commit_index: CommitIndex,
    hunks: Seq<GitDelta>,
    h: int,
) -> bool {
    hunks_applied(lines, commit_index, hunks, h + 1) matches Ok(now) && hunk_document(
        docs[h + 1],
        now,
        commit_index,
        hunks[h],
        docs[h],
    )
}

/// The document `after` is what the hunks, the last one first, make of the
/// document `before` of a file that had the lines `lines`.
pub open spec fn hunks_document(
    before: crate::document::DocModel,
    lines: Option<Seq<(int, int)>>,
    commit_index: CommitIndex,
    hunks: Seq<GitDelta>,
    after: crate::document::DocModel,
) -> bool {
    exists|docs: Seq<crate::document::DocModel>| #[trigger]
        documents_chain(docs, lines, commit_index, hunks, 0) && docs[hunks.len() as int] == before
            && docs[0] == after
}

/// A hunk that fails makes the whole change fail.
pub proof fn lemma_hunk_fails(
    lines: Option<Seq<(int, int)>>,
    commit_index: CommitIndex,
    hunks: Seq<GitDelta>,
    h: int,
)
    requires
        0 <= h <= hunks.len(),
        hunks_applied(lines, commit_index, hunks, h) is Err,
    ensures
        hunks_applied(lines, commit_index, hunks, 0) == hunks_applied(lines, commit_index, hunks, h),
    decreases h,
{
    if h > 0 {
        assert(hunks_applied(lines, commit_index, hunks, h - 1) == hunks_applied(
            lines,
            commit_index,
            hunks,
            h,
        ));
        lemma_hunk_fails(lines, commit_index, hunks, h - 1);
    }
}

/// The hunks of an added file: one hunk that starts at line one of the new
/// file and at no line of the old one.
pub open spec fn added_shape(hunks: Seq<GitDelta>) -> bool {
    hunks.len() == 1 && hunks[0].new_line_start_num == 1 && hunks[0].prev_line_start_num == 0
}

/// The hunks of a deleted file: one hunk with no lines in the new file.
pub open spec fn deleted_shape(hunks: Seq<GitDelta>) -> bool {
    hunks.len() == 1 && hunks[0].new_line_start_num == 0
}

/// Whether lines can be deleted: the commit has a predecessor and an index of
/// 32 bits, the file has lines, and the lines to delete are among them.
pub open spec fn deletion_verdict(
    commit_index: CommitIndex,
    delete_line_start: usize,
    count: nat,
    tracker: Option<FileDiffTracker>,
) -> Result<(), IndexError> {
    if commit_index == 0 || commit_index > u32::MAX {
        Err(IndexError::TooLarge)
    } else {
        match tracker {
            None => Err(IndexError::UnknownFile),
            Some(t) => if delete_line_start + count > t.total_lines() {
                Err(IndexError::LinesOutOfRange)
            } else {
                Ok(())
            },
        }
    }
}

/// Some token among the first `n` has the key word `w`.
pub open spec fn named(tokens: Seq<TokenLines>, n: int, w: u128) -> bool {
    exists|e: int| 0 <= e < n && (#[trigger] tokens[e]).key.word() == w
}

/// The numbers of an addition fit: the commit index into 32 bits, the line
/// numbers into the machine's word.
pub open spec fn lines_fit(
    commit_index: CommitIndex,
    new_line_start: usize,
    count: nat,
    tracker: Option<FileDiffTracker>,
) -> bool {
    &&& commit_index <= u32::MAX
    &&& new_line_start + count <= usize::MAX
    &&& (tracker matches Some(t) ==> t.total_lines() + count <= usize::MAX)
}

/// The lines of a file after an addition. A file without lines yet gets the
/// lines `0 ..` of the commit.
pub open spec fn lines_added(
    tracker: Option<FileDiffTracker>,
    commit_index: CommitIndex,
    prev_line_start: usize,
    new_line_start: usize,
    count: nat,
) -> Seq<(int, int)> {
    match tracker {
        Some(t) => {
            let at = if prev_line_start <= t.total_lines() {
                prev_line_start as int
            } else {
                t.total_lines()
            };
            t.lines().subrange(0, at) + commit_span(
                commit_index as int,
                new_line_start as int,
                count as int,
            ) + t.lines().subrange(at, t.total_lines())
        },
        None => commit_span(commit_index as int, 0, count as int),
    }
}

} // verus!
