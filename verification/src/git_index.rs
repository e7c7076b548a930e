//! The index of a whole repository: the commits, the files, a document per
//! file, and for every trigram the files that ever held it.

use crate::bitmap::members;
use crate::diff::CommitIndex;
use crate::document::key_tokens;
use crate::document::word_set_of;
use crate::document::finalized_model;
use crate::document::Document;
use crate::git_indexer::GitIndexer;
use crate::git_indexer::IndexError;
use crate::keys::KeyIndex;
use crate::trigram_key::TrigramKey;
use crate::words::fst_keys;
use crate::words::WordSet;
use roaring::RoaringBitmap;
use vstd::prelude::*;

verus! {

/// For every trigram, the ids of the files that ever held it.
pub struct WordFiles {
    pub index: KeyIndex,
    /// The files of each key, by the key's position in `index`.
    pub files: Vec<RoaringBitmap>,
}

impl WordFiles {
    pub open spec fn wf(&self) -> bool {
        &&& self.index.wf()
        &&& self.files@.len() == self.index.count()
    }

    pub open spec fn has_word(&self, w: u128) -> bool {
        self.index.words().contains(w)
    }

    /// The files that ever held the word.
    pub open spec fn files_of(&self, w: u128) -> Set<u32> {
        if self.index.words().contains(w) {
            members(self.files@[self.index.position(w)])
        } else {
            Set::empty()
        }
    }

    pub fn new() -> (out: Self)
        ensures
            out.wf(),
            forall|w: u128| !out.has_word(w),
    {
        Self { index: KeyIndex::new(), files: Vec::new() }
    }

    /// The files of a word, if the word is known.
    pub fn get(&self, key: &TrigramKey) -> (found: Option<&RoaringBitmap>)
        requires
            self.wf(),
            key.wf(),
        ensures
            match found {
                Some(b) => self.has_word(key.word()) && members(*b) == self.files_of(key.word()),
                None => !self.has_word(key.word()),
            },
    {
        match self.index.find(key) {
            Some(pos) => Some(&self.files[pos]),
            None => None,
        }
    }

    /// Records that file `file_id` holds the word of `key`.
    pub fn add(&mut self, key: TrigramKey, file_id: u32)
        requires
            old(self).wf(),
            key.wf(),
        ensures
            final(self).wf(),
            forall|w: u128|
                final(self).has_word(w) <==> old(self).has_word(w) || w == key.word(),
            forall|w: u128|
                #[trigger] final(self).files_of(w) == (if w == key.word() {
                    old(self).files_of(w).insert(file_id)
                } else {
                    old(self).files_of(w)
                }),
    {
        let ghost before = *self;
        let (pos, added) = self.index.find_or_add(key);
        if added {
            self.files.push(RoaringBitmap::new());
        }
        let ghost mid = *self;
        self.files[pos].insert(file_id);
        proof {
            assert forall|w: u128|
                #[trigger] self.files_of(w) == (if w == key.word() {
                    before.files_of(w).insert(file_id)
                } else {
                    before.files_of(w)
                }) by {
                if w == key.word() {
                    if added {
                        assert(before.files_of(w) =~= Set::<u32>::empty());
                    }
                } else if before.has_word(w) {
                    let p = before.index.position(w);
                    assert(self.index.position(w) == p);
                    assert(before.index.keys@[p].word() == w);
                    assert(self.index.keys@[pos as int].word() == key.word());
                    assert(p != pos);
                    assert(self.files@[p] == mid.files@[p]);
                }
            }
        }
    }
}

/// Whether two commit hashes are the same.
pub fn same_hash(a: &[u8; 20], b: &[u8; 20]) -> (same: bool)
    ensures
        same == (a@ == b@),
{
    let mut i: usize = 0;
    while i < 20
        invariant
            i <= 20,
            forall|k: int| 0 <= k < i ==> a@[k] == b@[k],
        decreases 20 - i,
    {
        if a[i] != b[i] {
            return false;
        }
        i += 1;
    }
    proof {
        assert(a@ =~= b@);
    }
    true
}

/// The finished index.
pub struct GitIndex {
    pub commit_index_to_commit_id: Vec<[u8; 20]>,
    pub file_id_to_path: Vec<String>,
    pub file_id_to_document: Vec<Document>,
    pub word_to_file_id_ever_contained: WordFiles,
    /// Files that are not deleted at HEAD.
    pub not_deleted_files_head: RoaringBitmap,
    pub all_words: WordSet,
}

/// Every document is finished: it is well formed and has the set of its
/// trigrams.
pub open spec fn documents_finished(documents: Seq<Document>) -> bool {
    forall|f: int|
        0 <= f < documents.len() ==> (#[trigger] documents[f]).wf() && (documents[f].all_words matches Some(
            set,
        ) && fst_keys(set) == key_tokens(documents[f].index.keys@))
}

/// A trigram lists exactly the files whose document holds it.
pub open spec fn files_match(words: WordFiles, documents: Seq<Document>) -> bool {
    forall|w: u128, f: u32|
        #[trigger] words.files_of(w).contains(f) <==> f < documents.len()
            && documents[f as int].has_word(w)
}

impl GitIndex {
    pub open spec fn wf(&self) -> bool {
        &&& self.file_id_to_path@.len() == self.file_id_to_document@.len()
        &&& self.file_id_to_document@.len() <= u32::MAX
        &&& self.word_to_file_id_ever_contained.wf()
        &&& documents_finished(self.file_id_to_document@)
        &&& files_match(self.word_to_file_id_ever_contained, self.file_id_to_document@)
        &&& fst_keys(self.all_words) == key_tokens(self.word_to_file_id_ever_contained.index.keys@)
        &&& forall|f: u32|
            members(self.not_deleted_files_head).contains(f) <==> f
                < self.file_id_to_document@.len() && !self.file_id_to_document@[f as int].is_deleted
    }

    /// The files that ever held the word.
    pub open spec fn files_of(&self, w: u128) -> Set<u32> {
        self.word_to_file_id_ever_contained.files_of(w)
    }

    /// The index of the commit with the given hash: the first position that
    /// holds it.
    pub fn commit_index_of(&self, commit_id: &[u8; 20]) -> (found: Option<CommitIndex>)
        ensures
            match found {
                Some(i) => i < self.commit_index_to_commit_id@.len()
                    && self.commit_index_to_commit_id@[i as int]@ == commit_id@ && forall|k: int|
                    0 <= k < i ==> self.commit_index_to_commit_id@[k]@ != commit_id@,
                None => forall|k: int|
                    0 <= k < self.commit_index_to_commit_id@.len()
                        ==> self.commit_index_to_commit_id@[k]@ != commit_id@,
            },
    {
        let mut i: usize = 0;
        while i < self.commit_index_to_commit_id.len()
            invariant
                i <= self.commit_index_to_commit_id@.len(),
                forall|k: int| 0 <= k < i ==> self.commit_index_to_commit_id@[k]@ != commit_id@,
            decreases self.commit_index_to_commit_id@.len() - i,
        {
            if same_hash(&self.commit_index_to_commit_id[i], commit_id) {
                return Some(i);
            }
            i += 1;
        }
        None
    }

    /// Builds the finished index: every document is completed up to the head
    /// commit, which is the last commit that the indexer has seen, and the
    /// set of all trigrams is built.
    pub fn build(indexer: GitIndexer) -> (out: Result<GitIndex, IndexError>)
        requires
            indexer.wf(),
        ensures
            out is Err <==> indexer.commit_index_to_commit_id@.len() > u32::MAX,
            out matches Err(e) ==> e == IndexError::TooLarge,
            out matches Ok(index) ==> {
                &&& index.wf()
                &&& index.commit_index_to_commit_id == indexer.commit_index_to_commit_id
                &&& index.file_id_to_path == indexer.files.paths
                &&& index.file_id_to_document@.len() == indexer.file_id_to_document@.len()
                &&& forall|w: u128|
                    index.files_of(w) == indexer.word_to_file_id_ever_contained.files_of(w)
                &&& forall|f: int|
                    0 <= f < index.file_id_to_document@.len() ==> (
                    #[trigger] index.file_id_to_document@[f]).model() == finalized_model(
                        indexer.file_id_to_document@[f].model(),
                        head_of(indexer.commit_index_to_commit_id@.len()),
                    ) && index.file_id_to_document@[f].is_deleted
                        == indexer.file_id_to_document@[f].is_deleted
                        && index.file_id_to_document@[f].modified()
                        == indexer.file_id_to_document@[f].modified()
            },
    {
        if indexer.commit_index_to_commit_id.len() > u32::MAX as usize {
            return Err(IndexError::TooLarge);
        }
        let head: usize = if indexer.commit_index_to_commit_id.len() == 0 {
            0
        } else {
            indexer.commit_index_to_commit_id.len() - 1
        };
        let ghost before = indexer;
        let mut indexer = indexer;
        let mut not_deleted_files_head = RoaringBitmap::new();
        let mut f: usize = 0;
        while f < indexer.file_id_to_document.len()
            invariant
                f <= indexer.file_id_to_document@.len(),
                before.wf(),
                head == head_of(before.commit_index_to_commit_id@.len()),
                head < u32::MAX,
                indexer.commit_index_to_commit_id == before.commit_index_to_commit_id,
                indexer.files == before.files,
                indexer.word_to_file_id_ever_contained == before.word_to_file_id_ever_contained,
                indexer.file_id_to_document@.len() == before.file_id_to_document@.len(),
                forall|k: int|
                    f <= k < indexer.file_id_to_document@.len()
                        ==> indexer.file_id_to_document@[k] == before.file_id_to_document@[k],
                forall|k: int|
                    0 <= k < f ==> {
                        let doc = #[trigger] indexer.file_id_to_document@[k];
                        let was = before.file_id_to_document@[k];
                        &&& doc.wf()
                        &&& doc.index == was.index
                        &&& doc.model() == finalized_model(was.model(), head as u32)
                        &&& doc.is_deleted == was.is_deleted
                        &&& doc.modified() == was.modified()
                        &&& (doc.all_words matches Some(set) && fst_keys(set) == key_tokens(
                            doc.index.keys@,
                        ))
                    },
                forall|k: u32|
                    members(not_deleted_files_head).contains(k) <==> k < f
                        && !before.file_id_to_document@[k as int].is_deleted,
            decreases indexer.file_id_to_document@.len() - f,
        {
            indexer.file_id_to_document[f].finalize(head);
            if !indexer.file_id_to_document[f].is_deleted {
                not_deleted_files_head.insert(f as u32);
            }
            f += 1;
        }
        let all_words = word_set_of(&indexer.word_to_file_id_ever_contained.index.keys);
        let index = GitIndex {
            commit_index_to_commit_id: indexer.commit_index_to_commit_id,
            file_id_to_path: indexer.files.paths,
            file_id_to_document: indexer.file_id_to_document,
            word_to_file_id_ever_contained: indexer.word_to_file_id_ever_contained,
            not_deleted_files_head,
            all_words,
        };
        proof {
            let docs = index.file_id_to_document@;
            let old_docs = before.file_id_to_document@;
            assert forall|w: u128, k: u32|
                #[trigger] index.word_to_file_id_ever_contained.files_of(w).contains(k) <==> k
                    < docs.len() && docs[k as int].has_word(w) by {
                assert(before.word_to_file_id_ever_contained.files_of(w).contains(k) <==> k
                    < old_docs.len() && old_docs[k as int].has_word(w));
                if k < docs.len() {
                    assert(docs[k as int].index == old_docs[k as int].index);
                }
            }
        }
        Ok(index)
    }
}

/// The index of the head commit among `count` commits.
pub open spec fn head_of(count: nat) -> u32 {
    if count == 0 {
        0
    } else {
        (count - 1) as u32
    }
}

} // verus!
