//! The index as plain values, to be written out and read back: the commits,
//! the paths, and for each file what its document knows. Everything else of
//! an index follows from these.

use crate::bitmap::ascending;
use crate::bitmap::members;
use crate::document::word_set_of;
use crate::document::Document;
use crate::document::WordIndex;
use crate::git_index::GitIndex;
use crate::git_index::WordFiles;
use crate::git_indexer::IndexError;
use crate::keys::pairs;
use crate::keys::pairs_insert;
use crate::keys::pairs_list;
use crate::keys::pairs_new;
use crate::keys::KeyIndex;
use crate::keys::PairSet;
use crate::trigram_key::pack;
use crate::trigram_key::TrigramKey;
use roaring::RoaringBitmap;
use vstd::prelude::*;

verus! {

/// What a document knows of one trigram.
#[derive(Debug, Clone, PartialEq, Eq)]
pub struct StoredWord {
    /// The bytes of the trigram.
    pub key: Vec<u8>,
    /// The live introductions, as (commit, line).
    pub history: Vec<(usize, usize)>,
    /// The commits at which the file holds the trigram.
    pub commits: Vec<u32>,
}

#[derive(Debug, Clone, PartialEq, Eq)]
pub struct StoredDocument {
    pub words: Vec<StoredWord>,
    pub modified_commits: Vec<u32>,
    pub is_deleted: bool,
}

#[derive(Debug, Clone, PartialEq, Eq)]
pub struct StoredIndex {
    pub commit_index_to_commit_id: Vec<[u8; 20]>,
    pub file_id_to_path: Vec<String>,
    pub file_id_to_document: Vec<StoredDocument>,
}

/// The stored document says what the document knows: the same words, and of
/// each the same introductions and commits.
pub open spec fn document_stored(stored: StoredDocument, doc: Document) -> bool {
    &&& stored.is_deleted == doc.is_deleted
    &&& stored.modified_commits@.to_set() == doc.modified()
    &&& forall|k: int|
        0 <= k < stored.words@.len() ==> {
            let word = #[trigger] stored.words@[k];
            &&& word.key@.len() <= 12
            &&& doc.has_word(pack(word.key@) as u128)
            &&& word.history@.to_set() == doc.history_of(pack(word.key@) as u128)
            &&& word.commits@.to_set() == doc.commits_of(pack(word.key@) as u128)
        }
    &&& forall|w: u128|
        doc.has_word(w) ==> exists|k: int|
            0 <= k < stored.words@.len() && pack((#[trigger] stored.words@[k]).key@) as u128 == w
}

/// The stored index says what the index holds.
pub open spec fn index_stored(stored: StoredIndex, index: GitIndex) -> bool {
    &&& stored.commit_index_to_commit_id@ == index.commit_index_to_commit_id@
    &&& crate::matcher::strings_view(stored.file_id_to_path@) == crate::matcher::strings_view(
        index.file_id_to_path@,
    )
    &&& stored.file_id_to_document@.len() == index.file_id_to_document@.len()
    &&& forall|f: int|
        0 <= f < stored.file_id_to_document@.len() ==> document_stored(
            #[trigger] stored.file_id_to_document@[f],
            index.file_id_to_document@[f],
        )
}

/// Two documents that one stored document stands for know the same.
pub proof fn lemma_stored_document_unique(stored: StoredDocument, a: Document, b: Document)
    requires
        document_stored(stored, a),
        document_stored(stored, b),
    ensures
        a.is_deleted == b.is_deleted,
        a.modified() == b.modified(),
        forall|w: u128| a.has_word(w) <==> b.has_word(w),
        forall|w: u128| a.history_of(w) == b.history_of(w),
        forall|w: u128| a.commits_of(w) == b.commits_of(w),
{
    assert forall|w: u128| a.has_word(w) <==> b.has_word(w) by {
        if a.has_word(w) {
            let k = choose|k: int|
                0 <= k < stored.words@.len() && pack((#[trigger] stored.words@[k]).key@) as u128
                    == w;
        }
        if b.has_word(w) {
            let k = choose|k: int|
                0 <= k < stored.words@.len() && pack((#[trigger] stored.words@[k]).key@) as u128
                    == w;
        }
    }
    assert forall|w: u128| a.history_of(w) == b.history_of(w) && a.commits_of(w) == b.commits_of(
        w,
    ) by {
        if a.has_word(w) {
            let k = choose|k: int|
                0 <= k < stored.words@.len() && pack((#[trigger] stored.words@[k]).key@) as u128
                    == w;
            assert(b.has_word(w));
        } else {
            assert(!b.has_word(w));
        }
    }
}

/// Writing an index out and reading it back gives an index that holds the
/// same: two indexes that one stored index stands for have the same commits
/// and paths, and their documents know the same.
pub proof fn lemma_round_trip(stored: StoredIndex, a: GitIndex, b: GitIndex)
    requires
        index_stored(stored, a),
        index_stored(stored, b),
    ensures
        a.commit_index_to_commit_id@ == b.commit_index_to_commit_id@,
        crate::matcher::strings_view(a.file_id_to_path@) == crate::matcher::strings_view(
            b.file_id_to_path@,
        ),
        a.file_id_to_document@.len() == b.file_id_to_document@.len(),
        forall|f: int, w: u128|
            0 <= f < a.file_id_to_document@.len() ==> #[trigger] a.file_id_to_document@[f].commits_of(
                w,
            ) == b.file_id_to_document@[f].commits_of(w) && a.file_id_to_document@[f].has_word(w)
                == b.file_id_to_document@[f].has_word(w) && a.file_id_to_document@[f].history_of(
                w,
            ) == b.file_id_to_document@[f].history_of(w),
        forall|f: int|
            0 <= f < a.file_id_to_document@.len() ==> (#[trigger] a.file_id_to_document@[f]).modified()
                == b.file_id_to_document@[f].modified() && a.file_id_to_document@[f].is_deleted
                == b.file_id_to_document@[f].is_deleted,
{
    assert forall|f: int| 0 <= f < a.file_id_to_document@.len() implies {
        &&& (#[trigger] a.file_id_to_document@[f]).modified()
            == b.file_id_to_document@[f].modified()
        &&& a.file_id_to_document@[f].is_deleted == b.file_id_to_document@[f].is_deleted
        &&& forall|w: u128|
            a.file_id_to_document@[f].commits_of(w) == b.file_id_to_document@[f].commits_of(w)
                && a.file_id_to_document@[f].has_word(w) == b.file_id_to_document@[f].has_word(w)
                && a.file_id_to_document@[f].history_of(w)
                == b.file_id_to_document@[f].history_of(w)
    } by {
        assert(document_stored(stored.file_id_to_document@[f], a.file_id_to_document@[f]));
        assert(document_stored(stored.file_id_to_document@[f], b.file_id_to_document@[f]));
        lemma_stored_document_unique(
            stored.file_id_to_document@[f],
            a.file_id_to_document@[f],
            b.file_id_to_document@[f],
        );
    }
}

/// A bitmap of the given numbers.
pub fn bitmap_of(list: &Vec<u32>) -> (b: RoaringBitmap)
    ensures
        members(b) == list@.to_set(),
{
    let mut b = RoaringBitmap::new();
    let mut i: usize = 0;
    while i < list.len()
        invariant
            i <= list@.len(),
            members(b) == list@.take(i as int).to_set(),
        decreases list@.len() - i,
    {
        b.insert(list[i]);
        proof {
            let longer = list@.take(i + 1);
            let shorter = list@.take(i as int);
            assert(longer =~= shorter.push(list@[i as int]));
            assert forall|x: u32| longer.to_set().contains(x) <==> shorter.to_set().insert(
                list@[i as int],
            ).contains(x) by {
                if longer.contains(x) {
                    let k = choose|k: int| 0 <= k < longer.len() && longer[k] == x;
                    if k < i {
                        assert(shorter[k] == x);
                    }
                }
                if shorter.contains(x) {
                    let k = choose|k: int| 0 <= k < shorter.len() && shorter[k] == x;
                    assert(longer[k] == x);
                }
                if x == list@[i as int] {
                    assert(longer[i as int] == x);
                }
            }
            assert(longer.to_set() =~= shorter.to_set().insert(list@[i as int]));
        }
        i += 1;
    }
    proof {
        assert(list@.take(list@.len() as int) =~= list@);
    }
    b
}

/// A set of the given pairs.
pub fn pair_set_of(list: &Vec<(usize, usize)>) -> (s: PairSet)
    ensures
        pairs(s) == list@.to_set(),
{
    let mut s = pairs_new();
    let mut i: usize = 0;
    proof {
        assert(list@.take(0).to_set() =~= Set::<(usize, usize)>::empty());
    }
    while i < list.len()
        invariant
            i <= list@.len(),
            pairs(s) == list@.take(i as int).to_set(),
        decreases list@.len() - i,
    {
        pairs_insert(&mut s, list[i]);
        proof {
            let longer = list@.take(i + 1);
            let shorter = list@.take(i as int);
            assert(longer =~= shorter.push(list@[i as int]));
            assert forall|x: (usize, usize)|
                longer.to_set().contains(x) <==> shorter.to_set().insert(list@[i as int]).contains(
                    x,
                ) by {
                if longer.contains(x) {
                    let k = choose|k: int| 0 <= k < longer.len() && longer[k] == x;
                    if k < i {
                        assert(shorter[k] == x);
                    }
                }
                if shorter.contains(x) {
                    let k = choose|k: int| 0 <= k < shorter.len() && shorter[k] == x;
                    assert(longer[k] == x);
                }
                if x == list@[i as int] {
                    assert(longer[i as int] == x);
                }
            }
            assert(longer.to_set() =~= shorter.to_set().insert(list@[i as int]));
        }
        i += 1;
    }
    proof {
        assert(list@.take(list@.len() as int) =~= list@);
    }
    s
}

impl Document {
    /// The document as plain values.
    pub fn export(&self) -> (stored: StoredDocument)
        requires
            self.wf(),
        ensures
            document_stored(stored, *self),
            restorable(stored),
    {
        let mut words: Vec<StoredWord> = Vec::new();
        let mut e: usize = 0;
        while e < self.words.len()
            invariant
                e <= self.words@.len(),
                self.wf(),
                words@.len() == e,
                forall|k: int|
                    0 <= k < e ==> {
                        let word = #[trigger] words@[k];
                        &&& word.key@ == self.index.keys@[k]@
                        &&& word.history@.to_set() == pairs(self.words@[k].word_history)
                        &&& word.commits@.to_set() == members(self.words@[k].commit_inclutivity)
                    },
            decreases self.words@.len() - e,
        {
            words.push(
                StoredWord {
                    key: self.index.keys[e].to_bytes(),
                    history: pairs_list(&self.words[e].word_history),
                    commits: ascending(&self.words[e].commit_inclutivity),
                },
            );
            e += 1;
        }
        let stored = StoredDocument {
            words,
            modified_commits: ascending(&self.doc_modified_commits),
            is_deleted: self.is_deleted,
        };
        proof {
            assert forall|k: int| 0 <= k < stored.words@.len() implies {
                let word = #[trigger] stored.words@[k];
                &&& word.key@.len() <= 12
                &&& self.has_word(pack(word.key@) as u128)
                &&& word.history@.to_set() == self.history_of(pack(word.key@) as u128)
                &&& word.commits@.to_set() == self.commits_of(pack(word.key@) as u128)
            } by {
                assert(self.index.keys@[k].wf());
                assert(self.index.keys@[k].word() == pack(stored.words@[k].key@) as u128);
                assert(self.index.position(self.index.keys@[k].word()) == k);
            }
            assert forall|w: u128| self.has_word(w) implies exists|k: int|
                0 <= k < stored.words@.len() && pack((#[trigger] stored.words@[k]).key@) as u128
                    == w by {
                let k = self.index.position(w);
                assert(self.index.keys@[k].word() == w);
                assert(pack(stored.words@[k].key@) as u128 == w);
            }
        }
        proof {
            assert forall|k: int| 0 <= k < stored.words@.len() implies (
            #[trigger] stored.words@[k]).key@.len() <= 12 && stored.words@[k].commits@.len()
                > 0 by {
                let w = self.index.keys@[k].word();
                assert(self.index.keys@[k].wf());
                assert(self.has_word(w));
                self.lemma_word_has_commit(w);
                assert(stored.words@[k].commits@.to_set() == self.commits_of(w));
                if stored.words@[k].commits@.len() == 0 {
                    assert(stored.words@[k].commits@.to_set() =~= Set::<u32>::empty());
                }
            }
            assert forall|i: int, j: int| 0 <= i < j < stored.words@.len() implies (
            #[trigger] stored.words@[i]).key@ != (#[trigger] stored.words@[j]).key@ by {
                if stored.words@[i].key@ == stored.words@[j].key@ {
                    assert(self.index.keys@[i].word() == self.index.keys@[j].word());
                    assert(self.index.position(self.index.keys@[i].word()) == i);
                    assert(self.index.position(self.index.keys@[j].word()) == j);
                }
            }
        }
        stored
    }

    /// The document that the plain values stand for. They are refused when a
    /// trigram is longer than twelve bytes, is listed twice, or has no commit.
    pub fn restore(stored: &StoredDocument) -> (out: Option<Self>)
        ensures
            out is Some <==> restorable(*stored),
            out matches Some(doc) ==> doc.wf() && document_stored(*stored, doc)
                && crate::git_searcher::finished(&doc),
    {
        let mut index = KeyIndex::new();
        let mut words: Vec<WordIndex> = Vec::new();
        let mut e: usize = 0;
        while e < stored.words.len()
            invariant
                e <= stored.words@.len(),
                index.wf(),
                index.count() == e,
                words@.len() == e,
                forall|k: int|
                    0 <= k < e ==> {
                        let word = #[trigger] stored.words@[k];
                        &&& word.key@ == index.keys@[k]@
                        &&& word.history@.to_set() == pairs(words@[k].word_history)
                        &&& word.commits@.to_set() == members(words@[k].commit_inclutivity)
                        &&& word.commits@.len() > 0
                    },
                forall|i: int, j: int|
                    0 <= i < j < e ==> (#[trigger] stored.words@[i]).key@ != (
                    #[trigger] stored.words@[j]).key@,
            decreases stored.words@.len() - e,
        {
            let word = &stored.words[e];
            if word.key.len() > 12 || word.commits.len() == 0 {
                proof {
                    assert(stored.words@[e as int] == *word);
                    assert(!restorable(*stored));
                }
                return None;
            }
            let key = TrigramKey::from_bytes(word.key.as_slice());
            let ghost before = index;
            let (_, added) = index.find_or_add(key);
            if !added {
                proof {
                    // The key stands at an earlier place already.
                    let at = before.position(key.word());
                    assert(before.keys@[at].word() == key.word());
                    assert(before.keys@[at].wf());
                    crate::trigram_key::lemma_pack_differs(before.keys@[at]@, key@);
                    assert(stored.words@[at].key@ == stored.words@[e as int].key@);
                }
                return None;
            }
            proof {
                assert forall|i: int, j: int| 0 <= i < j < e + 1 implies (
                #[trigger] stored.words@[i]).key@ != (#[trigger] stored.words@[j]).key@ by {
                    if j == e {
                        assert(stored.words@[i].key@ == before.keys@[i]@);
                        assert(before.keys@[i].wf());
                        if before.keys@[i]@ == key@ {
                            assert(before.keys@[i].word() == key.word());
                            assert(before.words().contains(key.word()));
                        }
                    }
                }
            }
            words.push(
                WordIndex {
                    word_history: pair_set_of(&word.history),
                    commit_inclutivity: bitmap_of(&word.commits),
                },
            );
            e += 1;
        }
        proof {
            assert forall|k: int| 0 <= k < stored.words@.len() implies (
            #[trigger] stored.words@[k]).key@.len() <= 12 && stored.words@[k].commits@.len()
                > 0 by {
                assert(index.keys@[k].wf());
            }
            assert(restorable(*stored));
        }
        let all_words = word_set_of(&index.keys);
        let doc = Document {
            index,
            words,
            all_words: Some(all_words),
            doc_modified_commits: bitmap_of(&stored.modified_commits),
            is_deleted: stored.is_deleted,
        };
        proof {
            assert forall|w: u128| #[trigger] doc.model().contains_key(w) implies doc.model()[w].commits
                != Set::<u32>::empty() by {
                let k = doc.index.position(w);
                assert(stored.words@[k].commits@.to_set().contains(stored.words@[k].commits@[0]));
            }
            assert forall|k: int| 0 <= k < stored.words@.len() implies {
                let word = #[trigger] stored.words@[k];
                &&& word.key@.len() <= 12
                &&& doc.has_word(pack(word.key@) as u128)
                &&& word.history@.to_set() == doc.history_of(pack(word.key@) as u128)
                &&& word.commits@.to_set() == doc.commits_of(pack(word.key@) as u128)
            } by {
                assert(doc.index.keys@[k].wf());
                assert(doc.index.keys@[k].word() == pack(stored.words@[k].key@) as u128);
                assert(doc.index.position(doc.index.keys@[k].word()) == k);
            }
            assert forall|w: u128| doc.has_word(w) implies exists|k: int|
                0 <= k < stored.words@.len() && pack((#[trigger] stored.words@[k]).key@) as u128
                    == w by {
                let k = doc.index.position(w);
                assert(doc.index.keys@[k].word() == w);
                assert(pack(stored.words@[k].key@) as u128 == w);
            }
        }
        Some(doc)
    }
}


/// The files of each word after the documents below `f` and the first `k`
/// keys of document `f` were noted.
pub open spec fn files_noted(
    words: WordFiles,
    documents: Seq<Document>,
    f: int,
    keys: Seq<TrigramKey>,
    k: int,
) -> bool {
    forall|w: u128, g: u32|
        #[trigger] words.files_of(w).contains(g) <==> (g < f && documents[g as int].has_word(w)) || (
        g == f && exists|j: int| 0 <= j < k && (#[trigger] keys[j]).word() == w)
}

impl GitIndex {
    /// The index as plain values.
    pub fn export(&self) -> (stored: StoredIndex)
        requires
            self.wf(),
        ensures
            index_stored(stored, *self),
            index_restorable(stored),
    {
        let mut documents: Vec<StoredDocument> = Vec::new();
        let mut f: usize = 0;
        while f < self.file_id_to_document.len()
            invariant
                f <= self.file_id_to_document@.len(),
                self.wf(),
                documents@.len() == f,
                forall|g: int|
                    0 <= g < f ==> document_stored(
                        #[trigger] documents@[g],
                        self.file_id_to_document@[g],
                    ) && restorable(documents@[g]),
            decreases self.file_id_to_document@.len() - f,
        {
            documents.push(self.file_id_to_document[f].export());
            f += 1;
        }
        let mut commits: Vec<[u8; 20]> = Vec::new();
        let mut c: usize = 0;
        while c < self.commit_index_to_commit_id.len()
            invariant
                c <= self.commit_index_to_commit_id@.len(),
                commits@ == self.commit_index_to_commit_id@.take(c as int),
            decreases self.commit_index_to_commit_id@.len() - c,
        {
            commits.push(self.commit_index_to_commit_id[c]);
            proof {
                assert(commits@ =~= self.commit_index_to_commit_id@.take(c + 1));
            }
            c += 1;
        }
        proof {
            assert(commits@ =~= self.commit_index_to_commit_id@);
        }
        let paths = crate::git_searcher::clone_strings(&self.file_id_to_path);
        proof {
            assert(crate::matcher::strings_view(paths@).len() == paths@.len());
            assert(crate::matcher::strings_view(self.file_id_to_path@).len()
                == self.file_id_to_path@.len());
        }
        StoredIndex {
            commit_index_to_commit_id: commits,
            file_id_to_path: paths,
            file_id_to_document: documents,
        }
    }

    /// The index that the plain values stand for. They are refused when they
    /// do not list a document for every path, or a document is refused.
    pub fn restore(stored: StoredIndex) -> (out: Result<GitIndex, IndexError>)
        ensures
            out is Ok <==> index_restorable(stored),
            out matches Ok(index) ==> index.wf() && index_stored(stored, index),
            out matches Err(e) ==> e == IndexError::Malformed,
    {
        let count = stored.file_id_to_document.len();
        if stored.file_id_to_path.len() != count || count > u32::MAX as usize {
            return Err(IndexError::Malformed);
        }
        let mut documents: Vec<Document> = Vec::new();
        let mut words = WordFiles::new();
        let mut not_deleted_files_head = RoaringBitmap::new();
        let mut f: usize = 0;
        proof {
            assert(files_noted(words, documents@, 0, Seq::empty(), 0)) by {
                assert forall|w: u128, g: u32| !(#[trigger] words.files_of(w).contains(g)) by {
                    assert(!words.has_word(w));
                }
            }
        }
        while f < count
            invariant
                f <= count,
                count == stored.file_id_to_document@.len(),
                count <= u32::MAX,
                documents@.len() == f,
                words.wf(),
                forall|g: int|
                    0 <= g < f ==> restorable(#[trigger] stored.file_id_to_document@[g]),
                forall|g: int|
                    0 <= g < f ==> (#[trigger] documents@[g]).wf() && document_stored(
                        stored.file_id_to_document@[g],
                        documents@[g],
                    ) && crate::git_searcher::finished(&documents@[g]),
                files_noted(words, documents@, f as int, Seq::empty(), 0),
                forall|g: u32|
                    members(not_deleted_files_head).contains(g) <==> g < f
                        && !documents@[g as int].is_deleted,
            decreases count - f,
        {
            let doc = match Document::restore(&stored.file_id_to_document[f]) {
                Some(doc) => doc,
                None => {
                    return Err(IndexError::Malformed);
                },
            };
            let ghost before = documents@;
            let mut k: usize = 0;
            while k < doc.index.keys.len()
                invariant
                    k <= doc.index.keys@.len(),
                    doc.wf(),
                    f < count,
                    count <= u32::MAX,
                    before.len() == f,
                    words.wf(),
                    files_noted(words, before, f as int, doc.index.keys@, k as int),
                decreases doc.index.keys@.len() - k,
            {
                let ghost was = words;
                proof {
                    assert(doc.index.keys@[k as int].wf());
                }
                words.add(doc.index.keys[k], f as u32);
                proof {
                    let key_word = doc.index.keys@[k as int].word();
                    assert forall|w: u128, g: u32|
                        #[trigger] words.files_of(w).contains(g) <==> (g < f
                            && before[g as int].has_word(w)) || (g == f && exists|j: int|
                            0 <= j < k + 1 && (#[trigger] doc.index.keys@[j]).word() == w) by {
                        assert(was.files_of(w).contains(g) <==> (g < f && before[g as int].has_word(
                            w,
                        )) || (g == f && exists|j: int|
                            0 <= j < k && (#[trigger] doc.index.keys@[j]).word() == w));
                        if g == f && w == key_word {
                            assert(doc.index.keys@[k as int].word() == w);
                        }
                        if g == f && exists|j: int|
                            0 <= j < k && (#[trigger] doc.index.keys@[j]).word() == w {
                            let j = choose|j: int|
                                0 <= j < k && (#[trigger] doc.index.keys@[j]).word() == w;
                            assert(0 <= j < k + 1);
                        }
                        if g == f && exists|j: int|
                            0 <= j < k + 1 && (#[trigger] doc.index.keys@[j]).word() == w {
                            let j = choose|j: int|
                                0 <= j < k + 1 && (#[trigger] doc.index.keys@[j]).word() == w;
                            if j < k {
                            } else {
                                assert(w == key_word);
                            }
                        }
                    }
                }
                k += 1;
            }
            if !doc.is_deleted {
                not_deleted_files_head.insert(f as u32);
            }
            documents.push(doc);
            proof {
                assert forall|w: u128, g: u32|
                    #[trigger] words.files_of(w).contains(g) <==> (g < f + 1
                        && documents@[g as int].has_word(w)) || (g == f + 1 && exists|j: int|
                        0 <= j < 0 && (#[trigger] Seq::<TrigramKey>::empty()[j]).word() == w) by {
                    if g < f {
                        assert(documents@[g as int] == before[g as int]);
                    }
                    if g == f {
                        if doc.has_word(w) {
                            let j = doc.index.position(w);
                            assert(doc.index.keys@[j].word() == w);
                        }
                        if exists|j: int|
                            0 <= j < doc.index.keys@.len() && (#[trigger] doc.index.keys@[j]).word()
                                == w {
                            let j = choose|j: int|
                                0 <= j < doc.index.keys@.len() && (
                                #[trigger] doc.index.keys@[j]).word() == w;
                            assert(doc.has_word(w));
                        }
                    }
                }
            }
            f += 1;
        }
        let all_words = word_set_of(&words.index.keys);
        let index = GitIndex {
            commit_index_to_commit_id: stored.commit_index_to_commit_id,
            file_id_to_path: stored.file_id_to_path,
            file_id_to_document: documents,
            word_to_file_id_ever_contained: words,
            not_deleted_files_head,
            all_words,
        };
        proof {
            assert forall|w: u128, g: u32|
                #[trigger] index.word_to_file_id_ever_contained.files_of(w).contains(g) <==> g
                    < index.file_id_to_document@.len() && index.file_id_to_document@[g as int].has_word(
                    w,
                ) by {}
        }
        Ok(index)
    }
}

/// The stored index can be taken back: it lists a document for every path,
/// no more than fit a file id, and every document can be taken back.
pub open spec fn index_restorable(stored: StoredIndex) -> bool {
    &&& stored.file_id_to_path@.len() == stored.file_id_to_document@.len()
    &&& stored.file_id_to_document@.len() <= u32::MAX
    &&& forall|f: int|
        0 <= f < stored.file_id_to_document@.len() ==> restorable(
            #[trigger] stored.file_id_to_document@[f],
        )
}

/// The stored document can be taken back: no trigram is longer than twelve
/// bytes, each has a commit, and none is listed twice.
pub open spec fn restorable(stored: StoredDocument) -> bool {
    &&& forall|k: int|
        0 <= k < stored.words@.len() ==> (#[trigger] stored.words@[k]).key@.len() <= 12
            && stored.words@[k].commits@.len() > 0
    &&& forall|i: int, j: int|
        0 <= i < j < stored.words@.len() ==> (#[trigger] stored.words@[i]).key@ != (
        #[trigger] stored.words@[j]).key@
}

} // verus!
