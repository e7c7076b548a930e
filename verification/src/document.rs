//! The per-file index: for every trigram that the file ever held, the live
//! introductions of the trigram and the commits at which the file holds it.

use crate::bitmap::insert_range;
use crate::bitmap::members;
use crate::diff::CommitIndex;
use crate::keys::pairs;
use crate::keys::pairs_clear;
use crate::keys::pairs_insert;
use crate::keys::pairs_is_empty;
use crate::keys::pairs_new;
use crate::keys::pairs_remove;
use crate::keys::KeyIndex;
use crate::keys::PairSet;
use crate::tokenizer::TokenLines;
use crate::trigram_key::TrigramKey;
use crate::words::build_word_set;
use crate::words::fst_keys;
use crate::words::sort_tokens;
use crate::words::tokens_view;
use crate::words::WordSet;
use roaring::RoaringBitmap;
use vstd::prelude::*;

verus! {

#[derive(Debug, Eq, Hash, PartialEq, Clone, Copy)]
pub struct WordKey {
    pub commit_id: CommitIndex,
    /// Line within the commit when the word was first introduced.
    pub line: usize,
}

pub struct WordIndex {
    /// The (commit, line) pairs that introduced the word and are still alive.
    pub word_history: PairSet,
    /// Whether the specific word is included in a given commit.
    pub commit_inclutivity: RoaringBitmap,
}

pub struct Document {
    pub index: KeyIndex,
    /// The word index of each key, by the key's position in `index`.
    pub words: Vec<WordIndex>,
    pub all_words: Option<WordSet>,
    pub doc_modified_commits: RoaringBitmap,
    pub is_deleted: bool,
}

/// What a document knows of one trigram.
pub struct WordModel {
    pub history: Set<(usize, usize)>,
    pub commits: Set<u32>,
}

pub type DocModel = Map<u128, WordModel>;

pub open spec fn history_in(m: DocModel, w: u128) -> Set<(usize, usize)> {
    if m.contains_key(w) {
        m[w].history
    } else {
        Set::empty()
    }
}

pub open spec fn commits_in(m: DocModel, w: u128) -> Set<u32> {
    if m.contains_key(w) {
        m[w].commits
    } else {
        Set::empty()
    }
}

/// `t` is the greatest member of `s`.
pub open spec fn is_top(s: Set<u32>, t: u32) -> bool {
    s.contains(t) && forall|x: u32| s.contains(x) ==> x <= t
}

/// `s` and every commit from its greatest member up to, not including, `end`.
pub open spec fn filled(s: Set<u32>, end: int) -> Set<u32> {
    Set::new(|b: u32| s.contains(b) || exists|t: u32| is_top(s, t) && t <= b && b < end)
}

/// The lines `lines` of commit `c`, as introductions.
pub open spec fn introduced(c: usize, lines: Seq<usize>) -> Set<(usize, usize)> {
    Set::new(|p: (usize, usize)| p.0 == c && lines.contains(p.1))
}

/// The model after the word `w` was introduced on `lines` by commit `c`.
pub open spec fn with_lines(m: DocModel, w: u128, c: usize, lines: Seq<usize>) -> DocModel {
    m.insert(
        w,
        WordModel {
            history: history_in(m, w).union(introduced(c, lines)),
            commits: commits_in(m, w).insert(c as u32),
        },
    )
}

/// The model after commit `c` introduced `words`.
pub open spec fn added_model(m: DocModel, words: Seq<TokenLines>, c: usize) -> DocModel
    decreases words.len(),
{
    if words.len() == 0 {
        m
    } else {
        with_lines(
            added_model(m, words.drop_last(), c),
            words.last().key.word(),
            c,
            words.last().lines@,
        )
    }
}

pub open spec fn keys_set(keys: Seq<WordKey>) -> Set<(usize, usize)> {
    Set::new(
        |p: (usize, usize)|
            exists|i: int| 0 <= i < keys.len() && (#[trigger] keys[i]).commit_id == p.0 && keys[i].line == p.1,
    )
}

/// The model after the introductions `keys` of word `w` ended.
pub open spec fn without_keys(m: DocModel, w: u128, keys: Seq<WordKey>) -> DocModel {
    if m.contains_key(w) {
        m.insert(
            w,
            WordModel { history: m[w].history.difference(keys_set(keys)), commits: m[w].commits },
        )
    } else {
        m
    }
}

pub open spec fn removed_model(m: DocModel, items: Seq<(TrigramKey, Vec<WordKey>)>) -> DocModel
    decreases items.len(),
{
    if items.len() == 0 {
        m
    } else {
        without_keys(removed_model(m, items.drop_last()), items.last().0.word(), items.last().1@)
    }
}

/// The model after the run of word `w` was closed before `end`, which happens
/// only when no introduction of `w` is alive.
pub open spec fn run_closed(m: DocModel, w: u128, end: int) -> DocModel {
    if m.contains_key(w) && m[w].history == Set::<(usize, usize)>::empty() {
        m.insert(w, WordModel { history: m[w].history, commits: filled(m[w].commits, end) })
    } else {
        m
    }
}

pub open spec fn closed_model(m: DocModel, items: Seq<(TrigramKey, Vec<WordKey>)>, end: int) -> DocModel
    decreases items.len(),
{
    if items.len() == 0 {
        m
    } else {
        run_closed(closed_model(m, items.drop_last(), end), items.last().0.word(), end)
    }
}

/// The model after the file was deleted: every live run is closed before
/// `end` and no introduction stays alive.
pub open spec fn deleted_model(m: DocModel, end: int) -> DocModel {
    Map::new(
        |w: u128| m.contains_key(w),
        |w: u128|
            if m[w].history == Set::<(usize, usize)>::empty() {
                m[w]
            } else {
                WordModel { history: Set::empty(), commits: filled(m[w].commits, end) }
            },
    )
}

/// The model at the head commit: every run that is still alive reaches it.
pub open spec fn finalized_model(m: DocModel, head: u32) -> DocModel {
    Map::new(
        |w: u128| m.contains_key(w),
        |w: u128|
            if m[w].commits.contains(head) || m[w].history == Set::<(usize, usize)>::empty() {
                m[w]
            } else {
                WordModel { history: m[w].history, commits: filled(m[w].commits, head + 1) }
            },
    )
}

/// The byte strings of the keys.
pub open spec fn key_tokens(keys: Seq<TrigramKey>) -> Set<Seq<u8>> {
    Set::new(|t: Seq<u8>| exists|e: int| 0 <= e < keys.len() && (#[trigger] keys[e])@ == t)
}

/// The sorted set of the byte strings of `keys`.
pub fn word_set_of(keys: &Vec<TrigramKey>) -> (set: WordSet)
    requires
        forall|e: int| 0 <= e < keys@.len() ==> (#[trigger] keys@[e]).wf(),
    ensures
        fst_keys(set) == key_tokens(keys@),
{
    let mut tokens: Vec<Vec<u8>> = Vec::new();
    let mut e: usize = 0;
    while e < keys.len()
        invariant
            e <= keys@.len(),
            forall|e: int| 0 <= e < keys@.len() ==> (#[trigger] keys@[e]).wf(),
            tokens@.len() == e,
            forall|i: int| 0 <= i < e ==> (#[trigger] tokens@[i])@ == keys@[i]@,
        decreases keys@.len() - e,
    {
        tokens.push(keys[e].to_bytes());
        e += 1;
    }
    let ghost unsorted = tokens_view(tokens@);
    sort_tokens(&mut tokens);
    let ghost sorted = tokens_view(tokens@);
    proof {
        unsorted.to_multiset_ensures();
        sorted.to_multiset_ensures();
        assert forall|t: Seq<u8>| sorted.to_set().contains(t) <==> key_tokens(keys@).contains(t) by {
            if sorted.contains(t) {
                assert(unsorted.to_multiset().count(t) > 0);
                assert(unsorted.contains(t));
                let i = choose|i: int| 0 <= i < unsorted.len() && unsorted[i] == t;
                assert(keys@[i]@ == t);
            }
            if key_tokens(keys@).contains(t) {
                let i = choose|i: int| 0 <= i < keys@.len() && (#[trigger] keys@[i])@ == t;
                assert(unsorted[i] == t);
                assert(unsorted.contains(t));
                assert(sorted.to_multiset().count(t) > 0);
            }
        }
        assert(sorted.to_set() =~= key_tokens(keys@));
    }
    match build_word_set(&tokens) {
        Some(set) => set,
        None => {
            proof {
                assert(false);
            }
            vstd::pervasive::unreached()
        },
    }
}

/// Every commit of every word lies between `lo` and `hi`.
pub open spec fn model_within(m: DocModel, lo: int, hi: int) -> bool {
    forall|w: u128, b: u32| m.contains_key(w) && #[trigger] m[w].commits.contains(b) ==> lo <= b <= hi
}

/// Every word of the model has a commit.
pub open spec fn model_wf(m: DocModel) -> bool {
    forall|w: u128| #[trigger] m.contains_key(w) ==> m[w].commits != Set::<u32>::empty()
}

pub proof fn lemma_filled(s: Set<u32>, t: u32, end: int)
    requires
        is_top(s, t),
    ensures
        filled(s, end) == s.union(Set::new(|x: u32| t <= x < end)),
        forall|b: u32| filled(s, end).contains(b) ==> s.contains(b) || (t <= b && b < end),
{
    assert forall|b: u32| filled(s, end).contains(b) <==> s.union(
        Set::new(|x: u32| t <= x < end),
    ).contains(b) by {
        if exists|u: u32| is_top(s, u) && u <= b && b < end {
            let u = choose|u: u32| is_top(s, u) && u <= b && b < end;
            assert(u == t);
        }
    }
    assert(filled(s, end) =~= s.union(Set::new(|x: u32| t <= x < end)));
}

/// Filling a run up to a commit inside the bounds keeps every commit inside.
pub proof fn lemma_filled_within(s: Set<u32>, end: int, lo: int, hi: int)
    requires
        forall|b: u32| s.contains(b) ==> lo <= b <= hi,
        end <= hi + 1,
    ensures
        forall|b: u32| filled(s, end).contains(b) ==> lo <= b <= hi,
{
    assert forall|b: u32| filled(s, end).contains(b) implies lo <= b <= hi by {
        if !s.contains(b) {
            let t = choose|t: u32| is_top(s, t) && t <= b && b < end;
            assert(s.contains(t));
        }
    }
}

pub proof fn lemma_removed_within(m: DocModel, items: Seq<(TrigramKey, Vec<WordKey>)>, lo: int, hi: int)
    requires
        model_within(m, lo, hi),
    ensures
        model_within(removed_model(m, items), lo, hi),
        forall|w: u128| removed_model(m, items).contains_key(w) <==> m.contains_key(w),
    decreases items.len(),
{
    if items.len() > 0 {
        lemma_removed_within(m, items.drop_last(), lo, hi);
        let prev = removed_model(m, items.drop_last());
        let next = removed_model(m, items);
        assert forall|w: u128, b: u32|
            next.contains_key(w) && #[trigger] next[w].commits.contains(b) implies lo <= b <= hi by {
            assert(prev.contains_key(w) && prev[w].commits.contains(b));
        }
    }
}

pub proof fn lemma_closed_within(
    m: DocModel,
    items: Seq<(TrigramKey, Vec<WordKey>)>,
    end: int,
    lo: int,
    hi: int,
)
    requires
        model_within(m, lo, hi),
        end <= hi + 1,
    ensures
        model_within(closed_model(m, items, end), lo, hi),
    decreases items.len(),
{
    if items.len() > 0 {
        lemma_closed_within(m, items.drop_last(), end, lo, hi);
        let prev = closed_model(m, items.drop_last(), end);
        let next = closed_model(m, items, end);
        let w0 = items.last().0.word();
        assert forall|w: u128, b: u32|
            next.contains_key(w) && #[trigger] next[w].commits.contains(b) implies lo <= b <= hi by {
            if w == w0 && prev.contains_key(w) && prev[w].history == Set::<(usize, usize)>::empty() {
                assert forall|x: u32| prev[w].commits.contains(x) implies lo <= x <= hi by {}
                lemma_filled_within(prev[w].commits, end, lo, hi);
            } else {
                assert(prev.contains_key(w) && prev[w].commits.contains(b));
            }
        }
    }
}

pub proof fn lemma_deleted_within(m: DocModel, end: int, lo: int, hi: int)
    requires
        model_within(m, lo, hi),
        end <= hi + 1,
    ensures
        model_within(deleted_model(m, end), lo, hi),
{
    let next = deleted_model(m, end);
    assert forall|w: u128, b: u32|
        next.contains_key(w) && #[trigger] next[w].commits.contains(b) implies lo <= b <= hi by {
        assert forall|x: u32| m[w].commits.contains(x) implies lo <= x <= hi by {}
        lemma_filled_within(m[w].commits, end, lo, hi);
    }
}

pub proof fn lemma_finalized_within(m: DocModel, head: u32, lo: int, hi: int)
    requires
        model_within(m, lo, hi),
        head <= hi,
    ensures
        model_within(finalized_model(m, head), lo, hi),
{
    let next = finalized_model(m, head);
    assert forall|w: u128, b: u32|
        next.contains_key(w) && #[trigger] next[w].commits.contains(b) implies lo <= b <= hi by {
        assert forall|x: u32| m[w].commits.contains(x) implies lo <= x <= hi by {}
        lemma_filled_within(m[w].commits, head + 1, lo, hi);
    }
}

/// The words of the model after an addition: those it had and those of the
/// added tokens.
pub proof fn lemma_added_words(m: DocModel, words: Seq<TokenLines>, c: usize)
    ensures
        forall|w: u128|
            added_model(m, words, c).contains_key(w) <==> m.contains_key(w) || exists|e: int|
                0 <= e < words.len() && (#[trigger] words[e]).key.word() == w,
    decreases words.len(),
{
    if words.len() > 0 {
        let shorter = words.drop_last();
        lemma_added_words(m, shorter, c);
        let prev = added_model(m, shorter, c);
        assert(added_model(m, words, c) == with_lines(
            prev,
            words.last().key.word(),
            c,
            words.last().lines@,
        ));
        assert forall|w: u128|
            added_model(m, words, c).contains_key(w) <==> m.contains_key(w) || exists|e: int|
                0 <= e < words.len() && (#[trigger] words[e]).key.word() == w by {
            assert(added_model(m, words, c).contains_key(w) <==> prev.contains_key(w) || w
                == words.last().key.word());
            if m.contains_key(w) {
                assert(prev.contains_key(w));
            }
            if added_model(m, words, c).contains_key(w) && !m.contains_key(w) {
                if w == words.last().key.word() {
                    assert(words[words.len() - 1].key.word() == w);
                } else {
                    let e = choose|e: int|
                        0 <= e < shorter.len() && (#[trigger] shorter[e]).key.word() == w;
                    assert(words[e].key.word() == w);
                }
            }
            if exists|e: int| 0 <= e < words.len() && (#[trigger] words[e]).key.word() == w {
                let e = choose|e: int| 0 <= e < words.len() && (#[trigger] words[e]).key.word() == w;
                if e < shorter.len() {
                    assert(shorter[e].key.word() == w);
                    assert(prev.contains_key(w));
                }
            }
        }
    }
}

/// Ending introductions and closing runs changes no word into another: the
/// model keeps its words.
pub proof fn lemma_removed_words(m: DocModel, items: Seq<(TrigramKey, Vec<WordKey>)>, end: int)
    ensures
        forall|w: u128| removed_model(m, items).contains_key(w) <==> m.contains_key(w),
        forall|w: u128| closed_model(m, items, end).contains_key(w) <==> m.contains_key(w),
    decreases items.len(),
{
    if items.len() > 0 {
        lemma_removed_words(m, items.drop_last(), end);
    }
}

impl WordIndex {
    pub open spec fn model(&self) -> WordModel {
        WordModel { history: pairs(self.word_history), commits: members(self.commit_inclutivity) }
    }
}

impl Document {
    pub open spec fn wf(&self) -> bool {
        &&& self.index.wf()
        &&& self.words@.len() == self.index.count()
        &&& model_wf(self.model())
    }

    /// For every trigram of the document, its live introductions and the
    /// commits at which the file holds it.
    pub open spec fn model(&self) -> DocModel {
        Map::new(
            |w: u128| self.index.words().contains(w),
            |w: u128| self.words@[self.index.position(w)].model(),
        )
    }

    pub open spec fn has_word(&self, w: u128) -> bool {
        self.model().contains_key(w)
    }

    /// The live introductions of the word.
    pub open spec fn history_of(&self, w: u128) -> Set<(usize, usize)> {
        history_in(self.model(), w)
    }

    /// The commits at which the file holds the word.
    pub open spec fn commits_of(&self, w: u128) -> Set<u32> {
        commits_in(self.model(), w)
    }

    /// The commits that changed the file.
    pub open spec fn modified(&self) -> Set<u32> {
        members(self.doc_modified_commits)
    }

    /// Every commit of every word, and every commit that changed the file,
    /// lies between `lo` and `hi`.
    pub open spec fn within(&self, lo: int, hi: int) -> bool {
        &&& model_within(self.model(), lo, hi)
        &&& forall|b: u32| self.modified().contains(b) ==> lo <= b <= hi
    }

    pub fn new() -> (doc: Self)
        ensures
            doc.wf(),
            doc.model() == Map::<u128, WordModel>::empty(),
            doc.modified() == Set::<u32>::empty(),
            doc.all_words is None,
            !doc.is_deleted,
    {
        let doc = Self {
            index: KeyIndex::new(),
            words: Vec::new(),
            all_words: None,
            doc_modified_commits: RoaringBitmap::new(),
            is_deleted: false,
        };
        proof {
            assert(doc.model() =~= Map::<u128, WordModel>::empty());
        }
        doc
    }

    /// A document holds a trigram exactly when it holds it at some commit.
    pub proof fn lemma_word_has_commit(&self, w: u128)
        requires
            self.wf(),
        ensures
            self.has_word(w) <==> self.commits_of(w) != Set::<u32>::empty(),
    {
    }

    /// The commits at which the file holds the word of `key`, if the document
    /// knows the word.
    pub fn commits(&self, key: &TrigramKey) -> (found: Option<&RoaringBitmap>)
        requires
            self.wf(),
            key.wf(),
        ensures
            match found {
                Some(b) => self.has_word(key.word()) && members(*b) == self.commits_of(key.word()),
                None => !self.has_word(key.word()),
            },
    {
        match self.index.find(key) {
            Some(pos) => Some(&self.words[pos].commit_inclutivity),
            None => None,
        }
    }

    /// What the entries say of the model, position by position.
    proof fn lemma_model_at(&self, e: int)
        requires
            self.index.wf(),
            self.words@.len() == self.index.count(),
            0 <= e < self.words@.len(),
        ensures
            self.model().contains_key(self.index.keys@[e].word()),
            self.model()[self.index.keys@[e].word()] == self.words@[e].model(),
    {
    }

    /// Commit `commit_index` introduced `words` on the given lines.
    pub fn add_words(&mut self, commit_index: CommitIndex, words: &Vec<TokenLines>)
        requires
            old(self).wf(),
            commit_index <= u32::MAX,
            forall|e: int| 0 <= e < words@.len() ==> (#[trigger] words@[e]).key.wf(),
        ensures
            final(self).wf(),
            final(self).model() == added_model(old(self).model(), words@, commit_index),
            final(self).modified() == old(self).modified().insert(commit_index as u32),
            final(self).is_deleted == old(self).is_deleted,
            final(self).all_words == old(self).all_words,
            forall|lo: int, hi: int|
                old(self).within(lo, hi) && lo <= commit_index <= hi
                    ==> #[trigger] final(self).within(lo, hi),
    {
        let ghost start = self.model();
        let mut e: usize = 0;
        proof {
            assert(words@.take(0) =~= Seq::<TokenLines>::empty());
        }
        while e < words.len()
            invariant
                e <= words@.len(),
                commit_index <= u32::MAX,
                forall|e: int| 0 <= e < words@.len() ==> (#[trigger] words@[e]).key.wf(),
                self.index.wf(),
                self.words@.len() == self.index.count(),
                model_wf(self.model()),
                self.model() == added_model(start, words@.take(e as int), commit_index),
                self.doc_modified_commits == old(self).doc_modified_commits,
                self.is_deleted == old(self).is_deleted,
                self.all_words == old(self).all_words,
                forall|lo: int, hi: int|
                    model_within(start, lo, hi) && lo <= commit_index <= hi
                        ==> #[trigger] model_within(self.model(), lo, hi),
            decreases words@.len() - e,
        {
            let entry = &words[e];
            let ghost w = entry.key.word();
            let ghost before = *self;
            let (pos, added) = self.index.find_or_add(entry.key);
            if added {
                self.words.push(
                    WordIndex { word_history: pairs_new(), commit_inclutivity: RoaringBitmap::new() },
                );
            }
            let ghost base = self.words@[pos as int].model();
            let ghost mid = *self;
            let mut a: usize = 0;
            while a < entry.lines.len()
                invariant
                    a <= entry.lines@.len(),
                    pos < self.words@.len(),
                    self.words@.len() == self.index.count(),
                    self.index == mid.index,
                    self.words@.len() == mid.words@.len(),
                    forall|i: int|
                        0 <= i < self.words@.len() && i != pos ==> self.words@[i] == mid.words@[i],
                    members(self.words@[pos as int].commit_inclutivity) == base.commits,
                    pairs(self.words@[pos as int].word_history) == base.history.union(
                        introduced(commit_index, entry.lines@.take(a as int)),
                    ),
                    self.doc_modified_commits == old(self).doc_modified_commits,
                    self.is_deleted == old(self).is_deleted,
                    self.all_words == old(self).all_words,
                decreases entry.lines@.len() - a,
            {
                pairs_insert(&mut self.words[pos].word_history, (commit_index, entry.lines[a]));
                proof {
                    let line = entry.lines@[a as int];
                    assert(entry.lines@.take(a + 1) =~= entry.lines@.take(a as int).push(line));
                    assert(introduced(commit_index, entry.lines@.take(a + 1)) =~= introduced(
                        commit_index,
                        entry.lines@.take(a as int),
                    ).insert((commit_index, line))) by {
                        assert forall|p: (usize, usize)|
                            introduced(commit_index, entry.lines@.take(a + 1)).contains(p)
                                <==> introduced(commit_index, entry.lines@.take(a as int)).insert(
                                (commit_index, line),
                            ).contains(p) by {
                            let longer = entry.lines@.take(a + 1);
                            let shorter = entry.lines@.take(a as int);
                            if p.0 == commit_index && longer.contains(p.1) {
                                let k = choose|k: int| 0 <= k < longer.len() && longer[k] == p.1;
                                if k < a {
                                    assert(shorter[k] == p.1);
                                }
                            }
                            if p.0 == commit_index && shorter.contains(p.1) {
                                let k = choose|k: int| 0 <= k < shorter.len() && shorter[k] == p.1;
                                assert(longer[k] == p.1);
                            }
                            if p == (commit_index, line) {
                                assert(longer[a as int] == line);
                            }
                        }
                    }
                    assert(pairs(self.words@[pos as int].word_history) =~= base.history.union(
                        introduced(commit_index, entry.lines@.take(a + 1)),
                    ));
                }
                a += 1;
            }
            self.words[pos].commit_inclutivity.insert(commit_index as u32);
            proof {
                assert(entry.lines@.take(entry.lines@.len() as int) =~= entry.lines@);
                assert(words@.take(e + 1).drop_last() =~= words@.take(e as int));
                assert(words@.take(e + 1).last() == words@[e as int]);
                let prev = before.model();
                let want = with_lines(prev, w, commit_index, entry.lines@);
                assert(self.index.words() == before.index.words().insert(w));
                if !added {
                    before.lemma_model_at(pos as int);
                }
                assert forall|x: u128| self.model().contains_key(x) implies self.model()[x]
                    == want[x] by {
                    if x != w {
                        assert(before.index.words().contains(x));
                        let p = before.index.position(x);
                        assert(self.index.position(x) == p);
                        assert(before.index.keys@[p].word() == x);
                        assert(self.index.keys@[pos as int].word() == w);
                        assert(p != pos);
                        assert(self.words@[p] == mid.words@[p]);
                        assert(mid.words@[p] == before.words@[p]);
                    } else {
                        assert(self.index.position(w) == pos);
                        if added {
                            assert(base.history =~= Set::<(usize, usize)>::empty());
                            assert(base.commits =~= Set::<u32>::empty());
                            assert(!prev.contains_key(w));
                        } else {
                            assert(mid.words@[pos as int] == before.words@[pos as int]);
                            assert(base == prev[w]);
                        }
                        assert(self.model()[w].history =~= want[w].history);
                        assert(self.model()[w].commits =~= want[w].commits);
                    }
                }
                assert(self.model() =~= want);
                assert(members(self.words@[pos as int].commit_inclutivity).contains(
                    commit_index as u32,
                ));
                assert(model_wf(self.model())) by {
                    assert forall|x: u128| #[trigger] self.model().contains_key(x) implies self.model()[x].commits
                        != Set::<u32>::empty() by {
                        if x != w {
                            assert(prev.contains_key(x));
                            assert(prev[x].commits != Set::<u32>::empty());
                        } else {
                            assert(self.model()[x].commits.contains(commit_index as u32));
                        }
                    }
                }
                assert forall|lo: int, hi: int|
                    model_within(start, lo, hi) && lo <= commit_index
                        <= hi implies #[trigger] model_within(self.model(), lo, hi) by {
                    let top = hi;
                    assert(model_within(prev, lo, top));
                    assert forall|x: u128, b: u32|
                        self.model().contains_key(x) && #[trigger] self.model()[x].commits.contains(
                            b,
                        ) implies lo <= b <= top by {
                        if x != w {
                            assert(prev[x].commits.contains(b));
                        } else if b != commit_index as u32 {
                            assert(prev.contains_key(w) && prev[w].commits.contains(b));
                        }
                    }
                }
            }
            e += 1;
        }
        self.doc_modified_commits.insert(commit_index as u32);
        proof {
            assert(words@.take(words@.len() as int) =~= words@);
            assert forall|lo: int, hi: int|
                old(self).within(lo, hi) && lo <= commit_index <= hi implies #[trigger] self.within(
                lo,
                hi,
            ) by {
                assert(model_within(start, lo, hi));
                assert forall|b: u32| self.modified().contains(b) implies lo <= b <= hi by {
                    if b != commit_index as u32 {
                        assert(old(self).modified().contains(b));
                    }
                }
            }
        }
    }

    /// Closes the run of the word at `pos` before `end`, if no introduction of
    /// it is alive.
    fn close_run(&mut self, pos: usize, end: u32)
        requires
            old(self).wf(),
            pos < old(self).words@.len(),
        ensures
            final(self).wf(),
            final(self).model() == run_closed(
                old(self).model(),
                old(self).index.keys@[pos as int].word(),
                end as int,
            ),
            final(self).index == old(self).index,
            final(self).doc_modified_commits == old(self).doc_modified_commits,
            final(self).is_deleted == old(self).is_deleted,
            final(self).all_words == old(self).all_words,
    {
        let ghost w = self.index.keys@[pos as int].word();
        proof {
            self.lemma_model_at(pos as int);
        }
        if pairs_is_empty(&self.words[pos].word_history) {
            let ghost commits = members(self.words@[pos as int].commit_inclutivity);
            match self.words[pos].commit_inclutivity.max() {
                Some(top) => {
                    insert_range(&mut self.words[pos].commit_inclutivity, top, end);
                    self.words[pos].commit_inclutivity.optimize();
                    proof {
                        lemma_filled(commits, top, end as int);
                    }
                },
                None => {
                    proof {
                        assert(false);
                    }
                },
            }
            proof {
                let want = run_closed(old(self).model(), w, end as int);
                assert(members(self.words@[pos as int].commit_inclutivity).contains(
                    choose|b: u32| commits.contains(b),
                )) by {
                    assert(commits != Set::<u32>::empty());
                    assert(exists|b: u32| commits.contains(b)) by {
                        if forall|b: u32| !commits.contains(b) {
                            assert(commits =~= Set::<u32>::empty());
                        }
                    }
                }
                assert forall|x: u128| self.model().contains_key(x) implies self.model()[x]
                    == want[x] by {
                    if x != w {
                        let p = self.index.position(x);
                        assert(self.index.keys@[p].word() == x);
                        assert(p != pos);
                    }
                }
                assert(self.model() =~= want);
                assert forall|x: u128| #[trigger] self.model().contains_key(x) implies self.model()[x].commits
                    != Set::<u32>::empty() by {
                    if x != w {
                        assert(old(self).model().contains_key(x));
                        assert(old(self).model()[x].commits != Set::<u32>::empty());
                    } else {
                        assert(self.model()[x].commits.contains(choose|b: u32| commits.contains(b)));
                    }
                }
            }
        } else {
            proof {
                assert(self.model() =~= run_closed(old(self).model(), w, end as int));
            }
        }
    }

    /// Commit `commit_index` removed lines: the introductions in `words` ended.
    /// A word without a live introduction left has its run closed before the
    /// commit that precedes `commit_index`.
    pub fn remove_words(&mut self, commit_index: CommitIndex, words: &Vec<(TrigramKey, Vec<WordKey>)>)
        requires
            old(self).wf(),
            1 <= commit_index <= u32::MAX,
            forall|e: int| 0 <= e < words@.len() ==> (#[trigger] words@[e]).0.wf(),
        ensures
            final(self).wf(),
            final(self).model() == closed_model(
                removed_model(old(self).model(), words@),
                words@,
                commit_index - 1,
            ),
            final(self).modified() == old(self).modified().insert(commit_index as u32),
            final(self).is_deleted == old(self).is_deleted,
            final(self).all_words == old(self).all_words,
            forall|lo: int, hi: int|
                old(self).within(lo, hi) && lo <= commit_index <= hi
                    ==> #[trigger] final(self).within(lo, hi),
    {
        let ghost start = self.model();
        let mut e: usize = 0;
        proof {
            assert(words@.take(0) =~= Seq::<(TrigramKey, Vec<WordKey>)>::empty());
        }
        while e < words.len()
            invariant
                e <= words@.len(),
                forall|e: int| 0 <= e < words@.len() ==> (#[trigger] words@[e]).0.wf(),
                self.wf(),
                self.model() == removed_model(start, words@.take(e as int)),
                self.doc_modified_commits == old(self).doc_modified_commits,
                self.is_deleted == old(self).is_deleted,
                self.all_words == old(self).all_words,
            decreases words@.len() - e,
        {
            let item = &words[e];
            let ghost w = item.0.word();
            let ghost before = *self;
            proof {
                assert(words@.take(e + 1).drop_last() =~= words@.take(e as int));
                assert(words@.take(e + 1).last() == words@[e as int]);
            }
            match self.index.find(&item.0) {
                Some(pos) => {
                    let ghost base = self.words@[pos as int].model();
                    proof {
                        self.lemma_model_at(pos as int);
                    }
                    let mut a: usize = 0;
                    while a < item.1.len()
                        invariant
                            a <= item.1@.len(),
                            pos < self.words@.len(),
                            self.index == before.index,
                            self.words@.len() == before.words@.len(),
                            forall|i: int|
                                0 <= i < self.words@.len() && i != pos ==> self.words@[i]
                                    == before.words@[i],
                            members(self.words@[pos as int].commit_inclutivity) == base.commits,
                            pairs(self.words@[pos as int].word_history) == base.history.difference(
                                keys_set(item.1@.take(a as int)),
                            ),
                            self.doc_modified_commits == old(self).doc_modified_commits,
                            self.is_deleted == old(self).is_deleted,
                            self.all_words == old(self).all_words,
                        decreases item.1@.len() - a,
                    {
                        let key = item.1[a];
                        pairs_remove(&mut self.words[pos].word_history, (key.commit_id, key.line));
                        proof {
                            let longer = item.1@.take(a + 1);
                            let shorter = item.1@.take(a as int);
                            assert forall|p: (usize, usize)|
                                keys_set(longer).contains(p) <==> keys_set(shorter).contains(p) || p
                                    == (key.commit_id, key.line) by {
                                if keys_set(longer).contains(p) {
                                    let i = choose|i: int|
                                        0 <= i < longer.len() && (#[trigger] longer[i]).commit_id
                                            == p.0 && longer[i].line == p.1;
                                    if i < a {
                                        assert(shorter[i].commit_id == p.0);
                                    }
                                }
                                if keys_set(shorter).contains(p) {
                                    let i = choose|i: int|
                                        0 <= i < shorter.len() && (#[trigger] shorter[i]).commit_id
                                            == p.0 && shorter[i].line == p.1;
                                    assert(longer[i].commit_id == p.0);
                                }
                                if p == (key.commit_id, key.line) {
                                    assert(longer[a as int].commit_id == p.0);
                                }
                            }
                            assert(pairs(self.words@[pos as int].word_history)
                                =~= base.history.difference(keys_set(longer)));
                        }
                        a += 1;
                    }
                    proof {
                        assert(item.1@.take(item.1@.len() as int) =~= item.1@);
                        let prev = before.model();
                        let want = without_keys(prev, w, item.1@);
                        assert forall|x: u128| self.model().contains_key(x) implies self.model()[x]
                            == want[x] by {
                            if x != w {
                                let p = self.index.position(x);
                                assert(self.index.keys@[p].word() == x);
                                assert(p != pos);
                            }
                        }
                        assert(self.model() =~= want);
                        assert forall|x: u128| #[trigger]
                            self.model().contains_key(x) implies self.model()[x].commits
                            != Set::<u32>::empty() by {
                            assert(prev.contains_key(x));
                            assert(prev[x].commits != Set::<u32>::empty());
                            if x != w {
                            }
                        }
                    }
                },
                None => {},
            }
            e += 1;
        }
        let ghost mid = self.model();
        proof {
            assert(words@.take(words@.len() as int) =~= words@);
        }
        let end: u32 = (commit_index - 1) as u32;
        e = 0;
        while e < words.len()
            invariant
                e <= words@.len(),
                forall|e: int| 0 <= e < words@.len() ==> (#[trigger] words@[e]).0.wf(),
                self.wf(),
                end == commit_index - 1,
                self.model() == closed_model(mid, words@.take(e as int), end as int),
                self.doc_modified_commits == old(self).doc_modified_commits,
                self.is_deleted == old(self).is_deleted,
                self.all_words == old(self).all_words,
            decreases words@.len() - e,
        {
            proof {
                assert(words@.take(e + 1).drop_last() =~= words@.take(e as int));
                assert(words@.take(e + 1).last() == words@[e as int]);
            }
            match self.index.find(&words[e].0) {
                Some(pos) => {
                    self.close_run(pos, end);
                },
                None => {},
            }
            e += 1;
        }
        self.doc_modified_commits.insert(commit_index as u32);
        proof {
            assert(words@.take(words@.len() as int) =~= words@);
            assert forall|lo: int, hi: int|
                old(self).within(lo, hi) && lo <= commit_index <= hi implies #[trigger] self.within(
                lo,
                hi,
            ) by {
                lemma_removed_within(start, words@, lo, hi);
                lemma_closed_within(mid, words@, commit_index - 1, lo, hi);
                assert forall|b: u32| self.modified().contains(b) implies lo <= b <= hi by {
                    if b != commit_index as u32 {
                        assert(old(self).modified().contains(b));
                    }
                }
            }
        }
    }

    /// Commit `commit_index` deleted the file: every run that was alive is
    /// closed before the commit that precedes it, and nothing stays alive.
    pub fn remove_document(&mut self, commit_index: CommitIndex)
        requires
            old(self).wf(),
            1 <= commit_index <= u32::MAX,
        ensures
            final(self).wf(),
            final(self).model() == deleted_model(old(self).model(), commit_index - 1),
            final(self).modified() == old(self).modified().insert(commit_index as u32),
            final(self).is_deleted == old(self).is_deleted,
            final(self).all_words == old(self).all_words,
            forall|lo: int, hi: int|
                old(self).within(lo, hi) && lo <= commit_index <= hi
                    ==> #[trigger] final(self).within(lo, hi),
    {
        let end: u32 = (commit_index - 1) as u32;
        let ghost start = self.model();
        let mut e: usize = 0;
        while e < self.words.len()
            invariant
                e <= self.words@.len(),
                end == commit_index - 1,
                old(self).wf(),
                self.index == old(self).index,
                self.words@.len() == old(self).words@.len(),
                forall|i: int| e <= i < self.words@.len() ==> self.words@[i] == old(self).words@[i],
                forall|i: int|
                    0 <= i < e ==> (#[trigger] self.words@[i]).model() == (if old(self).words@[i].model().history
                        == Set::<(usize, usize)>::empty() {
                        old(self).words@[i].model()
                    } else {
                        WordModel {
                            history: Set::empty(),
                            commits: filled(old(self).words@[i].model().commits, end as int),
                        }
                    }),
                self.doc_modified_commits == old(self).doc_modified_commits,
                self.is_deleted == old(self).is_deleted,
                self.all_words == old(self).all_words,
            decreases self.words@.len() - e,
        {
            if !pairs_is_empty(&self.words[e].word_history) {
                let ghost commits = members(self.words@[e as int].commit_inclutivity);
                proof {
                    old(self).lemma_model_at(e as int);
                }
                match self.words[e].commit_inclutivity.max() {
                    Some(top) => {
                        insert_range(&mut self.words[e].commit_inclutivity, top, end);
                        proof {
                            lemma_filled(commits, top, end as int);
                        }
                    },
                    None => {
                        proof {
                            assert(false);
                        }
                    },
                }
                pairs_clear(&mut self.words[e].word_history);
            }
            e += 1;
        }
        self.doc_modified_commits.insert(commit_index as u32);
        proof {
            let want = deleted_model(start, end as int);
            assert forall|x: u128| self.model().contains_key(x) implies self.model()[x]
                == want[x] by {
                let p = self.index.position(x);
                assert(start[x] == old(self).words@[p].model());
            }
            assert(self.model() =~= want);
            assert forall|x: u128| #[trigger] self.model().contains_key(x) implies self.model()[x].commits
                != Set::<u32>::empty() by {
                let old_commits = start[x].commits;
                assert(old_commits != Set::<u32>::empty());
                if forall|b: u32| !old_commits.contains(b) {
                    assert(old_commits =~= Set::<u32>::empty());
                }
                let b = choose|b: u32| old_commits.contains(b);
                assert(self.model()[x].commits.contains(b));
            }
            assert forall|lo: int, hi: int|
                old(self).within(lo, hi) && lo <= commit_index <= hi implies #[trigger] self.within(
                lo,
                hi,
            ) by {
                lemma_deleted_within(start, commit_index - 1, lo, hi);
                assert forall|b: u32| self.modified().contains(b) implies lo <= b <= hi by {
                    if b != commit_index as u32 {
                        assert(old(self).modified().contains(b));
                    }
                }
            }
        }
    }

    /// The index is complete up to the head commit `commit_index`: every run
    /// that is still alive reaches the head, and the set of all trigrams of the
    /// document is built.
    pub fn finalize(&mut self, commit_index: CommitIndex)
        requires
            old(self).wf(),
            commit_index < u32::MAX,
        ensures
            final(self).wf(),
            final(self).model() == finalized_model(old(self).model(), commit_index as u32),
            final(self).all_words matches Some(set) && fst_keys(set) == key_tokens(
                final(self).index.keys@,
            ),
            final(self).index == old(self).index,
            final(self).modified() == old(self).modified(),
            final(self).is_deleted == old(self).is_deleted,
            forall|lo: int, hi: int|
                old(self).within(lo, hi) && commit_index <= hi ==> #[trigger] final(self).within(
                    lo,
                    hi,
                ),
    {
        let head: u32 = commit_index as u32;
        let ghost start = self.model();
        let mut e: usize = 0;
        while e < self.words.len()
            invariant
                e <= self.words@.len(),
                head == commit_index,
                head < u32::MAX,
                old(self).wf(),
                self.index == old(self).index,
                self.words@.len() == old(self).words@.len(),
                forall|i: int| e <= i < self.words@.len() ==> self.words@[i] == old(self).words@[i],
                forall|i: int|
                    0 <= i < e ==> (#[trigger] self.words@[i]).model() == (if old(self).words@[i].model().commits.contains(
                        head,
                    ) || old(self).words@[i].model().history == Set::<(usize, usize)>::empty() {
                        old(self).words@[i].model()
                    } else {
                        WordModel {
                            history: old(self).words@[i].model().history,
                            commits: filled(old(self).words@[i].model().commits, head + 1),
                        }
                    }),
                self.doc_modified_commits == old(self).doc_modified_commits,
                self.is_deleted == old(self).is_deleted,
            decreases self.words@.len() - e,
        {
            if !self.words[e].commit_inclutivity.contains(head) && !pairs_is_empty(
                &self.words[e].word_history,
            ) {
                let ghost commits = members(self.words@[e as int].commit_inclutivity);
                proof {
                    old(self).lemma_model_at(e as int);
                }
                match self.words[e].commit_inclutivity.max() {
                    Some(top) => {
                        insert_range(&mut self.words[e].commit_inclutivity, top, head + 1);
                        proof {
                            lemma_filled(commits, top, head + 1);
                        }
                    },
                    None => {
                        proof {
                            assert(false);
                        }
                    },
                }
            }
            e += 1;
        }
        self.all_words = Some(word_set_of(&self.index.keys));
        proof {
            let want = finalized_model(start, head);
            assert forall|x: u128| self.model().contains_key(x) implies self.model()[x]
                == want[x] by {
                let p = self.index.position(x);
                assert(start[x] == old(self).words@[p].model());
            }
            assert(self.model() =~= want);
            assert forall|x: u128| #[trigger] self.model().contains_key(x) implies self.model()[x].commits
                != Set::<u32>::empty() by {
                let old_commits = start[x].commits;
                assert(old_commits != Set::<u32>::empty());
                if forall|b: u32| !old_commits.contains(b) {
                    assert(old_commits =~= Set::<u32>::empty());
                }
                let b = choose|b: u32| old_commits.contains(b);
                assert(self.model()[x].commits.contains(b));
            }
            assert forall|lo: int, hi: int|
                old(self).within(lo, hi) && commit_index <= hi implies #[trigger] self.within(
                lo,
                hi,
            ) by {
                assert(model_within(start, lo, hi));
                lemma_finalized_within(start, head, lo, hi);
                assert(self.modified() == old(self).modified());
            }
        }
    }
}

} // verus!
