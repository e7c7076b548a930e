//! What was found for a query, kept for the next request: the raw results
//! of the query, and for each raw result that was looked at already what
//! became of it. The cache holds a bounded number of queries and forgets
//! the one that was asked for least recently.

use crate::bitmap::members;
use crate::git_searcher::Query;
use crate::git_searcher::RawPerFileSearchResult;
use crate::git_searcher::clone_strings;
use crate::keys::SlotMap;
use crate::keys::slots;
use crate::keys::slots_get;
use crate::keys::slots_insert;
use crate::keys::slots_new;
use crate::matcher::strings_view;
use crate::places::lemma_place;
use crate::places::place;
use crate::recency::Key;
use crate::recency::SlotTable;
use crate::recency::entries_of;
use crate::recency::key_of;
use crate::recency::keys_of;
use crate::recency::limit_of;
use crate::recency::table_get;
use crate::recency::table_len;
use crate::recency::table_limit;
use crate::recency::table_new;
use crate::recency::table_pop;
use crate::recency::table_put;
use crate::recency::without_last;
use crate::search_result::SearchResult;
use crate::search_result::SingleCommitSearchResult;
use vstd::prelude::*;

verus! {

/// A query as a value.
pub enum QueryModel {
    Words(Seq<Seq<char>>),
    Regex(Seq<char>),
}

/// A raw result as a value.
pub struct RawModel {
    pub query: QueryModel,
    pub file_id: u32,
    pub commits: Set<u32>,
}

/// The matches in one version of a file, as a value.
pub struct MatchModel {
    pub commit: int,
    pub words: Seq<(int, Seq<(Seq<char>, int)>)>,
    pub lines: Seq<(int, Seq<char>)>,
}

/// A search result as a value.
pub struct HitModel {
    pub path: Seq<char>,
    pub first: MatchModel,
    pub last: Option<MatchModel>,
}

pub open spec fn query_model(q: &Query) -> QueryModel {
    match q {
        Query::Words(words) => QueryModel::Words(strings_view(words@)),
        Query::Regex(pattern) => QueryModel::Regex(pattern@),
    }
}

pub open spec fn raw_model(r: &RawPerFileSearchResult) -> RawModel {
    RawModel {
        query: query_model(&r.query),
        file_id: r.file_id,
        commits: members(r.overlapped_commits),
    }
}

pub open spec fn raws_model(list: Seq<RawPerFileSearchResult>) -> Seq<RawModel> {
    Seq::new(list.len(), |i: int| raw_model(&list[i]))
}

pub open spec fn words_model(list: Seq<(String, usize)>) -> Seq<(Seq<char>, int)> {
    Seq::new(list.len(), |i: int| (list[i].0@, list[i].1 as int))
}

pub open spec fn marks_model(list: Seq<(usize, Vec<(String, usize)>)>) -> Seq<
    (int, Seq<(Seq<char>, int)>),
> {
    Seq::new(list.len(), |i: int| (list[i].0 as int, words_model(list[i].1@)))
}

pub open spec fn lines_model(list: Seq<(usize, String)>) -> Seq<(int, Seq<char>)> {
    Seq::new(list.len(), |i: int| (list[i].0 as int, list[i].1@))
}

pub open spec fn match_model(m: &SingleCommitSearchResult) -> MatchModel {
    MatchModel {
        commit: m.commit_id as int,
        words: marks_model(m.words_per_line@),
        lines: lines_model(m.lines@),
    }
}

pub open spec fn hit_model(r: &SearchResult) -> HitModel {
    HitModel {
        path: r.file_path@,
        first: match_model(&r.first_match),
        last: match r.last_match {
            Some(m) => Some(match_model(&m)),
            None => None,
        },
    }
}

pub open spec fn outcome_model(r: &Option<SearchResult>) -> Option<HitModel> {
    match r {
        Some(hit) => Some(hit_model(hit)),
        None => None,
    }
}

/// A copy of a query.
pub fn copy_query(q: &Query) -> (out: Query)
    ensures
        query_model(&out) == query_model(q),
{
    match q {
        Query::Words(words) => Query::Words(clone_strings(words)),
        Query::Regex(pattern) => Query::Regex(pattern.clone()),
    }
}

/// A copy of a raw result.
pub fn copy_raw(r: &RawPerFileSearchResult) -> (out: RawPerFileSearchResult)
    ensures
        raw_model(&out) == raw_model(r),
{
    RawPerFileSearchResult {
        query: copy_query(&r.query),
        file_id: r.file_id,
        overlapped_commits: r.overlapped_commits.clone(),
    }
}

fn copy_words(list: &Vec<(String, usize)>) -> (out: Vec<(String, usize)>)
    ensures
        words_model(out@) == words_model(list@),
{
    let mut out: Vec<(String, usize)> = Vec::new();
    let mut i: usize = 0;
    while i < list.len()
        invariant
            i <= list@.len(),
            out@.len() == i,
            forall|k: int|
                0 <= k < i ==> (#[trigger] out@[k]).0@ == list@[k].0@ && out@[k].1 == list@[k].1,
        decreases list@.len() - i,
    {
        out.push((list[i].0.clone(), list[i].1));
        i += 1;
    }
    proof {
        assert(words_model(out@) =~= words_model(list@));
    }
    out
}

fn copy_marks(list: &Vec<(usize, Vec<(String, usize)>)>) -> (out: Vec<
    (usize, Vec<(String, usize)>),
>)
    ensures
        marks_model(out@) == marks_model(list@),
{
    let mut out: Vec<(usize, Vec<(String, usize)>)> = Vec::new();
    let mut i: usize = 0;
    while i < list.len()
        invariant
            i <= list@.len(),
            out@.len() == i,
            forall|k: int|
                0 <= k < i ==> (#[trigger] out@[k]).0 == list@[k].0 && words_model(out@[k].1@)
                    == words_model(list@[k].1@),
        decreases list@.len() - i,
    {
        out.push((list[i].0, copy_words(&list[i].1)));
        i += 1;
    }
    proof {
        assert(marks_model(out@) =~= marks_model(list@));
    }
    out
}

fn copy_lines(list: &Vec<(usize, String)>) -> (out: Vec<(usize, String)>)
    ensures
        lines_model(out@) == lines_model(list@),
{
    let mut out: Vec<(usize, String)> = Vec::new();
    let mut i: usize = 0;
    while i < list.len()
        invariant
            i <= list@.len(),
            out@.len() == i,
            forall|k: int|
                0 <= k < i ==> (#[trigger] out@[k]).0 == list@[k].0 && out@[k].1@ == list@[k].1@,
        decreases list@.len() - i,
    {
        out.push((list[i].0, list[i].1.clone()));
        i += 1;
    }
    proof {
        assert(lines_model(out@) =~= lines_model(list@));
    }
    out
}

/// A copy of the matches in one version of a file.
pub fn copy_match(m: &SingleCommitSearchResult) -> (out: SingleCommitSearchResult)
    ensures
        match_model(&out) == match_model(m),
{
    SingleCommitSearchResult {
        commit_id: m.commit_id,
        words_per_line: copy_marks(&m.words_per_line),
        lines: copy_lines(&m.lines),
    }
}

/// A copy of a search result.
pub fn copy_result(r: &SearchResult) -> (out: SearchResult)
    ensures
        hit_model(&out) == hit_model(r),
{
    SearchResult {
        file_path: r.file_path.clone(),
        first_match: copy_match(&r.first_match),
        last_match: match &r.last_match {
            Some(m) => Some(copy_match(m)),
            None => None,
        },
    }
}

/// What the cache knows of one raw result of a query.
#[derive(Debug)]
pub enum CacheResult {
    /// The raw result was looked at, and this is what was found.
    Hit(SearchResult),
    /// The raw result was not looked at yet.
    Miss(RawPerFileSearchResult),
    /// The query has no such raw result, or nothing was found for it.
    NotExist,
}

/// An answer of the cache as a value.
pub enum AnswerModel {
    Hit(HitModel),
    Miss(RawModel),
    NotExist,
}

pub open spec fn answer_model(a: &CacheResult) -> AnswerModel {
    match a {
        CacheResult::Hit(hit) => AnswerModel::Hit(hit_model(hit)),
        CacheResult::Miss(raw) => AnswerModel::Miss(raw_model(raw)),
        CacheResult::NotExist => AnswerModel::NotExist,
    }
}

/// What is kept for one query, as a value: the raw results, and what was
/// found for the raw results that were looked at, by their number.
pub struct EntryModel {
    pub raw: Seq<RawModel>,
    pub known: Map<int, Option<HitModel>>,
}

pub open spec fn empty_entry() -> EntryModel {
    EntryModel { raw: Seq::empty(), known: Map::empty() }
}

/// What the cache says of raw result `index` of a query.
pub open spec fn answer_of(entry: EntryModel, index: int) -> AnswerModel {
    if index >= entry.raw.len() {
        AnswerModel::NotExist
    } else if entry.known.contains_key(index) {
        match entry.known[index] {
            Some(hit) => AnswerModel::Hit(hit),
            None => AnswerModel::NotExist,
        }
    } else {
        AnswerModel::Miss(entry.raw[index])
    }
}

/// What is kept for one query.
pub struct CachedSearchResults {
    pub raw_result: Vec<RawPerFileSearchResult>,
    /// For the number of a raw result that was looked at, the place in
    /// `results` of what was found.
    pub positions: SlotMap,
    pub results: Vec<Option<SearchResult>>,
}

impl CachedSearchResults {
    pub open spec fn wf(&self) -> bool {
        &&& forall|k: u128| #[trigger]
            slots(self.positions).contains_key(k) ==> slots(self.positions)[k]
                < self.results@.len()
        &&& forall|k: u128, l: u128|
            slots(self.positions).contains_key(k) && slots(self.positions).contains_key(l) && k
                != l ==> #[trigger] slots(self.positions)[k] != #[trigger] slots(
                self.positions,
            )[l]
    }

    /// The number `i` of a raw result, as a key of `positions`.
    pub open spec fn slot_key(i: int) -> u128 {
        i as u128
    }

    pub open spec fn known(&self) -> Map<int, Option<HitModel>> {
        Map::new(
            |i: int| 0 <= i <= usize::MAX && slots(self.positions).contains_key(Self::slot_key(i)),
            |i: int| outcome_model(&self.results@[slots(self.positions)[Self::slot_key(i)] as int]),
        )
    }

    pub open spec fn model(&self) -> EntryModel {
        EntryModel { raw: raws_model(self.raw_result@), known: self.known() }
    }

    /// Nothing is kept yet.
    pub fn new() -> (entry: Self)
        ensures
            entry.wf(),
            entry.model() == empty_entry(),
    {
        let entry = Self { raw_result: Vec::new(), positions: slots_new(), results: Vec::new() };
        proof {
            assert(entry.known() =~= Map::<int, Option<HitModel>>::empty());
            assert(raws_model(entry.raw_result@) =~= Seq::<RawModel>::empty());
        }
        entry
    }

    /// What is known of raw result `index`.
    pub fn answer(&self, index: usize) -> (out: CacheResult)
        requires
            self.wf(),
        ensures
            answer_model(&out) == answer_of(self.model(), index as int),
    {
        if index >= self.raw_result.len() {
            return CacheResult::NotExist;
        }
        match slots_get(&self.positions, index as u128) {
            Some(at) => match &self.results[at] {
                Some(hit) => CacheResult::Hit(copy_result(hit)),
                None => CacheResult::NotExist,
            },
            None => CacheResult::Miss(copy_raw(&self.raw_result[index])),
        }
    }

    /// Keeps what was found for raw result `index`, in place of what was
    /// kept for it before.
    pub fn note(&mut self, index: usize, result: Option<SearchResult>)
        requires
            old(self).wf(),
        ensures
            final(self).wf(),
            final(self).model().raw == old(self).model().raw,
            final(self).model().known == old(self).model().known.insert(
                index as int,
                outcome_model(&result),
            ),
    {
        let ghost before = *self;
        match slots_get(&self.positions, index as u128) {
            Some(at) => {
                self.results.set(at, result);
            },
            None => {
                let at = self.results.len();
                self.results.push(result);
                slots_insert(&mut self.positions, index as u128, at);
            },
        }
        proof {
            assert(self.known() =~= before.known().insert(index as int, outcome_model(&result)))
                by {
                assert forall|i: int|
                    0 <= i <= usize::MAX && i != index implies Self::slot_key(i) != Self::slot_key(
                    index as int,
                ) by {}
            }
        }
    }

    /// Keeps the raw results of the query, in place of those kept before.
    pub fn set_raw(&mut self, raw_result: Vec<RawPerFileSearchResult>)
        requires
            old(self).wf(),
        ensures
            final(self).wf(),
            final(self).model().raw == raws_model(raw_result@),
            final(self).model().known == old(self).model().known,
    {
        self.raw_result = raw_result;
    }
}

/// The key under which a query is kept.
pub open spec fn query_key(q: QueryModel) -> Key {
    match q {
        QueryModel::Words(words) => seq![seq!['w']] + words,
        QueryModel::Regex(pattern) => seq![seq!['r'], pattern],
    }
}

/// Different queries are kept under different keys.
pub proof fn lemma_keys_differ(a: QueryModel, b: QueryModel)
    requires
        query_key(a) == query_key(b),
    ensures
        a == b,
{
    let x = query_key(a);
    let y = query_key(b);
    assert(x[0] == y[0]);
    assert(seq!['w'][0] != seq!['r'][0]);
    match (a, b) {
        (QueryModel::Words(u), QueryModel::Words(v)) => {
            assert(u =~= x.skip(1));
            assert(v =~= y.skip(1));
        },
        (QueryModel::Regex(u), QueryModel::Regex(v)) => {
            assert(u == x[1]);
            assert(v == y[1]);
        },
        _ => {},
    }
}

/// The key of a query.
pub fn key_of_query(q: &Query) -> (key: Vec<String>)
    ensures
        key_of(key@) == query_key(query_model(q)),
{
    let mut key: Vec<String> = Vec::new();
    match q {
        Query::Words(words) => {
            key.push("w".to_string());
            let mut i: usize = 0;
            proof {
                reveal_strlit("w");
                assert("w"@ =~= seq!['w']);
            }
            while i < words.len()
                invariant
                    i <= words@.len(),
                    key@.len() == i + 1,
                    key@[0]@ == seq!['w'],
                    forall|k: int| 0 <= k < i ==> (#[trigger] key@[k + 1])@ == words@[k]@,
                decreases words@.len() - i,
            {
                key.push(words[i].clone());
                i += 1;
            }
            proof {
                assert forall|j: int| 1 <= j < key@.len() implies #[trigger] key@[j]@
                    == words@[j - 1]@ by {
                    assert(key@[(j - 1) + 1]@ == words@[j - 1]@);
                }
                assert(key_of(key@) =~= seq![seq!['w']] + strings_view(words@));
            }
        },
        Query::Regex(pattern) => {
            key.push("r".to_string());
            key.push(pattern.clone());
            proof {
                reveal_strlit("r");
                assert("r"@ =~= seq!['r']);
                assert(key_of(key@) =~= seq![seq!['r'], pattern@]);
            }
        },
    }
    key
}

/// The queries that are kept, the one asked for last first, each with
/// what is kept for it.
pub type CacheModel = Seq<(Key, EntryModel)>;

pub open spec fn model_keys(cache: CacheModel) -> Seq<Key> {
    Seq::new(cache.len(), |i: int| cache[i].0)
}

/// What is kept under the key, or an empty entry.
pub open spec fn kept(cache: CacheModel, key: Key) -> EntryModel {
    match place(model_keys(cache), key) {
        Some(i) => cache[i].1,
        None => empty_entry(),
    }
}

/// What stays behind the entry of `key` once the key was used: the other
/// entries in their order, without the last one where the key is new and
/// the cache is full.
pub open spec fn others(cache: CacheModel, limit: nat, key: Key) -> CacheModel {
    match place(model_keys(cache), key) {
        Some(i) => cache.remove(i),
        None => if cache.len() >= limit {
            without_last(cache)
        } else {
            cache
        },
    }
}

/// The cache after `entry` was kept under `key`.
pub open spec fn kept_first(cache: CacheModel, limit: nat, key: Key, entry: EntryModel) -> CacheModel {
    seq![(key, entry)] + others(cache, limit, key)
}

/// What was found for raw results, each with the number of its raw result,
/// as values.
pub open spec fn updates_model(list: Seq<(usize, Option<SearchResult>)>) -> Seq<
    (int, Option<HitModel>),
> {
    Seq::new(list.len(), |i: int| (list[i].0 as int, outcome_model(&list[i].1)))
}

/// What an entry holds after the first `n` results were noted, in their
/// order.
pub open spec fn noted(entry: EntryModel, results: Seq<(int, Option<HitModel>)>, n: int) -> EntryModel
    decreases n,
{
    if n <= 0 || n > results.len() {
        entry
    } else {
        let before = noted(entry, results, n - 1);
        EntryModel { raw: before.raw, known: before.known.insert(results[n - 1].0, results[n - 1].1) }
    }
}

/// A bounded cache of search results by query.
pub struct SearchCache {
    /// The slot of each query that is kept.
    pub table: SlotTable,
    /// What is kept, by slot.
    pub entries: Vec<CachedSearchResults>,
}

impl SearchCache {
    pub open spec fn wf(&self) -> bool {
        let e = entries_of(self.table);
        &&& e.len() == self.entries@.len()
        &&& e.len() <= limit_of(self.table)
        &&& 0 < limit_of(self.table)
        &&& forall|i: int, j: int| 0 <= i < j < e.len() ==> (#[trigger] e[i]).0 != (#[trigger] e[j]).0
        &&& forall|i: int, j: int| 0 <= i < j < e.len() ==> (#[trigger] e[i]).1 != (#[trigger] e[j]).1
        &&& forall|i: int| 0 <= i < e.len() ==> (#[trigger] e[i]).1 < self.entries@.len()
        &&& forall|s: int| 0 <= s < self.entries@.len() ==> (#[trigger] self.entries@[s]).wf()
    }

    /// The number of queries that are kept at most.
    pub open spec fn limit(&self) -> nat {
        limit_of(self.table)
    }

    pub open spec fn model(&self) -> CacheModel {
        Seq::new(
            entries_of(self.table).len(),
            |i: int|
                (entries_of(self.table)[i].0, self.entries@[entries_of(self.table)[i].1 as int].model()),
        )
    }

    /// An empty cache for at most `cache_size` queries.
    pub fn new(cache_size: usize) -> (cache: Self)
        requires
            0 < cache_size,
        ensures
            cache.wf(),
            cache.limit() == cache_size,
            cache.model() == Seq::<(Key, EntryModel)>::empty(),
    {
        let cache = Self { table: table_new(cache_size), entries: Vec::new() };
        proof {
            assert(cache.model() =~= Seq::<(Key, EntryModel)>::empty());
        }
        cache
    }

    /// The slot of the key, which from now on is the one used last. A key
    /// that was not kept gets an empty entry; where the cache is full, the
    /// key used least recently goes for it.
    fn slot_for(&mut self, key: Vec<String>) -> (slot: usize)
        requires
            old(self).wf(),
        ensures
            final(self).wf(),
            final(self).limit() == old(self).limit(),
            slot < final(self).entries@.len(),
            entries_of(final(self).table).len() > 0,
            entries_of(final(self).table)[0] == (key_of(key@), slot),
            final(self).model() == kept_first(
                old(self).model(),
                old(self).limit(),
                key_of(key@),
                kept(old(self).model(), key_of(key@)),
            ),
    {
        let ghost before = *self;
        let ghost e = entries_of(self.table);
        let ghost k = key_of(key@);
        let ghost limit = limit_of(self.table);
        proof {
            lemma_place(keys_of(e), e.len() as int, k);
            assert(model_keys(before.model()) =~= keys_of(e));
        }
        match table_get(&mut self.table, &key) {
            Some(slot) => {
                proof {
                    let i = place(keys_of(e), k)->Some_0;
                    assert(keys_of(e)[i] == k);
                    let now = entries_of(self.table);
                    assert(now == seq![e[i]] + e.remove(i));
                    assert forall|a: int| 0 <= a < now.len() implies #[trigger] now[a] == (if a
                        == 0 {
                        e[i]
                    } else if a <= i {
                        e[a - 1]
                    } else {
                        e[a]
                    }) by {}
                    assert(self.model() =~= kept_first(
                        before.model(),
                        limit,
                        k,
                        kept(before.model(), k),
                    ));
                }
                slot
            },
            None => {
                let slot = if table_len(&self.table) == table_limit(&self.table) {
                    match table_pop(&mut self.table) {
                        Some(last) => {
                            self.entries.set(last.1, CachedSearchResults::new());
                            last.1
                        },
                        None => {
                            self.entries.push(CachedSearchResults::new());
                            self.entries.len() - 1
                        },
                    }
                } else {
                    self.entries.push(CachedSearchResults::new());
                    self.entries.len() - 1
                };
                let ghost middle = entries_of(self.table);
                proof {
                    assert(keys_of(middle) =~= (if e.len() >= limit {
                        keys_of(e).drop_last()
                    } else {
                        keys_of(e)
                    }));
                    assert forall|j: int| 0 <= j < middle.len() implies #[trigger] keys_of(
                        middle,
                    )[j] != k by {
                        assert(keys_of(e)[j] != k);
                    }
                    lemma_place(keys_of(middle), middle.len() as int, k);
                }
                table_put(&mut self.table, key, slot);
                proof {
                    let now = entries_of(self.table);
                    assert(now == seq![(k, slot)] + middle);
                    assert forall|a: int| 0 <= a < now.len() implies #[trigger] now[a] == (if a
                        == 0 {
                        (k, slot)
                    } else {
                        e[a - 1]
                    }) by {}
                    assert forall|a: int, b: int| 0 <= a < b < now.len() implies (
                    #[trigger] now[a]).0 != (#[trigger] now[b]).0 by {
                        assert(keys_of(e)[b - 1] != k);
                        if a > 0 {
                            assert(e[a - 1].0 != e[b - 1].0);
                        }
                    }
                    assert(self.model() =~= kept_first(
                        before.model(),
                        limit,
                        k,
                        kept(before.model(), k),
                    ));
                }
                slot
            },
        }
    }

    /// What the cache knows of the raw results of `q` with the numbers in
    /// `result_index`, or `None` where the query is not kept. A query that
    /// is kept is from now on the one asked for last.
    pub fn find(&mut self, q: &Query, result_index: &Vec<usize>) -> (out: Option<Vec<CacheResult>>)
        requires
            old(self).wf(),
        ensures
            final(self).wf(),
            final(self).limit() == old(self).limit(),
            match place(model_keys(old(self).model()), query_key(query_model(q))) {
                Some(i) => out matches Some(list) && list@.len() == result_index@.len() && (forall|
                    n: int,
                |
                    0 <= n < list@.len() ==> answer_model(&#[trigger] list@[n]) == answer_of(
                        old(self).model()[i].1,
                        result_index@[n] as int,
                    )) && final(self).model() == seq![old(self).model()[i]] + old(
                    self,
                ).model().remove(i),
                None => out is None && final(self).model() == old(self).model(),
            },
    {
        let key = key_of_query(q);
        let ghost before = *self;
        let ghost e = entries_of(self.table);
        let ghost k = key_of(key@);
        proof {
            lemma_place(keys_of(e), e.len() as int, k);
            assert(model_keys(before.model()) =~= keys_of(e));
        }
        match table_get(&mut self.table, &key) {
            None => {
                proof {
                    assert(self.model() =~= before.model());
                }
                None
            },
            Some(slot) => {
                let ghost i = place(keys_of(e), k)->Some_0;
                proof {
                    let now = entries_of(self.table);
                    assert(now == seq![e[i]] + e.remove(i));
                    assert forall|a: int| 0 <= a < now.len() implies #[trigger] now[a] == (if a
                        == 0 {
                        e[i]
                    } else if a <= i {
                        e[a - 1]
                    } else {
                        e[a]
                    }) by {}
                    assert(self.model() =~= seq![before.model()[i]] + before.model().remove(i));
                }
                let mut list: Vec<CacheResult> = Vec::new();
                let mut n: usize = 0;
                while n < result_index.len()
                    invariant
                        n <= result_index@.len(),
                        list@.len() == n,
                        slot < self.entries@.len(),
                        self.entries@[slot as int].wf(),
                        self.entries@[slot as int].model() == before.model()[i].1,
                        forall|m: int|
                            0 <= m < n ==> answer_model(&#[trigger] list@[m]) == answer_of(
                                before.model()[i].1,
                                result_index@[m] as int,
                            ),
                    decreases result_index@.len() - n,
                {
                    list.push(self.entries[slot].answer(result_index[n]));
                    n += 1;
                }
                Some(list)
            },
        }
    }

    /// Keeps the raw results of `q`, in place of those kept for it before;
    /// what was found for single raw results of `q` stays. The query is from
    /// now on the one asked for last.
    pub fn put_raw_result(&mut self, q: &Query, raw_result: Vec<RawPerFileSearchResult>)
        requires
            old(self).wf(),
        ensures
            final(self).wf(),
            final(self).limit() == old(self).limit(),
            final(self).model() == kept_first(
                old(self).model(),
                old(self).limit(),
                query_key(query_model(q)),
                (EntryModel {
                    raw: raws_model(raw_result@),
                    known: kept(old(self).model(), query_key(query_model(q))).known,
                }),
            ),
    {
        let key = key_of_query(q);
        let ghost before = *self;
        let ghost k = key_of(key@);
        let slot = self.slot_for(key);
        let ghost middle = *self;
        proof {
            assert(middle.model()[0] == (k, kept(before.model(), k)));
            assert(middle.entries@[slot as int].model() == kept(before.model(), k));
        }
        let mut entry = CachedSearchResults::new();
        std::mem::swap(&mut entry, &mut self.entries[slot]);
        assert(entry == middle.entries@[slot as int]);
        entry.set_raw(raw_result);
        self.entries.set(slot, entry);
        proof {
            lemma_changed_first(middle, *self, slot as int);
            assert(self.model() =~= kept_first(
                before.model(),
                before.limit(),
                k,
                (EntryModel {
                    raw: raws_model(raw_result@),
                    known: kept(before.model(), k).known,
                }),
            ));
        }
    }

    /// Keeps what was found for single raw results of `q`, each under the
    /// number of its raw result; a later one replaces an earlier one with
    /// the same number. With no result to keep nothing changes; else the
    /// query is from now on the one asked for last.
    pub fn put_search_results(&mut self, q: &Query, results: &Vec<(usize, Option<SearchResult>)>)
        requires
            old(self).wf(),
        ensures
            final(self).wf(),
            final(self).limit() == old(self).limit(),
            results@.len() == 0 ==> final(self).model() == old(self).model(),
            results@.len() > 0 ==> final(self).model() == kept_first(
                old(self).model(),
                old(self).limit(),
                query_key(query_model(q)),
                noted(
                    kept(old(self).model(), query_key(query_model(q))),
                    updates_model(results@),
                    results@.len() as int,
                ),
            ),
    {
        if results.len() == 0 {
            return ;
        }
        let key = key_of_query(q);
        let ghost before = *self;
        let ghost k = key_of(key@);
        let slot = self.slot_for(key);
        let ghost middle = *self;
        let ghost start = kept(before.model(), k);
        proof {
            assert(middle.model()[0] == (k, start));
            assert(middle.entries@[slot as int].model() == start);
        }
        let mut entry = CachedSearchResults::new();
        std::mem::swap(&mut entry, &mut self.entries[slot]);
        assert(entry == middle.entries@[slot as int]);
        let mut n: usize = 0;
        while n < results.len()
            invariant
                n <= results@.len(),
                entry.wf(),
                entry.model() == noted(start, updates_model(results@), n as int),
            decreases results@.len() - n,
        {
            let found = match &results[n].1 {
                Some(hit) => Some(copy_result(hit)),
                None => None,
            };
            entry.note(results[n].0, found);
            proof {
                assert(updates_model(results@)[n as int] == (
                    results@[n as int].0 as int,
                    outcome_model(&results@[n as int].1),
                ));
                assert(entry.model() == noted(start, updates_model(results@), n + 1));
            }
            n += 1;
        }
        self.entries.set(slot, entry);
        proof {
            lemma_changed_first(middle, *self, slot as int);
            assert(self.model() =~= kept_first(
                before.model(),
                before.limit(),
                k,
                noted(start, updates_model(results@), results@.len() as int),
            ));
        }
    }
}

/// Changing what the first entry's slot holds changes the first entry of
/// the model, and nothing else.
proof fn lemma_changed_first(before: SearchCache, after: SearchCache, slot: int)
    requires
        before.wf(),
        after.table == before.table,
        entries_of(before.table).len() > 0,
        entries_of(before.table)[0].1 == slot,
        after.entries@.len() == before.entries@.len(),
        after.entries@[slot].wf(),
        forall|s: int|
            0 <= s < before.entries@.len() && s != slot ==> #[trigger] after.entries@[s]
                == before.entries@[s],
    ensures
        after.wf(),
        after.model().len() == before.model().len(),
        after.model()[0] == (entries_of(before.table)[0].0, after.entries@[slot].model()),
        forall|i: int| 1 <= i < before.model().len() ==> #[trigger] after.model()[i] == before.model()[i],
{
    let e = entries_of(before.table);
    assert forall|i: int| 1 <= i < before.model().len() implies #[trigger] after.model()[i]
        == before.model()[i] by {
        assert(e[0].1 != e[i].1);
    }
}

} // verus!
