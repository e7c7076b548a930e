//! Serving one page of a search: what the cache holds is taken from it,
//! what it does not hold is searched for and kept, and what was found for
//! single raw results goes back into the cache.

use crate::git_searcher::GitSearcher;
use crate::git_searcher::Query;
use crate::git_searcher::RawPerFileSearchResult;
use crate::git_searcher::is_space;
use crate::git_searcher::is_whitespace;
use crate::git_searcher::plain_results;
use crate::git_searcher::split_whitespace;
use crate::git_searcher::words_of;
use crate::matcher::parsed;
use crate::places::place;
use crate::regex_query::plan_results;
use crate::regex_query::refused;
use crate::regex_query::regex_results_view;
use crate::regex_query::truncated;
use crate::regex_search::QueryError;
use crate::regex_search::plan_model;
use crate::search_cache::AnswerModel;
use crate::search_cache::CacheResult;
use crate::search_cache::EntryModel;
use crate::search_cache::HitModel;
use crate::search_cache::QueryModel;
use crate::search_cache::RawModel;
use crate::search_cache::SearchCache;
use crate::search_cache::answer_model;
use crate::search_cache::answer_of;
use crate::search_cache::copy_raw;
use crate::search_cache::copy_result;
use crate::search_cache::hit_model;
use crate::search_cache::kept;
use crate::search_cache::kept_first;
use crate::search_cache::model_keys;
use crate::search_cache::noted;
use crate::search_cache::outcome_model;
use crate::search_cache::query_key;
use crate::search_cache::query_model;
use crate::search_cache::raw_model;
use crate::search_cache::raws_model;
use crate::search_cache::updates_model;
use crate::search_result::RepoReader;
use crate::search_result::SearchError;
use crate::search_result::SearchResult;
use crate::search_result::all_read;
use crate::search_result::file_is_read;
use crate::search_result::first_and_last;
use crate::search_result::query_builds;
use crate::text::char_at;
use crate::text::chars_of;
use crate::text::string_from_chars;
use vstd::prelude::*;

verus! {

/// How the text of a request is read.
#[derive(Clone, Copy, Debug, PartialEq, Eq, Structural)]
pub enum SearchMode {
    Plain,
    Regex,
}

/// A request for one page of results.
#[derive(Debug)]
pub struct SearchRequest {
    pub query: String,
    pub mode: SearchMode,
    pub page: usize,
    pub page_size: usize,
}

/// Why a request was turned down.
#[derive(Debug)]
pub enum RequestError {
    /// The query holds nothing but white space.
    EmptyQuery,
    /// The page lies past what can be numbered.
    PageOutOfRange,
    /// The query could not be searched for.
    Query(QueryError),
}

/// What became of one answer of the cache.
#[derive(Debug)]
pub struct SearchConversionResult {
    pub result: Option<SearchResult>,
    /// The result was not known to the cache.
    pub should_update_cache: bool,
}

/// The place of the first character at or behind `i` that is no white space.
pub open spec fn lead_from(text: Seq<char>, i: int) -> int
    decreases text.len() - i,
{
    if 0 <= i < text.len() && is_space(text[i]) {
        lead_from(text, i + 1)
    } else {
        i
    }
}

/// The place behind the last character before `j` and not before `lo` that
/// is no white space.
pub open spec fn tail_to(text: Seq<char>, j: int, lo: int) -> int
    decreases j,
{
    if lo < j <= text.len() && 0 <= lo && is_space(text[j - 1]) {
        tail_to(text, j - 1, lo)
    } else {
        j
    }
}

/// The text without the white space at its ends.
pub open spec fn trimmed(text: Seq<char>) -> Seq<char> {
    let lo = lead_from(text, 0);
    text.subrange(lo, tail_to(text, text.len() as int, lo))
}

proof fn lemma_lead(text: Seq<char>, i: int)
    requires
        0 <= i <= text.len(),
    ensures
        i <= lead_from(text, i) <= text.len(),
    decreases text.len() - i,
{
    if i < text.len() && is_space(text[i]) {
        lemma_lead(text, i + 1);
    }
}

proof fn lemma_tail(text: Seq<char>, j: int, lo: int)
    requires
        0 <= lo <= j <= text.len(),
    ensures
        lo <= tail_to(text, j, lo) <= j,
    decreases j,
{
    if lo < j && is_space(text[j - 1]) {
        lemma_tail(text, j - 1, lo);
    }
}

/// The text without the white space at its ends.
pub fn trim(text: &str) -> (out: String)
    ensures
        out@ == trimmed(text@),
{
    let chars = chars_of(text);
    let mut lo: usize = 0;
    while lo < chars.len() && is_whitespace(char_at(&chars, lo))
        invariant
            lo <= chars@.len(),
            lead_from(chars@, 0) == lead_from(chars@, lo as int),
        decreases chars@.len() - lo,
    {
        lo += 1;
    }
    let mut hi: usize = chars.len();
    while hi > lo && is_whitespace(char_at(&chars, hi - 1))
        invariant
            lo <= hi <= chars@.len(),
            tail_to(chars@, chars@.len() as int, lo as int) == tail_to(chars@, hi as int, lo as int),
        decreases hi,
    {
        hi -= 1;
    }
    let mut kept: Vec<char> = Vec::new();
    let mut i: usize = lo;
    while i < hi
        invariant
            lo <= i <= hi <= chars@.len(),
            kept@ == chars@.subrange(lo as int, i as int),
        decreases hi - i,
    {
        kept.push(char_at(&chars, i));
        proof {
            assert(kept@ =~= chars@.subrange(lo as int, i + 1));
        }
        i += 1;
    }
    string_from_chars(&kept)
}

/// The query that a request asks for.
pub open spec fn request_query(mode: SearchMode, text: Seq<char>) -> QueryModel {
    match mode {
        SearchMode::Plain => QueryModel::Words(words_of(trimmed(text))),
        SearchMode::Regex => QueryModel::Regex(trimmed(text)),
    }
}

/// The query of a request: its words, or its pattern, without the white
/// space around it.
pub fn normal_query(mode: SearchMode, text: &str) -> (out: Result<Query, RequestError>)
    ensures
        match out {
            Ok(q) => trimmed(text@).len() > 0 && query_model(&q) == request_query(mode, text@),
            Err(RequestError::EmptyQuery) => trimmed(text@).len() == 0,
            Err(_) => false,
        },
{
    let inner = trim(text);
    if inner.as_str().unicode_len() == 0 {
        return Err(RequestError::EmptyQuery);
    }
    match mode {
        SearchMode::Plain => Ok(Query::Words(split_whitespace(inner.as_str()))),
        SearchMode::Regex => Ok(Query::Regex(inner)),
    }
}

/// The numbers of the raw results of a page: where it starts and where it
/// ends. `None` where they are past what can be numbered.
pub fn page_range(page: usize, page_size: usize) -> (out: Option<(usize, usize)>)
    ensures
        match out {
            Some(range) => range.0 == page * page_size && range.1 == (page + 1) * page_size,
            None => (page + 1) * page_size > usize::MAX,
        },
{
    if page == usize::MAX {
        proof {
            assert((page + 1) * page_size > usize::MAX || page_size == 0) by (nonlinear_arith)
                requires
                    page + 1 > usize::MAX,
                    page_size >= 0,
            ;
        }
        if page_size == 0 {
            return Some((0, 0));
        }
        return None;
    }
    match (page + 1).checked_mul(page_size) {
        Some(end) => {
            proof {
                assert(page * page_size == (page + 1) * page_size - page_size) by (nonlinear_arith);
            }
            Some((end - page_size, end))
        },
        None => None,
    }
}

/// The numbers from `start` up to `end`.
pub fn numbers(start: usize, end: usize) -> (list: Vec<usize>)
    ensures
        list@.len() == (if end > start {
            end - start
        } else {
            0
        }),
        forall|i: int| 0 <= i < list@.len() ==> #[trigger] list@[i] == start + i,
{
    let mut list: Vec<usize> = Vec::new();
    let mut n: usize = start;
    while n < end
        invariant
            start <= n,
            n <= end || list@.len() == 0,
            list@.len() == (if n > start {
                n - start
            } else {
                0
            }),
            forall|i: int| 0 <= i < list@.len() ==> #[trigger] list@[i] == start + i,
        decreases end - n,
    {
        list.push(n);
        n += 1;
    }
    list
}

/// The raw results with the numbers from `start` up to `end`, as far as
/// there are any, none of them looked at yet.
pub open spec fn misses(raw: Seq<RawModel>, start: int, end: int) -> Seq<AnswerModel> {
    let stop = if end < raw.len() {
        end
    } else {
        raw.len() as int
    };
    if start >= stop {
        Seq::empty()
    } else {
        Seq::new((stop - start) as nat, |i: int| AnswerModel::Miss(raw[start + i]))
    }
}

pub open spec fn answers_model(list: Seq<CacheResult>) -> Seq<AnswerModel> {
    Seq::new(list.len(), |i: int| answer_model(&list[i]))
}

/// The page of raw results that were just found.
pub fn fresh_page(raw: &Vec<RawPerFileSearchResult>, start: usize, end: usize) -> (list: Vec<
    CacheResult,
>)
    ensures
        answers_model(list@) == misses(raws_model(raw@), start as int, end as int),
{
    let stop: usize = if end < raw.len() {
        end
    } else {
        raw.len()
    };
    let mut list: Vec<CacheResult> = Vec::new();
    let mut n: usize = start;
    while n < stop
        invariant
            start <= n,
            stop <= raw@.len(),
            n <= stop || list@.len() == 0,
            list@.len() == (if n > start {
                n - start
            } else {
                0
            }),
            forall|i: int|
                0 <= i < list@.len() ==> answer_model(&#[trigger] list@[i]) == AnswerModel::Miss(
                    raw_model(&raw@[start + i]),
                ),
        decreases stop - n,
    {
        list.push(CacheResult::Miss(copy_raw(&raw[n])));
        n += 1;
    }
    proof {
        assert(answers_model(list@) =~= misses(raws_model(raw@), start as int, end as int));
    }
    list
}

/// `raw` is what a search without a bound finds for the request.
pub open spec fn found_for(
    searcher: &GitSearcher,
    mode: SearchMode,
    text: Seq<char>,
    raw: Seq<RawPerFileSearchResult>,
) -> bool {
    match mode {
        SearchMode::Plain => plain_results(searcher.index, words_of(trimmed(text)), None, raw),
        SearchMode::Regex => parsed(trimmed(text)) matches Ok(p) && plan_model(p) matches Some(
            plan,
        ) && regex_results_view(raw) == truncated(
            plan_results(searcher.index, plan, plan.len()),
            None,
        ),
    }
}

/// The answers for a page of a query that was not kept: the query was
/// searched for, its raw results are kept from now on, and the page holds
/// those of them that lie in it.
pub open spec fn searched(
    searcher: &GitSearcher,
    request: &SearchRequest,
    before: &SearchCache,
    after: &SearchCache,
    list: Seq<CacheResult>,
) -> bool {
    let key = query_key(request_query(request.mode, request.query@));
    exists|raw: Seq<RawPerFileSearchResult>|
        {
            &&& #[trigger] found_for(searcher, request.mode, request.query@, raw)
            &&& after.model() == kept_first(
                before.model(),
                before.limit(),
                key,
                (EntryModel { raw: raws_model(raw), known: kept(before.model(), key).known }),
            )
            &&& answers_model(list) == misses(
                raws_model(raw),
                request.page * request.page_size,
                (request.page + 1) * request.page_size,
            )
        }
}

/// The answers for one page of a request. Where the cache keeps the query,
/// they are what it knows of each raw result of the page. Else the query
/// is searched for, and its raw results are kept.
pub fn page_answers(cache: &mut SearchCache, searcher: &GitSearcher, request: &SearchRequest) -> (out:
    Result<Vec<CacheResult>, RequestError>)
    requires
        old(cache).wf(),
        searcher.index.wf(),
    ensures
        final(cache).wf(),
        final(cache).limit() == old(cache).limit(),
        match out {
            Err(RequestError::EmptyQuery) => trimmed(request.query@).len() == 0 && final(cache).model() == old(cache).model(),
            Err(RequestError::PageOutOfRange) => trimmed(request.query@).len() > 0 && (request.page
                + 1) * request.page_size > usize::MAX && final(cache).model() == old(cache).model(),
            Err(RequestError::Query(e)) => request.mode == SearchMode::Regex && place(
                model_keys(old(cache).model()),
                query_key(request_query(request.mode, request.query@)),
            ) is None && final(cache).model() == old(cache).model() && refused(
                trimmed(request.query@),
                e,
            ),
            Ok(list) => trimmed(request.query@).len() > 0 && (request.page + 1) * request.page_size
                <= usize::MAX && (match place(
                model_keys(old(cache).model()),
                query_key(request_query(request.mode, request.query@)),
            ) {
                Some(i) => list@.len() == request.page_size && (forall|n: int|
                    0 <= n < list@.len() ==> answer_model(&#[trigger] list@[n]) == answer_of(
                        old(cache).model()[i].1,
                        request.page * request.page_size + n,
                    )) && final(cache).model() == seq![old(cache).model()[i]] + old(cache).model().remove(i),
                None => searched(searcher, request, old(cache), final(cache), list@),
            }),
        },
{
    let query = match normal_query(request.mode, request.query.as_str()) {
        Ok(query) => query,
        Err(e) => {
            return Err(e);
        },
    };
    let (start, end) = match page_range(request.page, request.page_size) {
        Some(range) => range,
        None => {
            return Err(RequestError::PageOutOfRange);
        },
    };
    proof {
        assert(end - start == request.page_size) by (nonlinear_arith)
            requires
                start == request.page * request.page_size,
                end == (request.page + 1) * request.page_size,
        ;
    }
    let wanted = numbers(start, end);
    match cache.find(&query, &wanted) {
        Some(list) => Ok(list),
        None => {
            let inner = trim(request.query.as_str());
            let found = match request.mode {
                SearchMode::Plain => Ok(searcher.search(inner.as_str(), None)),
                SearchMode::Regex => searcher.regex_search(inner.as_str(), None),
            };
            match found {
                Err(e) => Err(RequestError::Query(e)),
                Ok(raw) => {
                    let list = fresh_page(&raw, start, end);
                    let ghost witness = raw@;
                    cache.put_raw_result(&query, raw);
                    proof {
                        assert(found_for(searcher, request.mode, request.query@, witness));
                    }
                    Ok(list)
                },
            }
        },
    }
}

/// What becomes of one answer of the cache: a raw result that was not
/// looked at is looked at now, and what is found is marked for the cache.
pub fn convert<R: RepoReader>(reader: &R, answer: &CacheResult) -> (out: Result<
    SearchConversionResult,
    SearchError,
>)
    ensures
        match answer {
            CacheResult::Hit(hit) => out matches Ok(c) && !c.should_update_cache && outcome_model(
                &c.result,
            ) == Some(hit_model(hit)),
            CacheResult::NotExist => out matches Ok(c) && !c.should_update_cache
                && c.result is None,
            CacheResult::Miss(raw) => (match out {
                Ok(c) => c.should_update_cache && first_and_last(reader, raw, Ok(c.result)),
                Err(e) => first_and_last(reader, raw, Err(e)),
            }) && (all_read(reader, raw) ==> (out is Err <==> !query_builds(raw.query)
                && file_is_read(reader, raw))),
        },
{
    match answer {
        CacheResult::Hit(hit) => Ok(
            SearchConversionResult { result: Some(copy_result(hit)), should_update_cache: false },
        ),
        CacheResult::NotExist => Ok(
            SearchConversionResult { result: None, should_update_cache: false },
        ),
        CacheResult::Miss(raw) => match SearchResult::new(reader, raw) {
            Ok(result) => Ok(SearchConversionResult { result, should_update_cache: true }),
            Err(e) => Err(e),
        },
    }
}

/// What of a page goes into the cache: each result that is marked for
/// it, under the number of its raw result.
pub open spec fn updates_of(start: int, page: Seq<SearchConversionResult>, n: int) -> Seq<
    (int, Option<HitModel>),
>
    decreases n,
{
    if n <= 0 || n > page.len() {
        Seq::empty()
    } else if page[n - 1].should_update_cache {
        updates_of(start, page, n - 1).push((start + n - 1, outcome_model(&page[n - 1].result)))
    } else {
        updates_of(start, page, n - 1)
    }
}

/// What of a page goes into the cache. The page starts with raw result
/// `start`.
pub fn updates(start: usize, page: &Vec<SearchConversionResult>) -> (list: Vec<
    (usize, Option<SearchResult>),
>)
    requires
        start + page@.len() <= usize::MAX,
    ensures
        updates_model(list@) == updates_of(start as int, page@, page@.len() as int),
{
    let mut list: Vec<(usize, Option<SearchResult>)> = Vec::new();
    let mut n: usize = 0;
    proof {
        assert(updates_model(list@) =~= updates_of(start as int, page@, 0));
    }
    while n < page.len()
        invariant
            n <= page@.len(),
            start + page@.len() <= usize::MAX,
            updates_model(list@) == updates_of(start as int, page@, n as int),
        decreases page@.len() - n,
    {
        if page[n].should_update_cache {
            let ghost before = updates_model(list@);
            let result = match &page[n].result {
                Some(hit) => Some(copy_result(hit)),
                None => None,
            };
            list.push((start + n, result));
            proof {
                assert(updates_model(list@) =~= before.push(
                    (start + n, outcome_model(&page@[n as int].result)),
                ));
            }
        }
        n += 1;
    }
    list
}

/// Keeps what was found for a page of a request. Nothing changes where
/// the request is turned down or no result of the page is marked for the
/// cache.
pub fn keep_page(cache: &mut SearchCache, request: &SearchRequest, page: &Vec<SearchConversionResult>)
    requires
        old(cache).wf(),
    ensures
        final(cache).wf(),
        final(cache).limit() == old(cache).limit(),
        final(cache).model() == ({
            let start = request.page * request.page_size;
            let key = query_key(request_query(request.mode, request.query@));
            let found = updates_of(start, page@, page@.len() as int);
            if trimmed(request.query@).len() == 0 || start + page@.len() > usize::MAX
                || found.len() == 0 {
                old(cache).model()
            } else {
                kept_first(
                    old(cache).model(),
                    old(cache).limit(),
                    key,
                    noted(kept(old(cache).model(), key), found, found.len() as int),
                )
            }
        }),
{
    let query = match normal_query(request.mode, request.query.as_str()) {
        Ok(query) => query,
        Err(_) => {
            return ;
        },
    };
    let start = match request.page.checked_mul(request.page_size) {
        Some(start) => start,
        None => {
            return ;
        },
    };
    if page.len() > usize::MAX - start {
        return ;
    }
    let found = updates(start, page);
    cache.put_search_results(&query, &found);
}

} // verus!
