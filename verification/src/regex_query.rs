//! Regular-expression queries: the plan of the pattern selects the files,
//! branch by branch, and for each file the commits.

use crate::bitmap::ascending;
use crate::bitmap::intersect_with;
use crate::bitmap::members;
use crate::bitmap::union_with;
use crate::document::Document;
use crate::git_index::GitIndex;
use crate::git_searcher::accepted_keys;
use crate::git_searcher::finished;
use crate::git_searcher::limit_of;
use crate::git_searcher::result_bound;
use crate::git_searcher::token_commits;
use crate::git_searcher::token_files;
use crate::git_searcher::GitSearcher;
use crate::git_searcher::Query;
use crate::git_searcher::RawPerFileSearchResult;
use crate::git_searcher::SearchOption;
use crate::matcher::parse_hir;
use crate::matcher::parsed;
use crate::matcher::pattern_of;
use crate::regex_search::build_candidates_from_hir;
use crate::regex_search::gram_is_literal;
use crate::regex_search::gram_pattern;
use crate::regex_search::gram_text;
use crate::regex_search::grams_view;
use crate::regex_search::plan_model;
use crate::regex_search::Conj;
use crate::regex_search::Disj;
use crate::regex_search::Gram;
use crate::regex_search::QueryError;
use crate::regex_search::RegexOrString;
use crate::regex_search::Trigram;
use crate::tokenizer::lemma_encode_len;
use crate::tokenizer::token_word;
use crate::trigram_key::pack;
use crate::trigram_key::TrigramKey;
use crate::words::fst_keys;
use crate::words::pattern_builds;
use crate::words::search_word_set;
use crate::words::tokens_view;
use crate::words::WordSet;
use roaring::RoaringBitmap;
use vstd::prelude::*;
use vstd::string::StringSliceAdditionalSpecFns;

verus! {

/// The trigram needs an automaton, and none can be built for it.
pub open spec fn gram_fails(g: Gram) -> bool {
    !gram_is_literal(g) && !pattern_builds(gram_pattern(g))
}

/// The files that ever held a token that holds a match of the trigram.
pub open spec fn gram_files(index: &GitIndex, g: Gram) -> Set<u32> {
    if gram_is_literal(g) {
        index.files_of(token_word(gram_text(g)))
    } else {
        token_files(index, accepted_keys(fst_keys(index.all_words), gram_pattern(g)))
    }
}

/// The commits at which the document holds a token that holds a match of
/// the trigram.
pub open spec fn gram_commits(doc: &Document, g: Gram) -> Set<u32> {
    if gram_is_literal(g) {
        doc.commits_of(token_word(gram_text(g)))
    } else {
        match doc.all_words {
            Some(set) => token_commits(doc, accepted_keys(fst_keys(set), gram_pattern(g))),
            None => Set::empty(),
        }
    }
}

/// The files that ever held a match of every trigram of a branch; `None`
/// when no file ever held a match of one of them.
pub open spec fn group_files(index: &GitIndex, grams: Conj) -> Option<Set<u32>> {
    if exists|i: int| 0 <= i < grams.len() && #[trigger] gram_files(index, grams[i]) == Set::<u32>::empty() {
        None
    } else {
        Some(
            Set::new(
                |f: u32| forall|i: int| 0 <= i < grams.len() ==> (#[trigger] gram_files(index, grams[i])).contains(f),
            ),
        )
    }
}

/// The commits at which the document holds a match of every trigram of a
/// branch; `None` when it never held a match of one of them.
pub open spec fn group_commits(doc: &Document, grams: Conj) -> Option<Set<u32>> {
    if exists|i: int| 0 <= i < grams.len() && #[trigger] gram_commits(doc, grams[i]) == Set::<u32>::empty() {
        None
    } else {
        Some(
            Set::new(
                |c: u32| forall|i: int| 0 <= i < grams.len() ==> (#[trigger] gram_commits(doc, grams[i])).contains(c),
            ),
        )
    }
}

/// The results of one branch among the files with an id below `upto`: for
/// each candidate file that held a match of every trigram, by ascending id,
/// the commits at which it did.
pub open spec fn collect_upto(index: &GitIndex, grams: Conj, files: Set<u32>, upto: nat) -> Seq<
    (u32, Set<u32>),
>
    decreases upto,
{
    if upto == 0 {
        Seq::empty()
    } else {
        let before = collect_upto(index, grams, files, (upto - 1) as nat);
        let f = (upto - 1) as u32;
        if upto - 1 <= u32::MAX && files.contains(f) && f < index.file_id_to_document@.len() {
            match group_commits(&index.file_id_to_document@[f as int], grams) {
                Some(commits) => before.push((f, commits)),
                None => before,
            }
        } else {
            before
        }
    }
}

/// The results of one branch. A branch without trigrams selects nothing.
pub open spec fn group_results(index: &GitIndex, grams: Conj) -> Seq<(u32, Set<u32>)> {
    if grams.len() == 0 {
        Seq::empty()
    } else {
        match group_files(index, grams) {
            Some(files) => collect_upto(index, grams, files, index.file_id_to_document@.len()),
            None => Seq::empty(),
        }
    }
}

/// The results of the first `n` branches of a plan, one branch after the other.
pub open spec fn plan_results(index: &GitIndex, plan: Disj, n: nat) -> Seq<(u32, Set<u32>)>
    decreases n,
{
    if n == 0 || n > plan.len() {
        Seq::empty()
    } else {
        plan_results(index, plan, (n - 1) as nat) + group_results(index, plan[n - 1])
    }
}

/// As many of the results as the bound allows.
pub open spec fn truncated(all: Seq<(u32, Set<u32>)>, limit: Option<usize>) -> Seq<(u32, Set<u32>)> {
    match result_bound(limit) {
        Some(m) => if all.len() > m {
            all.take(m)
        } else {
            all
        },
        None => all,
    }
}

pub open spec fn regex_results_view(results: Seq<RawPerFileSearchResult>) -> Seq<(u32, Set<u32>)> {
    Seq::new(results.len(), |i: int| (results[i].file_id, members(results[i].overlapped_commits)))
}

/// Why a pattern is refused: it cannot be read, or it holds what cannot be
/// planned, or a trigram of its plan needs an automaton that cannot be
/// built.
pub open spec fn refused(pattern: Seq<char>, e: QueryError) -> bool {
    match e {
        QueryError::Parse(text) => parsed(pattern) matches Err(m) && m == text@,
        QueryError::Unsupported => parsed(pattern) matches Ok(p) && plan_model(p) is None,
        QueryError::Automaton => parsed(pattern) matches Ok(p) && plan_model(p) matches Some(plan)
            && plan_fails(plan),
    }
}

/// Some trigram of the plan needs an automaton that cannot be built.
pub open spec fn plan_fails(plan: Disj) -> bool {
    exists|g: int, i: int| 0 <= g < plan.len() && 0 <= i < plan[g].len() && #[trigger] gram_fails(plan[g][i])
}

pub proof fn lemma_collect_gap(index: &GitIndex, grams: Conj, files: Set<u32>, lo: nat, hi: nat)
    requires
        lo <= hi,
        forall|f: u32| lo <= f < hi ==> !files.contains(f),
    ensures
        collect_upto(index, grams, files, hi) == collect_upto(index, grams, files, lo),
    decreases hi,
{
    if lo < hi {
        lemma_collect_gap(index, grams, files, lo, (hi - 1) as nat);
    }
}

pub proof fn lemma_collect_prefix(index: &GitIndex, grams: Conj, files: Set<u32>, lo: nat, hi: nat)
    requires
        lo <= hi,
    ensures
        collect_upto(index, grams, files, lo).is_prefix_of(collect_upto(index, grams, files, hi)),
    decreases hi,
{
    if lo < hi {
        lemma_collect_prefix(index, grams, files, lo, (hi - 1) as nat);
    }
}

pub proof fn lemma_plan_prefix(index: &GitIndex, plan: Disj, lo: nat, hi: nat)
    requires
        lo <= hi <= plan.len(),
    ensures
        plan_results(index, plan, lo).is_prefix_of(plan_results(index, plan, hi)),
    decreases hi,
{
    if lo < hi {
        lemma_plan_prefix(index, plan, lo, (hi - 1) as nat);
    }
}

/// The key of a trigram of three plain characters.
fn literal_key(text: &str) -> (key: TrigramKey)
    requires
        text@.len() == 3,
    ensures
        key.wf(),
        key.word() == token_word(text@),
{
    proof {
        lemma_encode_len(text@);
    }
    TrigramKey::from_utf8(text)
}

/// Some key has the bytes `k`.
pub open spec fn holds(keys: Seq<TrigramKey>, k: Seq<u8>) -> bool {
    exists|j: int| 0 <= j < keys.len() && (#[trigger] keys[j])@ == k
}

/// One of the first `n` tokens is `k`.
pub open spec fn among(tokens: Seq<Seq<u8>>, n: int, k: Seq<u8>) -> bool {
    exists|m: int| 0 <= m < n && #[trigger] tokens[m] == k
}

/// The keys of the tokens that hold a match of the trigram: the trigram
/// itself where it is three plain characters, else the tokens of the set,
/// of at most twelve bytes, that its pattern selects.
pub fn find_matching_trigram(key: &Trigram, all_words: &WordSet) -> (out: Result<
    Vec<TrigramKey>,
    QueryError,
>)
    ensures
        match out {
            Ok(keys) => {
                &&& !gram_fails(key@)
                &&& forall|j: int| 0 <= j < keys@.len() ==> (#[trigger] keys@[j]).wf()
                &&& gram_is_literal(key@) ==> keys@.len() == 1 && keys@[0].word() == token_word(
                    gram_text(key@),
                )
                &&& !gram_is_literal(key@) ==> forall|k: Seq<u8>| #[trigger]
                    holds(keys@, k) <==> accepted_keys(
                        fst_keys(*all_words),
                        gram_pattern(key@),
                    ).contains(k) && k.len() <= 12
            },
            Err(e) => gram_fails(key@) && e == QueryError::Automaton,
        },
{
    match key.create_matching_regex_or_string() {
        RegexOrString::String(text) => {
            let mut keys: Vec<TrigramKey> = Vec::new();
            keys.push(literal_key(text.as_str()));
            Ok(keys)
        },
        RegexOrString::Regex(pattern) => {
            let ghost wanted = accepted_keys(fst_keys(*all_words), gram_pattern(key@));
            let found = match search_word_set(all_words, pattern.as_str()) {
                Some(found) => found,
                None => {
                    return Err(QueryError::Automaton);
                },
            };
            let mut keys: Vec<TrigramKey> = Vec::new();
            let mut i: usize = 0;
            let ghost tokens = tokens_view(found@);
            while i < found.len()
                invariant
                    i <= found@.len(),
                    tokens == tokens_view(found@),
                    forall|j: int| 0 <= j < keys@.len() ==> (#[trigger] keys@[j]).wf(),
                    forall|k: Seq<u8>| #[trigger]
                        holds(keys@, k) <==> among(tokens, i as int, k) && k.len() <= 12,
                decreases found@.len() - i,
            {
                let ghost before = keys@;
                if found[i].len() <= 12 {
                    keys.push(TrigramKey::from_bytes(found[i].as_slice()));
                }
                proof {
                    assert forall|k: Seq<u8>| #[trigger]
                        holds(keys@, k) <==> among(tokens, i + 1, k) && k.len() <= 12 by {
                        assert(holds(before, k) <==> among(tokens, i as int, k) && k.len() <= 12);
                        if holds(keys@, k) {
                            let j = choose|j: int| 0 <= j < keys@.len() && (#[trigger] keys@[j])@ == k;
                            if j < before.len() {
                                assert(before[j]@ == k);
                                assert(holds(before, k));
                                let m = choose|m: int| 0 <= m < i && #[trigger] tokens[m] == k;
                                assert(0 <= m < i + 1 && tokens[m] == k);
                            } else {
                                assert(tokens[i as int] == k);
                            }
                        }
                        if among(tokens, i + 1, k) && k.len() <= 12 {
                            let m = choose|m: int| 0 <= m < i + 1 && #[trigger] tokens[m] == k;
                            if m < i {
                                assert(among(tokens, i as int, k));
                                let j = choose|j: int|
                                    0 <= j < before.len() && (#[trigger] before[j])@ == k;
                                assert(keys@[j]@ == k);
                            } else {
                                assert(keys@[keys@.len() - 1]@ == k);
                            }
                        }
                    }
                }
                i += 1;
            }
            proof {
                assert forall|k: Seq<u8>| #[trigger]
                    holds(keys@, k) <==> wanted.contains(k) && k.len() <= 12 by {
                    assert(holds(keys@, k) <==> among(tokens, found@.len() as int, k) && k.len()
                        <= 12);
                    if among(tokens, found@.len() as int, k) {
                        let m = choose|m: int| 0 <= m < found@.len() && #[trigger] tokens[m] == k;
                        assert(tokens.contains(k));
                    }
                    if wanted.contains(k) {
                        assert(tokens.contains(k));
                        let m = choose|m: int| 0 <= m < tokens.len() && tokens[m] == k;
                        assert(tokens[m] == k);
                    }
                }
            }
            Ok(keys)
        },
    }
}

/// The files that ever held a token that holds a match of the trigram.
pub fn files_with_trigram(index: &GitIndex, trigram: &Trigram) -> (out: Result<
    RoaringBitmap,
    QueryError,
>)
    requires
        index.wf(),
    ensures
        match out {
            Ok(b) => members(b) == gram_files(index, trigram@) && !gram_fails(trigram@),
            Err(e) => gram_fails(trigram@) && e == QueryError::Automaton,
        },
{
    let keys = match find_matching_trigram(trigram, &index.all_words) {
        Ok(keys) => keys,
        Err(e) => {
            return Err(e);
        },
    };
    let ghost wanted = accepted_keys(fst_keys(index.all_words), gram_pattern(trigram@));
    let mut total = RoaringBitmap::new();
    let mut i: usize = 0;
    while i < keys.len()
        invariant
            i <= keys@.len(),
            index.wf(),
            forall|j: int| 0 <= j < keys@.len() ==> (#[trigger] keys@[j]).wf(),
            forall|f: u32|
                members(total).contains(f) <==> exists|j: int|
                    0 <= j < i && #[trigger] index.files_of(keys@[j].word()).contains(f),
        decreases keys@.len() - i,
    {
        let ghost before = members(total);
        match index.word_to_file_id_ever_contained.get(&keys[i]) {
            Some(files) => {
                union_with(&mut total, files);
            },
            None => {},
        }
        proof {
            assert forall|f: u32|
                members(total).contains(f) <==> exists|j: int|
                    0 <= j < i + 1 && #[trigger] index.files_of(keys@[j].word()).contains(f) by {
                if members(total).contains(f) {
                    if before.contains(f) {
                        let j = choose|j: int|
                            0 <= j < i && #[trigger] index.files_of(keys@[j].word()).contains(f);
                        assert(0 <= j < i + 1);
                    } else {
                        assert(index.files_of(keys@[i as int].word()).contains(f));
                    }
                }
                if exists|j: int|
                    0 <= j < i + 1 && #[trigger] index.files_of(keys@[j].word()).contains(f) {
                    let j = choose|j: int|
                        0 <= j < i + 1 && #[trigger] index.files_of(keys@[j].word()).contains(f);
                    if j < i {
                        assert(before.contains(f));
                    }
                }
            }
        }
        i += 1;
    }
    proof {
        if gram_is_literal(trigram@) {
            assert forall|f: u32| members(total).contains(f) <==> gram_files(
                index,
                trigram@,
            ).contains(f) by {
                if members(total).contains(f) {
                    let j = choose|j: int|
                        0 <= j < keys@.len() && #[trigger] index.files_of(keys@[j].word()).contains(
                            f,
                        );
                    assert(j == 0);
                }
                if gram_files(index, trigram@).contains(f) {
                    assert(index.files_of(keys@[0].word()).contains(f));
                }
            }
        } else {
            assert forall|f: u32| members(total).contains(f) <==> token_files(
                index,
                wanted,
            ).contains(f) by {
                if members(total).contains(f) {
                    let j = choose|j: int|
                        0 <= j < keys@.len() && #[trigger] index.files_of(keys@[j].word()).contains(
                            f,
                        );
                    let k = keys@[j]@;
                    assert(holds(keys@, k));
                    assert(wanted.contains(k));
                    assert(index.files_of(pack(k) as u128).contains(f));
                }
                if token_files(index, wanted).contains(f) {
                    let k = choose|k: Seq<u8>|
                        wanted.contains(k) && #[trigger] index.files_of(pack(k) as u128).contains(f);
                    let e = choose|e: int|
                        0 <= e < index.word_to_file_id_ever_contained.index.keys@.len() && (
                        #[trigger] index.word_to_file_id_ever_contained.index.keys@[e])@ == k;
                    assert(index.word_to_file_id_ever_contained.index.keys@[e].wf());
                    assert(k.len() <= 12);
                    assert(holds(keys@, k));
                    let j = choose|j: int| 0 <= j < keys@.len() && (#[trigger] keys@[j])@ == k;
                    assert(index.files_of(keys@[j].word()).contains(f));
                }
            }
        }
        assert(members(total) =~= gram_files(index, trigram@));
    }
    Ok(total)
}

/// The commits at which the document holds a token that holds a match of
/// the trigram.
pub fn commits_with_trigram(doc: &Document, trigram: &Trigram) -> (out: Result<
    RoaringBitmap,
    QueryError,
>)
    requires
        finished(doc),
    ensures
        match out {
            Ok(b) => members(b) == gram_commits(doc, trigram@) && !gram_fails(trigram@),
            Err(e) => gram_fails(trigram@) && e == QueryError::Automaton,
        },
{
    let set = match &doc.all_words {
        Some(set) => set,
        None => {
            return Ok(RoaringBitmap::new());
        },
    };
    let keys = match find_matching_trigram(trigram, set) {
        Ok(keys) => keys,
        Err(e) => {
            return Err(e);
        },
    };
    let ghost wanted = accepted_keys(fst_keys(*set), gram_pattern(trigram@));
    let mut total = RoaringBitmap::new();
    let mut i: usize = 0;
    while i < keys.len()
        invariant
            i <= keys@.len(),
            finished(doc),
            forall|j: int| 0 <= j < keys@.len() ==> (#[trigger] keys@[j]).wf(),
            forall|c: u32|
                members(total).contains(c) <==> exists|j: int|
                    0 <= j < i && #[trigger] doc.commits_of(keys@[j].word()).contains(c),
        decreases keys@.len() - i,
    {
        let ghost before = members(total);
        match doc.commits(&keys[i]) {
            Some(commits) => {
                union_with(&mut total, commits);
            },
            None => {},
        }
        proof {
            assert forall|c: u32|
                members(total).contains(c) <==> exists|j: int|
                    0 <= j < i + 1 && #[trigger] doc.commits_of(keys@[j].word()).contains(c) by {
                if members(total).contains(c) {
                    if before.contains(c) {
                        let j = choose|j: int|
                            0 <= j < i && #[trigger] doc.commits_of(keys@[j].word()).contains(c);
                        assert(0 <= j < i + 1);
                    } else {
                        assert(doc.commits_of(keys@[i as int].word()).contains(c));
                    }
                }
                if exists|j: int|
                    0 <= j < i + 1 && #[trigger] doc.commits_of(keys@[j].word()).contains(c) {
                    let j = choose|j: int|
                        0 <= j < i + 1 && #[trigger] doc.commits_of(keys@[j].word()).contains(c);
                    if j < i {
                        assert(before.contains(c));
                    }
                }
            }
        }
        i += 1;
    }
    proof {
        if gram_is_literal(trigram@) {
            assert forall|c: u32| members(total).contains(c) <==> gram_commits(
                doc,
                trigram@,
            ).contains(c) by {
                if members(total).contains(c) {
                    let j = choose|j: int|
                        0 <= j < keys@.len() && #[trigger] doc.commits_of(keys@[j].word()).contains(
                            c,
                        );
                    assert(j == 0);
                }
                if gram_commits(doc, trigram@).contains(c) {
                    assert(doc.commits_of(keys@[0].word()).contains(c));
                }
            }
        } else {
            assert forall|c: u32| members(total).contains(c) <==> token_commits(
                doc,
                wanted,
            ).contains(c) by {
                if members(total).contains(c) {
                    let j = choose|j: int|
                        0 <= j < keys@.len() && #[trigger] doc.commits_of(keys@[j].word()).contains(
                            c,
                        );
                    let k = keys@[j]@;
                    assert(holds(keys@, k));
                    assert(wanted.contains(k));
                    assert(doc.commits_of(pack(k) as u128).contains(c));
                }
                if token_commits(doc, wanted).contains(c) {
                    let k = choose|k: Seq<u8>|
                        wanted.contains(k) && #[trigger] doc.commits_of(pack(k) as u128).contains(c);
                    assert(crate::document::key_tokens(doc.index.keys@).contains(k));
                    let e = choose|e: int|
                        0 <= e < doc.index.keys@.len() && (#[trigger] doc.index.keys@[e])@ == k;
                    assert(doc.index.keys@[e].wf());
                    assert(k.len() <= 12);
                    assert(holds(keys@, k));
                    let j = choose|j: int| 0 <= j < keys@.len() && (#[trigger] keys@[j])@ == k;
                    assert(doc.commits_of(keys@[j].word()).contains(c));
                }
            }
        }
        assert(members(total) =~= gram_commits(doc, trigram@));
    }
    Ok(total)
}


/// The files that ever held a match of every trigram of a branch.
pub fn files_with_trigrams(index: &GitIndex, trigrams: &Vec<Trigram>) -> (out: Result<
    Option<RoaringBitmap>,
    QueryError,
>)
    requires
        index.wf(),
        trigrams@.len() > 0,
    ensures
        match out {
            Ok(Some(b)) => group_files(index, grams_view(trigrams@)) == Some(members(b)),
            Ok(None) => group_files(index, grams_view(trigrams@)) is None,
            Err(e) => e == QueryError::Automaton && exists|i: int|
                0 <= i < trigrams@.len() && #[trigger] gram_fails(grams_view(trigrams@)[i]),
        },
{
    let ghost grams = grams_view(trigrams@);
    let mut total: RoaringBitmap = match files_with_trigram(index, &trigrams[0]) {
        Ok(files) => files,
        Err(e) => {
            proof {
                assert(gram_fails(grams[0]));
            }
            return Err(e);
        },
    };
    proof {
        assert(grams[0] == trigrams@[0]@);
    }
    if total.is_empty() {
        proof {
            assert(gram_files(index, grams[0]) == Set::<u32>::empty());
        }
        return Ok(None);
    }
    let mut i: usize = 1;
    while i < trigrams.len()
        invariant
            1 <= i <= trigrams@.len(),
            index.wf(),
            grams == grams_view(trigrams@),
            forall|k: int| 0 <= k < i ==> #[trigger] gram_files(index, grams[k]) != Set::<u32>::empty(),
            forall|f: u32|
                members(total).contains(f) <==> forall|k: int|
                    0 <= k < i ==> (#[trigger] gram_files(index, grams[k])).contains(f),
        decreases trigrams@.len() - i,
    {
        proof {
            assert(grams[i as int] == trigrams@[i as int]@);
        }
        let files = match files_with_trigram(index, &trigrams[i]) {
            Ok(files) => files,
            Err(e) => {
                proof {
                    assert(gram_fails(grams[i as int]));
                }
                return Err(e);
            },
        };
        if files.is_empty() {
            proof {
                assert(gram_files(index, grams[i as int]) == Set::<u32>::empty());
            }
            return Ok(None);
        }
        let ghost before = members(total);
        intersect_with(&mut total, &files);
        proof {
            assert forall|f: u32|
                members(total).contains(f) <==> forall|k: int|
                    0 <= k < i + 1 ==> (#[trigger] gram_files(index, grams[k])).contains(f) by {
                if members(total).contains(f) {
                    assert(before.contains(f));
                }
                if forall|k: int|
                    0 <= k < i + 1 ==> (#[trigger] gram_files(index, grams[k])).contains(f) {
                    assert(gram_files(index, grams[i as int]).contains(f));
                    assert(before.contains(f));
                }
            }
        }
        i += 1;
    }
    proof {
        assert(group_files(index, grams) is Some);
        assert(members(total) =~= group_files(index, grams).unwrap());
    }
    Ok(Some(total))
}

/// The commits at which the document holds a match of every trigram of a
/// branch; `None` when it never held a match of one of them.
pub fn find_matching_commit_histories_in_doc_from_trigrams(
    doc: &Document,
    trigrams: &Vec<Trigram>,
) -> (out: Result<Option<RoaringBitmap>, QueryError>)
    requires
        finished(doc),
        trigrams@.len() > 0,
    ensures
        match out {
            Ok(Some(b)) => group_commits(doc, grams_view(trigrams@)) == Some(members(b)),
            Ok(None) => group_commits(doc, grams_view(trigrams@)) is None,
            Err(e) => e == QueryError::Automaton && exists|i: int|
                0 <= i < trigrams@.len() && #[trigger] gram_fails(grams_view(trigrams@)[i]),
        },
{
    let ghost grams = grams_view(trigrams@);
    let mut total: RoaringBitmap = match commits_with_trigram(doc, &trigrams[0]) {
        Ok(commits) => commits,
        Err(e) => {
            proof {
                assert(gram_fails(grams[0]));
            }
            return Err(e);
        },
    };
    proof {
        assert(grams[0] == trigrams@[0]@);
    }
    if total.is_empty() {
        proof {
            assert(gram_commits(doc, grams[0]) == Set::<u32>::empty());
        }
        return Ok(None);
    }
    let mut i: usize = 1;
    while i < trigrams.len()
        invariant
            1 <= i <= trigrams@.len(),
            finished(doc),
            grams == grams_view(trigrams@),
            forall|k: int| 0 <= k < i ==> #[trigger] gram_commits(doc, grams[k]) != Set::<u32>::empty(),
            forall|c: u32|
                members(total).contains(c) <==> forall|k: int|
                    0 <= k < i ==> (#[trigger] gram_commits(doc, grams[k])).contains(c),
        decreases trigrams@.len() - i,
    {
        proof {
            assert(grams[i as int] == trigrams@[i as int]@);
        }
        let commits = match commits_with_trigram(doc, &trigrams[i]) {
            Ok(commits) => commits,
            Err(e) => {
                proof {
                    assert(gram_fails(grams[i as int]));
                }
                return Err(e);
            },
        };
        if commits.is_empty() {
            proof {
                assert(gram_commits(doc, grams[i as int]) == Set::<u32>::empty());
            }
            return Ok(None);
        }
        let ghost before = members(total);
        intersect_with(&mut total, &commits);
        proof {
            assert forall|c: u32|
                members(total).contains(c) <==> forall|k: int|
                    0 <= k < i + 1 ==> (#[trigger] gram_commits(doc, grams[k])).contains(c) by {
                if members(total).contains(c) {
                    assert(before.contains(c));
                }
                if forall|k: int|
                    0 <= k < i + 1 ==> (#[trigger] gram_commits(doc, grams[k])).contains(c) {
                    assert(gram_commits(doc, grams[i as int]).contains(c));
                    assert(before.contains(c));
                }
            }
        }
        i += 1;
    }
    proof {
        assert(group_commits(doc, grams) is Some);
        assert(members(total) =~= group_commits(doc, grams).unwrap());
    }
    Ok(Some(total))
}

/// The next file id to look at, after the first `n` candidate files.
pub open spec fn next_file(files: Seq<u32>, n: int) -> nat {
    if n <= 0 {
        0
    } else {
        (files[n - 1] + 1) as nat
    }
}

/// What one more candidate file adds to the results of a branch.
proof fn lemma_collect_step(index: &GitIndex, grams: Conj, files: Seq<u32>, n: int)
    requires
        0 <= n < files.len(),
        forall|a: int, b: int| 0 <= a < b < files.len() ==> files[a] < files[b],
    ensures
        collect_upto(index, grams, files.to_set(), next_file(files, n + 1)) == (if files[n]
            < index.file_id_to_document@.len() && group_commits(
            &index.file_id_to_document@[files[n] as int],
            grams,
        ) is Some {
            collect_upto(index, grams, files.to_set(), next_file(files, n)).push(
                (
                    files[n],
                    group_commits(&index.file_id_to_document@[files[n] as int], grams).unwrap(),
                ),
            )
        } else {
            collect_upto(index, grams, files.to_set(), next_file(files, n))
        }),
{
    let set = files.to_set();
    assert forall|f: u32| next_file(files, n) <= f < files[n] implies !set.contains(f) by {
        if set.contains(f) {
            let k = choose|k: int| 0 <= k < files.len() && files[k] == f;
            if k < n {
                if k < n - 1 {
                    assert(files[k] < files[n - 1]);
                }
            } else if k > n {
                assert(files[n] < files[k]);
            }
        }
    }
    lemma_collect_gap(index, grams, set, next_file(files, n), files[n] as nat);
    assert(set.contains(files[n]));
}

impl<'i> GitSearcher<'i> {
    /// Searches for the files that hold a match of the regular expression
    /// `query`, and for each file and each branch of the plan the commits at
    /// which the file holds every trigram of the branch.
    pub fn regex_search(&self, query: &str, option: Option<SearchOption>) -> (out: Result<
        Vec<RawPerFileSearchResult>,
        QueryError,
    >)
        requires
            self.index.wf(),
        ensures
            match out {
                Ok(results) => parsed(query@) matches Ok(p) && plan_model(p) matches Some(plan)
                    && regex_results_view(results@) == truncated(
                    plan_results(self.index, plan, plan.len()),
                    limit_of(option),
                ) && forall|i: int|
                    0 <= i < results@.len() ==> ((#[trigger] results@[i]).query matches Query::Regex(
                        q,
                    ) && q@ == query@),
                Err(QueryError::Parse(e)) => parsed(query@) matches Err(m) && m == e@,
                Err(QueryError::Unsupported) => parsed(query@) matches Ok(p) && plan_model(
                    p,
                ) is None,
                Err(QueryError::Automaton) => parsed(query@) matches Ok(p) && plan_model(
                    p,
                ) matches Some(plan) && plan_fails(plan),
            },
    {
        let index = self.index;
        let ghost limit = limit_of(option);
        let max_num_to_find: Option<usize> = match option {
            Some(o) => o.max_num_to_find,
            None => None,
        };
        let hir = match parse_hir(query) {
            Ok(hir) => hir,
            Err(e) => {
                return Err(QueryError::Parse(e));
            },
        };
        let pattern = pattern_of(&hir);
        let candidates = match build_candidates_from_hir(&pattern) {
            Ok(candidates) => candidates,
            Err(e) => {
                return Err(e);
            },
        };
        let ghost plan = candidates@;
        let mut results: Vec<RawPerFileSearchResult> = Vec::new();
        match max_num_to_find {
            Some(max) => {
                if max == 0 {
                    // No result is asked for.
                    proof {
                        assert(regex_results_view(results@) =~= truncated(
                            plan_results(index, plan, plan.len()),
                            limit,
                        ));
                    }
                    return Ok(results);
                }
            },
            None => {},
        }
        let mut g: usize = 0;
        proof {
            assert(regex_results_view(results@) =~= plan_results(index, plan, 0));
        }
        while g < candidates.candidates.len()
            invariant
                g <= candidates.candidates@.len(),
                index.wf(),
                index == self.index,
                plan == candidates@,
                parsed(query@) == Ok::<crate::matcher::Pattern, Seq<char>>(pattern),
                plan_model(pattern) == Some(plan),
                limit == max_num_to_find,
                limit == limit_of(option),
                regex_results_view(results@) == plan_results(index, plan, g as nat),
                (result_bound(limit) matches Some(m) ==> results@.len() < m),
                forall|i: int|
                    0 <= i < results@.len() ==> ((#[trigger] results@[i]).query matches Query::Regex(
                        q,
                    ) && q@ == query@),
            decreases candidates.candidates@.len() - g,
        {
            let trigrams = &candidates.candidates[g].trigrams;
            let ghost grams = plan[g as int];
            let ghost start = regex_results_view(results@);
            proof {
                assert(grams == grams_view(trigrams@));
            }
            if trigrams.len() > 0 {
                let files_bitmap = match files_with_trigrams(index, trigrams) {
                    Ok(found) => found,
                    Err(e) => {
                        proof {
                            let i = choose|i: int|
                                0 <= i < trigrams@.len() && #[trigger] gram_fails(
                                    grams_view(trigrams@)[i],
                                );
                            assert(gram_fails(plan[g as int][i]));
                        }
                        return Err(e);
                    },
                };
                match files_bitmap {
                    None => {},
                    Some(bitmap) => {
                        let files = ascending(&bitmap);
                        let ghost files_set = members(bitmap);
                        let mut n: usize = 0;
                        while n < files.len()
                            invariant
                                n <= files@.len(),
                                g < candidates.candidates@.len(),
                                index.wf(),
                                index == self.index,
                                plan == candidates@,
                                grams == plan[g as int],
                                grams == grams_view(trigrams@),
                                trigrams@.len() > 0,
                                parsed(query@) == Ok::<crate::matcher::Pattern, Seq<char>>(pattern),
                                plan_model(pattern) == Some(plan),
                                limit == max_num_to_find,
                                limit == limit_of(option),
                                group_files(index, grams) == Some(files_set),
                                files@.to_set() == files_set,
                                forall|a: int, b: int|
                                    0 <= a < b < files@.len() ==> files@[a] < files@[b],
                                start == plan_results(index, plan, g as nat),
                                regex_results_view(results@) == start + collect_upto(
                                    index,
                                    grams,
                                    files_set,
                                    next_file(files@, n as int),
                                ),
                                (result_bound(limit) matches Some(m) ==> results@.len() < m),
                                forall|i: int|
                                    0 <= i < results@.len() ==> ((
                                    #[trigger] results@[i]).query matches Query::Regex(q) && q@
                                        == query@),
                            decreases files@.len() - n,
                        {
                            let file_id = files[n];
                            proof {
                                lemma_collect_step(index, grams, files@, n as int);
                            }
                            if (file_id as usize) < index.file_id_to_document.len() {
                                let document = &index.file_id_to_document[file_id as usize];
                                let matching = match find_matching_commit_histories_in_doc_from_trigrams(
                                    document,
                                    trigrams,
                                ) {
                                    Ok(matching) => matching,
                                    Err(e) => {
                                        proof {
                                            let i = choose|i: int|
                                                0 <= i < trigrams@.len() && #[trigger] gram_fails(
                                                    grams_view(trigrams@)[i],
                                                );
                                            assert(gram_fails(plan[g as int][i]));
                                        }
                                        return Err(e);
                                    },
                                };
                                match matching {
                                    Some(history) => {
                                        let ghost before = regex_results_view(results@);
                                        let ghost commits = members(history);
                                        results.push(
                                            RawPerFileSearchResult {
                                                file_id,
                                                query: Query::Regex(query.to_owned()),
                                                overlapped_commits: history,
                                            },
                                        );
                                        proof {
                                            assert(regex_results_view(results@) =~= before.push(
                                                (file_id, commits),
                                            ));
                                            assert(regex_results_view(results@) =~= start
                                                + collect_upto(
                                                index,
                                                grams,
                                                files_set,
                                                next_file(files@, n + 1),
                                            ));
                                        }
                                        let reached = match max_num_to_find {
                                            Some(max) => results.len() >= max,
                                            None => false,
                                        };
                                        if reached {
                                            proof {
                                                lemma_stopped(
                                                    index,
                                                    plan,
                                                    g as int,
                                                    files@,
                                                    (n + 1) as int,
                                                    regex_results_view(results@),
                                                    limit,
                                                );
                                            }
                                            return Ok(results);
                                        }
                                    },
                                    None => {},
                                }
                            }
                            n += 1;
                        }
                        proof {
                            lemma_group_done(index, plan, g as int, files@);
                        }
                    },
                }
            }
            proof {
                assert(regex_results_view(results@) == plan_results(index, plan, (g + 1) as nat));
            }
            g += 1;
        }
        proof {
            assert(truncated(plan_results(index, plan, plan.len()), limit) == plan_results(
                index,
                plan,
                plan.len(),
            ));
        }
        Ok(results)
    }
}

/// After all candidate files of a branch the results of the branch are
/// complete.
proof fn lemma_group_done(index: &GitIndex, plan: Disj, g: int, files: Seq<u32>)
    requires
        0 <= g < plan.len(),
        plan[g].len() > 0,
        group_files(index, plan[g]) == Some(files.to_set()),
        forall|a: int, b: int| 0 <= a < b < files.len() ==> files[a] < files[b],
    ensures
        group_results(index, plan[g]) == collect_upto(
            index,
            plan[g],
            files.to_set(),
            next_file(files, files.len() as int),
        ),
{
    let set = files.to_set();
    let last = next_file(files, files.len() as int);
    let total = index.file_id_to_document@.len();
    if last <= total {
        assert forall|f: u32| last <= f < total implies !set.contains(f) by {
            if set.contains(f) {
                let k = choose|k: int| 0 <= k < files.len() && files[k] == f;
                if k < files.len() - 1 {
                    assert(files[k] < files[files.len() - 1]);
                }
            }
        }
        lemma_collect_gap(index, plan[g], set, last, total);
    } else {
        lemma_collect_above(index, plan[g], set, total, last);
    }
}

/// Files without a document add nothing.
proof fn lemma_collect_above(index: &GitIndex, grams: Conj, files: Set<u32>, lo: nat, hi: nat)
    requires
        index.file_id_to_document@.len() <= lo <= hi,
    ensures
        collect_upto(index, grams, files, hi) == collect_upto(index, grams, files, lo),
    decreases hi,
{
    if lo < hi {
        lemma_collect_above(index, grams, files, lo, (hi - 1) as nat);
    }
}

/// The results at the moment the bound is reached are the truncated results
/// of the whole plan.
proof fn lemma_stopped(
    index: &GitIndex,
    plan: Disj,
    g: int,
    files: Seq<u32>,
    n: int,
    view: Seq<(u32, Set<u32>)>,
    limit: Option<usize>,
)
    requires
        0 <= g < plan.len(),
        plan[g].len() > 0,
        0 <= n <= files.len(),
        group_files(index, plan[g]) == Some(files.to_set()),
        forall|a: int, b: int| 0 <= a < b < files.len() ==> files[a] < files[b],
        view == plan_results(index, plan, g as nat) + collect_upto(
            index,
            plan[g],
            files.to_set(),
            next_file(files, n),
        ),
        result_bound(limit) matches Some(m) && view.len() == m,
    ensures
        view == truncated(plan_results(index, plan, plan.len()), limit),
{
    let set = files.to_set();
    let part = collect_upto(index, plan[g], set, next_file(files, n));
    let whole = collect_upto(index, plan[g], set, next_file(files, files.len() as int));
    lemma_group_done(index, plan, g, files);
    if n < files.len() {
        assert(files[n - 1] < files[files.len() - 1] || n == files.len() || n == 0) by {
            if 0 < n && n < files.len() {
                assert(files[n - 1] < files[files.len() - 1]);
            }
        }
    }
    lemma_collect_prefix(index, plan[g], set, next_file(files, n), next_file(files, files.len() as int));
    assert(part.is_prefix_of(whole));
    let upto_g = plan_results(index, plan, g as nat);
    let next = plan_results(index, plan, (g + 1) as nat);
    assert(next == upto_g + whole);
    assert(view.is_prefix_of(next)) by {
        assert(view =~= next.subrange(0, view.len() as int));
    }
    lemma_plan_prefix(index, plan, (g + 1) as nat, plan.len());
    let all = plan_results(index, plan, plan.len());
    assert(view =~= all.subrange(0, view.len() as int));
    assert(view =~= truncated(all, limit));
}


/// Every result of a branch is a candidate file with a document, together
/// with the commits at which the document holds every trigram of the branch.
pub proof fn lemma_collect_member(index: &GitIndex, grams: Conj, files: Set<u32>, upto: nat, i: int)
    requires
        0 <= i < collect_upto(index, grams, files, upto).len(),
    ensures
        ({
            let found = collect_upto(index, grams, files, upto)[i];
            &&& found.0 < upto
            &&& files.contains(found.0)
            &&& found.0 < index.file_id_to_document@.len()
            &&& group_commits(&index.file_id_to_document@[found.0 as int], grams) == Some(found.1)
        }),
    decreases upto,
{
    if upto > 0 {
        let before = collect_upto(index, grams, files, (upto - 1) as nat);
        if i < before.len() {
            lemma_collect_member(index, grams, files, (upto - 1) as nat, i);
        }
    }
}

/// The planner is sound: every result that a regular-expression search hands
/// out belongs to a branch of the plan, and at every commit of the result the
/// document of the file holds a match of every trigram of that branch.
pub proof fn lemma_regex_sound(index: &GitIndex, plan: Disj, n: nat, limit: Option<usize>, i: int)
    requires
        n <= plan.len(),
        0 <= i < truncated(plan_results(index, plan, n), limit).len(),
    ensures
        ({
            let found = truncated(plan_results(index, plan, n), limit)[i];
            exists|g: int|
                0 <= g < n && found.0 < index.file_id_to_document@.len() && #[trigger] group_commits(
                    &index.file_id_to_document@[found.0 as int],
                    plan[g],
                ) == Some(found.1) && forall|c: u32, t: int|
                    found.1.contains(c) && 0 <= t < plan[g].len() ==> #[trigger] gram_commits(
                        &index.file_id_to_document@[found.0 as int],
                        plan[g][t],
                    ).contains(c)
        }),
    decreases n,
{
    let all = plan_results(index, plan, n);
    assert(truncated(all, limit)[i] == all[i]);
    assert(i < all.len());
    let before = plan_results(index, plan, (n - 1) as nat);
    if i < before.len() {
        lemma_regex_sound(index, plan, (n - 1) as nat, None, i);
        let found = before[i];
        let g = choose|g: int|
            0 <= g < n - 1 && found.0 < index.file_id_to_document@.len() && #[trigger] group_commits(
                &index.file_id_to_document@[found.0 as int],
                plan[g],
            ) == Some(found.1) && forall|c: u32, t: int|
                found.1.contains(c) && 0 <= t < plan[g].len() ==> #[trigger] gram_commits(
                    &index.file_id_to_document@[found.0 as int],
                    plan[g][t],
                ).contains(c);
        assert(0 <= g < n);
    } else {
        let grams = plan[n - 1];
        let k = i - before.len();
        let files = group_files(index, grams).unwrap();
        lemma_collect_member(index, grams, files, index.file_id_to_document@.len(), k);
        let found = all[i];
        assert(group_commits(&index.file_id_to_document@[found.0 as int], plan[n - 1]) == Some(
            found.1,
        ));
    }
}

} // verus!
