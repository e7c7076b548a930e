//! From a raw result to what is shown: the first commit at which the file
//! really matches the query, the last such commit behind it, and for each the
//! lines that match.

use crate::bitmap::ascending;
use crate::bitmap::members;
use crate::diff::CommitIndex;
use crate::diff::FileId;
use crate::git_searcher::Query;
use crate::git_searcher::RawPerFileSearchResult;
use crate::matcher::build_leftmost_matcher;
use crate::matcher::compile_regex;
use crate::matcher::first_match;
use crate::matcher::leftmost_builds;
use crate::matcher::leftmost_matches;
use crate::matcher::lines_of;
use crate::matcher::matcher_patterns;
use crate::matcher::matches_in;
use crate::matcher::regex_builds;
use crate::matcher::regex_find;
use crate::matcher::regex_pattern;
use crate::matcher::strings_bytes;
use crate::matcher::strings_view;
use crate::matcher::text_lines;
use vstd::prelude::*;
use vstd::string::StringSliceAdditionalSpecFns;
use vstd::utf8::encode_utf8;

verus! {

#[derive(Debug, Copy, Clone, PartialEq, Eq)]
pub struct MatchingWordPos {
    pub line_num: usize,
    pub col: usize,
}

/// The matches of a query in one version of a file.
#[derive(Debug, Clone, PartialEq, Eq)]
pub struct SingleCommitSearchResult {
    pub commit_id: CommitIndex,
    /// For each line with a match, by ascending line: the matched texts and
    /// the byte offsets at which they start, by ascending offset.
    pub words_per_line: Vec<(usize, Vec<(String, usize)>)>,
    /// The lines with a match and the two lines before and behind each, by
    /// ascending line.
    pub lines: Vec<(usize, String)>,
}

#[derive(Debug, Clone, PartialEq, Eq)]
pub struct SearchResult {
    pub file_path: String,
    pub first_match: SingleCommitSearchResult,
    pub last_match: Option<SingleCommitSearchResult>,
}

/// Why a raw result could not be looked at.
#[derive(Debug, Clone, PartialEq, Eq)]
pub enum SearchError {
    /// The file could not be read at a commit.
    Read(String),
    /// The query is no pattern that can be matched.
    Pattern,
}

/// Reads files as commits had them.
pub trait RepoReader {
    /// What reading file `file_id` at commit `commit_id` gives: the path and
    /// the text, `None` where the commit has no such file, or a complaint.
    /// Contracts speak of reading through this function; a reader gives here
    /// what `read_file_at_commit` gives.
    spec fn content_at(&self, commit_id: CommitIndex, file_id: FileId) -> Result<
        Option<(String, String)>,
        String,
    >;

    fn read_file_at_commit(&self, commit_id: CommitIndex, file_id: FileId) -> (out: Result<
        Option<(String, String)>,
        String,
    >)
        ensures
            same_reading(out, self.content_at(commit_id, file_id)),
    ;
}

/// Two readings give the same path and text, or the same complaint.
pub open spec fn same_reading(
    a: Result<Option<(String, String)>, String>,
    b: Result<Option<(String, String)>, String>,
) -> bool {
    match (a, b) {
        (Ok(Some(x)), Ok(Some(y))) => x.0@ == y.0@ && x.1@ == y.1@,
        (Ok(None), Ok(None)) => true,
        (Err(x), Err(y)) => x@ == y@,
        _ => false,
    }
}

/// The offset of the first match of pattern `w` among the matches.
pub open spec fn first_in(found: Seq<(usize, usize)>, w: int) -> Option<usize>
    decreases found.len(),
{
    if found.len() == 0 {
        None
    } else {
        match first_in(found.drop_last(), w) {
            Some(col) => Some(col),
            None => if found.last().0 == w {
                Some(found.last().1)
            } else {
                None
            },
        }
    }
}

/// Where word `w` is first matched in the first `n` lines: the line and the
/// byte offset.
pub open spec fn word_pos(words: Seq<Seq<u8>>, lines: Seq<Seq<char>>, n: nat, w: int) -> Option<
    MatchingWordPos,
>
    decreases n,
{
    if n == 0 || n > lines.len() {
        None
    } else {
        match word_pos(words, lines, (n - 1) as nat, w) {
            Some(pos) => Some(pos),
            None => match first_in(leftmost_matches(words, encode_utf8(lines[n - 1])), w) {
                Some(col) => Some(MatchingWordPos { line_num: (n - 1) as usize, col }),
                None => None,
            },
        }
    }
}

/// The lines with a match of the pattern among the first `n` lines, at most
/// eleven: for each the matched text and where it starts.
pub open spec fn regex_hits(pattern: Seq<char>, lines: Seq<Seq<char>>, n: nat) -> Seq<
    (Seq<char>, MatchingWordPos),
>
    decreases n,
{
    if n == 0 || n > lines.len() {
        Seq::empty()
    } else {
        let before = regex_hits(pattern, lines, (n - 1) as nat);
        if before.len() > 10 {
            before
        } else {
            match first_match(pattern, lines[n - 1]) {
                Some(m) => before.push((m.1, MatchingWordPos { line_num: (n - 1) as usize, col: m.0 })),
                None => before,
            }
        }
    }
}

/// The query matches the text: every word of a word query is matched
/// somewhere, or the pattern of a regular-expression query on some line.
pub open spec fn found_in(query: Query, lines: Seq<Seq<char>>) -> bool {
    match query {
        Query::Words(words) => words@.len() > 0 && forall|w: int|
            0 <= w < words@.len() ==> (#[trigger] word_pos(
                strings_bytes(words@),
                lines,
                lines.len(),
                w,
            )) is Some,
        Query::Regex(pattern) => regex_hits(pattern@, lines, lines.len()).len() > 0,
    }
}

/// Where each word is first matched; `None` where no matcher could be built.
pub fn find_word_matches_in_document(words: &Vec<String>, content: &Vec<String>) -> (out: Option<
    Vec<Option<MatchingWordPos>>,
>)
    ensures
        out is Some <==> leftmost_builds(strings_bytes(words@)),
        out matches Some(found) ==> found@.len() == words@.len() && forall|w: int|
            0 <= w < words@.len() ==> #[trigger] found@[w] == word_pos(
                strings_bytes(words@),
                strings_view(content@),
                content@.len(),
                w,
            ),
{
    match build_leftmost_matcher(words) {
        Some(ac) => Some(word_matches_with(&ac, words, content)),
        None => None,
    }
}

/// Where each word is first matched, found with a leftmost-first matcher
/// that was built for the words.
pub fn word_matches_with(
    ac: &aho_corasick::AhoCorasick,
    words: &Vec<String>,
    content: &Vec<String>,
) -> (found: Vec<Option<MatchingWordPos>>)
    requires
        crate::matcher::matcher_is_leftmost(*ac),
        matcher_patterns(*ac) == strings_bytes(words@),
    ensures
        found@.len() == words@.len(),
        forall|w: int|
            0 <= w < words@.len() ==> #[trigger] found@[w] == word_pos(
                strings_bytes(words@),
                strings_view(content@),
                content@.len(),
                w,
            ),
{
    let ghost patterns = strings_bytes(words@);
    let ghost lines = strings_view(content@);
    let mut found: Vec<Option<MatchingWordPos>> = Vec::new();
    let mut w: usize = 0;
    while w < words.len()
        invariant
            w <= words@.len(),
            found@.len() == w,
            forall|k: int| 0 <= k < w ==> (#[trigger] found@[k]) is None,
        decreases words@.len() - w,
    {
        found.push(None);
        w += 1;
    }
    let mut line_num: usize = 0;
    while line_num < content.len()
        invariant
            line_num <= content@.len(),
            found@.len() == words@.len(),
            patterns == strings_bytes(words@),
            lines == strings_view(content@),
            matcher_patterns(*ac) == patterns,
            crate::matcher::matcher_is_leftmost(*ac),
            forall|k: int|
                0 <= k < words@.len() ==> #[trigger] found@[k] == word_pos(
                    patterns,
                    lines,
                    line_num as nat,
                    k,
                ),
        decreases content@.len() - line_num,
    {
        let hits = matches_in(ac, content[line_num].as_str());
        proof {
            assert(lines[line_num as int] == content@[line_num as int]@);
            assert(hits@.take(0) =~= Seq::<(usize, usize)>::empty());
        }
        let mut h: usize = 0;
        while h < hits.len()
            invariant
                h <= hits@.len(),
                line_num < content@.len(),
                found@.len() == words@.len(),
                lines == strings_view(content@),
                hits@ == leftmost_matches(patterns, encode_utf8(lines[line_num as int])),
                forall|k: int|
                    0 <= k < words@.len() ==> #[trigger] found@[k] == (match word_pos(
                        patterns,
                        lines,
                        line_num as nat,
                        k,
                    ) {
                        Some(pos) => Some(pos),
                        None => match first_in(hits@.take(h as int), k) {
                            Some(col) => Some(MatchingWordPos { line_num, col }),
                            None => None,
                        },
                    }),
            decreases hits@.len() - h,
        {
            let (pattern, start) = hits[h];
            proof {
                assert(hits@.take(h + 1).drop_last() =~= hits@.take(h as int));
                assert(hits@.take(h + 1).last() == hits@[h as int]);
            }
            if pattern < found.len() {
                if found[pattern].is_none() {
                    found.set(pattern, Some(MatchingWordPos { line_num, col: start }));
                }
            }
            h += 1;
        }
        proof {
            assert(hits@.take(hits@.len() as int) =~= hits@);
        }
        line_num += 1;
    }
    found
}

/// The lines that the pattern matches, at most eleven.
pub fn find_regex_matches_in_document(re: &regex::Regex, content: &Vec<String>) -> (out: Vec<
    (String, MatchingWordPos),
>)
    ensures
        out@.len() == regex_hits(regex_pattern(*re), strings_view(content@), content@.len()).len(),
        forall|i: int|
            0 <= i < out@.len() ==> (#[trigger] out@[i].0@, out@[i].1) == regex_hits(
                regex_pattern(*re),
                strings_view(content@),
                content@.len(),
            )[i],
{
    let ghost pattern = regex_pattern(*re);
    let ghost lines = strings_view(content@);
    let mut out: Vec<(String, MatchingWordPos)> = Vec::new();
    let mut line_num: usize = 0;
    while line_num < content.len()
        invariant
            line_num <= content@.len(),
            pattern == regex_pattern(*re),
            lines == strings_view(content@),
            out@.len() == regex_hits(pattern, lines, line_num as nat).len(),
            out@.len() <= 10,
            forall|i: int|
                0 <= i < out@.len() ==> (#[trigger] out@[i].0@, out@[i].1) == regex_hits(
                    pattern,
                    lines,
                    line_num as nat,
                )[i],
        decreases content@.len() - line_num,
    {
        proof {
            assert(lines[line_num as int] == content@[line_num as int]@);
        }
        match regex_find(re, content[line_num].as_str()) {
            Some(m) => {
                out.push((m.1, MatchingWordPos { line_num, col: m.0 }));
            },
            None => {},
        }
        line_num += 1;
        if out.len() > 10 {
            proof {
                lemma_hits_full(pattern, lines, line_num as nat, content@.len());
            }
            return out;
        }
    }
    out
}

/// Once more than ten lines match, no further line is looked at.
proof fn lemma_hits_full(pattern: Seq<char>, lines: Seq<Seq<char>>, n: nat, m: nat)
    requires
        n <= m <= lines.len(),
        regex_hits(pattern, lines, n).len() > 10,
    ensures
        regex_hits(pattern, lines, m) == regex_hits(pattern, lines, n),
    decreases m,
{
    if n < m {
        lemma_hits_full(pattern, lines, n, (m - 1) as nat);
    }
}


pub open spec fn strictly_ascending(v: Seq<usize>) -> bool {
    forall|i: int, j: int| 0 <= i < j < v.len() ==> v[i] < v[j]
}

/// Adds `x` to an ascending list of distinct numbers.
pub fn insert_sorted(v: &mut Vec<usize>, x: usize)
    requires
        strictly_ascending(old(v)@),
    ensures
        strictly_ascending(final(v)@),
        final(v)@.to_set() == old(v)@.to_set().insert(x),
{
    let mut i: usize = 0;
    while i < v.len() && v[i] < x
        invariant
            i <= v@.len(),
            v@ == old(v)@,
            forall|k: int| 0 <= k < i ==> v@[k] < x,
        decreases v@.len() - i,
    {
        i += 1;
    }
    if i < v.len() && v[i] == x {
        proof {
            assert(v@.to_set().contains(x));
            assert(v@.to_set() =~= v@.to_set().insert(x));
        }
        return ;
    }
    let ghost before = v@;
    v.insert(i, x);
    proof {
        assert forall|a: int, b: int| 0 <= a < b < v@.len() implies v@[a] < v@[b] by {
            let oa = if a < i {
                a
            } else {
                a - 1
            };
            let ob = if b < i {
                b
            } else {
                b - 1
            };
            if a != i && b != i {
                assert(v@[a] == before[oa]);
                assert(v@[b] == before[ob]);
            } else if a == i {
                assert(v@[b] == before[ob]);
                if ob > i {
                    assert(before[i as int] < before[ob]);
                }
            } else {
                assert(v@[a] == before[oa]);
            }
        }
        assert forall|y: usize| v@.to_set().contains(y) <==> before.to_set().insert(x).contains(
            y,
        ) by {
            if v@.contains(y) {
                let k = choose|k: int| 0 <= k < v@.len() && v@[k] == y;
                if k < i {
                    assert(before[k] == y);
                } else if k > i {
                    assert(before[k - 1] == y);
                }
            }
            if before.contains(y) {
                let k = choose|k: int| 0 <= k < before.len() && before[k] == y;
                if k < i {
                    assert(v@[k] == y);
                } else {
                    assert(v@[k + 1] == y);
                }
            }
            if y == x {
                assert(v@[i as int] == x);
            }
        }
        assert(v@.to_set() =~= before.to_set().insert(x));
    }
}

/// Line `l` is a match line or one of the two lines before or behind one.
pub open spec fn in_context(matches: Seq<(String, MatchingWordPos)>, n: int, l: usize) -> bool {
    exists|m: int| 0 <= m < n && (#[trigger] matches[m]).1.line_num <= l + 2 && l <= matches[m].1.line_num + 2
}

/// The match `(word, pos)` is listed among the words of its line.
pub open spec fn is_listed(
    words_per_line: Seq<(usize, Vec<(String, usize)>)>,
    word: Seq<char>,
    pos: MatchingWordPos,
) -> bool {
    exists|g: int, k: int|
        0 <= g < words_per_line.len() && 0 <= k < words_per_line[g].1@.len() && words_per_line[g].0
            == pos.line_num && (#[trigger] words_per_line[g].1@[k]).0@ == word
            && words_per_line[g].1@[k].1 == pos.col
}

/// The lines ascend, and in each line the offsets do not descend.
pub open spec fn listing_ordered(words_per_line: Seq<(usize, Vec<(String, usize)>)>) -> bool {
    &&& forall|g: int, h: int|
        0 <= g < h < words_per_line.len() ==> (#[trigger] words_per_line[g]).0 < (
        #[trigger] words_per_line[h]).0
    &&& forall|g: int, a: int, b: int|
        0 <= g < words_per_line.len() && 0 <= a < b < words_per_line[g].1@.len() ==> (
        #[trigger] words_per_line[g].1@[a]).1 <= (#[trigger] words_per_line[g].1@[b]).1
}

/// The place of the entry `k` of the line group `g`.
pub open spec fn entry_pos(words_per_line: Seq<(usize, Vec<(String, usize)>)>, g: int, k: int) -> MatchingWordPos {
    MatchingWordPos { line_num: words_per_line[g].0, col: words_per_line[g].1@[k].1 }
}

/// Every entry of the listing is one of the first `n` matches, and no line
/// is listed without an entry.
pub open spec fn listing_within(
    words_per_line: Seq<(usize, Vec<(String, usize)>)>,
    matches: Seq<(String, MatchingWordPos)>,
    n: int,
) -> bool {
    &&& forall|g: int|
        0 <= g < words_per_line.len() ==> (#[trigger] words_per_line[g]).1@.len() > 0
    &&& forall|g: int, k: int|
        0 <= g < words_per_line.len() && 0 <= k < words_per_line[g].1@.len() ==> exists|m: int|
            0 <= m < n && (#[trigger] matches[m]).0@ == (#[trigger] words_per_line[g].1@[k]).0@
                && matches[m].1 == entry_pos(words_per_line, g, k)
}

/// Lists one more match among the words of its line.
fn list_match(words_per_line: &mut Vec<(usize, Vec<(String, usize)>)>, word: String, pos: MatchingWordPos)
    requires
        listing_ordered(old(words_per_line)@),
    ensures
        listing_ordered(final(words_per_line)@),
        final(words_per_line)@.len() >= old(words_per_line)@.len(),
        is_listed(final(words_per_line)@, word@, pos),
        forall|w: Seq<char>, p: MatchingWordPos|
            is_listed(old(words_per_line)@, w, p) ==> is_listed(final(words_per_line)@, w, p),
        forall|g: int, k: int|
            0 <= g < final(words_per_line)@.len() && 0 <= k < final(words_per_line)@[g].1@.len() ==> ((
            #[trigger] final(words_per_line)@[g].1@[k]).0@ == word@ && entry_pos(
                final(words_per_line)@,
                g,
                k,
            ) == pos) || is_listed(
                old(words_per_line)@,
                final(words_per_line)@[g].1@[k].0@,
                entry_pos(final(words_per_line)@, g, k),
            ),
        (forall|g: int|
            0 <= g < old(words_per_line)@.len() ==> (#[trigger] old(words_per_line)@[g]).1@.len() > 0)
            ==> (forall|g: int|
            0 <= g < final(words_per_line)@.len() ==> (#[trigger] final(words_per_line)@[g]).1@.len()
                > 0),
{
    let ghost before = words_per_line@;
    let mut g: usize = 0;
    while g < words_per_line.len() && words_per_line[g].0 < pos.line_num
        invariant
            g <= words_per_line@.len(),
            words_per_line@ == before,
            forall|i: int| 0 <= i < g ==> (#[trigger] before[i]).0 < pos.line_num,
        decreases words_per_line@.len() - g,
    {
        g += 1;
    }
    if g < words_per_line.len() && words_per_line[g].0 == pos.line_num {
        let mut k: usize = 0;
        while k < words_per_line[g].1.len() && words_per_line[g].1[k].1 <= pos.col
            invariant
                g < words_per_line@.len(),
                k <= words_per_line@[g as int].1@.len(),
                words_per_line@ == before,
                forall|i: int| 0 <= i < k ==> (#[trigger] before[g as int].1@[i]).1 <= pos.col,
            decreases words_per_line@[g as int].1@.len() - k,
        {
            k += 1;
        }
        words_per_line[g].1.insert(k, (word, pos.col));
        proof {
            let old_words = before[g as int].1@;
            let new_words = words_per_line@[g as int].1@;
            assert forall|x: int, y: int|
                0 <= x < y < words_per_line@.len() implies (#[trigger] words_per_line@[x]).0 < (
            #[trigger] words_per_line@[y]).0 by {
                assert(words_per_line@[x].0 == before[x].0);
                assert(words_per_line@[y].0 == before[y].0);
            }
            assert forall|x: int, a: int, b: int|
                0 <= x < words_per_line@.len() && 0 <= a < b
                    < words_per_line@[x].1@.len() implies (#[trigger] words_per_line@[x].1@[a]).1
                <= (#[trigger] words_per_line@[x].1@[b]).1 by {
                if x != g {
                    assert(words_per_line@[x] == before[x]);
                } else {
                    let oa = if a < k {
                        a
                    } else {
                        a - 1
                    };
                    let ob = if b < k {
                        b
                    } else {
                        b - 1
                    };
                    if a != k && b != k {
                        assert(new_words[a] == old_words[oa]);
                        assert(new_words[b] == old_words[ob]);
                    } else if a == k {
                        assert(new_words[b] == old_words[ob]);
                        if ob > k {
                            assert(old_words[k as int].1 <= old_words[ob].1);
                        }
                    } else {
                        assert(new_words[a] == old_words[oa]);
                    }
                }
            }
            assert(words_per_line@[g as int].1@[k as int].0@ == word@);
            assert(is_listed(words_per_line@, word@, pos));
            assert forall|w: Seq<char>, p: MatchingWordPos|
                is_listed(before, w, p) implies is_listed(words_per_line@, w, p) by {
                let (g2, k2) = choose|g2: int, k2: int|
                    0 <= g2 < before.len() && 0 <= k2 < before[g2].1@.len() && before[g2].0
                        == p.line_num && (#[trigger] before[g2].1@[k2]).0@ == w && before[g2].1@[k2].1
                        == p.col;
                if g2 == g {
                    let k3 = if k2 < k {
                        k2
                    } else {
                        k2 + 1
                    };
                    assert(words_per_line@[g2].1@[k3] == before[g2].1@[k2]);
                } else {
                    assert(words_per_line@[g2] == before[g2]);
                    assert(words_per_line@[g2].1@[k2] == before[g2].1@[k2]);
                }
            }
            assert forall|x: int, a: int|
                0 <= x < words_per_line@.len() && 0 <= a < words_per_line@[x].1@.len() implies ((
            #[trigger] words_per_line@[x].1@[a]).0@ == word@ && entry_pos(words_per_line@, x, a)
                == pos) || is_listed(
                before,
                words_per_line@[x].1@[a].0@,
                entry_pos(words_per_line@, x, a),
            ) by {
                if x != g {
                    assert(words_per_line@[x] == before[x]);
                    assert(before[x].1@[a] == words_per_line@[x].1@[a]);
                } else if a != k {
                    let oa = if a < k {
                        a
                    } else {
                        a - 1
                    };
                    assert(new_words[a] == old_words[oa]);
                    assert(before[g as int].1@[oa] == words_per_line@[x].1@[a]);
                }
            }
            if forall|x: int| 0 <= x < before.len() ==> (#[trigger] before[x]).1@.len() > 0 {
                assert forall|x: int| 0 <= x < words_per_line@.len() implies (
                #[trigger] words_per_line@[x]).1@.len() > 0 by {
                    if x != g {
                        assert(words_per_line@[x] == before[x]);
                    }
                }
            }
        }
    } else {
        let mut entries: Vec<(String, usize)> = Vec::new();
        entries.push((word, pos.col));
        words_per_line.insert(g, (pos.line_num, entries));
        proof {
            assert forall|x: int, y: int|
                0 <= x < y < words_per_line@.len() implies (#[trigger] words_per_line@[x]).0 < (
            #[trigger] words_per_line@[y]).0 by {
                let ox = if x < g {
                    x
                } else {
                    x - 1
                };
                let oy = if y < g {
                    y
                } else {
                    y - 1
                };
                if x != g && y != g {
                    assert(words_per_line@[x] == before[ox]);
                    assert(words_per_line@[y] == before[oy]);
                } else if x == g {
                    assert(words_per_line@[y] == before[oy]);
                    if oy > g {
                        assert(before[g as int].0 < before[oy].0);
                    }
                } else {
                    assert(words_per_line@[x] == before[ox]);
                }
            }
            assert forall|x: int, a: int, b: int|
                0 <= x < words_per_line@.len() && 0 <= a < b
                    < words_per_line@[x].1@.len() implies (#[trigger] words_per_line@[x].1@[a]).1
                <= (#[trigger] words_per_line@[x].1@[b]).1 by {
                let ox = if x < g {
                    x
                } else {
                    x - 1
                };
                if x != g {
                    assert(words_per_line@[x] == before[ox]);
                }
            }
            assert(words_per_line@[g as int].1@[0].0@ == word@);
            assert(is_listed(words_per_line@, word@, pos));
            assert forall|w: Seq<char>, p: MatchingWordPos|
                is_listed(before, w, p) implies is_listed(words_per_line@, w, p) by {
                let (g2, k2) = choose|g2: int, k2: int|
                    0 <= g2 < before.len() && 0 <= k2 < before[g2].1@.len() && before[g2].0
                        == p.line_num && (#[trigger] before[g2].1@[k2]).0@ == w && before[g2].1@[k2].1
                        == p.col;
                let g3 = if g2 < g {
                    g2
                } else {
                    g2 + 1
                };
                assert(words_per_line@[g3] == before[g2]);
                assert(words_per_line@[g3].1@[k2] == before[g2].1@[k2]);
            }
            assert forall|x: int, a: int|
                0 <= x < words_per_line@.len() && 0 <= a < words_per_line@[x].1@.len() implies ((
            #[trigger] words_per_line@[x].1@[a]).0@ == word@ && entry_pos(words_per_line@, x, a)
                == pos) || is_listed(
                before,
                words_per_line@[x].1@[a].0@,
                entry_pos(words_per_line@, x, a),
            ) by {
                if x != g {
                    let ox = if x < g {
                        x
                    } else {
                        x - 1
                    };
                    assert(words_per_line@[x] == before[ox]);
                    assert(before[ox].1@[a] == words_per_line@[x].1@[a]);
                }
            }
            if forall|x: int| 0 <= x < before.len() ==> (#[trigger] before[x]).1@.len() > 0 {
                assert forall|x: int| 0 <= x < words_per_line@.len() implies (
                #[trigger] words_per_line@[x]).1@.len() > 0 by {
                    if x != g {
                        let ox = if x < g {
                            x
                        } else {
                            x - 1
                        };
                        assert(words_per_line@[x] == before[ox]);
                    }
                }
            }
        }
    }
}


/// The lines of the context of the matches, with their text.
pub open spec fn context_lines(
    lines: Seq<(usize, String)>,
    matches: Seq<(String, MatchingWordPos)>,
    content: Seq<String>,
) -> bool {
    &&& forall|i: int, j: int| 0 <= i < j < lines.len() ==> (#[trigger] lines[i]).0 < (#[trigger] lines[j]).0
    &&& forall|i: int|
        0 <= i < lines.len() ==> (#[trigger] lines[i]).0 < content.len() && lines[i].1@
            == content[lines[i].0 as int]@ && in_context(matches, matches.len() as int, lines[i].0)
    &&& forall|l: usize|
        l < content.len() && in_context(matches, matches.len() as int, l) ==> exists|i: int|
            0 <= i < lines.len() && (#[trigger] lines[i]).0 == l
}

/// A matcher can be built for the query: for its words, or for its pattern.
pub open spec fn query_builds(query: Query) -> bool {
    match query {
        Query::Words(words) => leftmost_builds(strings_bytes(words@)),
        Query::Regex(pattern) => regex_builds(pattern@),
    }
}

/// `matches` are the matches of the query in the lines: for words the
/// first match of each word, in the order of the words; for a pattern the
/// first match on each line that has one, at most eleven.
pub open spec fn matches_are(
    query: Query,
    lines: Seq<Seq<char>>,
    matches: Seq<(String, MatchingWordPos)>,
) -> bool {
    match query {
        Query::Words(words) => matches.len() == words@.len() && forall|k: int|
            0 <= k < matches.len() ==> (#[trigger] matches[k]).0@ == words@[k]@ && Some(
                matches[k].1,
            ) == word_pos(strings_bytes(words@), lines, lines.len(), k),
        Query::Regex(pattern) => matches.len() == regex_hits(pattern@, lines, lines.len()).len()
            && forall|i: int|
            0 <= i < matches.len() ==> ((#[trigger] matches[i]).0@, matches[i].1) == regex_hits(
                pattern@,
                lines,
                lines.len(),
            )[i],
    }
}

/// What is shown is what the query matches in the content: each match is
/// listed under its line, nothing else is listed, and the lines shown are
/// the lines with a match and the two lines before and behind each.
pub open spec fn shows(shown: SingleCommitSearchResult, query: Query, content: Seq<String>) -> bool {
    exists|matches: Seq<(String, MatchingWordPos)>|
        {
            &&& #[trigger] matches_are(query, strings_view(content), matches)
            &&& listing_ordered(shown.words_per_line@)
            &&& forall|m: int|
                0 <= m < matches.len() ==> is_listed(
                    shown.words_per_line@,
                    (#[trigger] matches[m]).0@,
                    matches[m].1,
                )
            &&& listing_within(shown.words_per_line@, matches, matches.len() as int)
            &&& context_lines(shown.lines@, matches, content)
        }
}

impl SingleCommitSearchResult {
    /// What is shown of the matches that were found in the version of a file
    /// at a commit: nothing where there is no match.
    pub fn from_matches(
        commit_id: CommitIndex,
        matches: Vec<(String, MatchingWordPos)>,
        file_content: &Vec<String>,
    ) -> (out: Option<Self>)
        ensures
            out is None <==> matches@.len() == 0,
            out matches Some(shown) ==> {
                &&& shown.commit_id == commit_id
                &&& listing_ordered(shown.words_per_line@)
                &&& forall|m: int|
                    0 <= m < matches@.len() ==> is_listed(
                        shown.words_per_line@,
                        (#[trigger] matches@[m]).0@,
                        matches@[m].1,
                    )
                &&& listing_within(shown.words_per_line@, matches@, matches@.len() as int)
                &&& context_lines(shown.lines@, matches@, file_content@)
            },
    {
        if matches.len() == 0 {
            return None;
        }
        let mut words_per_line: Vec<(usize, Vec<(String, usize)>)> = Vec::new();
        let mut numbers: Vec<usize> = Vec::new();
        let mut m: usize = 0;
        while m < matches.len()
            invariant
                m <= matches@.len(),
                strictly_ascending(numbers@),
                listing_ordered(words_per_line@),
                listing_within(words_per_line@, matches@, m as int),
                forall|k: int|
                    0 <= k < m ==> is_listed(
                        words_per_line@,
                        (#[trigger] matches@[k]).0@,
                        matches@[k].1,
                    ),
                forall|l: usize|
                    numbers@.to_set().contains(l) <==> l < file_content@.len() && in_context(
                        matches@,
                        m as int,
                        l,
                    ),
            decreases matches@.len() - m,
        {
            let pos = matches[m].1;
            let ghost listed = words_per_line@;
            list_match(&mut words_per_line, matches[m].0.clone(), pos);
            proof {
                assert forall|g: int, k: int|
                    0 <= g < words_per_line@.len() && 0 <= k
                        < words_per_line@[g].1@.len() implies exists|e: int|
                    0 <= e < m + 1 && (#[trigger] matches@[e]).0@ == (
                    #[trigger] words_per_line@[g].1@[k]).0@ && matches@[e].1 == entry_pos(
                        words_per_line@,
                        g,
                        k,
                    ) by {
                    let w = words_per_line@[g].1@[k].0@;
                    let p = entry_pos(words_per_line@, g, k);
                    if w == matches@[m as int].0@ && p == pos {
                        assert(matches@[m as int].1 == p);
                    } else {
                        assert(is_listed(listed, w, p));
                        let (g2, k2) = choose|g2: int, k2: int|
                            0 <= g2 < listed.len() && 0 <= k2 < listed[g2].1@.len() && listed[g2].0
                                == p.line_num && (#[trigger] listed[g2].1@[k2]).0@ == w
                                && listed[g2].1@[k2].1 == p.col;
                        let e = choose|e: int|
                            0 <= e < m && (#[trigger] matches@[e]).0@ == (
                            #[trigger] listed[g2].1@[k2]).0@ && matches@[e].1 == entry_pos(
                                listed,
                                g2,
                                k2,
                            );
                        assert(matches@[e].1 == p);
                    }
                }
            }
            let low: usize = if pos.line_num >= 2 {
                pos.line_num - 2
            } else {
                0
            };
            let high: usize = if pos.line_num <= usize::MAX - 2 {
                pos.line_num + 2
            } else {
                usize::MAX
            };
            let ghost start = numbers@.to_set();
            let mut l: usize = low;
            while l <= high && l < file_content.len()
                invariant
                    low <= l <= high + 1,
                    low <= high,
                    strictly_ascending(numbers@),
                    forall|x: usize|
                        numbers@.to_set().contains(x) <==> start.contains(x) || (low <= x < l && x
                            < file_content@.len()),
                decreases file_content@.len() - l,
            {
                insert_sorted(&mut numbers, l);
                l += 1;
            }
            proof {
                assert forall|x: usize|
                    numbers@.to_set().contains(x) <==> x < file_content@.len() && in_context(
                        matches@,
                        m + 1,
                        x,
                    ) by {
                    let here = matches@[m as int].1.line_num <= x + 2 && x <= matches@[m as int].1.line_num
                        + 2;
                    assert(pos == matches@[m as int].1);
                    assert(start.contains(x) <==> x < file_content@.len() && in_context(
                        matches@,
                        m as int,
                        x,
                    ));
                    if x < file_content@.len() && in_context(matches@, m + 1, x) {
                        let k = choose|k: int|
                            0 <= k < m + 1 && (#[trigger] matches@[k]).1.line_num <= x + 2 && x
                                <= matches@[k].1.line_num + 2;
                        if k < m {
                            assert(in_context(matches@, m as int, x));
                            assert(start.contains(x));
                        } else {
                            assert(here);
                            assert(low <= x <= high);
                            assert(x < l);
                        }
                        assert(numbers@.to_set().contains(x));
                    }
                    if numbers@.to_set().contains(x) {
                        if start.contains(x) {
                            let k = choose|k: int|
                                0 <= k < m && (#[trigger] matches@[k]).1.line_num <= x + 2 && x
                                    <= matches@[k].1.line_num + 2;
                            assert(0 <= k < m + 1);
                            assert(in_context(matches@, m + 1, x));
                        } else {
                            assert(low <= x < l);
                            assert(here);
                            assert(matches@[m as int].1.line_num <= x + 2);
                            assert(in_context(matches@, m + 1, x));
                        }
                    }
                }
            }
            m += 1;
        }
        let mut lines: Vec<(usize, String)> = Vec::new();
        let mut i: usize = 0;
        while i < numbers.len()
            invariant
                i <= numbers@.len(),
                lines@.len() == i,
                forall|l: usize|
                    numbers@.to_set().contains(l) <==> l < file_content@.len() && in_context(
                        matches@,
                        matches@.len() as int,
                        l,
                    ),
                forall|k: int|
                    0 <= k < i ==> (#[trigger] lines@[k]).0 == numbers@[k] && lines@[k].1@
                        == file_content@[numbers@[k] as int]@,
            decreases numbers@.len() - i,
        {
            let number = numbers[i];
            proof {
                assert(numbers@.to_set().contains(number));
            }
            lines.push((number, file_content[number].clone()));
            i += 1;
        }
        proof {
            assert forall|i: int|
                0 <= i < lines@.len() implies (#[trigger] lines@[i]).0 < file_content@.len()
                && lines@[i].1@ == file_content@[lines@[i].0 as int]@ && in_context(
                matches@,
                matches@.len() as int,
                lines@[i].0,
            ) by {
                assert(numbers@.to_set().contains(numbers@[i]));
            }
            assert forall|l: usize|
                l < file_content@.len() && in_context(
                    matches@,
                    matches@.len() as int,
                    l,
                ) implies exists|i: int| 0 <= i < lines@.len() && (#[trigger] lines@[i]).0 == l by {
                assert(numbers@.to_set().contains(l));
                let k = choose|k: int| 0 <= k < numbers@.len() && numbers@[k] == l;
                assert(lines@[k].0 == l);
            }
        }
        Some(SingleCommitSearchResult { commit_id, words_per_line, lines })
    }

    /// Looks for the query in the version of a file at a commit.
    pub fn new(query: &Query, commit_id: CommitIndex, file_content: &Vec<String>) -> (out: Result<
        Option<Self>,
        SearchError,
    >)
        ensures
            match out {
                Ok(Some(shown)) => found_in(*query, strings_view(file_content@)) && shown.commit_id
                    == commit_id && shows(shown, *query, file_content@),
                Ok(None) => !found_in(*query, strings_view(file_content@)),
                Err(e) => e == SearchError::Pattern,
            },
            out is Err <==> !query_builds(*query),
    {
        let mut matches: Vec<(String, MatchingWordPos)> = Vec::new();
        match query {
            Query::Words(words) => {
                let found = match find_word_matches_in_document(words, file_content) {
                    Some(found) => found,
                    None => {
                        return Err(SearchError::Pattern);
                    },
                };
                let mut w: usize = 0;
                while w < words.len()
                    invariant
                        w <= words@.len(),
                        *query matches Query::Words(list) && list == *words,
                        query_builds(*query),
                        found@.len() == words@.len(),
                        matches@.len() == w,
                        forall|k: int|
                            0 <= k < w ==> (#[trigger] matches@[k]).0@ == words@[k]@ && Some(
                                matches@[k].1,
                            ) == found@[k],
                        forall|k: int|
                            0 <= k < words@.len() ==> #[trigger] found@[k] == word_pos(
                                strings_bytes(words@),
                                strings_view(file_content@),
                                file_content@.len(),
                                k,
                            ),
                        forall|k: int| 0 <= k < w ==> (#[trigger] found@[k]) is Some,
                    decreases words@.len() - w,
                {
                    match found[w] {
                        Some(pos) => {
                            matches.push((words[w].clone(), pos));
                        },
                        None => {
                            // Not every word is found in the document.
                            proof {
                                assert(word_pos(
                                    strings_bytes(words@),
                                    strings_view(file_content@),
                                    file_content@.len(),
                                    w as int,
                                ) is None);
                            }
                            return Ok(None);
                        },
                    }
                    w += 1;
                }
                proof {
                    assert forall|k: int| 0 <= k < words@.len() implies (#[trigger] word_pos(
                        strings_bytes(words@),
                        strings_view(file_content@),
                        file_content@.len(),
                        k,
                    )) is Some by {
                        assert(found@[k] is Some);
                    }
                }
            },
            Query::Regex(pattern) => {
                let re = match compile_regex(pattern.as_str()) {
                    Some(re) => re,
                    None => {
                        return Err(SearchError::Pattern);
                    },
                };
                matches = find_regex_matches_in_document(&re, file_content);
            },
        }
        let ghost found = matches@;
        proof {
            assert(matches_are(*query, strings_view(file_content@), found));
        }
        match Self::from_matches(commit_id, matches, file_content) {
            Some(shown) => Ok(Some(shown)),
            None => Ok(None),
        }
    }
}

/// What is shown is what the query matches in the file at the commit of
/// `shown`, and the path is the path of the file there.
pub open spec fn shown_at<R: RepoReader>(
    reader: &R,
    query: Query,
    file_id: FileId,
    path: Seq<char>,
    shown: SingleCommitSearchResult,
) -> bool {
    reader.content_at(shown.commit_id, file_id) matches Ok(Some(found)) && found.0@ == path
        && exists|lines: Seq<String>|
        strings_view(lines) == text_lines(found.1@) && #[trigger] shows(shown, query, lines)
}

/// The file at the commit holds a match of the query.
pub open spec fn hit_at<R: RepoReader>(reader: &R, query: Query, commit_id: CommitIndex, file_id: FileId) -> bool {
    reader.content_at(commit_id, file_id) matches Ok(Some(found)) && found_in(
        query,
        text_lines(found.1@),
    )
}

/// What is shown of a raw result: the first commit of the result at which
/// the file holds a match of the query, and the last such commit behind it;
/// nothing where the file holds a match at none of the commits; an error
/// only where the file could not be read at some commit of the result.
pub open spec fn first_and_last<R: RepoReader>(
    reader: &R,
    result: &RawPerFileSearchResult,
    out: Result<Option<SearchResult>, SearchError>,
) -> bool {
    match out {
        Ok(Some(hit)) => {
            let first = hit.first_match.commit_id;
            &&& first <= u32::MAX
            &&& members(result.overlapped_commits).contains(first as u32)
            &&& hit_at(reader, result.query, first, result.file_id as usize)
            &&& shown_at(
                reader,
                result.query,
                result.file_id as usize,
                hit.file_path@,
                hit.first_match,
            )
            &&& forall|c: u32|
                members(result.overlapped_commits).contains(c) && c < first ==> !hit_at(
                    reader,
                    result.query,
                    c as usize,
                    result.file_id as usize,
                )
            &&& match hit.last_match {
                Some(last) => {
                    &&& first < last.commit_id <= u32::MAX
                    &&& members(result.overlapped_commits).contains(last.commit_id as u32)
                    &&& hit_at(reader, result.query, last.commit_id, result.file_id as usize)
                    &&& exists|path: Seq<char>| #[trigger]
                        shown_at(reader, result.query, result.file_id as usize, path, last)
                    &&& forall|c: u32|
                        members(result.overlapped_commits).contains(c) && c
                            > last.commit_id ==> !hit_at(
                            reader,
                            result.query,
                            c as usize,
                            result.file_id as usize,
                        )
                },
                None => forall|c: u32|
                    members(result.overlapped_commits).contains(c) && c > first ==> !hit_at(
                        reader,
                        result.query,
                        c as usize,
                        result.file_id as usize,
                    ),
            }
        },
        Ok(None) => forall|c: u32|
            members(result.overlapped_commits).contains(c) ==> !hit_at(
                reader,
                result.query,
                c as usize,
                result.file_id as usize,
            ),
        Err(SearchError::Read(e)) => exists|c: u32|
            members(result.overlapped_commits).contains(c) && (#[trigger] reader.content_at(
                c as usize,
                result.file_id as usize,
            ) matches Err(m) && m@ == e@),
        Err(SearchError::Pattern) => !query_builds(result.query) && file_is_read(reader, result),
    }
}

/// At some commit of the result the file is there and can be read.
pub open spec fn file_is_read<R: RepoReader>(reader: &R, result: &RawPerFileSearchResult) -> bool {
    exists|c: u32|
        members(result.overlapped_commits).contains(c) && #[trigger] reader.content_at(
            c as usize,
            result.file_id as usize,
        ) matches Ok(Some(_))
}

/// No reading at a commit of the result fails.
pub open spec fn all_read<R: RepoReader>(reader: &R, result: &RawPerFileSearchResult) -> bool {
    forall|c: u32|
        members(result.overlapped_commits).contains(c) ==> (#[trigger] reader.content_at(
            c as usize,
            result.file_id as usize,
        )) is Ok
}

impl SearchResult {
    /// Reads the file at a commit and looks for the query in it.
    pub fn get_search_result_at_commit<R: RepoReader>(
        reader: &R,
        query: &Query,
        commit_id: CommitIndex,
        file_id: FileId,
    ) -> (out: Result<(String, Option<SingleCommitSearchResult>), SearchError>)
        ensures
            match out {
                Ok((path, Some(shown))) => hit_at(reader, *query, commit_id, file_id)
                    && shown.commit_id == commit_id && shown_at(
                    reader,
                    *query,
                    file_id,
                    path@,
                    shown,
                ),
                Ok((path, None)) => !hit_at(reader, *query, commit_id, file_id),
                Err(SearchError::Read(e)) => (reader.content_at(commit_id, file_id) matches Err(m)
                    && m@ == e@),
                Err(SearchError::Pattern) => reader.content_at(commit_id, file_id) matches Ok(
                    Some(_),
                ) && !query_builds(*query),
            },
            out is Err <==> reader.content_at(commit_id, file_id) is Err || (reader.content_at(
                commit_id,
                file_id,
            ) matches Ok(Some(_)) && !query_builds(*query)),
    {
        let (file_path, content) = match reader.read_file_at_commit(commit_id, file_id) {
            Ok(Some(found)) => found,
            Ok(None) => {
                return Ok((String::new(), None));
            },
            Err(e) => {
                return Err(SearchError::Read(e));
            },
        };
        let lines = lines_of(content.as_str());
        match SingleCommitSearchResult::new(query, commit_id, &lines) {
            Ok(shown) => Ok((file_path, shown)),
            Err(e) => Err(e),
        }
    }

    /// What is shown of a raw result: the first commit of the result at which
    /// the file holds a match of the query, and the last such commit behind
    /// it; nothing where the file holds a match at none of the commits.
    pub fn new<R: RepoReader>(reader: &R, result: &RawPerFileSearchResult) -> (out: Result<
        Option<Self>,
        SearchError,
    >)
        ensures
            first_and_last(reader, result, out),
            all_read(reader, result) ==> (out is Err <==> !query_builds(result.query)
                && file_is_read(reader, result)),
    {
        let commits = ascending(&result.overlapped_commits);
        let file_id = result.file_id as usize;
        let mut found_first: Option<(String, SingleCommitSearchResult)> = None;
        let mut i: usize = 0;
        while i < commits.len() && found_first.is_none()
            invariant
                i <= commits@.len(),
                file_id == result.file_id,
                commits@.to_set() == members(result.overlapped_commits),
                forall|a: int, b: int| 0 <= a < b < commits@.len() ==> commits@[a] < commits@[b],
                found_first is None ==> forall|k: int|
                    0 <= k < i ==> !hit_at(reader, result.query, #[trigger] commits@[k] as usize, file_id),
                query_builds(result.query) || forall|k: int|
                    0 <= k < i ==> !(#[trigger] reader.content_at(commits@[k] as usize, file_id) matches Ok(
                        Some(_),
                    )),
                found_first is Some ==> query_builds(result.query),
                found_first matches Some(f) ==> (i > 0 && f.1.commit_id == commits@[i - 1] && hit_at(
                    reader,
                    result.query,
                    f.1.commit_id,
                    file_id,
                ) && shown_at(reader, result.query, file_id, f.0@, f.1) && forall|k: int|
                    0 <= k < i - 1 ==> !hit_at(
                        reader,
                        result.query,
                        #[trigger] commits@[k] as usize,
                        file_id,
                    )),
            decreases commits@.len() - i + (if found_first is None { 1int } else { 0int }),
        {
            let commit_id = commits[i] as usize;
            proof {
                assert(commits@.to_set().contains(commits@[i as int]));
            }
            match SearchResult::get_search_result_at_commit(reader, &result.query, commit_id, file_id) {
                Ok((path, Some(shown))) => {
                    found_first = Some((path, shown));
                },
                Ok((_, None)) => {},
                Err(e) => {
                    proof {
                        let c = commits@[i as int];
                        assert(members(result.overlapped_commits).contains(c));
                        if reader.content_at(c as usize, result.file_id as usize) matches Ok(
                            Some(_),
                        ) {
                            assert(file_is_read(reader, result));
                        }
                    }
                    return Err(e);
                },
            }
            i += 1;
        }
        let (file_path, first) = match found_first {
            Some(f) => f,
            None => {
                proof {
                    assert forall|c: u32|
                        members(result.overlapped_commits).contains(c) implies !hit_at(
                        reader,
                        result.query,
                        c as usize,
                        file_id,
                    ) by {
                        assert(commits@.to_set().contains(c));
                        let k = choose|k: int| 0 <= k < commits@.len() && commits@[k] == c;
                        assert(!hit_at(reader, result.query, commits@[k] as usize, file_id));
                    }
                    if !query_builds(result.query) && file_is_read(reader, result) {
                        let c = choose|c: u32|
                            members(result.overlapped_commits).contains(c) && #[trigger] reader.content_at(
                                c as usize,
                                result.file_id as usize,
                            ) matches Ok(Some(_));
                        assert(commits@.to_set().contains(c));
                        let k = choose|k: int| 0 <= k < commits@.len() && commits@[k] == c;
                        assert(!(reader.content_at(commits@[k] as usize, file_id) matches Ok(
                            Some(_),
                        )));
                    }
                }
                return Ok(None);
            },
        };
        let first_at = i - 1;
        let first_commit_id = first.commit_id;
        proof {
            assert forall|c: u32|
                members(result.overlapped_commits).contains(c) && c < first_commit_id implies !hit_at(
                reader,
                result.query,
                c as usize,
                file_id,
            ) by {
                assert(commits@.to_set().contains(c));
                let k = choose|k: int| 0 <= k < commits@.len() && commits@[k] == c;
                if k >= first_at {
                    if k > first_at {
                        assert(commits@[first_at as int] < commits@[k]);
                    }
                }
                assert(!hit_at(reader, result.query, commits@[k] as usize, file_id));
            }
            assert(commits@.to_set().contains(commits@[first_at as int]));
        }
        let mut last: Option<SingleCommitSearchResult> = None;
        let mut j: usize = commits.len();
        while j > first_at + 1 && last.is_none()
            invariant
                first_at < j <= commits@.len(),
                file_id == result.file_id,
                query_builds(result.query),
                first_commit_id == commits@[first_at as int],
                commits@.to_set() == members(result.overlapped_commits),
                forall|a: int, b: int| 0 <= a < b < commits@.len() ==> commits@[a] < commits@[b],
                last is None ==> forall|k: int|
                    j <= k < commits@.len() ==> !hit_at(
                        reader,
                        result.query,
                        #[trigger] commits@[k] as usize,
                        file_id,
                    ),
                last matches Some(l) ==> (j < commits@.len() && l.commit_id == commits@[j as int]
                    && hit_at(reader, result.query, l.commit_id, file_id) && (exists|
                    path: Seq<char>,
                | #[trigger] shown_at(reader, result.query, file_id, path, l)) && forall|k: int|
                    j < k < commits@.len() ==> !hit_at(
                        reader,
                        result.query,
                        #[trigger] commits@[k] as usize,
                        file_id,
                    )),
            decreases j + (if last is None { 1int } else { 0int }),
        {
            j -= 1;
            let commit_id = commits[j] as usize;
            match SearchResult::get_search_result_at_commit(reader, &result.query, commit_id, file_id) {
                Ok((_, Some(shown))) => {
                    last = Some(shown);
                },
                Ok((_, None)) => {},
                Err(e) => {
                    proof {
                        assert(commits@.to_set().contains(commits@[j as int]));
                        assert(members(result.overlapped_commits).contains(commits@[j as int]));
                    }
                    return Err(e);
                },
            }
        }
        proof {
            match &last {
                Some(l) => {
                    assert(commits@[first_at as int] < commits@[j as int]);
                    assert(commits@.to_set().contains(commits@[j as int]));
                    assert forall|c: u32|
                        members(result.overlapped_commits).contains(c) && c
                            > l.commit_id implies !hit_at(
                        reader,
                        result.query,
                        c as usize,
                        file_id,
                    ) by {
                        assert(commits@.to_set().contains(c));
                        let k = choose|k: int| 0 <= k < commits@.len() && commits@[k] == c;
                        if k <= j {
                            if k < j {
                                assert(commits@[k] < commits@[j as int]);
                            }
                        }
                        assert(!hit_at(reader, result.query, commits@[k] as usize, file_id));
                    }
                },
                None => {
                    assert forall|c: u32|
                        members(result.overlapped_commits).contains(c) && c
                            > first_commit_id implies !hit_at(
                        reader,
                        result.query,
                        c as usize,
                        file_id,
                    ) by {
                        assert(commits@.to_set().contains(c));
                        let k = choose|k: int| 0 <= k < commits@.len() && commits@[k] == c;
                        if k <= first_at {
                            if k < first_at {
                                assert(commits@[k] < commits@[first_at as int]);
                            }
                        }
                        assert(!hit_at(reader, result.query, commits@[k] as usize, file_id));
                    }
                },
            }
        }
        Ok(Some(SearchResult { file_path, first_match: first, last_match: last }))
    }
}


/// A reader over versions that are held in memory: for each commit, for each
/// file id, the path and the text of the file, where the commit has it. Asked
/// for a commit that it does not have, it complains with `missing`.
pub struct SnapshotReader {
    pub commits: Vec<Vec<Option<(String, String)>>>,
    pub missing: String,
}

impl RepoReader for SnapshotReader {
    open spec fn content_at(&self, commit_id: CommitIndex, file_id: FileId) -> Result<
        Option<(String, String)>,
        String,
    > {
        if commit_id >= self.commits@.len() {
            Err(self.missing)
        } else if file_id >= self.commits@[commit_id as int]@.len() {
            Ok(None)
        } else {
            match self.commits@[commit_id as int]@[file_id as int] {
                Some(found) => Ok(Some(found)),
                None => Ok(None),
            }
        }
    }

    fn read_file_at_commit(&self, commit_id: CommitIndex, file_id: FileId) -> (out: Result<
        Option<(String, String)>,
        String,
    >) {
        if commit_id >= self.commits.len() {
            return Err(self.missing.clone());
        }
        let files = &self.commits[commit_id];
        if file_id >= files.len() {
            return Ok(None);
        }
        match &files[file_id] {
            Some(found) => Ok(Some((found.0.clone(), found.1.clone()))),
            None => Ok(None),
        }
    }
}

} // verus!
