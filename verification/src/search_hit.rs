//! A search result as it is handed to a client: the matches of the first and
//! of the last commit, line by line, with lines counted from one.

use crate::search_result::SearchResult;
use crate::search_result::SingleCommitSearchResult;
use crate::line_formatter::get_highlighted_line;
use crate::line_formatter::gutter_text;
use crate::line_formatter::highlighted;
use crate::line_formatter::marks_fit;
use crate::line_formatter::owned_marks_of;
use vstd::prelude::*;
use vstd::string::StringSliceAdditionalSpecFns;
use vstd::utf8::encode_utf8;

verus! {

#[derive(Debug, Clone, PartialEq, Eq)]
pub struct LineHighlight {
    pub term: String,
    pub column: usize,
}

#[derive(Debug, Clone, PartialEq, Eq)]
pub struct LineMatch {
    pub line_number: usize,
    pub content: String,
    pub highlights: Vec<LineHighlight>,
}

/// What is known of a commit besides its index.
#[derive(Debug, Clone, PartialEq, Eq)]
pub struct CommitInfo {
    pub commit_date: String,
    pub commit_summary: String,
}

#[derive(Debug, Clone, PartialEq, Eq)]
pub struct MatchDetail {
    pub commit_index: usize,
    pub commit_sha: String,
    pub commit_date: String,
    pub commit_summary: String,
    pub lines: Vec<LineMatch>,
}

#[derive(Debug, Clone, PartialEq, Eq)]
pub struct SearchHit {
    pub file_path: String,
    pub first_match: MatchDetail,
    pub last_match: Option<MatchDetail>,
}

/// The hexadecimal digit of a number below sixteen, in lower case.
pub open spec fn hex_digit(d: int) -> char {
    if d == 0 {
        '0'
    } else if d == 1 {
        '1'
    } else if d == 2 {
        '2'
    } else if d == 3 {
        '3'
    } else if d == 4 {
        '4'
    } else if d == 5 {
        '5'
    } else if d == 6 {
        '6'
    } else if d == 7 {
        '7'
    } else if d == 8 {
        '8'
    } else if d == 9 {
        '9'
    } else if d == 10 {
        'a'
    } else if d == 11 {
        'b'
    } else if d == 12 {
        'c'
    } else if d == 13 {
        'd'
    } else if d == 14 {
        'e'
    } else {
        'f'
    }
}

/// The bytes in hexadecimal, two digits each.
pub open spec fn hex_of(bytes: Seq<u8>) -> Seq<char> {
    Seq::new(
        2 * bytes.len(),
        |i: int|
            if i % 2 == 0 {
                hex_digit((bytes[i / 2] / 16) as int)
            } else {
                hex_digit((bytes[i / 2] % 16) as int)
            },
    )
}

fn hex_char(d: u8) -> (c: char)
    requires
        d < 16,
    ensures
        c == hex_digit(d as int),
{
    if d == 0 {
        '0'
    } else if d == 1 {
        '1'
    } else if d == 2 {
        '2'
    } else if d == 3 {
        '3'
    } else if d == 4 {
        '4'
    } else if d == 5 {
        '5'
    } else if d == 6 {
        '6'
    } else if d == 7 {
        '7'
    } else if d == 8 {
        '8'
    } else if d == 9 {
        '9'
    } else if d == 10 {
        'a'
    } else if d == 11 {
        'b'
    } else if d == 12 {
        'c'
    } else if d == 13 {
        'd'
    } else if d == 14 {
        'e'
    } else {
        'f'
    }
}

/// A commit hash as it is written: forty hexadecimal digits.
pub fn commit_sha_hex(commit_id: &[u8; 20]) -> (sha: String)
    ensures
        sha@ == hex_of(commit_id@),
{
    let mut digits: Vec<char> = Vec::new();
    let mut i: usize = 0;
    while i < 20
        invariant
            i <= 20,
            digits@.len() == 2 * i,
            forall|k: int| 0 <= k < 2 * i ==> digits@[k] == hex_of(commit_id@)[k],
        decreases 20 - i,
    {
        let byte = commit_id[i];
        digits.push(hex_char(byte / 16));
        digits.push(hex_char(byte % 16));
        i += 1;
    }
    proof {
        assert(digits@ =~= hex_of(commit_id@));
    }
    crate::text::string_from_chars(&digits)
}

/// The highlights of the line `line`: the matched texts that are listed for
/// it, in their order.
pub open spec fn highlights_of(
    words_per_line: Seq<(usize, Vec<(String, usize)>)>,
    line: usize,
    n: int,
) -> Seq<(Seq<char>, usize)>
    decreases n,
{
    if n <= 0 || n > words_per_line.len() {
        Seq::empty()
    } else if words_per_line[n - 1].0 == line {
        Seq::new(
            words_per_line[n - 1].1@.len(),
            |k: int| (words_per_line[n - 1].1@[k].0@, words_per_line[n - 1].1@[k].1),
        )
    } else {
        highlights_of(words_per_line, line, n - 1)
    }
}

pub open spec fn highlights_view(list: Seq<LineHighlight>) -> Seq<(Seq<char>, usize)> {
    Seq::new(list.len(), |k: int| (list[k].term@, list[k].column))
}

/// A line number counted from one.
pub open spec fn from_one(line: usize) -> usize {
    if line < usize::MAX {
        (line + 1) as usize
    } else {
        line
    }
}

/// The lines are the lines of the result, in order and counted from one,
/// each with its text and its highlights.
pub open spec fn lines_shown(out: Seq<LineMatch>, s: &SingleCommitSearchResult) -> bool {
    &&& out.len() == s.lines@.len()
    &&& forall|i: int|
        0 <= i < out.len() ==> {
            &&& (#[trigger] out[i]).line_number == from_one(s.lines@[i].0)
            &&& out[i].content@ == s.lines@[i].1@
            &&& highlights_view(out[i].highlights@) == highlights_of(
                s.words_per_line@,
                s.lines@[i].0,
                s.words_per_line@.len() as int,
            )
        }
}

impl LineMatch {
    /// The lines of a result, counted from one, each with its highlights.
    pub fn new(s: &SingleCommitSearchResult) -> (out: Vec<Self>)
        ensures
            lines_shown(out@, s),
    {
        let mut out: Vec<LineMatch> = Vec::new();
        let mut i: usize = 0;
        while i < s.lines.len()
            invariant
                i <= s.lines@.len(),
                out@.len() == i,
                forall|k: int|
                    0 <= k < i ==> {
                        &&& (#[trigger] out@[k]).line_number == from_one(s.lines@[k].0)
                        &&& out@[k].content@ == s.lines@[k].1@
                        &&& highlights_view(out@[k].highlights@) == highlights_of(
                            s.words_per_line@,
                            s.lines@[k].0,
                            s.words_per_line@.len() as int,
                        )
                    },
            decreases s.lines@.len() - i,
        {
            let line = s.lines[i].0;
            let mut highlights: Vec<LineHighlight> = Vec::new();
            let mut g: usize = s.words_per_line.len();
            let mut found = false;
            while g > 0 && !found
                invariant
                    g <= s.words_per_line@.len(),
                    !found ==> highlights@.len() == 0 && highlights_of(
                        s.words_per_line@,
                        line,
                        s.words_per_line@.len() as int,
                    ) == highlights_of(s.words_per_line@, line, g as int),
                    found ==> highlights_view(highlights@) == highlights_of(
                        s.words_per_line@,
                        line,
                        s.words_per_line@.len() as int,
                    ),
                decreases g + (if found { 0int } else { 1int }),
            {
                if s.words_per_line[g - 1].0 == line {
                    let words = &s.words_per_line[g - 1].1;
                    let mut k: usize = 0;
                    while k < words.len()
                        invariant
                            k <= words@.len(),
                            highlights@.len() == k,
                            forall|j: int|
                                0 <= j < k ==> (#[trigger] highlights@[j]).term@ == words@[j].0@
                                    && highlights@[j].column == words@[j].1,
                        decreases words@.len() - k,
                    {
                        highlights.push(
                            LineHighlight { term: words[k].0.clone(), column: words[k].1 },
                        );
                        k += 1;
                    }
                    proof {
                        assert(highlights_view(highlights@) =~= highlights_of(
                            s.words_per_line@,
                            line,
                            g as int,
                        ));
                    }
                    found = true;
                } else {
                    g -= 1;
                }
            }
            proof {
                if !found {
                    assert(highlights_view(highlights@) =~= highlights_of(
                        s.words_per_line@,
                        line,
                        0,
                    ));
                }
            }
            let line_number = if line < usize::MAX {
                line + 1
            } else {
                line
            };
            out.push(LineMatch { line_number, content: s.lines[i].1.clone(), highlights });
            i += 1;
        }
        out
    }
}

impl MatchDetail {
    /// The matches of one commit, with what is known of the commit.
    pub fn from_single_commit_result(
        commit_id: &[u8; 20],
        info: CommitInfo,
        result: &SingleCommitSearchResult,
    ) -> (out: Self)
        ensures
            out.commit_index == result.commit_id,
            out.commit_sha@ == hex_of(commit_id@),
            out.commit_date == info.commit_date,
            out.commit_summary == info.commit_summary,
            lines_shown(out.lines@, result),
    {
        MatchDetail {
            commit_index: result.commit_id,
            commit_sha: commit_sha_hex(commit_id),
            commit_date: info.commit_date,
            commit_summary: info.commit_summary,
            lines: LineMatch::new(result),
        }
    }
}


impl SearchHit {
    /// A search result with what is known of its commits. `None` where a commit
    /// of the result is none of the given commits, or where nothing is given of
    /// the commit of the last match.
    pub fn from_search_result(
        commit_index_to_commit_id: &Vec<[u8; 20]>,
        first_info: CommitInfo,
        last_info: Option<CommitInfo>,
        s: &SearchResult,
    ) -> (out: Option<Self>)
        ensures
            out is Some <==> s.first_match.commit_id < commit_index_to_commit_id@.len() && (
            s.last_match matches Some(last) ==> last.commit_id < commit_index_to_commit_id@.len()
                && last_info is Some),
            out matches Some(hit) ==> {
                &&& hit.file_path@ == s.file_path@
                &&& hit.first_match.commit_index == s.first_match.commit_id
                &&& hit.first_match.commit_sha@ == hex_of(
                    commit_index_to_commit_id@[s.first_match.commit_id as int]@,
                )
                &&& hit.first_match.commit_date == first_info.commit_date
                &&& hit.first_match.commit_summary == first_info.commit_summary
                &&& lines_shown(hit.first_match.lines@, &s.first_match)
                &&& hit.last_match is Some <==> s.last_match is Some
                &&& hit.last_match matches Some(detail) ==> detail.commit_index
                    == s.last_match->Some_0.commit_id && detail.commit_sha@ == hex_of(
                    commit_index_to_commit_id@[detail.commit_index as int]@,
                ) && detail.commit_date == last_info->Some_0.commit_date && detail.commit_summary
                    == last_info->Some_0.commit_summary && lines_shown(
                    detail.lines@,
                    &s.last_match->Some_0,
                )
            },
    {
        if s.first_match.commit_id >= commit_index_to_commit_id.len() {
            return None;
        }
        let last_match = match &s.last_match {
            Some(last) => {
                if last.commit_id >= commit_index_to_commit_id.len() {
                    return None;
                }
                match last_info {
                    Some(info) => Some(
                        MatchDetail::from_single_commit_result(
                            &commit_index_to_commit_id[last.commit_id],
                            info,
                            last,
                        ),
                    ),
                    None => {
                        return None;
                    },
                }
            },
            None => None,
        };
        Some(
            SearchHit {
                file_path: s.file_path.clone(),
                first_match: MatchDetail::from_single_commit_result(
                    &commit_index_to_commit_id[s.first_match.commit_id],
                    first_info,
                    &s.first_match,
                ),
                last_match,
            },
        )
    }
}

/// The words that are listed for a line, with their offsets.
fn words_at(words_per_line: &Vec<(usize, Vec<(String, usize)>)>, line: usize) -> (out: Vec<
    (String, usize),
>)
    ensures
        owned_marks_of(out@) == highlights_of(words_per_line@, line, words_per_line@.len() as int),
{
    let mut out: Vec<(String, usize)> = Vec::new();
    let mut g: usize = words_per_line.len();
    while g > 0
        invariant
            g <= words_per_line@.len(),
            out@.len() == 0,
            highlights_of(words_per_line@, line, words_per_line@.len() as int) == highlights_of(
                words_per_line@,
                line,
                g as int,
            ),
        decreases g,
    {
        if words_per_line[g - 1].0 == line {
            let words = &words_per_line[g - 1].1;
            let mut k: usize = 0;
            while k < words.len()
                invariant
                    k <= words@.len(),
                    out@.len() == k,
                    forall|j: int|
                        0 <= j < k ==> (#[trigger] out@[j]).0@ == words@[j].0@ && out@[j].1
                            == words@[j].1,
                decreases words@.len() - k,
            {
                out.push((words[k].0.clone(), words[k].1));
                k += 1;
            }
            proof {
                assert(owned_marks_of(out@) =~= highlights_of(words_per_line@, line, g as int));
            }
            return out;
        }
        g -= 1;
    }
    proof {
        assert(owned_marks_of(out@) =~= highlights_of(words_per_line@, line, 0));
    }
    out
}

/// Line `i` of a result as it is shown.
pub open spec fn shown_line(result: &SingleCommitSearchResult, i: int) -> Seq<char> {
    gutter_text(result.lines@[i].0) + highlighted(
        encode_utf8(result.lines@[i].1@),
        highlights_of(result.words_per_line@, result.lines@[i].0, result.words_per_line@.len() as int),
        0,
        0,
    )
}

/// The words of line `i` of a result can be marked at their offsets.
pub open spec fn line_fits(result: &SingleCommitSearchResult, i: int) -> bool {
    marks_fit(
        encode_utf8(result.lines@[i].1@),
        highlights_of(result.words_per_line@, result.lines@[i].0, result.words_per_line@.len() as int),
        0,
        0,
    )
}

/// The lines of a result as they are shown, each with its number and with
/// its matches in red. `None` where the words of a line cannot be marked
/// at their offsets.
pub fn convert_search_result_to_lines(result: &SingleCommitSearchResult) -> (out: Option<Vec<String>>)
    ensures
        match out {
            Some(lines) => lines@.len() == result.lines@.len() && (forall|i: int|
                0 <= i < lines@.len() ==> #[trigger] line_fits(result, i)) && (forall|i: int|
                0 <= i < lines@.len() ==> (#[trigger] lines@[i])@ == shown_line(result, i)),
            None => exists|i: int| 0 <= i < result.lines@.len() && !#[trigger] line_fits(result, i),
        },
{
    let mut lines: Vec<String> = Vec::new();
    let mut i: usize = 0;
    while i < result.lines.len()
        invariant
            i <= result.lines@.len(),
            lines@.len() == i,
            forall|k: int| 0 <= k < i ==> #[trigger] line_fits(result, k),
            forall|k: int| 0 <= k < i ==> (#[trigger] lines@[k])@ == shown_line(result, k),
        decreases result.lines@.len() - i,
    {
        let words = words_at(&result.words_per_line, result.lines[i].0);
        let text = result.lines[i].1.as_str();
        proof {
            assert(text@ == result.lines@[i as int].1@);
            assert(text.spec_bytes() == encode_utf8(result.lines@[i as int].1@));
        }
        match get_highlighted_line(text, result.lines[i].0, &words) {
            Some(line) => {
                proof {
                    assert(line_fits(result, i as int));
                    assert(line@ == shown_line(result, i as int));
                }
                lines.push(line);
            },
            None => {
                proof {
                    assert(!line_fits(result, i as int));
                }
                return None;
            },
        }
        i += 1;
    }
    Some(lines)
}

} // verus!
