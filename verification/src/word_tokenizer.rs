//! Splitting text into words: the stretches between white space and
//! punctuation, each with the lines, or the lines and columns, where it
//! stands.

use crate::keys::PathIndex;
use crate::matcher::lines_of;
use crate::matcher::strings_view;
use crate::matcher::text_lines;
use crate::text::char_at;
use crate::text::chars_of;
use crate::text::string_from_chars;
use crate::tokenizer::Tokenizer;
use crate::tokenizer::TokenizerResult;
use crate::tokenizer::WordPosition;
use vstd::prelude::*;
use vstd::utf8::encode_scalar;
use vstd::utf8::encode_utf8;

verus! {

/// ASCII white space or punctuation: what stands between words.
pub open spec fn is_separator(c: char) -> bool {
    let u = c as u32;
    u == 32 || u == 9 || u == 10 || u == 12 || u == 13 || (33 <= u <= 47) || (58 <= u <= 64) || (91
        <= u <= 96) || (123 <= u <= 126)
}

/// The number of bytes that a character takes in UTF-8.
pub open spec fn char_width(c: char) -> int {
    let u = c as u32;
    if u < 0x80 {
        1
    } else if u < 0x800 {
        2
    } else if u < 0x10000 {
        3
    } else {
        4
    }
}

/// The byte offset of the character at position `i` of a line.
pub open spec fn offset_of(line: Seq<char>, i: int) -> int
    decreases i,
{
    if i <= 0 || i > line.len() {
        0
    } else {
        offset_of(line, i - 1) + char_width(line[i - 1])
    }
}

/// The words among the first `n` characters of a line, as stretches of
/// positions: from the first character of the word up to behind its last.
pub open spec fn runs(line: Seq<char>, n: int) -> Seq<(int, int)>
    decreases n,
{
    if n <= 0 || n > line.len() {
        Seq::empty()
    } else {
        let before = runs(line, n - 1);
        if is_separator(line[n - 1]) {
            before
        } else if n >= 2 && !is_separator(line[n - 2]) {
            before.drop_last().push((before.last().0, n))
        } else {
            before.push((n - 1, n))
        }
    }
}

/// One word where it stands: the word, its line and its byte offset in the
/// line.
pub struct Occurrence {
    pub word: Seq<char>,
    pub line: int,
    pub col: int,
}

/// The first `n` words of line `number`, in reading order.
pub open spec fn line_occurrences(line: Seq<char>, number: int, n: int) -> Seq<Occurrence>
    decreases n,
{
    if n <= 0 || n > runs(line, line.len() as int).len() {
        Seq::empty()
    } else {
        let run = runs(line, line.len() as int)[n - 1];
        line_occurrences(line, number, n - 1).push(
            Occurrence {
                word: line.subrange(run.0, run.1),
                line: number,
                col: offset_of(line, run.0),
            },
        )
    }
}

/// The words of the first `n` lines, in reading order. Line `i` has the
/// number `start + i`.
pub open spec fn occurrences(lines: Seq<Seq<char>>, start: int, n: int) -> Seq<Occurrence>
    decreases n,
{
    if n <= 0 || n > lines.len() {
        Seq::empty()
    } else {
        occurrences(lines, start, n - 1) + line_occurrences(
            lines[n - 1],
            start + n - 1,
            runs(lines[n - 1], lines[n - 1].len() as int).len() as int,
        )
    }
}

/// Where the word `w` stands among the first `n` occurrences: line and
/// column of each.
pub open spec fn positions_of(all: Seq<Occurrence>, w: Seq<char>, n: int) -> Seq<(int, int)>
    decreases n,
{
    if n <= 0 || n > all.len() {
        Seq::empty()
    } else if all[n - 1].word == w {
        positions_of(all, w, n - 1).push((all[n - 1].line, all[n - 1].col))
    } else {
        positions_of(all, w, n - 1)
    }
}

/// The lines on which the word `w` stands among the first `n` occurrences,
/// each once.
pub open spec fn lines_with(all: Seq<Occurrence>, w: Seq<char>, n: int) -> Seq<int>
    decreases n,
{
    if n <= 0 || n > all.len() {
        Seq::empty()
    } else {
        let before = lines_with(all, w, n - 1);
        if all[n - 1].word == w && (before.len() == 0 || before.last() != all[n - 1].line) {
            before.push(all[n - 1].line)
        } else {
            before
        }
    }
}

/// The word is one of the entries.
pub open spec fn listed(words: Seq<Seq<char>>, w: Seq<char>) -> bool {
    exists|e: int| 0 <= e < words.len() && (#[trigger] words[e]) == w
}

/// The entries list the words of `all`, each once, each with where it stands.
pub open spec fn grouped(
    words: Seq<Seq<char>>,
    positions: Seq<Seq<(int, int)>>,
    lines: Seq<Seq<int>>,
    all: Seq<Occurrence>,
) -> bool {
    &&& words.len() == positions.len()
    &&& words.len() == lines.len()
    &&& forall|e: int, f: int| 0 <= e < f < words.len() ==> (#[trigger] words[e]) != (#[trigger] words[f])
    &&& forall|e: int|
        0 <= e < words.len() ==> #[trigger] positions[e] == positions_of(
            all,
            words[e],
            all.len() as int,
        )
    &&& forall|e: int|
        0 <= e < words.len() ==> #[trigger] lines[e] == lines_with(all, words[e], all.len() as int)
    &&& forall|e: int| 0 <= e < words.len() ==> (#[trigger] positions[e]).len() > 0
    &&& forall|k: int| 0 <= k < all.len() ==> listed(words, (#[trigger] all[k]).word)
}

pub fn is_word_separator(c: char) -> (out: bool)
    ensures
        out == is_separator(c),
{
    let u: u32 = c as u32;
    u == 32 || u == 9 || u == 10 || u == 12 || u == 13 || (33 <= u && u <= 47) || (58 <= u && u
        <= 64) || (91 <= u && u <= 96) || (123 <= u && u <= 126)
}

fn width_of(c: char) -> (out: usize)
    ensures
        out == char_width(c),
{
    let u: u32 = c as u32;
    if u < 0x80 {
        1
    } else if u < 0x800 {
        2
    } else if u < 0x10000 {
        3
    } else {
        4
    }
}

/// The words of a line as stretches of character positions, and the byte
/// offset of every position.
fn line_runs(chars: &Vec<char>) -> (out: (Vec<(usize, usize)>, Vec<usize>))
    requires
        encode_utf8(chars@).len() <= usize::MAX,
    ensures
        out.0@.len() == runs(chars@, chars@.len() as int).len(),
        forall|k: int|
            0 <= k < out.0@.len() ==> (#[trigger] out.0@[k]).0 == runs(
                chars@,
                chars@.len() as int,
            )[k].0 && out.0@[k].1 == runs(chars@, chars@.len() as int)[k].1 && out.0@[k].0
                < out.0@[k].1 <= chars@.len(),
        out.1@.len() == chars@.len() + 1,
        forall|i: int| 0 <= i <= chars@.len() ==> #[trigger] out.1@[i] == offset_of(chars@, i),
{
    let mut found: Vec<(usize, usize)> = Vec::new();
    let mut offsets: Vec<usize> = Vec::new();
    offsets.push(0);
    let mut i: usize = 0;
    while i < chars.len()
        invariant
            i <= chars@.len(),
            encode_utf8(chars@).len() <= usize::MAX,
            offsets@.len() == i + 1,
            forall|k: int| 0 <= k <= i ==> #[trigger] offsets@[k] == offset_of(chars@, k),
            found@.len() == runs(chars@, i as int).len(),
            forall|k: int|
                0 <= k < found@.len() ==> (#[trigger] found@[k]).0 == runs(chars@, i as int)[k].0
                    && found@[k].1 == runs(chars@, i as int)[k].1 && found@[k].0 < found@[k].1
                    <= i,
            i > 0 && !is_separator(chars@[i - 1]) ==> found@.len() > 0 && found@.last().1 == i,
        decreases chars@.len() - i,
    {
        let c = char_at(chars, i);
        let ghost before = runs(chars@, i as int);
        if !is_word_separator(c) {
            let open = i > 0 && !is_word_separator(char_at(chars, i - 1));
            if open {
                let last = found.len() - 1;
                let start = found[last].0;
                found.set(last, (start, i + 1));
                proof {
                    assert(runs(chars@, i + 1) =~= before.drop_last().push((before.last().0, i + 1)));
                }
            } else {
                found.push((i, i + 1));
                proof {
                    assert(runs(chars@, i + 1) =~= before.push((i as int, i + 1)));
                }
            }
        }
        proof {
            lemma_offset_bound(chars@, i + 1);
        }
        let offset = offsets[i] + width_of(c);
        offsets.push(offset);
        i += 1;
    }
    (found, offsets)
}

/// The words of the lines, each once, with the line and the byte offset of
/// each place where it stands, and with the lines that hold it. Line `i` has
/// the number `line_start_index + i`.
pub fn words_with_positions(lines: &Vec<String>, line_start_index: usize) -> (out: (
    Vec<String>,
    Vec<Vec<(usize, usize)>>,
    Vec<Vec<usize>>,
))
    requires
        line_start_index + lines@.len() <= usize::MAX,
    ensures
        grouped(
            strings_view(out.0@),
            pairs_view(out.1@),
            numbers_view(out.2@),
            occurrences(strings_view(lines@), line_start_index as int, lines@.len() as int),
        ),
{
    let ghost texts = strings_view(lines@);
    let ghost start = line_start_index as int;
    let mut index = PathIndex::new();
    let mut positions: Vec<Vec<(usize, usize)>> = Vec::new();
    let mut numbers: Vec<Vec<usize>> = Vec::new();
    let mut i: usize = 0;
    while i < lines.len()
        invariant
            i <= lines@.len(),
            texts == strings_view(lines@),
            start == line_start_index,
            line_start_index + lines@.len() <= usize::MAX,
            index.wf(),
            grouped(
                strings_view(index.paths@),
                pairs_view(positions@),
                numbers_view(numbers@),
                occurrences(texts, start, i as int),
            ),
        decreases lines@.len() - i,
    {
        let chars = chars_of(lines[i].as_str());
        let size = lines[i].as_str().as_bytes().len();
        proof {
            assert(texts[i as int] == lines@[i as int]@);
            assert(size == encode_utf8(chars@).len());
        }
        let (found, offsets) = line_runs(&chars);
        let number = line_start_index + i;
        let ghost done = occurrences(texts, start, i as int);
        let ghost here = chars@;
        let mut r: usize = 0;
        while r < found.len()
            invariant
                r <= found@.len(),
                i < lines@.len(),
                here == chars@,
                here == texts[i as int],
                number == start + i,
                done == occurrences(texts, start, i as int),
                found@.len() == runs(here, here.len() as int).len(),
                forall|k: int|
                    0 <= k < found@.len() ==> (#[trigger] found@[k]).0 == runs(
                        here,
                        here.len() as int,
                    )[k].0 && found@[k].1 == runs(here, here.len() as int)[k].1 && found@[k].0
                        < found@[k].1 <= here.len(),
                offsets@.len() == here.len() + 1,
                forall|k: int| 0 <= k <= here.len() ==> #[trigger] offsets@[k] == offset_of(here, k),
                index.wf(),
                grouped(
                    strings_view(index.paths@),
                    pairs_view(positions@),
                    numbers_view(numbers@),
                    done + line_occurrences(here, number as int, r as int),
                ),
            decreases found@.len() - r,
        {
            let (from, to) = found[r];
            let mut letters: Vec<char> = Vec::new();
            let mut k: usize = from;
            while k < to
                invariant
                    from <= k <= to <= chars@.len(),
                    letters@ == chars@.subrange(from as int, k as int),
                decreases to - k,
            {
                letters.push(char_at(&chars, k));
                proof {
                    assert(letters@ =~= chars@.subrange(from as int, k + 1));
                }
                k += 1;
            }
            let word = string_from_chars(&letters);
            let col = offsets[from];
            let ghost before_words = strings_view(index.paths@);
            let ghost before_positions = pairs_view(positions@);
            let ghost before_numbers = numbers_view(numbers@);
            let ghost all = done + line_occurrences(here, number as int, r as int);
            let ghost occ = Occurrence { word: word@, line: number as int, col: col as int };
            let ghost old_positions = positions@;
            let ghost old_numbers = numbers@;
            let ghost old_index = index;
            let (at, added) = index.find_or_add(word.as_str());
            if added {
                let mut first: Vec<(usize, usize)> = Vec::new();
                first.push((number, col));
                positions.push(first);
                let mut first_line: Vec<usize> = Vec::new();
                first_line.push(number);
                numbers.push(first_line);
            } else {
                positions[at].push((number, col));
                let last = numbers[at].len();
                if last == 0 || numbers[at][last - 1] != number {
                    numbers[at].push(number);
                }
            }
            proof {
                assert(word@ == here.subrange(from as int, to as int));
                if added {
                    assert forall|e: int| 0 <= e < before_words.len() implies (
                    #[trigger] before_words[e]) != occ.word by {
                        assert(old_index.has_path(old_index.paths@[e]@));
                    }
                    assert(pairs_view(positions@)[at as int] =~= seq![(occ.line, occ.col)]);
                    assert(numbers_view(numbers@)[at as int] =~= seq![occ.line]);
                } else {
                    assert(pairs_view(positions@)[at as int] =~= before_positions[at as int].push(
                        (occ.line, occ.col),
                    ));
                    if old_numbers[at as int]@.len() == 0 || old_numbers[at as int]@.last()
                        != number {
                        assert(numbers_view(numbers@)[at as int] =~= before_numbers[at as int].push(
                            occ.line,
                        ));
                    } else {
                        assert(numbers_view(numbers@)[at as int] =~= before_numbers[at as int]);
                    }
                }
                assert forall|e: int| 0 <= e < before_words.len() && e != at implies (
                #[trigger] pairs_view(positions@)[e]) == before_positions[e] && numbers_view(
                    numbers@,
                )[e] == before_numbers[e] by {
                    assert(positions@[e] == old_positions[e]);
                    assert(numbers@[e] == old_numbers[e]);
                }
                assert(line_occurrences(here, number as int, r + 1) == line_occurrences(
                    here,
                    number as int,
                    r as int,
                ).push(occ));
                assert(done + line_occurrences(here, number as int, r + 1) =~= all.push(occ));
                lemma_group_step(
                    before_words,
                    before_positions,
                    before_numbers,
                    strings_view(index.paths@),
                    pairs_view(positions@),
                    numbers_view(numbers@),
                    all,
                    occ,
                    at as int,
                    added,
                );
            }
            r += 1;
        }
        proof {
            assert(occurrences(texts, start, i + 1) == done + line_occurrences(
                here,
                number as int,
                found@.len() as int,
            ));
        }
        i += 1;
    }
    (index.paths, positions, numbers)
}

pub open spec fn pair_row(row: Seq<(usize, usize)>) -> Seq<(int, int)> {
    Seq::new(row.len(), |k: int| (row[k].0 as int, row[k].1 as int))
}

pub open spec fn number_row(row: Seq<usize>) -> Seq<int> {
    Seq::new(row.len(), |k: int| row[k] as int)
}

pub open spec fn pairs_view(list: Seq<Vec<(usize, usize)>>) -> Seq<Seq<(int, int)>> {
    Seq::new(list.len(), |e: int| pair_row(list[e]@))
}

pub open spec fn numbers_view(list: Seq<Vec<usize>>) -> Seq<Seq<int>> {
    Seq::new(list.len(), |e: int| number_row(list[e]@))
}

/// The words of the entries.
pub open spec fn position_words(list: Seq<(String, Vec<(usize, usize)>)>) -> Seq<Seq<char>> {
    Seq::new(list.len(), |e: int| list[e].0@)
}

/// The words of the entries.
pub open spec fn line_words(list: Seq<(String, Vec<usize>)>) -> Seq<Seq<char>> {
    Seq::new(list.len(), |e: int| list[e].0@)
}

/// The words are those of `all`, each once.
pub open spec fn covers(words: Seq<Seq<char>>, all: Seq<Occurrence>) -> bool {
    &&& forall|e: int, f: int| 0 <= e < f < words.len() ==> (#[trigger] words[e]) != (#[trigger] words[f])
    &&& forall|e: int|
        0 <= e < words.len() ==> positions_of(all, #[trigger] words[e], all.len() as int).len() > 0
    &&& forall|k: int| 0 <= k < all.len() ==> listed(words, (#[trigger] all[k]).word)
}

/// The entries give each word of `all` once, with the line and column of
/// every place where it stands, in reading order.
pub open spec fn with_positions(
    list: Seq<(String, Vec<(usize, usize)>)>,
    all: Seq<Occurrence>,
) -> bool {
    &&& covers(position_words(list), all)
    &&& forall|e: int|
        0 <= e < list.len() ==> pair_row((#[trigger] list[e]).1@) == positions_of(
            all,
            list[e].0@,
            all.len() as int,
        )
}

/// The entries give each word of `all` once, with the lines that hold it,
/// ascending, each line once.
pub open spec fn with_lines(list: Seq<(String, Vec<usize>)>, all: Seq<Occurrence>) -> bool {
    &&& covers(line_words(list), all)
    &&& forall|e: int|
        0 <= e < list.len() ==> number_row((#[trigger] list[e]).1@) == lines_with(
            all,
            list[e].0@,
            all.len() as int,
        )
}

/// The words with their places, as one list of entries.
fn position_entries(words: &Vec<String>, positions: &Vec<Vec<(usize, usize)>>) -> (out: Vec<
    (String, Vec<(usize, usize)>),
>)
    requires
        words@.len() == positions@.len(),
    ensures
        position_words(out@) == strings_view(words@),
        out@.len() == words@.len(),
        forall|e: int| 0 <= e < out@.len() ==> (#[trigger] out@[e]).1@ == positions@[e]@,
{
    let mut out: Vec<(String, Vec<(usize, usize)>)> = Vec::new();
    let mut e: usize = 0;
    while e < words.len()
        invariant
            e <= words@.len(),
            words@.len() == positions@.len(),
            out@.len() == e,
            forall|k: int|
                0 <= k < e ==> (#[trigger] out@[k]).0@ == words@[k]@ && out@[k].1@
                    == positions@[k]@,
        decreases words@.len() - e,
    {
        let mut row: Vec<(usize, usize)> = Vec::new();
        let mut k: usize = 0;
        while k < positions[e].len()
            invariant
                e < positions@.len(),
                k <= positions@[e as int]@.len(),
                row@ == positions@[e as int]@.take(k as int),
            decreases positions@[e as int]@.len() - k,
        {
            row.push(positions[e][k]);
            proof {
                assert(row@ =~= positions@[e as int]@.take(k + 1));
            }
            k += 1;
        }
        proof {
            assert(row@ =~= positions@[e as int]@);
        }
        out.push((words[e].clone(), row));
        e += 1;
    }
    proof {
        assert(position_words(out@) =~= strings_view(words@));
    }
    out
}

/// The words with their lines, as one list of entries.
fn line_entries(words: &Vec<String>, numbers: &Vec<Vec<usize>>) -> (out: Vec<(String, Vec<usize>)>)
    requires
        words@.len() == numbers@.len(),
    ensures
        line_words(out@) == strings_view(words@),
        out@.len() == words@.len(),
        forall|e: int| 0 <= e < out@.len() ==> (#[trigger] out@[e]).1@ == numbers@[e]@,
{
    let mut out: Vec<(String, Vec<usize>)> = Vec::new();
    let mut e: usize = 0;
    while e < words.len()
        invariant
            e <= words@.len(),
            words@.len() == numbers@.len(),
            out@.len() == e,
            forall|k: int|
                0 <= k < e ==> (#[trigger] out@[k]).0@ == words@[k]@ && out@[k].1@ == numbers@[k]@,
        decreases words@.len() - e,
    {
        let mut row: Vec<usize> = Vec::new();
        let mut k: usize = 0;
        while k < numbers[e].len()
            invariant
                e < numbers@.len(),
                k <= numbers@[e as int]@.len(),
                row@ == numbers@[e as int]@.take(k as int),
            decreases numbers@[e as int]@.len() - k,
        {
            row.push(numbers[e][k]);
            proof {
                assert(row@ =~= numbers@[e as int]@.take(k + 1));
            }
            k += 1;
        }
        proof {
            assert(row@ =~= numbers@[e as int]@);
        }
        out.push((words[e].clone(), row));
        e += 1;
    }
    proof {
        assert(line_words(out@) =~= strings_view(words@));
    }
    out
}

/// The words of the lines with the place of every occurrence.
pub fn words_by_position(lines: &Vec<String>, line_start_index: usize) -> (out: TokenizerResult)
    requires
        line_start_index + lines@.len() <= usize::MAX,
    ensures
        out.word_pos matches WordPosition::LineNumWithColNoDedup(list) && with_positions(
            list@,
            occurrences(strings_view(lines@), line_start_index as int, lines@.len() as int),
        ) && strings_view(out.total_words@) == position_words(list@),
{
    let (words, positions, _numbers) = words_with_positions(lines, line_start_index);
    let list = position_entries(&words, &positions);
    proof {
        let all = occurrences(strings_view(lines@), line_start_index as int, lines@.len() as int);
        assert forall|e: int| 0 <= e < list@.len() implies pair_row((#[trigger] list@[e]).1@)
            == positions_of(all, list@[e].0@, all.len() as int) by {
            assert(pairs_view(positions@)[e] == pair_row(positions@[e]@));
            assert(position_words(list@)[e] == list@[e].0@);
        }
        assert forall|e: int| 0 <= e < words@.len() implies positions_of(
            all,
            #[trigger] strings_view(words@)[e],
            all.len() as int,
        ).len() > 0 by {
            assert(pairs_view(positions@)[e].len() > 0);
        }
    }
    TokenizerResult { total_words: words, word_pos: WordPosition::LineNumWithColNoDedup(list) }
}

/// The words of the lines with the lines that hold each.
pub fn words_by_line(lines: &Vec<String>, line_start_index: usize) -> (out: TokenizerResult)
    requires
        line_start_index + lines@.len() <= usize::MAX,
    ensures
        out.word_pos matches WordPosition::LineNumOnlyWithDedup(list) && with_lines(
            list@,
            occurrences(strings_view(lines@), line_start_index as int, lines@.len() as int),
        ) && strings_view(out.total_words@) == line_words(list@),
{
    let (words, positions, numbers) = words_with_positions(lines, line_start_index);
    let list = line_entries(&words, &numbers);
    proof {
        let all = occurrences(strings_view(lines@), line_start_index as int, lines@.len() as int);
        assert forall|e: int| 0 <= e < list@.len() implies number_row((#[trigger] list@[e]).1@)
            == lines_with(all, list@[e].0@, all.len() as int) by {
            assert(numbers_view(numbers@)[e] == number_row(numbers@[e]@));
            assert(line_words(list@)[e] == list@[e].0@);
        }
        assert forall|e: int| 0 <= e < words@.len() implies positions_of(
            all,
            #[trigger] strings_view(words@)[e],
            all.len() as int,
        ).len() > 0 by {
            assert(pairs_view(positions@)[e].len() > 0);
        }
    }
    TokenizerResult { total_words: words, word_pos: WordPosition::LineNumOnlyWithDedup(list) }
}

impl Tokenizer {
    /// The words of a text, each with the line and the byte offset of every
    /// place where it stands. Lines count from 0.
    pub fn split_to_words_with_col(content: &str) -> (out: TokenizerResult)
        ensures
            out.word_pos matches WordPosition::LineNumWithColNoDedup(list) && with_positions(
                list@,
                occurrences(text_lines(content@), 0, text_lines(content@).len() as int),
            ) && strings_view(out.total_words@) == position_words(list@),
    {
        let lines = lines_of(content);
        let _count: usize = lines.len();
        assert(strings_view(lines@).len() == lines@.len());
        words_by_position(&lines, 0)
    }

    /// The words of a text, each with the lines that hold it. Lines count
    /// from 0.
    pub fn split_to_word_line_only(content: &str) -> (out: TokenizerResult)
        ensures
            out.word_pos matches WordPosition::LineNumOnlyWithDedup(list) && with_lines(
                list@,
                occurrences(text_lines(content@), 0, text_lines(content@).len() as int),
            ) && strings_view(out.total_words@) == line_words(list@),
    {
        let lines = lines_of(content);
        let _count: usize = lines.len();
        assert(strings_view(lines@).len() == lines@.len());
        words_by_line(&lines, 0)
    }

    /// The words of the lines, each with the lines that hold it. The first
    /// line has the number `line_start_index`.
    pub fn split_lines_to_word_line_only(lines: &Vec<String>, line_start_index: usize) -> (out:
        TokenizerResult)
        requires
            line_start_index + lines@.len() <= usize::MAX,
        ensures
            out.word_pos matches WordPosition::LineNumOnlyWithDedup(list) && with_lines(
                list@,
                occurrences(strings_view(lines@), line_start_index as int, lines@.len() as int),
            ) && strings_view(out.total_words@) == line_words(list@),
    {
        words_by_line(lines, line_start_index)
    }
}

/// The bytes of two texts in a row are the bytes of the one and of the other.
proof fn lemma_encode_concat(a: Seq<char>, b: Seq<char>)
    ensures
        encode_utf8(a + b).len() == encode_utf8(a).len() + encode_utf8(b).len(),
    decreases a.len(),
{
    if a.len() == 0 {
        assert(a + b =~= b);
    } else {
        assert((a + b).drop_first() =~= a.drop_first() + b);
        lemma_encode_concat(a.drop_first(), b);
    }
}

/// The offset of a position is the number of bytes before it.
proof fn lemma_offset_bytes(line: Seq<char>, i: int)
    requires
        0 <= i <= line.len(),
    ensures
        offset_of(line, i) == encode_utf8(line.take(i)).len(),
    decreases i,
{
    if i > 0 {
        lemma_offset_bytes(line, i - 1);
        let c = line[i - 1];
        assert(line.take(i) =~= line.take(i - 1) + seq![c]);
        lemma_encode_concat(line.take(i - 1), seq![c]);
        let one = seq![c];
        assert(one.len() == 1 && one[0] == c);
        assert(one.drop_first() =~= Seq::<char>::empty());
        assert(encode_utf8(one.drop_first()) =~= Seq::<u8>::empty());
        assert(encode_utf8(one) =~= encode_scalar(c as u32));
        vstd::utf8::char_is_scalar(c);
        assert(encode_scalar(c as u32).len() == char_width(c));
    }
}

/// No offset in a line is past the line's bytes.
pub proof fn lemma_offset_bound(line: Seq<char>, i: int)
    requires
        0 <= i <= line.len(),
    ensures
        offset_of(line, i) <= encode_utf8(line).len(),
{
    lemma_offset_bytes(line, i);
    assert(line =~= line.take(i) + line.skip(i));
    lemma_encode_concat(line.take(i), line.skip(i));
}

/// What one more occurrence does to the entries.
proof fn lemma_group_step(
    words: Seq<Seq<char>>,
    positions: Seq<Seq<(int, int)>>,
    lines: Seq<Seq<int>>,
    new_words: Seq<Seq<char>>,
    new_positions: Seq<Seq<(int, int)>>,
    new_lines: Seq<Seq<int>>,
    all: Seq<Occurrence>,
    occ: Occurrence,
    at: int,
    added: bool,
)
    requires
        grouped(words, positions, lines, all),
        0 <= at < new_words.len(),
        new_words[at] == occ.word,
        new_words.len() == new_positions.len(),
        new_words.len() == new_lines.len(),
        added ==> new_words.len() == words.len() + 1 && at == words.len() && new_positions[at]
            == seq![(occ.line, occ.col)] && new_lines[at] == seq![occ.line] && forall|e: int|
            0 <= e < words.len() ==> (#[trigger] words[e]) != occ.word,
        !added ==> new_words.len() == words.len() && new_positions[at] == positions[at].push(
            (occ.line, occ.col),
        ) && new_lines[at] == (if lines[at].len() == 0 || lines[at].last() != occ.line {
            lines[at].push(occ.line)
        } else {
            lines[at]
        }),
        forall|e: int| 0 <= e < words.len() ==> (#[trigger] new_words[e]) == words[e],
        forall|e: int|
            0 <= e < words.len() && e != at ==> #[trigger] new_positions[e] == positions[e]
                && new_lines[e] == lines[e],
    ensures
        grouped(new_words, new_positions, new_lines, all.push(occ)),
{
    let longer = all.push(occ);
    let n = all.len() as int;
    assert(longer[n] == occ);
    assert forall|e: int, f: int| 0 <= e < f < new_words.len() implies (#[trigger] new_words[e])
        != (#[trigger] new_words[f]) by {
        if f < words.len() {
            assert(words[e] != words[f]);
        }
    }
    assert forall|e: int| 0 <= e < new_words.len() implies #[trigger] new_positions[e]
        == positions_of(longer, new_words[e], longer.len() as int) by {
        let w = new_words[e];
        lemma_prefix_positions(all, occ, w, n);
        if e == at {
            if added {
                lemma_absent_word(all, words, w, n);
                assert(positions_of(all, w, n) =~= Seq::<(int, int)>::empty());
                assert(new_positions[e] =~= positions_of(all, w, n).push((occ.line, occ.col)));
            } else {
                assert(positions[at] == positions_of(all, words[at], n));
            }
        } else {
            if e < at {
                assert(new_words[e] != new_words[at]);
            } else {
                assert(new_words[at] != new_words[e]);
            }
            assert(positions[e] == positions_of(all, words[e], n));
        }
    }
    assert forall|e: int| 0 <= e < new_words.len() implies #[trigger] new_lines[e] == lines_with(
        longer,
        new_words[e],
        longer.len() as int,
    ) by {
        let w = new_words[e];
        lemma_prefix_positions(all, occ, w, n);
        if e == at {
            if added {
                lemma_absent_word(all, words, w, n);
                assert(lines_with(all, w, n) =~= Seq::<int>::empty());
                assert(new_lines[e] =~= lines_with(all, w, n).push(occ.line));
            } else {
                assert(lines[at] == lines_with(all, words[at], n));
            }
        } else {
            if e < at {
                assert(new_words[e] != new_words[at]);
            } else {
                assert(new_words[at] != new_words[e]);
            }
            assert(new_positions[e] == positions[e]);
            assert(lines[e] == lines_with(all, words[e], n));
        }
    }
    assert forall|e: int| 0 <= e < new_words.len() implies (#[trigger] new_positions[e]).len()
        > 0 by {
        if e != at {
            assert(positions[e].len() > 0);
        }
    }
    assert forall|k: int| 0 <= k < longer.len() implies listed(
        new_words,
        (#[trigger] longer[k]).word,
    ) by {
        if k < n {
            assert(longer[k] == all[k]);
            assert(listed(words, all[k].word));
            let e = choose|e: int| 0 <= e < words.len() && (#[trigger] words[e]) == all[k].word;
            assert(new_words[e] == longer[k].word);
        } else {
            assert(new_words[at] == longer[k].word);
        }
    }
}

/// The positions of a word among the occurrences and one more.
proof fn lemma_prefix_positions(all: Seq<Occurrence>, occ: Occurrence, w: Seq<char>, n: int)
    requires
        n == all.len(),
    ensures
        positions_of(all.push(occ), w, n + 1) == (if w == occ.word {
            positions_of(all, w, n).push((occ.line, occ.col))
        } else {
            positions_of(all, w, n)
        }),
        lines_with(all.push(occ), w, n + 1) == (if w == occ.word && (lines_with(all, w, n).len()
            == 0 || lines_with(all, w, n).last() != occ.line) {
            lines_with(all, w, n).push(occ.line)
        } else {
            lines_with(all, w, n)
        }),
{
    lemma_same_prefix(all, all.push(occ), w, n);
    assert(all.push(occ)[n] == occ);
}

/// Positions among the first `n` occurrences depend on these only.
proof fn lemma_same_prefix(a: Seq<Occurrence>, b: Seq<Occurrence>, w: Seq<char>, n: int)
    requires
        0 <= n <= a.len(),
        n <= b.len(),
        forall|k: int| 0 <= k < n ==> a[k] == b[k],
    ensures
        positions_of(a, w, n) == positions_of(b, w, n),
        lines_with(a, w, n) == lines_with(b, w, n),
    decreases n,
{
    if n > 0 {
        lemma_same_prefix(a, b, w, n - 1);
    }
}

/// A word that is no entry stands nowhere among the occurrences.
proof fn lemma_absent_word(all: Seq<Occurrence>, words: Seq<Seq<char>>, w: Seq<char>, n: int)
    requires
        0 <= n <= all.len(),
        forall|e: int| 0 <= e < words.len() ==> (#[trigger] words[e]) != w,
        forall|k: int| 0 <= k < all.len() ==> listed(words, (#[trigger] all[k]).word),
    ensures
        positions_of(all, w, n) == Seq::<(int, int)>::empty(),
        lines_with(all, w, n) == Seq::<int>::empty(),
    decreases n,
{
    if n > 0 {
        lemma_absent_word(all, words, w, n - 1);
        assert(listed(words, all[n - 1].word));
        assert(all[n - 1].word != w);
    }
}

} // verus!
