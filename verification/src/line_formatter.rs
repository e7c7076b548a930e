//! Showing a line with its matches marked, long stretches between them cut
//! short.

use vstd::prelude::*;
use vstd::string::StringExecFns;
use vstd::string::StringSliceAdditionalSpecFns;
use vstd::utf8::decode_utf8;
use vstd::utf8::encode_utf8;
use vstd::utf8::is_char_boundary;

verus! {

/// Texts of this many bytes or more are cut short.
pub const MAX_CHARS_TO_SHOW: usize = 80;

/// `text` as a terminal shows it in red: between the escape sequences that
/// switch the colour on and back.
pub open spec fn red_text(text: Seq<char>) -> Seq<char> {
    seq!['\u{1b}', '[', '3', '1', 'm'] + text + seq!['\u{1b}', '[', '3', '9', 'm']
}

/// `OwoColorize::red` shows a text between the escape sequence for a red
/// foreground and the one for the default foreground.
#[verifier::external_body]
pub(crate) fn paint_red(text: &str) -> (out: String)
    ensures
        out@ == red_text(text@),
{
    owo_colors::OwoColorize::red(&text).to_string()
}

/// The first `n` characters of a line, or the whole line if it is shorter.
pub open spec fn first_chars(line: Seq<char>, n: nat) -> Seq<char> {
    if n >= line.len() {
        line
    } else {
        line.subrange(0, n as int)
    }
}

/// The last `n` characters of a line, or the whole line if it is shorter.
/// Asked for none, this is the last character too.
pub open spec fn last_chars(line: Seq<char>, n: nat) -> Seq<char> {
    let count = if n == 0 {
        1
    } else {
        n
    };
    if count >= line.len() {
        line
    } else {
        line.subrange(line.len() - count, line.len() as int)
    }
}

/// A line as it is shown: whole while it has fewer than eighty bytes, else
/// its first forty and its last forty characters around an ellipsis.
pub open spec fn shown(line: Seq<char>) -> Seq<char> {
    if encode_utf8(line).len() < MAX_CHARS_TO_SHOW {
        line
    } else {
        first_chars(line, 40) + seq![' ', '.', '.', '.', ' '] + last_chars(line, 40)
    }
}

pub fn get_first_n_chars(line: &str, n: usize) -> (out: &str)
    ensures
        out@ == first_chars(line@, n as nat),
{
    let len = line.unicode_len();
    if n >= len {
        let out = line.substring_char(0, len);
        proof {
            assert(line@.subrange(0, len as int) =~= line@);
        }
        out
    } else {
        line.substring_char(0, n)
    }
}

pub fn get_last_n_chars(line: &str, n: usize) -> (out: &str)
    ensures
        out@ == last_chars(line@, n as nat),
{
    let len = line.unicode_len();
    let count: usize = if n == 0 {
        1
    } else {
        n
    };
    if count >= len {
        let out = line.substring_char(0, len);
        proof {
            assert(line@.subrange(0, len as int) =~= line@);
        }
        out
    } else {
        line.substring_char(len - count, len)
    }
}

pub fn truncate_long_line(line: &str) -> (out: String)
    ensures
        out@ == shown(line@),
{
    if line.as_bytes().len() < MAX_CHARS_TO_SHOW {
        return line.to_owned();
    }
    let mut out = get_first_n_chars(line, MAX_CHARS_TO_SHOW / 2).to_owned();
    proof {
        reveal_strlit(" ... ");
        assert(" ... "@ =~= seq![' ', '.', '.', '.', ' ']);
    }
    out.append(" ... ");
    out.append(get_last_n_chars(line, MAX_CHARS_TO_SHOW / 2));
    out
}

/// The text of the bytes `from .. to` of a line.
pub open spec fn text_between(bytes: Seq<u8>, from: int, to: int) -> Seq<char> {
    decode_utf8(bytes.subrange(from, to))
}

/// The bytes `from .. to` of a line, which are whole characters.
pub fn slice_text(line: &str, from: usize, to: usize) -> (out: &str)
    requires
        from <= to <= line.spec_bytes().len(),
        is_char_boundary(line.spec_bytes(), from as int),
        is_char_boundary(line.spec_bytes(), to as int),
    ensures
        out.spec_bytes() == line.spec_bytes().subrange(from as int, to as int),
        out@ == text_between(line.spec_bytes(), from as int, to as int),
{
    let ghost bytes = line.spec_bytes();
    proof {
        vstd::utf8::encode_utf8_valid_utf8(line@);
        vstd::utf8::valid_utf8_split(bytes, to as int);
    }
    let (head, _) = line.split_at(to);
    proof {
        let front = head.spec_bytes();
        assert(front =~= bytes.subrange(0, to as int));
        if from == 0 {
        } else if from == to {
            vstd::utf8::is_char_boundary_start_end_of_seq(front);
        } else {
            vstd::utf8::is_char_boundary_iff_not_is_continuation_byte(bytes, from as int);
            vstd::utf8::is_char_boundary_iff_not_is_continuation_byte(front, from as int);
        }
    }
    let (_, out) = head.split_at(from);
    proof {
        assert(out.spec_bytes() =~= bytes.subrange(from as int, to as int));
        vstd::utf8::encode_utf8_decode_utf8(out@);
    }
    out
}

/// A word and the byte offset at which it starts in a line.
pub type Mark = (Seq<char>, usize);

/// The words and offsets of a list of positions.
pub open spec fn marks_of(positions: Seq<(&str, usize)>) -> Seq<Mark> {
    Seq::new(positions.len(), |i: int| (positions[i].0@, positions[i].1))
}

/// The words and offsets of a list of positions.
pub open spec fn owned_marks_of(positions: Seq<(String, usize)>) -> Seq<Mark> {
    Seq::new(positions.len(), |i: int| (positions[i].0@, positions[i].1))
}

/// The positions can be marked one after the other: each starts at or behind
/// the end of the one before it, inside the line and between characters.
pub open spec fn marks_fit(bytes: Seq<u8>, marks: Seq<Mark>, from: int, current: int) -> bool
    decreases marks.len() - from,
{
    if from < 0 || from >= marks.len() {
        current >= bytes.len() || is_char_boundary(bytes, current)
    } else {
        let start = marks[from].1 as int;
        let end = start + encode_utf8(marks[from].0).len();
        &&& current <= start <= bytes.len()
        &&& end <= usize::MAX
        &&& is_char_boundary(bytes, current)
        &&& is_char_boundary(bytes, start)
        &&& marks_fit(bytes, marks, from + 1, end)
    }
}

/// The line with the words at the positions `from ..` shown in red and what
/// lies between them shown as far as it is short.
pub open spec fn highlighted(bytes: Seq<u8>, marks: Seq<Mark>, from: int, current: int) -> Seq<char>
    decreases marks.len() - from,
{
    if from < 0 || from >= marks.len() {
        if current < bytes.len() {
            shown(text_between(bytes, current, bytes.len() as int))
        } else {
            Seq::empty()
        }
    } else {
        let start = marks[from].1 as int;
        let end = start + encode_utf8(marks[from].0).len();
        (if current < start {
            shown(text_between(bytes, current, start))
        } else {
            Seq::empty()
        }) + red_text(marks[from].0) + highlighted(bytes, marks, from + 1, end)
    }
}

/// Whether the words can be marked at the positions, one after the other.
pub fn positions_fit(line: &str, positions: &[(&str, usize)]) -> (fit: bool)
    ensures
        fit == marks_fit(line.spec_bytes(), marks_of(positions@), 0, 0),
{
    let ghost bytes = line.spec_bytes();
    let ghost marks = marks_of(positions@);
    let len = line.as_bytes().len();
    let mut current: usize = 0;
    let mut i: usize = 0;
    while i < positions.len()
        invariant
            i <= positions@.len(),
            bytes == line.spec_bytes(),
            marks == marks_of(positions@),
            len == bytes.len(),
            marks_fit(bytes, marks, 0, 0) == marks_fit(bytes, marks, i as int, current as int),
        decreases positions@.len() - i,
    {
        let (word, start) = positions[i];
        proof {
            assert(marks[i as int] == (word@, start));
        }
        let size = word.as_bytes().len();
        if current > start || start > len || size > usize::MAX - start {
            return false;
        }
        if !line.is_char_boundary(current) || !line.is_char_boundary(start) {
            return false;
        }
        current = start + size;
        i += 1;
    }
    current >= len || line.is_char_boundary(current)
}

/// Shows `line` with the given words in red. Each position names a word and
/// the byte offset at which it starts in the line.
pub fn highlight_line_by_positions(line: &str, positions: &[(&str, usize)]) -> (out: String)
    requires
        marks_fit(line.spec_bytes(), marks_of(positions@), 0, 0),
    ensures
        out@ == highlighted(line.spec_bytes(), marks_of(positions@), 0, 0),
{
    let ghost bytes = line.spec_bytes();
    let ghost marks = marks_of(positions@);
    let mut result = String::new();
    let mut current: usize = 0;
    let mut i: usize = 0;
    while i < positions.len()
        invariant
            i <= positions@.len(),
            bytes == line.spec_bytes(),
            marks == marks_of(positions@),
            marks_fit(bytes, marks, i as int, current as int),
            result@ + highlighted(bytes, marks, i as int, current as int) == highlighted(
                bytes,
                marks,
                0,
                0,
            ),
        decreases positions@.len() - i,
    {
        let (word, start) = positions[i];
        let ghost before = result@;
        proof {
            assert(marks[i as int] == (word@, start));
        }
        if current < start {
            let between = truncate_long_line(slice_text(line, current, start));
            result.append(between.as_str());
        }
        let red = paint_red(word);
        result.append(red.as_str());
        proof {
            let rest = highlighted(bytes, marks, i + 1, start + word.spec_bytes().len());
            assert(result@ + rest =~= before + highlighted(bytes, marks, i as int, current as int));
        }
        current = start + word.as_bytes().len();
        i += 1;
    }
    let len = line.as_bytes().len();
    if current < len {
        proof {
            vstd::utf8::encode_utf8_valid_utf8(line@);
            vstd::utf8::is_char_boundary_start_end_of_seq(bytes);
        }
        let tail = truncate_long_line(slice_text(line, current, len));
        result.append(tail.as_str());
    }
    proof {
        assert(result@ =~= highlighted(bytes, marks, 0, 0));
    }
    result
}

/// `text` as a terminal shows it in yellow.
pub open spec fn yellow_text(text: Seq<char>) -> Seq<char> {
    seq!['\u{1b}', '[', '3', '3', 'm'] + text + seq!['\u{1b}', '[', '3', '9', 'm']
}

/// `OwoColorize::yellow` shows a text between the escape sequence for a
/// yellow foreground and the one for the default foreground.
#[verifier::external_body]
pub(crate) fn paint_yellow(text: &str) -> (out: String)
    ensures
        out@ == yellow_text(text@),
{
    owo_colors::OwoColorize::yellow(&text).to_string()
}

/// The digit for a number below ten.
pub open spec fn digit(d: int) -> char {
    if d == 0 {
        '0'
    } else if d == 1 {
        '1'
    } else if d == 2 {
        '2'
    } else if d == 3 {
        '3'
    } else if d == 4 {
        '4'
    } else if d == 5 {
        '5'
    } else if d == 6 {
        '6'
    } else if d == 7 {
        '7'
    } else if d == 8 {
        '8'
    } else {
        '9'
    }
}

/// A number in decimal digits.
pub open spec fn decimal(n: nat) -> Seq<char>
    decreases n,
{
    if n < 10 {
        seq![digit(n as int)]
    } else {
        decimal(n / 10).push(digit((n % 10) as int))
    }
}

/// `text` behind as many spaces as make it `width` characters long.
pub open spec fn padded(text: Seq<char>, width: nat) -> Seq<char> {
    if text.len() >= width {
        text
    } else {
        Seq::new((width - text.len()) as nat, |i: int| ' ') + text
    }
}

/// What stands before a line that is shown: its number, counted from one,
/// in yellow and six characters wide, and a bar.
pub open spec fn gutter_text(line_number: usize) -> Seq<char> {
    yellow_text(padded(decimal((line_number + 1) as nat), 6)) + seq!['|', ' ']
}

fn digit_char(d: usize) -> (c: char)
    requires
        d < 10,
    ensures
        c == digit(d as int),
{
    if d == 0 {
        '0'
    } else if d == 1 {
        '1'
    } else if d == 2 {
        '2'
    } else if d == 3 {
        '3'
    } else if d == 4 {
        '4'
    } else if d == 5 {
        '5'
    } else if d == 6 {
        '6'
    } else if d == 7 {
        '7'
    } else if d == 8 {
        '8'
    } else {
        '9'
    }
}

/// The digits of a number, and before them the spaces that make them
/// `width` characters.
fn padded_number(n: u128, width: usize) -> (out: Vec<char>)
    ensures
        out@ == padded(decimal(n as nat), width as nat),
{
    let mut digits: Vec<char> = Vec::new();
    let mut rest: u128 = n;
    // The digits, the last one first.
    digits.push(digit_char((rest % 10) as usize));
    rest = rest / 10;
    proof {
        assert(decimal(n as nat) =~= (if n < 10 {
            Seq::<char>::empty()
        } else {
            decimal(rest as nat)
        }) + digits@.reverse());
    }
    while rest > 0
        invariant
            digits@.len() > 0,
            decimal(n as nat) == (if rest == 0 {
                Seq::<char>::empty()
            } else {
                decimal(rest as nat)
            }) + digits@.reverse(),
        decreases rest,
    {
        let ghost before = digits@;
        let ghost was = rest;
        digits.push(digit_char((rest % 10) as usize));
        rest = rest / 10;
        proof {
            let d = digit((was % 10) as int);
            assert(digits@.reverse() =~= seq![d] + before.reverse());
            assert(decimal(was as nat) =~= (if was < 10 {
                Seq::<char>::empty()
            } else {
                decimal(rest as nat)
            }).push(d));
            assert(decimal(n as nat) =~= (if rest == 0 {
                Seq::<char>::empty()
            } else {
                decimal(rest as nat)
            }) + digits@.reverse());
        }
    }
    let mut out: Vec<char> = Vec::new();
    let count = digits.len();
    let mut i: usize = count;
    while i < width
        invariant
            count <= i,
            i <= width || out@.len() == 0,
            out@.len() == i - count,
            forall|k: int| 0 <= k < out@.len() ==> out@[k] == ' ',
        decreases width - i,
    {
        out.push(' ');
        i += 1;
    }
    let ghost spaces = out@;
    let mut k: usize = count;
    while k > 0
        invariant
            k <= count,
            count == digits@.len(),
            out@ == spaces + digits@.reverse().take(count - k),
        decreases k,
    {
        k -= 1;
        out.push(digits[k]);
        proof {
            assert(digits@.reverse()[count - k - 1] == digits@[k as int]);
            assert(digits@.reverse().take(count - k) =~= digits@.reverse().take(
                count - k - 1,
            ).push(digits@[k as int]));
        }
    }
    proof {
        assert(digits@.reverse().take(count as int) =~= digits@.reverse());
        assert(decimal(n as nat) == digits@.reverse());
        assert(out@ =~= padded(decimal(n as nat), width as nat));
    }
    out
}

/// What stands before a line that is shown.
pub fn gutter(line_number: usize) -> (out: String)
    ensures
        out@ == gutter_text(line_number),
{
    let number = padded_number(line_number as u128 + 1, 6);
    let text = crate::text::string_from_chars(&number);
    let mut out = paint_yellow(text.as_str());
    proof {
        reveal_strlit("| ");
        assert("| "@ =~= seq!['|', ' ']);
    }
    out.append("| ");
    out
}

/// A line of a file as it is shown: its number, then the line with the
/// matched words in red. `None` where the words cannot be marked at their
/// positions.
pub fn get_highlighted_line(line: &str, line_number: usize, positions: &Vec<(String, usize)>) -> (out:
    Option<String>)
    ensures
        match out {
            Some(text) => marks_fit(line.spec_bytes(), owned_marks_of(positions@), 0, 0) && text@
                == gutter_text(line_number) + highlighted(
                line.spec_bytes(),
                owned_marks_of(positions@),
                0,
                0,
            ),
            None => !marks_fit(line.spec_bytes(), owned_marks_of(positions@), 0, 0),
        },
{
    let mut borrowed: Vec<(&str, usize)> = Vec::new();
    let mut i: usize = 0;
    while i < positions.len()
        invariant
            i <= positions@.len(),
            borrowed@.len() == i,
            forall|k: int|
                0 <= k < i ==> (#[trigger] borrowed@[k]).0@ == positions@[k].0@ && borrowed@[k].1
                    == positions@[k].1,
        decreases positions@.len() - i,
    {
        borrowed.push((positions[i].0.as_str(), positions[i].1));
        i += 1;
    }
    proof {
        assert(marks_of(borrowed@) =~= owned_marks_of(positions@));
    }
    if !positions_fit(line, borrowed.as_slice()) {
        return None;
    }
    let mut out = gutter(line_number);
    let marked = highlight_line_by_positions(line, borrowed.as_slice());
    out.append(marked.as_str());
    Some(out)
}

} // verus!
