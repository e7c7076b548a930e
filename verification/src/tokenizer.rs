//! Splitting lines into trigrams: every window of three consecutive
//! characters of a line, or the whole line when it has one or two characters.

use crate::keys::KeyIndex;
use crate::text::chars_of;
use crate::text::string_from_chars;
use crate::text::char_at;
use crate::trigram_key::pack;
use crate::trigram_key::TrigramKey;
use vstd::prelude::*;
use vstd::string::StringSliceAdditionalSpecFns;
use vstd::utf8::encode_scalar;
use vstd::utf8::encode_utf8;

verus! {

pub struct Tokenizer {}

/// A token, its key, and the numbers of the lines that hold it, ascending.
pub struct TokenLines {
    pub token: String,
    pub key: TrigramKey,
    pub lines: Vec<usize>,
}

#[derive(Debug, PartialEq)]
pub enum WordPosition {
    LineNumOnlyWithDedup(Vec<(String, Vec<usize>)>),
    LineNumWithColNoDedup(Vec<(String, Vec<(usize, usize)>)>),
}

#[derive(Debug)]
pub struct TokenizerResult {
    pub total_words: Vec<String>,
    pub word_pos: WordPosition,
}

/// The tokens of one line, in order.
pub open spec fn line_tokens(line: Seq<char>) -> Seq<Seq<char>> {
    if line.len() == 0 {
        Seq::empty()
    } else if line.len() < 3 {
        seq![line]
    } else {
        Seq::new((line.len() - 2) as nat, |j: int| line.subrange(j, j + 3))
    }
}

/// The 128-bit word of a token's key.
pub open spec fn token_word(token: Seq<char>) -> u128 {
    pack(encode_utf8(token)) as u128
}

/// Token `j` of line `i` has the key word `word`, and comes before token
/// `upto_j` of line `upto_i`.
pub open spec fn is_occurrence(
    lines: Seq<String>,
    upto_i: int,
    upto_j: int,
    i: int,
    j: int,
    word: u128,
) -> bool {
    &&& 0 <= i < lines.len()
    &&& 0 <= j < line_tokens(lines[i]@).len()
    &&& (i < upto_i || (i == upto_i && j < upto_j))
    &&& token_word(line_tokens(lines[i]@)[j]) == word
}

/// The entries list, for every token seen before token `upto_j` of line
/// `upto_i`, the lines that hold it.
pub open spec fn tokens_cover(
    out: Seq<TokenLines>,
    lines: Seq<String>,
    start: int,
    upto_i: int,
    upto_j: int,
) -> bool {
    &&& forall|e: int|
        0 <= e < out.len() ==> (#[trigger] out[e]).key.wf() && out[e].key@ == encode_utf8(
            out[e].token@,
        )
    &&& forall|e: int| 0 <= e < out.len() ==> (#[trigger] out[e]).lines@.len() > 0
    &&& forall|e: int, f: int|
        0 <= e < f < out.len() ==> (#[trigger] out[e]).key.word() != (#[trigger] out[f]).key.word()
    &&& forall|e: int, a: int, b: int|
        0 <= e < out.len() && 0 <= a < b < out[e].lines@.len() ==> (#[trigger] out[e].lines@[a])
            < (#[trigger] out[e].lines@[b])
    &&& forall|e: int, n: usize|
        0 <= e < out.len() ==> ((#[trigger] out[e].lines@.contains(n)) <==> exists|i: int, j: int|
            #[trigger] is_occurrence(lines, upto_i, upto_j, i, j, out[e].key.word()) && n == start
                + i)
    &&& forall|i: int, j: int, w: u128| #[trigger]
        is_occurrence(lines, upto_i, upto_j, i, j, w) ==> exists|e: int|
            0 <= e < out.len() && (#[trigger] out[e]).key.word() == w
}

pub proof fn lemma_encode_len(chars: Seq<char>)
    ensures
        encode_utf8(chars).len() <= 4 * chars.len(),
        chars.len() > 0 ==> encode_utf8(chars).len() > 0,
    decreases chars.len(),
{
    if chars.len() > 0 {
        lemma_encode_len(chars.drop_first());
        assert(1 <= encode_scalar(chars[0] as u32).len() <= 4);
    }
}

/// The string of `chars[lo..hi]`.
fn token_string(chars: &Vec<char>, lo: usize, hi: usize) -> (token: String)
    requires
        lo <= hi <= chars@.len(),
    ensures
        token@ == chars@.subrange(lo as int, hi as int),
{
    let mut part: Vec<char> = Vec::new();
    let mut i: usize = lo;
    while i < hi
        invariant
            lo <= i <= hi <= chars@.len(),
            part@ == chars@.subrange(lo as int, i as int),
        decreases hi - i,
    {
        part.push(char_at(chars, i));
        proof {
            assert(part@ =~= chars@.subrange(lo as int, i + 1));
        }
        i += 1;
    }
    string_from_chars(&part)
}

/// The tokens of `lines`, each with the numbers of the lines that hold it.
/// Line `i` has the number `line_start_index + i`. The entries come in the
/// order in which their tokens first occur.
pub fn tokenize_lines(lines: &[String], line_start_index: usize) -> (out: Vec<TokenLines>)
    requires
        line_start_index + lines@.len() <= usize::MAX,
    ensures
        tokens_cover(out@, lines@, line_start_index as int, lines@.len() as int, 0),
{
    let mut index = KeyIndex::new();
    let mut out: Vec<TokenLines> = Vec::new();
    let ghost start = line_start_index as int;
    let mut i: usize = 0;
    while i < lines.len()
        invariant
            i <= lines@.len(),
            start == line_start_index,
            line_start_index + lines@.len() <= usize::MAX,
            index.wf(),
            index.count() == out@.len(),
            forall|e: int| 0 <= e < out@.len() ==> (#[trigger] out@[e]).key == index.keys@[e],
            forall|e: int| 0 <= e < out@.len() ==> (#[trigger] out@[e]).lines@.len() > 0,
            forall|e: int, a: int|
                0 <= e < out@.len() && 0 <= a < out@[e].lines@.len() ==> (
                #[trigger] out@[e].lines@[a]) < start + i,
            tokens_cover(out@, lines@, start, i as int, 0),
        decreases lines@.len() - i,
    {
        let chars = chars_of(lines[i].as_str());
        let number = line_start_index + i;
        let count: usize = if chars.len() == 0 {
            0
        } else if chars.len() < 3 {
            1
        } else {
            chars.len() - 2
        };
        let mut j: usize = 0;
        while j < count
            invariant
                i < lines@.len(),
                j <= count,
                chars@ == lines@[i as int]@,
                count == line_tokens(chars@).len(),
                number == start + i,
                start == line_start_index,
                index.wf(),
                index.count() == out@.len(),
                forall|e: int| 0 <= e < out@.len() ==> (#[trigger] out@[e]).key == index.keys@[e],
                forall|e: int| 0 <= e < out@.len() ==> (#[trigger] out@[e]).lines@.len() > 0,
                forall|e: int, a: int|
                    0 <= e < out@.len() && 0 <= a < out@[e].lines@.len() ==> (
                    #[trigger] out@[e].lines@[a]) <= number,
                tokens_cover(out@, lines@, start, i as int, j as int),
            decreases count - j,
        {
            let token = if chars.len() < 3 {
                token_string(&chars, 0, chars.len())
            } else {
                token_string(&chars, j, j + 3)
            };
            proof {
                assert(token@ == line_tokens(chars@)[j as int]) by {
                    if chars@.len() < 3 {
                        assert(chars@.subrange(0, chars@.len() as int) =~= chars@);
                    }
                }
                lemma_encode_len(token@);
            }
            let key = TrigramKey::from_utf8(token.as_str());
            let ghost word = key.word();
            let ghost before = out@;
            let (pos, added) = index.find_or_add(key);
            if added {
                let mut numbers: Vec<usize> = Vec::new();
                numbers.push(number);
                out.push(TokenLines { token, key, lines: numbers });
            } else {
                let last = out[pos].lines.len() - 1;
                if out[pos].lines[last] != number {
                    out[pos].lines.push(number);
                }
            }
            proof {
                lemma_step(before, out@, lines@, start, i as int, j as int, pos as int, added);
            }
            j += 1;
        }
        proof {
            lemma_next_line(out@, lines@, start, i as int);
        }
        i += 1;
    }
    out
}

/// What one more occurrence does to the entries.
pub open spec fn is_step(
    before: Seq<TokenLines>,
    after: Seq<TokenLines>,
    lines: Seq<String>,
    start: int,
    i: int,
    j: int,
    pos: int,
    added: bool,
) -> bool {
    let token = line_tokens(lines[i]@)[j];
    let number = (start + i) as usize;
    &&& 0 <= i < lines.len()
    &&& 0 <= j < line_tokens(lines[i]@).len()
    &&& 0 <= start
    &&& start + i <= usize::MAX
    &&& 0 <= pos < after.len()
    &&& after[pos].key.wf()
    &&& after[pos].key@ == encode_utf8(after[pos].token@)
    &&& after[pos].key.word() == token_word(token)
    &&& added ==> after.len() == before.len() + 1 && pos == before.len() && after[pos].lines@
        == seq![number] && forall|e: int|
        0 <= e < before.len() ==> (#[trigger] before[e]).key.word() != token_word(token)
    &&& !added ==> after.len() == before.len() && after[pos].key == before[pos].key
        && after[pos].token == before[pos].token && before[pos].lines@.len() > 0 && (if before[pos].lines@.last()
        == number {
        after[pos].lines@ == before[pos].lines@
    } else {
        after[pos].lines@ == before[pos].lines@.push(number)
    })
    &&& forall|e: int| 0 <= e < before.len() && e != pos ==> #[trigger] after[e] == before[e]
    &&& forall|e: int| 0 <= e < before.len() ==> (#[trigger] before[e]).lines@.len() > 0
    &&& forall|e: int, a: int|
        0 <= e < before.len() && 0 <= a < before[e].lines@.len() ==> (
        #[trigger] before[e].lines@[a]) <= number
}

proof fn lemma_step(
    before: Seq<TokenLines>,
    after: Seq<TokenLines>,
    lines: Seq<String>,
    start: int,
    i: int,
    j: int,
    pos: int,
    added: bool,
)
    requires
        tokens_cover(before, lines, start, i, j),
        is_step(before, after, lines, start, i, j, pos, added),
    ensures
        tokens_cover(after, lines, start, i, j + 1),
        forall|e: int, a: int|
            0 <= e < after.len() && 0 <= a < after[e].lines@.len() ==> (
            #[trigger] after[e].lines@[a]) <= start + i,
        forall|e: int| 0 <= e < after.len() ==> (#[trigger] after[e]).lines@.len() > 0,
{
    let token = line_tokens(lines[i]@)[j];
    let word = token_word(token);
    let number = (start + i) as usize;
    assert(is_occurrence(lines, i, j + 1, i, j, word));
    assert forall|e: int|
        0 <= e < after.len() implies (#[trigger] after[e]).key.wf() && after[e].key@
        == encode_utf8(after[e].token@) by {
        if e != pos {
            assert(after[e] == before[e]);
        }
    }
    assert forall|e: int, f: int| 0 <= e < f < after.len() implies (#[trigger] after[e]).key.word()
        != (#[trigger] after[f]).key.word() by {
        if added {
            if f == pos {
                assert(after[e] == before[e]);
            } else {
                assert(after[e] == before[e]);
                assert(after[f] == before[f]);
            }
        } else {
            if e != pos {
                assert(after[e] == before[e]);
            }
            if f != pos {
                assert(after[f] == before[f]);
            }
        }
    }
    assert forall|e: int, a: int, b: int|
        0 <= e < after.len() && 0 <= a < b < after[e].lines@.len() implies (
    #[trigger] after[e].lines@[a]) < (#[trigger] after[e].lines@[b]) by {
        if e != pos {
            assert(after[e] == before[e]);
        } else if !added {
            let old_lines = before[pos].lines@;
            if b == old_lines.len() {
                assert(old_lines[a] <= old_lines[old_lines.len() - 1]) by {
                    if a < old_lines.len() - 1 {
                        assert(old_lines[a] < old_lines[old_lines.len() - 1]);
                    }
                }
                assert(old_lines[old_lines.len() - 1] <= number);
            } else {
                assert(after[e].lines@[a] == old_lines[a]);
                assert(after[e].lines@[b] == old_lines[b]);
            }
        }
    }
    assert forall|e: int, n: usize| 0 <= e < after.len() implies ((
    #[trigger] after[e].lines@.contains(n)) <==> exists|i2: int, j2: int| #[trigger]
        is_occurrence(lines, i, j + 1, i2, j2, after[e].key.word()) && n == start + i2) by {
        let w = after[e].key.word();
        if e == pos {
            if added {
                if after[e].lines@.contains(n) {
                    assert(n == number);
                    assert(is_occurrence(lines, i, j + 1, i, j, w) && n == start + i);
                }
                if exists|i2: int, j2: int| #[trigger]
                    is_occurrence(lines, i, j + 1, i2, j2, w) && n == start + i2 {
                    let (i2, j2) = choose|i2: int, j2: int| #[trigger]
                        is_occurrence(lines, i, j + 1, i2, j2, w) && n == start + i2;
                    if is_occurrence(lines, i, j, i2, j2, w) {
                        let f = choose|f: int|
                            0 <= f < before.len() && (#[trigger] before[f]).key.word() == w;
                        assert(false);
                    }
                    assert(i2 == i);
                    assert(after[e].lines@[0] == n);
                }
            } else {
                let old_lines = before[pos].lines@;
                assert(before[pos].key.word() == w);
                if after[e].lines@.contains(n) {
                    let a = choose|a: int| 0 <= a < after[e].lines@.len() && after[e].lines@[a] == n;
                    if a < old_lines.len() && after[e].lines@[a] == old_lines[a] {
                        assert(old_lines.contains(n));
                        let (i2, j2) = choose|i2: int, j2: int| #[trigger]
                            is_occurrence(lines, i, j, i2, j2, w) && n == start + i2;
                        assert(is_occurrence(lines, i, j + 1, i2, j2, w));
                    } else {
                        assert(n == number);
                        assert(is_occurrence(lines, i, j + 1, i, j, w) && n == start + i);
                    }
                }
                if exists|i2: int, j2: int| #[trigger]
                    is_occurrence(lines, i, j + 1, i2, j2, w) && n == start + i2 {
                    let (i2, j2) = choose|i2: int, j2: int| #[trigger]
                        is_occurrence(lines, i, j + 1, i2, j2, w) && n == start + i2;
                    if is_occurrence(lines, i, j, i2, j2, w) {
                        assert(old_lines.contains(n));
                        let a = choose|a: int| 0 <= a < old_lines.len() && old_lines[a] == n;
                        assert(after[e].lines@[a] == n);
                    } else {
                        assert(i2 == i && j2 == j);
                        assert(n == number);
                        if old_lines.last() == number {
                            assert(after[e].lines@[old_lines.len() - 1] == n);
                        } else {
                            assert(after[e].lines@[old_lines.len() as int] == n);
                        }
                    }
                }
            }
        } else {
            assert(after[e] == before[e]);
            if before[e].lines@.contains(n) {
                let (i2, j2) = choose|i2: int, j2: int| #[trigger]
                    is_occurrence(lines, i, j, i2, j2, w) && n == start + i2;
                assert(is_occurrence(lines, i, j + 1, i2, j2, w));
            }
            if exists|i2: int, j2: int| #[trigger]
                is_occurrence(lines, i, j + 1, i2, j2, w) && n == start + i2 {
                let (i2, j2) = choose|i2: int, j2: int| #[trigger]
                    is_occurrence(lines, i, j + 1, i2, j2, w) && n == start + i2;
                if !is_occurrence(lines, i, j, i2, j2, w) {
                    assert(i2 == i && j2 == j);
                    assert(w == word);
                    if added {
                        assert(before[e].key.word() != token_word(token));
                    } else {
                        assert(before[pos].key.word() == word);
                        if e < pos {
                            assert(before[e].key.word() != before[pos].key.word());
                        } else {
                            assert(before[pos].key.word() != before[e].key.word());
                        }
                    }
                }
            }
        }
    }
    assert forall|i2: int, j2: int, w: u128| #[trigger]
        is_occurrence(lines, i, j + 1, i2, j2, w) implies exists|e: int|
        0 <= e < after.len() && (#[trigger] after[e]).key.word() == w by {
        if is_occurrence(lines, i, j, i2, j2, w) {
            let e = choose|e: int| 0 <= e < before.len() && (#[trigger] before[e]).key.word() == w;
            if e != pos {
                assert(after[e] == before[e]);
            }
            assert(after[e].key.word() == w);
        } else {
            assert(after[pos].key.word() == w);
        }
    }
    assert forall|e: int, a: int|
        0 <= e < after.len() && 0 <= a < after[e].lines@.len() implies (
    #[trigger] after[e].lines@[a]) <= start + i by {
        if e != pos {
            assert(after[e] == before[e]);
        } else if !added {
            if a < before[pos].lines@.len() {
                assert(after[e].lines@[a] == before[pos].lines@[a]);
            }
        }
    }
    assert forall|e: int| 0 <= e < after.len() implies (#[trigger] after[e]).lines@.len() > 0 by {
        if e != pos {
            assert(after[e] == before[e]);
            assert(before[e].lines@.len() > 0);
        }
    }
}

proof fn lemma_next_line(out: Seq<TokenLines>, lines: Seq<String>, start: int, i: int)
    requires
        0 <= i < lines.len(),
        tokens_cover(out, lines, start, i, line_tokens(lines[i]@).len() as int),
    ensures
        tokens_cover(out, lines, start, i + 1, 0),
{
    let full = line_tokens(lines[i]@).len() as int;
    assert forall|i2: int, j2: int, w: u128|
        is_occurrence(lines, i, full, i2, j2, w) == is_occurrence(lines, i + 1, 0, i2, j2, w) by {}
    assert forall|e: int, n: usize| 0 <= e < out.len() implies ((
    #[trigger] out[e].lines@.contains(n)) <==> exists|i2: int, j2: int| #[trigger]
        is_occurrence(lines, i + 1, 0, i2, j2, out[e].key.word()) && n == start + i2) by {
        let w = out[e].key.word();
        if out[e].lines@.contains(n) {
            let (i2, j2) = choose|i2: int, j2: int| #[trigger]
                is_occurrence(lines, i, full, i2, j2, w) && n == start + i2;
            assert(is_occurrence(lines, i + 1, 0, i2, j2, w));
        }
        if exists|i2: int, j2: int| #[trigger]
            is_occurrence(lines, i + 1, 0, i2, j2, w) && n == start + i2 {
            let (i2, j2) = choose|i2: int, j2: int| #[trigger]
                is_occurrence(lines, i + 1, 0, i2, j2, w) && n == start + i2;
            assert(is_occurrence(lines, i, full, i2, j2, w));
        }
    }
    assert forall|i2: int, j2: int, w: u128| #[trigger]
        is_occurrence(lines, i + 1, 0, i2, j2, w) implies exists|e: int|
        0 <= e < out.len() && (#[trigger] out[e]).key.word() == w by {
        assert(is_occurrence(lines, i, full, i2, j2, w));
    }
}


/// The tokens and their lines, as plain texts.
pub open spec fn texts_match(result: TokenizerResult, tokens: Seq<TokenLines>) -> bool {
    &&& result.total_words@.len() == tokens.len()
    &&& forall|e: int|
        0 <= e < tokens.len() ==> (#[trigger] result.total_words@[e])@ == tokens[e].token@
    &&& result.word_pos matches WordPosition::LineNumOnlyWithDedup(list) && list@.len()
        == tokens.len() && forall|e: int|
        0 <= e < tokens.len() ==> (#[trigger] list@[e]).0@ == tokens[e].token@ && list@[e].1@
            == tokens[e].lines@
}

impl Tokenizer {
    pub fn new() -> Self {
        Tokenizer {  }
    }

    /// The trigrams of `lines`: each trigram once, in the order of first
    /// occurrence, and for each the numbers of the lines that hold it,
    /// ascending. Line `i` has the number `line_start_index + i`.
    pub fn split_lines_to_tokens(lines: &[String], line_start_index: usize) -> (result: TokenizerResult)
        requires
            line_start_index + lines@.len() <= usize::MAX,
        ensures
            exists|tokens: Seq<TokenLines>| #[trigger]
                tokens_cover(tokens, lines@, line_start_index as int, lines@.len() as int, 0)
                    && texts_match(result, tokens),
    {
        let tokens = tokenize_lines(lines, line_start_index);
        let mut total_words: Vec<String> = Vec::new();
        let mut word_pos: Vec<(String, Vec<usize>)> = Vec::new();
        let mut e: usize = 0;
        while e < tokens.len()
            invariant
                e <= tokens@.len(),
                total_words@.len() == e,
                word_pos@.len() == e,
                forall|k: int| 0 <= k < e ==> (#[trigger] total_words@[k])@ == tokens@[k].token@,
                forall|k: int|
                    0 <= k < e ==> (#[trigger] word_pos@[k]).0@ == tokens@[k].token@ && word_pos@[k].1@
                        == tokens@[k].lines@,
            decreases tokens@.len() - e,
        {
            total_words.push(tokens[e].token.clone());
            word_pos.push((tokens[e].token.clone(), tokens[e].lines.clone()));
            e += 1;
        }
        let result = TokenizerResult {
            total_words,
            word_pos: WordPosition::LineNumOnlyWithDedup(word_pos),
        };
        proof {
            assert(texts_match(result, tokens@));
        }
        result
    }
}

/// The trigrams of `lines` with the numbers of the lines that hold them.
pub fn split_lines_to_tokens(lines: &[String], line_start_index: usize) -> (tokens: Vec<TokenLines>)
    requires
        line_start_index + lines@.len() <= usize::MAX,
    ensures
        tokens_cover(tokens@, lines@, line_start_index as int, lines@.len() as int, 0),
{
    tokenize_lines(lines, line_start_index)
}

/// The keys of the trigrams of `lines`, each once.
pub fn split_lines_to_token_set(lines: &[String]) -> (keys: Vec<TrigramKey>)
    requires
        lines@.len() <= usize::MAX,
    ensures
        exists|tokens: Seq<TokenLines>| #[trigger]
            tokens_cover(tokens, lines@, 0, lines@.len() as int, 0) && keys@.len() == tokens.len()
                && forall|e: int| 0 <= e < tokens.len() ==> #[trigger] keys@[e] == tokens[e].key,
{
    let tokens = tokenize_lines(lines, 0);
    let mut keys: Vec<TrigramKey> = Vec::new();
    let mut e: usize = 0;
    while e < tokens.len()
        invariant
            e <= tokens@.len(),
            keys@.len() == e,
            forall|k: int| 0 <= k < e ==> #[trigger] keys@[k] == tokens@[k].key,
        decreases tokens@.len() - e,
    {
        keys.push(tokens[e].key);
        e += 1;
    }
    keys
}

} // verus!
