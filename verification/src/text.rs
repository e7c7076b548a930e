//! Small helpers on strings, characters and bytes.

use vstd::prelude::*;
use vstd::utf8::decode_utf8;
use vstd::utf8::valid_utf8;

verus! {

/// The characters of a string, in order.
pub fn chars_of(s: &str) -> (v: Vec<char>)
    ensures
        v@ == s@,
{
    let mut v: Vec<char> = Vec::new();
    for c in it: s.chars()
        invariant
            v@ == it.history(),
            it.seq() == s@,
    {
        v.push(c);
    }
    v
}

/// The character at position `i`.
pub fn char_at(chars: &Vec<char>, i: usize) -> (c: char)
    requires
        i < chars@.len(),
    ensures
        c == chars@[i as int],
{
    chars[i]
}

/// Collecting characters into a `String` keeps them, in order.
#[verifier::external_body]
pub(crate) fn string_from_chars(chars: &Vec<char>) -> (s: String)
    ensures
        s@ == chars@,
{
    chars.iter().collect()
}

/// `String::from_utf8` decodes bytes that are well-formed UTF-8, and refuses
/// others.
#[verifier::external_body]
pub(crate) fn utf8_text(bytes: &Vec<u8>) -> (text: Option<String>)
    ensures
        text is Some <==> valid_utf8(bytes@),
        text matches Some(s) ==> s@ == decode_utf8(bytes@),
{
    String::from_utf8(bytes.clone()).ok()
}

/// The text that `String::from_utf8_lossy` reads from bytes: what is no
/// UTF-8 is replaced.
pub uninterp spec fn lossy(bytes: Seq<u8>) -> Seq<char>;

/// `String::from_utf8_lossy` decodes bytes; where they are well-formed UTF-8
/// nothing is lost.
#[verifier::external_body]
pub(crate) fn lossy_text(bytes: &[u8]) -> (text: String)
    ensures
        text@ == lossy(bytes@),
        valid_utf8(bytes@) ==> text@ == decode_utf8(bytes@),
{
    String::from_utf8_lossy(bytes).into_owned()
}

/// The greatest position below `n` that holds `c`, or -1.
pub open spec fn last_position(text: Seq<char>, c: char, n: int) -> int
    decreases n,
{
    if n <= 0 || n > text.len() {
        -1
    } else if text[n - 1] == c {
        n - 1
    } else {
        last_position(text, c, n - 1)
    }
}

/// The extension of the file name of a path: what follows the last dot of
/// the name, nothing for a name without a dot or with its only dot in front.
pub open spec fn extension(path: Seq<char>) -> Seq<char> {
    let name_start = last_position(path, '/', path.len() as int) + 1;
    let dot = last_position(path, '.', path.len() as int);
    if dot <= name_start {
        Seq::empty()
    } else {
        path.subrange(dot + 1, path.len() as int)
    }
}

fn last_position_of(text: &Vec<char>, c: char) -> (at: Option<usize>)
    ensures
        match at {
            Some(i) => i == last_position(text@, c, text@.len() as int) && i < text@.len(),
            None => last_position(text@, c, text@.len() as int) == -1,
        },
{
    let mut n: usize = text.len();
    while n > 0
        invariant
            n <= text@.len(),
            last_position(text@, c, text@.len() as int) == last_position(text@, c, n as int),
        decreases n,
    {
        if char_at(text, n - 1) == c {
            return Some(n - 1);
        }
        n -= 1;
    }
    None
}

pub fn extension_of(path: &str) -> (ext: String)
    ensures
        ext@ == extension(path@),
{
    let chars = chars_of(path);
    let count = chars.len();
    let name_start: usize = match last_position_of(&chars, '/') {
        Some(i) => i + 1,
        None => 0,
    };
    let mut ext: Vec<char> = Vec::new();
    match last_position_of(&chars, '.') {
        Some(dot) => {
            if dot > name_start {
                let mut i: usize = dot + 1;
                proof {
                    assert(ext@ =~= chars@.subrange(dot + 1, i as int));
                }
                while i < chars.len()
                    invariant
                        dot < i <= chars@.len(),
                        ext@ == chars@.subrange(dot + 1, i as int),
                    decreases chars@.len() - i,
                {
                    ext.push(char_at(&chars, i));
                    proof {
                        assert(ext@ =~= chars@.subrange(dot + 1, i + 1));
                    }
                    i += 1;
                }
            }
        },
        None => {},
    }
    proof {
        assert(ext@ =~= extension(path@));
    }
    string_from_chars(&ext)
}

} // verus!
