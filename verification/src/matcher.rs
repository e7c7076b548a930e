//! Text matching that is left to other crates: multi-pattern search, regular
//! expressions, and the parser that reads a pattern into a tree.

use aho_corasick::AhoCorasick;
use regex::Regex;
use regex_syntax::hir::Class;
use regex_syntax::hir::Hir;
use regex_syntax::hir::HirKind;
use vstd::prelude::*;
use vstd::string::StringSliceAdditionalSpecFns;
use vstd::utf8::encode_utf8;

verus! {

/// `aho_corasick::AhoCorasick`, taken as it is: nothing of its inside is seen here.
#[verifier::external_type_specification]
#[verifier::external_body]
pub struct ExAhoCorasick(aho_corasick::AhoCorasick);

/// `regex::Regex`, taken as it is: nothing of its inside is seen here.
#[verifier::external_type_specification]
#[verifier::external_body]
pub struct ExRegex(regex::Regex);

/// `regex_syntax::hir::Hir`, taken as it is: nothing of its inside is seen here.
#[verifier::external_type_specification]
#[verifier::external_body]
pub struct ExHir(regex_syntax::hir::Hir);

/// `regex_syntax::hir::Class`, taken as it is: nothing of its inside is seen here.
#[verifier::external_type_specification]
#[verifier::external_body]
pub struct ExClass(regex_syntax::hir::Class);

/// A regular expression as a tree: what the planner reads.
pub enum Pattern {
    Empty,
    Literal(Vec<u8>),
    Class(Class),
    Repetition { min: u32, max: Option<u32>, sub: Box<Pattern> },
    Concat(Vec<Pattern>),
    Alternation(Vec<Pattern>),
    Capture,
    Look,
}

/// The patterns that a multi-pattern matcher was built from.
pub uninterp spec fn matcher_patterns(ac: AhoCorasick) -> Seq<Seq<u8>>;

/// Whether a multi-pattern matcher reports the leftmost match, and of those
/// that start there the one whose pattern comes first.
pub uninterp spec fn matcher_is_leftmost(ac: AhoCorasick) -> bool;

/// The matches that a leftmost-first matcher for `patterns` reports in
/// `haystack`, one after the other without overlap: for each the number of
/// its pattern and the byte offset at which it starts.
pub uninterp spec fn leftmost_matches(patterns: Seq<Seq<u8>>, haystack: Seq<u8>) -> Seq<
    (usize, usize),
>;

/// Whether `AhoCorasick::new` builds a matcher for the patterns.
pub uninterp spec fn standard_builds(patterns: Seq<Seq<u8>>) -> bool;

/// Whether `AhoCorasickBuilder::build` builds a leftmost-first matcher for
/// the patterns.
pub uninterp spec fn leftmost_builds(patterns: Seq<Seq<u8>>) -> bool;

/// Whether `Regex::new` compiles the pattern.
pub uninterp spec fn regex_builds(pattern: Seq<char>) -> bool;

/// The pattern that a regular expression was compiled from.
pub uninterp spec fn regex_pattern(re: Regex) -> Seq<char>;

/// The leftmost match of `pattern` in `line`: the byte offset at which it
/// starts and the text that matched.
pub uninterp spec fn first_match(pattern: Seq<char>, line: Seq<char>) -> Option<(usize, Seq<char>)>;

/// The characters that have a meaning in a regular expression.
pub open spec fn is_meta(c: char) -> bool {
    c == '\\' || c == '.' || c == '+' || c == '*' || c == '?' || c == '(' || c == ')' || c == '|'
        || c == '[' || c == ']' || c == '{' || c == '}' || c == '^' || c == '$' || c == '#' || c
        == '&' || c == '-' || c == '~'
}

/// `text` with a backslash before every character that has a meaning in a
/// regular expression.
pub open spec fn escaped(text: Seq<char>) -> Seq<char>
    decreases text.len(),
{
    if text.len() == 0 {
        Seq::empty()
    } else if is_meta(text.last()) {
        escaped(text.drop_last()) + seq!['\\', text.last()]
    } else {
        escaped(text.drop_last()).push(text.last())
    }
}

/// The inclusive ranges of code points that a character class of
/// `regex_syntax` holds, in its order. The bytes of a class of bytes are taken
/// as the code points with the same numbers.
pub uninterp spec fn class_model(class: Class) -> Seq<(u32, u32)>;

/// The tree that a parsed pattern of `regex_syntax` holds.
pub uninterp spec fn tree_of(hir: Hir) -> Pattern;

/// The tree that `regex_syntax` reads a pattern into, or its complaint.
pub uninterp spec fn parsed(pattern: Seq<char>) -> Result<Pattern, Seq<char>>;

/// The lines of a text, as `str::lines` splits it.
pub uninterp spec fn text_lines(text: Seq<char>) -> Seq<Seq<char>>;

/// `pattern` occurs in `haystack` at byte offset `at`.
pub open spec fn occurs_at(haystack: Seq<u8>, pattern: Seq<u8>, at: int) -> bool {
    0 <= at && at + pattern.len() <= haystack.len() && haystack.subrange(
        at,
        at + pattern.len(),
    ) == pattern
}

/// One of the patterns occurs somewhere in the haystack.
pub open spec fn any_occurs(haystack: Seq<u8>, patterns: Seq<Seq<u8>>) -> bool {
    exists|p: int, at: int| 0 <= p < patterns.len() && #[trigger] occurs_at(haystack, patterns[p], at)
}

pub open spec fn bytes_view(list: Seq<Vec<u8>>) -> Seq<Seq<u8>> {
    Seq::new(list.len(), |i: int| list[i]@)
}

/// The UTF-8 bytes of each string.
pub open spec fn strings_bytes(list: Seq<String>) -> Seq<Seq<u8>> {
    Seq::new(list.len(), |i: int| encode_utf8(list[i]@))
}

pub open spec fn strings_view(list: Seq<String>) -> Seq<Seq<char>> {
    Seq::new(list.len(), |i: int| list[i]@)
}

/// `AhoCorasick::new` builds a matcher for the given patterns, with the
/// standard match kind. Whether it does depends on the patterns alone.
#[verifier::external_body]
pub(crate) fn build_matcher(patterns: &Vec<Vec<u8>>) -> (built: Option<AhoCorasick>)
    ensures
        built is Some <==> standard_builds(bytes_view(patterns@)),
        built matches Some(ac) ==> matcher_patterns(ac) == bytes_view(patterns@)
            && !matcher_is_leftmost(ac),
{
    AhoCorasick::new(patterns).ok()
}

/// `AhoCorasickBuilder::build` with `MatchKind::LeftmostFirst` builds a
/// matcher for the given words. Whether it does depends on the words alone.
#[verifier::external_body]
pub(crate) fn build_leftmost_matcher(words: &Vec<String>) -> (built: Option<AhoCorasick>)
    ensures
        built is Some <==> leftmost_builds(strings_bytes(words@)),
        built matches Some(ac) ==> matcher_is_leftmost(ac) && matcher_patterns(ac)
            == strings_bytes(words@),
{
    AhoCorasick::builder().match_kind(aho_corasick::MatchKind::LeftmostFirst).build(words).ok()
}

/// `AhoCorasick::find` finds a match exactly when one of the patterns occurs
/// somewhere in the haystack.
#[verifier::external_body]
pub(crate) fn matcher_finds(ac: &AhoCorasick, haystack: &[u8]) -> (found: bool)
    ensures
        found == any_occurs(haystack@, matcher_patterns(*ac)),
{
    ac.find(haystack).is_some()
}

/// `AhoCorasick::find_iter` on a leftmost-first matcher.
#[verifier::external_body]
pub(crate) fn matches_in(ac: &AhoCorasick, line: &str) -> (found: Vec<(usize, usize)>)
    requires
        matcher_is_leftmost(*ac),
    ensures
        found@ == leftmost_matches(matcher_patterns(*ac), line.spec_bytes()),
{
    ac.find_iter(line).map(|m| (m.pattern().as_usize(), m.start())).collect()
}

/// `Regex::new` compiles a pattern. Whether it does depends on the pattern
/// alone.
#[verifier::external_body]
pub(crate) fn compile_regex(pattern: &str) -> (built: Option<Regex>)
    ensures
        built is Some <==> regex_builds(pattern@),
        built matches Some(re) ==> regex_pattern(re) == pattern@,
{
    Regex::new(pattern).ok()
}

/// `Regex::find` hands out the leftmost match.
#[verifier::external_body]
pub(crate) fn regex_find(re: &Regex, line: &str) -> (found: Option<(usize, String)>)
    ensures
        match found {
            Some(m) => first_match(regex_pattern(*re), line@) == Some((m.0, m.1@)),
            None => first_match(regex_pattern(*re), line@) is None,
        },
{
    re.find(line).map(|m| (m.start(), m.as_str().to_owned()))
}

/// `regex::escape` puts a backslash before every character that has a
/// meaning in a regular expression, and keeps the others.
#[verifier::external_body]
pub(crate) fn escape(text: &str) -> (out: String)
    ensures
        out@ == escaped(text@),
{
    regex::escape(text)
}

/// `str::lines`.
#[verifier::external_body]
pub(crate) fn lines_of(text: &str) -> (lines: Vec<String>)
    ensures
        strings_view(lines@) == text_lines(text@),
{
    text.lines().map(|line| line.to_owned()).collect()
}

/// `ClassBytes::iter` and `ClassUnicode::iter` hand out the ranges of a class.
#[verifier::external_body]
pub(crate) fn class_ranges(class: &Class) -> (ranges: Vec<(u32, u32)>)
    ensures
        ranges@ == class_model(*class),
{
    match class {
        Class::Bytes(b) => b.iter().map(|r| (r.start() as u32, r.end() as u32)).collect(),
        Class::Unicode(u) => u.iter().map(|r| (r.start() as u32, r.end() as u32)).collect(),
    }
}

/// A tree of `regex_syntax` as a `Pattern`, node by node.
#[verifier::external_body]
pub(crate) fn pattern_of(hir: &Hir) -> (tree: Pattern)
    ensures
        tree == tree_of(*hir),
{
    match hir.kind() {
        HirKind::Empty => Pattern::Empty,
        HirKind::Literal(l) => Pattern::Literal(l.0.to_vec()),
        HirKind::Class(c) => Pattern::Class(c.clone()),
        HirKind::Look(_) => Pattern::Look,
        HirKind::Repetition(r) => Pattern::Repetition { min: r.min, max: r.max, sub: Box::new(pattern_of(&r.sub)) },
        HirKind::Capture(_) => Pattern::Capture,
        HirKind::Concat(list) => Pattern::Concat(list.iter().map(pattern_of).collect()),
        HirKind::Alternation(list) => Pattern::Alternation(list.iter().map(pattern_of).collect()),
    }
}

/// `regex_syntax::parse` reads a pattern.
#[verifier::external_body]
pub(crate) fn parse_hir(pattern: &str) -> (tree: Result<Hir, String>)
    ensures
        match tree {
            Ok(hir) => parsed(pattern@) == Ok::<Pattern, Seq<char>>(tree_of(hir)),
            Err(e) => parsed(pattern@) == Err::<Pattern, Seq<char>>(e@),
        },
{
    regex_syntax::parse(pattern).map_err(|e| format!("{e:?}"))
}

} // verus!
