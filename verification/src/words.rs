//! Sorted sets of byte strings, searched with a pattern.

use vstd::prelude::*;

verus! {

/// `fst::Set`, taken as it is: nothing of its inside is seen here.
#[verifier::external_type_specification]
#[verifier::external_body]
#[verifier::reject_recursive_types(D)]
pub struct ExFstSet<D>(fst::Set<D>);

/// A finite-state set of byte strings.
pub type WordSet = fst::Set<Vec<u8>>;

/// The byte strings that a set holds.
pub uninterp spec fn fst_keys(s: fst::Set<Vec<u8>>) -> Set<Seq<u8>>;

/// Whether the automaton that `regex_automata` builds for `pattern` accepts
/// `key`; `None` where no automaton can be built for the pattern.
pub uninterp spec fn dfa_accepts(pattern: Seq<char>, key: Seq<u8>) -> Option<bool>;

/// An automaton can be built for the pattern.
pub open spec fn pattern_builds(pattern: Seq<char>) -> bool {
    dfa_accepts(pattern, Seq::empty()) is Some
}

/// `a` comes before `b` in lexicographic order, or equals it.
pub open spec fn lex_le(a: Seq<u8>, b: Seq<u8>) -> bool
    decreases a.len(),
{
    if a.len() == 0 {
        true
    } else if b.len() == 0 {
        false
    } else if a[0] != b[0] {
        a[0] < b[0]
    } else {
        lex_le(a.drop_first(), b.drop_first())
    }
}

pub open spec fn tokens_view(tokens: Seq<Vec<u8>>) -> Seq<Seq<u8>> {
    Seq::new(tokens.len(), |i: int| tokens[i]@)
}

pub open spec fn ascending(tokens: Seq<Seq<u8>>) -> bool {
    forall|i: int, j: int| 0 <= i <= j < tokens.len() ==> lex_le(tokens[i], tokens[j])
}

/// `slice::sort` on byte strings orders them lexicographically and keeps
/// every one of them.
#[verifier::external_body]
pub(crate) fn sort_tokens(tokens: &mut Vec<Vec<u8>>)
    ensures
        ascending(tokens_view(final(tokens)@)),
        tokens_view(final(tokens)@).to_multiset() == tokens_view(old(tokens)@).to_multiset(),
{
    tokens.sort();
}

/// `fst::Set::from_iter` builds the set of the given byte strings. It fails
/// only when a string comes before its predecessor.
#[verifier::external_body]
pub(crate) fn build_word_set(tokens: &Vec<Vec<u8>>) -> (built: Option<WordSet>)
    ensures
        built is Some <==> ascending(tokens_view(tokens@)),
        built matches Some(s) ==> fst_keys(s) == tokens_view(tokens@).to_set(),
{
    fst::Set::from_iter(tokens.iter()).ok()
}

/// `fst::Set::search` with the dense automaton that `regex_automata` builds
/// for `pattern`: the strings of the set that the automaton accepts, in
/// lexicographic order. `None` where no automaton can be built.
#[verifier::external_body]
pub(crate) fn search_word_set(set: &WordSet, pattern: &str) -> (found: Option<Vec<Vec<u8>>>)
    ensures
        found is Some <==> pattern_builds(pattern@),
        found matches Some(v) ==> forall|key: Seq<u8>|
            tokens_view(v@).contains(key) <==> fst_keys(*set).contains(key) && dfa_accepts(
                pattern@,
                key,
            ) == Some(true),
        found matches Some(v) ==> tokens_view(v@).no_duplicates(),
{
    let dfa = regex_automata::dense::Builder::new().build(pattern).ok()?;
    Some(fst::IntoStreamer::into_stream(set.search(dfa)).into_bytes())
}

} // verus!
