//! The query engine: from a query to the files that may match it and, for
//! each file, the commits at which it may match.

use crate::bitmap::ascending;
use crate::bitmap::intersect_bitmap_vec;
use crate::bitmap::intersect_with;
use crate::bitmap::members;
use crate::bitmap::union_with;
use crate::document::Document;
use crate::document::key_tokens;
use crate::git_index::GitIndex;
use crate::matcher::escape;
use crate::matcher::escaped;
use crate::matcher::strings_view;
use crate::text::char_at;
use crate::text::chars_of;
use crate::text::string_from_chars;
use crate::tokenizer::is_occurrence;
use crate::tokenizer::line_tokens;
use crate::tokenizer::token_word;
use crate::tokenizer::tokenize_lines;
use crate::tokenizer::tokens_cover;
use crate::tokenizer::TokenLines;
use crate::trigram_key::pack;
use crate::trigram_key::TrigramKey;
use crate::words::dfa_accepts;
use crate::words::fst_keys;
use crate::words::pattern_builds;
use crate::words::search_word_set;
use crate::words::tokens_view;
use crate::words::WordSet;
use roaring::RoaringBitmap;
use vstd::prelude::*;

verus! {

pub struct GitSearcher<'i> {
    pub index: &'i GitIndex,
}

#[derive(Default)]
pub struct SearchOption {
    pub max_num_to_find: Option<usize>,
}

#[derive(Debug)]
pub enum Query {
    Words(Vec<String>),
    Regex(String),
}

#[derive(Debug)]
pub struct RawPerFileSearchResult {
    pub query: Query,
    pub file_id: u32,
    pub overlapped_commits: RoaringBitmap,
}

/// White space, as Unicode lists it.
pub open spec fn is_space(c: char) -> bool {
    let u = c as u32;
    (9 <= u <= 13) || u == 32 || u == 0x85 || u == 0xA0 || u == 0x1680 || (0x2000 <= u <= 0x200A)
        || u == 0x2028 || u == 0x2029 || u == 0x202F || u == 0x205F || u == 0x3000
}

pub fn is_whitespace(c: char) -> (space: bool)
    ensures
        space == is_space(c),
{
    let u: u32 = c as u32;
    (9 <= u && u <= 13) || u == 32 || u == 0x85 || u == 0xA0 || u == 0x1680 || (0x2000 <= u && u
        <= 0x200A) || u == 0x2028 || u == 0x2029 || u == 0x202F || u == 0x205F || u == 0x3000
}

/// The words of a text: its longest stretches without white space.
pub open spec fn words_of(text: Seq<char>) -> Seq<Seq<char>>
    decreases text.len(),
{
    if text.len() == 0 {
        Seq::empty()
    } else {
        let rest = words_of(text.drop_last());
        if is_space(text.last()) {
            rest
        } else if text.len() >= 2 && !is_space(text[text.len() - 2]) {
            rest.drop_last().push(rest.last().push(text.last()))
        } else {
            rest.push(seq![text.last()])
        }
    }
}

/// Splits a text at white space.
pub fn split_whitespace(text: &str) -> (words: Vec<String>)
    ensures
        strings_view(words@) == words_of(text@),
        forall|i: int| 0 <= i < words@.len() ==> (#[trigger] words@[i])@.len() > 0,
{
    let chars = chars_of(text);
    let mut done: Vec<String> = Vec::new();
    let mut current: Vec<char> = Vec::new();
    let mut i: usize = 0;
    proof {
        assert(chars@.take(0) =~= Seq::<char>::empty());
        assert(strings_view(done@) =~= Seq::<Seq<char>>::empty());
    }
    while i < chars.len()
        invariant
            i <= chars@.len(),
            chars@ == text@,
            current@.len() > 0 <==> i > 0 && !is_space(chars@[i - 1]),
            words_of(chars@.take(i as int)) == (if current@.len() > 0 {
                strings_view(done@).push(current@)
            } else {
                strings_view(done@)
            }),
            forall|k: int| 0 <= k < done@.len() ==> (#[trigger] done@[k])@.len() > 0,
        decreases chars@.len() - i,
    {
        let c = char_at(&chars, i);
        proof {
            let longer = chars@.take(i + 1);
            assert(longer.drop_last() =~= chars@.take(i as int));
            assert(longer.last() == c);
            if i > 0 {
                assert(longer[longer.len() - 2] == chars@[i - 1]);
            }
        }
        if is_whitespace(c) {
            if current.len() > 0 {
                let ghost before = strings_view(done@);
                done.push(string_from_chars(&current));
                proof {
                    assert(strings_view(done@) =~= before.push(current@));
                }
                current = Vec::new();
            }
        } else {
            let ghost before = current@;
            current.push(c);
            proof {
                let rest = words_of(chars@.take(i as int));
                if before.len() > 0 {
                    assert(rest.drop_last() =~= strings_view(done@));
                    assert(rest.last() == before);
                } else {
                    assert(current@ =~= seq![c]);
                }
            }
        }
        i += 1;
    }
    proof {
        assert(chars@.take(chars@.len() as int) =~= chars@);
    }
    if current.len() > 0 {
        let ghost before = strings_view(done@);
        done.push(string_from_chars(&current));
        proof {
            assert(strings_view(done@) =~= before.push(current@));
        }
    }
    done
}

/// The key words of the trigrams of a word.
pub open spec fn word_trigrams(w: Seq<char>) -> Set<u128> {
    Set::new(
        |x: u128|
            exists|j: int| 0 <= j < line_tokens(w).len() && #[trigger] token_word(line_tokens(w)[j]) == x,
    )
}

/// The pattern for every token of three characters that holds the short
/// word `w`.
pub open spec fn short_pattern(w: Seq<char>) -> Seq<char> {
    let e = escaped(w);
    if w.len() == 2 {
        e + seq!['.', '|', '.'] + e
    } else {
        e + seq!['.', '.', '|', '.'] + e + seq!['.', '|', '.', '.'] + e
    }
}

/// The keys of a set that the automaton of `pattern` accepts: none where no
/// automaton can be built.
pub open spec fn accepted_keys(keys: Set<Seq<u8>>, pattern: Seq<char>) -> Set<Seq<u8>> {
    Set::new(
        |k: Seq<u8>| pattern_builds(pattern) && keys.contains(k) && dfa_accepts(pattern, k) == Some(true),
    )
}

/// The files that ever held one of the tokens.
pub open spec fn token_files(index: &GitIndex, keys: Set<Seq<u8>>) -> Set<u32> {
    Set::new(
        |f: u32|
            exists|k: Seq<u8>| keys.contains(k) && #[trigger] index.files_of(pack(k) as u128).contains(f),
    )
}

/// The commits at which the document holds one of the tokens.
pub open spec fn token_commits(doc: &Document, keys: Set<Seq<u8>>) -> Set<u32> {
    Set::new(
        |c: u32|
            exists|k: Seq<u8>| keys.contains(k) && #[trigger] doc.commits_of(pack(k) as u128).contains(c),
    )
}

/// The files that may hold the word `w`: for a word of one or two characters
/// those that ever held a token that holds it, else those that ever held
/// every trigram of it. `None` when the index knows no such token, or not
/// every trigram.
pub open spec fn word_files(index: &GitIndex, w: Seq<char>) -> Option<Set<u32>> {
    if w.len() <= 2 {
        let keys = accepted_keys(fst_keys(index.all_words), short_pattern(w));
        if keys == Set::<Seq<u8>>::empty() {
            None
        } else {
            Some(token_files(index, keys))
        }
    } else if forall|t: u128|
        word_trigrams(w).contains(t) ==> index.word_to_file_id_ever_contained.has_word(t) {
        Some(Set::new(|f: u32| forall|t: u128| word_trigrams(w).contains(t) ==> index.files_of(t).contains(f)))
    } else {
        None
    }
}

/// The commits at which the document may hold the word `w`.
pub open spec fn doc_word_commits(doc: &Document, w: Seq<char>) -> Set<u32> {
    if w.len() <= 2 {
        match doc.all_words {
            Some(set) => token_commits(doc, accepted_keys(fst_keys(set), short_pattern(w))),
            None => Set::empty(),
        }
    } else {
        Set::new(|c: u32| forall|t: u128| word_trigrams(w).contains(t) ==> doc.commits_of(t).contains(c))
    }
}

/// The files that may hold every word; `None` when there is no word, or a
/// word that no file may hold.
pub open spec fn plain_candidates(index: &GitIndex, words: Seq<Seq<char>>) -> Option<Set<u32>> {
    if words.len() == 0 || exists|i: int|
        0 <= i < words.len() && (#[trigger] word_files(index, words[i])) is None {
        None
    } else {
        Some(
            Set::new(
                |f: u32|
                    forall|i: int|
                        0 <= i < words.len() ==> (#[trigger] word_files(index, words[i])).unwrap().contains(f),
            ),
        )
    }
}

/// The commits that changed the file and at which it may hold every word.
pub open spec fn plain_overlap(doc: &Document, words: Seq<Seq<char>>) -> Set<u32> {
    Set::new(
        |c: u32|
            doc.modified().contains(c) && forall|i: int|
                0 <= i < words.len() ==> (#[trigger] doc_word_commits(doc, words[i])).contains(c),
    )
}

/// The keys of the tokens of a single line are the trigrams of the line.
pub proof fn lemma_tokens_of_word(tokens: Seq<TokenLines>, lines: Seq<String>, w: Seq<char>)
    requires
        tokens_cover(tokens, lines, 0, 1, 0),
        lines.len() == 1,
        lines[0]@ == w,
    ensures
        forall|x: u128|
            word_trigrams(w).contains(x) <==> exists|e: int|
                0 <= e < tokens.len() && (#[trigger] tokens[e]).key.word() == x,
{
    assert forall|x: u128|
        word_trigrams(w).contains(x) <==> exists|e: int|
            0 <= e < tokens.len() && (#[trigger] tokens[e]).key.word() == x by {
        if word_trigrams(w).contains(x) {
            let j = choose|j: int|
                0 <= j < line_tokens(w).len() && #[trigger] token_word(line_tokens(w)[j]) == x;
            assert(is_occurrence(lines, 1, 0, 0, j, x));
        }
        if exists|e: int| 0 <= e < tokens.len() && (#[trigger] tokens[e]).key.word() == x {
            let e = choose|e: int| 0 <= e < tokens.len() && (#[trigger] tokens[e]).key.word() == x;
            let n = tokens[e].lines@[0];
            assert(tokens[e].lines@.contains(n));
            let (i2, j2) = choose|i2: int, j2: int| #[trigger]
                is_occurrence(lines, 1, 0, i2, j2, tokens[e].key.word()) && n == 0 + i2;
            assert(i2 == 0);
            assert(token_word(line_tokens(w)[j2]) == x);
        }
    }
}

/// The pattern for the tokens that hold a word of one or two characters.
fn short_word_pattern(word: &str) -> (pattern: String)
    requires
        1 <= word@.len() <= 2,
    ensures
        pattern@ == short_pattern(word@),
{
    let e = escape(word);
    let e_chars = chars_of(e.as_str());
    let mut out: Vec<char> = Vec::new();
    append_chars(&mut out, &e_chars);
    if word.unicode_len() == 2 {
        out.push('.');
        out.push('|');
        out.push('.');
        append_chars(&mut out, &e_chars);
        proof {
            assert(out@ =~= short_pattern(word@));
        }
    } else {
        out.push('.');
        out.push('.');
        out.push('|');
        out.push('.');
        append_chars(&mut out, &e_chars);
        out.push('.');
        out.push('|');
        out.push('.');
        out.push('.');
        append_chars(&mut out, &e_chars);
        proof {
            assert(out@ =~= short_pattern(word@));
        }
    }
    string_from_chars(&out)
}

/// The tokens of the set that hold the word `key` of one or two
/// characters. `None` where no automaton can be built for the word.
pub fn find_all_words_containing_key(key: &str, all_words: &WordSet) -> (found: Option<Vec<Vec<u8>>>)
    requires
        1 <= key@.len() <= 2,
    ensures
        found is Some <==> pattern_builds(short_pattern(key@)),
        found matches Some(v) ==> forall|k: Seq<u8>|
            tokens_view(v@).contains(k) <==> accepted_keys(
                fst_keys(*all_words),
                short_pattern(key@),
            ).contains(k),
        found matches Some(v) ==> tokens_view(v@).no_duplicates(),
{
    let pattern = short_word_pattern(key);
    search_word_set(all_words, pattern.as_str())
}

fn append_chars(out: &mut Vec<char>, more: &Vec<char>)
    ensures
        final(out)@ == old(out)@ + more@,
{
    let mut i: usize = 0;
    while i < more.len()
        invariant
            i <= more@.len(),
            out@ == old(out)@ + more@.take(i as int),
        decreases more@.len() - i,
    {
        out.push(char_at(more, i));
        proof {
            assert(out@ =~= old(out)@ + more@.take(i + 1));
        }
        i += 1;
    }
    proof {
        assert(more@.take(more@.len() as int) =~= more@);
    }
}

/// The tokens of a single word.
fn word_tokens(word: &str) -> (tokens: Vec<TokenLines>)
    ensures
        forall|x: u128|
            word_trigrams(word@).contains(x) <==> exists|e: int|
                0 <= e < tokens@.len() && (#[trigger] tokens@[e]).key.word() == x,
        forall|e: int| 0 <= e < tokens@.len() ==> (#[trigger] tokens@[e]).key.wf(),
        word@.len() > 0 ==> tokens@.len() > 0,
{
    let mut lines: Vec<String> = Vec::new();
    lines.push(word.to_owned());
    let tokens = tokenize_lines(lines.as_slice(), 0);
    proof {
        lemma_tokens_of_word(tokens@, lines@, word@);
        if word@.len() > 0 {
            let x = token_word(line_tokens(word@)[0]);
            assert(word_trigrams(word@).contains(x));
        }
    }
    tokens
}

impl<'i> GitSearcher<'i> {
    pub fn new(index: &'i GitIndex) -> (searcher: Self)
        ensures
            searcher.index == index,
    {
        Self { index }
    }

    /// The files that may hold `word`.
    pub fn get_document_bitmap_containing_word(&self, word: &str) -> (out: Option<RoaringBitmap>)
        requires
            self.index.wf(),
            word@.len() > 0,
        ensures
            match out {
                Some(b) => word_files(self.index, word@) == Some(members(b)),
                None => word_files(self.index, word@) is None,
            },
    {
        let index = self.index;
        if word.unicode_len() <= 2 {
            let ghost keys = accepted_keys(fst_keys(index.all_words), short_pattern(word@));
            let found = match find_all_words_containing_key(word, &index.all_words) {
                Some(found) => found,
                None => {
                    proof {
                        assert(keys =~= Set::<Seq<u8>>::empty());
                    }
                    return None;
                },
            };
            if found.len() == 0 {
                proof {
                    assert forall|k: Seq<u8>| !keys.contains(k) by {
                        assert(!tokens_view(found@).contains(k));
                    }
                    assert(keys =~= Set::<Seq<u8>>::empty());
                }
                return None;
            }
            let mut total = RoaringBitmap::new();
            let mut i: usize = 0;
            while i < found.len()
                invariant
                    i <= found@.len(),
                    index.wf(),
                    forall|k: Seq<u8>| tokens_view(found@).contains(k) <==> keys.contains(k),
                    keys == accepted_keys(fst_keys(index.all_words), short_pattern(word@)),
                    forall|f: u32|
                        members(total).contains(f) <==> exists|j: int|
                            0 <= j < i && #[trigger] index.files_of(
                                pack(tokens_view(found@)[j]) as u128,
                            ).contains(f),
                decreases found@.len() - i,
            {
                let ghost k = tokens_view(found@)[i as int];
                proof {
                    assert(tokens_view(found@).contains(k));
                    assert(keys.contains(k));
                    // a key of the set is the token of a key of the index
                    let e = choose|e: int|
                        0 <= e < index.word_to_file_id_ever_contained.index.keys@.len() && (
                        #[trigger] index.word_to_file_id_ever_contained.index.keys@[e])@ == k;
                    assert(index.word_to_file_id_ever_contained.index.keys@[e].wf());
                }
                let ghost before = members(total);
                if found[i].len() <= 12 {
                    let key = TrigramKey::from_bytes(found[i].as_slice());
                    match index.word_to_file_id_ever_contained.get(&key) {
                        Some(files) => {
                            union_with(&mut total, files);
                        },
                        None => {},
                    }
                }
                proof {
                    assert forall|f: u32|
                        members(total).contains(f) <==> exists|j: int|
                            0 <= j < i + 1 && #[trigger] index.files_of(
                                pack(tokens_view(found@)[j]) as u128,
                            ).contains(f) by {
                        if members(total).contains(f) {
                            if before.contains(f) {
                                let j = choose|j: int|
                                    0 <= j < i && #[trigger] index.files_of(
                                        pack(tokens_view(found@)[j]) as u128,
                                    ).contains(f);
                                assert(0 <= j < i + 1);
                            } else {
                                assert(index.files_of(pack(k) as u128).contains(f));
                            }
                        }
                        if exists|j: int|
                            0 <= j < i + 1 && #[trigger] index.files_of(
                                pack(tokens_view(found@)[j]) as u128,
                            ).contains(f) {
                            let j = choose|j: int|
                                0 <= j < i + 1 && #[trigger] index.files_of(
                                    pack(tokens_view(found@)[j]) as u128,
                                ).contains(f);
                            if j < i {
                                assert(before.contains(f));
                            }
                        }
                    }
                }
                i += 1;
            }
            proof {
                assert(tokens_view(found@).contains(tokens_view(found@)[0]));
                assert(keys.contains(tokens_view(found@)[0]));
                assert(keys != Set::<Seq<u8>>::empty());
                assert forall|f: u32| members(total).contains(f) <==> token_files(
                    index,
                    keys,
                ).contains(f) by {
                    if members(total).contains(f) {
                        let j = choose|j: int|
                            0 <= j < found@.len() && #[trigger] index.files_of(
                                pack(tokens_view(found@)[j]) as u128,
                            ).contains(f);
                        assert(tokens_view(found@).contains(tokens_view(found@)[j]));
                    }
                    if token_files(index, keys).contains(f) {
                        let k = choose|k: Seq<u8>|
                            keys.contains(k) && #[trigger] index.files_of(pack(k) as u128).contains(
                                f,
                            );
                        assert(tokens_view(found@).contains(k));
                        let j = choose|j: int|
                            0 <= j < tokens_view(found@).len() && tokens_view(found@)[j] == k;
                        assert(index.files_of(pack(tokens_view(found@)[j]) as u128).contains(f));
                    }
                }
                assert(members(total) =~= token_files(index, keys));
            }
            return Some(total);
        }
        let tokens = word_tokens(word);
        let mut total: RoaringBitmap = match index.word_to_file_id_ever_contained.get(
            &tokens[0].key,
        ) {
            Some(files) => files.clone(),
            None => {
                proof {
                    assert(word_trigrams(word@).contains(tokens@[0].key.word()));
                }
                return None;
            },
        };
        let mut i: usize = 1;
        while i < tokens.len()
            invariant
                1 <= i <= tokens@.len(),
                index.wf(),
                index == self.index,
                word@.len() > 2,
                forall|e: int| 0 <= e < tokens@.len() ==> (#[trigger] tokens@[e]).key.wf(),
                forall|x: u128|
                    word_trigrams(word@).contains(x) <==> exists|e: int|
                        0 <= e < tokens@.len() && (#[trigger] tokens@[e]).key.word() == x,
                forall|e: int|
                    0 <= e < i ==> index.word_to_file_id_ever_contained.has_word(
                        (#[trigger] tokens@[e]).key.word(),
                    ),
                forall|f: u32|
                    members(total).contains(f) <==> forall|e: int|
                        0 <= e < i ==> index.files_of((#[trigger] tokens@[e]).key.word()).contains(
                            f,
                        ),
            decreases tokens@.len() - i,
        {
            let ghost before = members(total);
            match index.word_to_file_id_ever_contained.get(&tokens[i].key) {
                Some(files) => {
                    intersect_with(&mut total, files);
                },
                None => {
                    proof {
                        assert(word_trigrams(word@).contains(tokens@[i as int].key.word()));
                    }
                    return None;
                },
            }
            proof {
                assert forall|f: u32|
                    members(total).contains(f) <==> forall|e: int|
                        0 <= e < i + 1 ==> index.files_of(
                            (#[trigger] tokens@[e]).key.word(),
                        ).contains(f) by {
                    if members(total).contains(f) {
                        assert(before.contains(f));
                    }
                    if forall|e: int|
                        0 <= e < i + 1 ==> index.files_of(
                            (#[trigger] tokens@[e]).key.word(),
                        ).contains(f) {
                        assert(index.files_of(tokens@[i as int].key.word()).contains(f));
                        assert(before.contains(f));
                    }
                }
            }
            i += 1;
        }
        proof {
            let want = Set::new(
                |f: u32|
                    forall|t: u128| word_trigrams(word@).contains(t) ==> index.files_of(t).contains(f),
            );
            assert forall|t: u128|
                word_trigrams(word@).contains(
                    t,
                ) implies index.word_to_file_id_ever_contained.has_word(t) by {
                let e = choose|e: int|
                    0 <= e < tokens@.len() && (#[trigger] tokens@[e]).key.word() == t;
            }
            assert forall|f: u32| members(total).contains(f) <==> want.contains(f) by {
                if members(total).contains(f) {
                    assert forall|t: u128| word_trigrams(word@).contains(t) implies index.files_of(
                        t,
                    ).contains(f) by {
                        let e = choose|e: int|
                            0 <= e < tokens@.len() && (#[trigger] tokens@[e]).key.word() == t;
                    }
                }
                if want.contains(f) {
                    assert forall|e: int| 0 <= e < tokens@.len() implies index.files_of(
                        (#[trigger] tokens@[e]).key.word(),
                    ).contains(f) by {
                        assert(word_trigrams(word@).contains(tokens@[e].key.word()));
                    }
                }
            }
            assert(members(total) =~= want);
        }
        Some(total)
    }
}


/// The document is finished: it has the set of its trigrams.
pub open spec fn finished(doc: &Document) -> bool {
    doc.wf() && (doc.all_words matches Some(set) && fst_keys(set) == key_tokens(doc.index.keys@))
}

/// The commits at which the document may hold `word`.
pub fn find_matching_commit_histories_in_doc(doc: &Document, word: &str) -> (out: RoaringBitmap)
    requires
        finished(doc),
        word@.len() > 0,
    ensures
        members(out) == doc_word_commits(doc, word@),
{
    if word.unicode_len() <= 2 {
        let set = match &doc.all_words {
            Some(set) => set,
            None => {
                return RoaringBitmap::new();
            },
        };
        let ghost keys = accepted_keys(fst_keys(*set), short_pattern(word@));
        let mut total = RoaringBitmap::new();
        let found = match find_all_words_containing_key(word, set) {
            Some(found) => found,
            None => {
                proof {
                    assert(members(total) =~= token_commits(doc, keys));
                }
                return total;
            },
        };
        let mut i: usize = 0;
        while i < found.len()
            invariant
                i <= found@.len(),
                finished(doc),
                forall|k: Seq<u8>| tokens_view(found@).contains(k) <==> keys.contains(k),
                forall|k: Seq<u8>| keys.contains(k) ==> key_tokens(doc.index.keys@).contains(k),
                forall|c: u32|
                    members(total).contains(c) <==> exists|j: int|
                        0 <= j < i && #[trigger] doc.commits_of(
                            pack(tokens_view(found@)[j]) as u128,
                        ).contains(c),
            decreases found@.len() - i,
        {
            let ghost k = tokens_view(found@)[i as int];
            proof {
                assert(tokens_view(found@).contains(k));
                assert(keys.contains(k));
                let e = choose|e: int|
                    0 <= e < doc.index.keys@.len() && (#[trigger] doc.index.keys@[e])@ == k;
                assert(doc.index.keys@[e].wf());
            }
            let ghost before = members(total);
            if found[i].len() <= 12 {
                let key = TrigramKey::from_bytes(found[i].as_slice());
                match doc.commits(&key) {
                    Some(commits) => {
                        union_with(&mut total, commits);
                    },
                    None => {},
                }
            }
            proof {
                assert forall|c: u32|
                    members(total).contains(c) <==> exists|j: int|
                        0 <= j < i + 1 && #[trigger] doc.commits_of(
                            pack(tokens_view(found@)[j]) as u128,
                        ).contains(c) by {
                    if members(total).contains(c) {
                        if before.contains(c) {
                            let j = choose|j: int|
                                0 <= j < i && #[trigger] doc.commits_of(
                                    pack(tokens_view(found@)[j]) as u128,
                                ).contains(c);
                            assert(0 <= j < i + 1);
                        } else {
                            assert(doc.commits_of(pack(k) as u128).contains(c));
                        }
                    }
                    if exists|j: int|
                        0 <= j < i + 1 && #[trigger] doc.commits_of(
                            pack(tokens_view(found@)[j]) as u128,
                        ).contains(c) {
                        let j = choose|j: int|
                            0 <= j < i + 1 && #[trigger] doc.commits_of(
                                pack(tokens_view(found@)[j]) as u128,
                            ).contains(c);
                        if j < i {
                            assert(before.contains(c));
                        }
                    }
                }
            }
            i += 1;
        }
        proof {
            assert forall|c: u32| members(total).contains(c) <==> token_commits(doc, keys).contains(
                c,
            ) by {
                if members(total).contains(c) {
                    let j = choose|j: int|
                        0 <= j < found@.len() && #[trigger] doc.commits_of(
                            pack(tokens_view(found@)[j]) as u128,
                        ).contains(c);
                    assert(tokens_view(found@).contains(tokens_view(found@)[j]));
                }
                if token_commits(doc, keys).contains(c) {
                    let k = choose|k: Seq<u8>|
                        keys.contains(k) && #[trigger] doc.commits_of(pack(k) as u128).contains(c);
                    assert(tokens_view(found@).contains(k));
                    let j = choose|j: int|
                        0 <= j < tokens_view(found@).len() && tokens_view(found@)[j] == k;
                    assert(doc.commits_of(pack(tokens_view(found@)[j]) as u128).contains(c));
                }
            }
            assert(members(total) =~= token_commits(doc, keys));
        }
        return total;
    }
    let tokens = word_tokens(word);
    let ghost want = doc_word_commits(doc, word@);
    let mut total: RoaringBitmap = match doc.commits(&tokens[0].key) {
        Some(commits) => commits.clone(),
        None => {
            let none = RoaringBitmap::new();
            proof {
                let t = tokens@[0].key.word();
                assert(word_trigrams(word@).contains(t));
                assert(doc.commits_of(t) =~= Set::<u32>::empty());
                assert(members(none) =~= want);
            }
            return none;
        },
    };
    let mut i: usize = 1;
    while i < tokens.len()
        invariant
            1 <= i <= tokens@.len(),
            finished(doc),
            word@.len() > 2,
            want == doc_word_commits(doc, word@),
            forall|e: int| 0 <= e < tokens@.len() ==> (#[trigger] tokens@[e]).key.wf(),
            forall|x: u128|
                word_trigrams(word@).contains(x) <==> exists|e: int|
                    0 <= e < tokens@.len() && (#[trigger] tokens@[e]).key.word() == x,
            forall|c: u32|
                members(total).contains(c) <==> forall|e: int|
                    0 <= e < i ==> doc.commits_of((#[trigger] tokens@[e]).key.word()).contains(c),
        decreases tokens@.len() - i,
    {
        let ghost before = members(total);
        match doc.commits(&tokens[i].key) {
            Some(commits) => {
                intersect_with(&mut total, commits);
            },
            None => {
                let none = RoaringBitmap::new();
                proof {
                    let t = tokens@[i as int].key.word();
                    assert(word_trigrams(word@).contains(t));
                    assert(doc.commits_of(t) =~= Set::<u32>::empty());
                    assert(members(none) =~= want);
                }
                return none;
            },
        }
        proof {
            assert forall|c: u32|
                members(total).contains(c) <==> forall|e: int|
                    0 <= e < i + 1 ==> doc.commits_of((#[trigger] tokens@[e]).key.word()).contains(
                        c,
                    ) by {
                if members(total).contains(c) {
                    assert(before.contains(c));
                }
                if forall|e: int|
                    0 <= e < i + 1 ==> doc.commits_of((#[trigger] tokens@[e]).key.word()).contains(
                        c,
                    ) {
                    assert(doc.commits_of(tokens@[i as int].key.word()).contains(c));
                    assert(before.contains(c));
                }
            }
        }
        i += 1;
    }
    proof {
        assert forall|c: u32| members(total).contains(c) <==> want.contains(c) by {
            if members(total).contains(c) {
                assert forall|t: u128| word_trigrams(word@).contains(t) implies doc.commits_of(
                    t,
                ).contains(c) by {
                    let e = choose|e: int|
                        0 <= e < tokens@.len() && (#[trigger] tokens@[e]).key.word() == t;
                }
            }
            if want.contains(c) {
                assert forall|e: int| 0 <= e < tokens@.len() implies doc.commits_of(
                    (#[trigger] tokens@[e]).key.word(),
                ).contains(c) by {
                    assert(word_trigrams(word@).contains(tokens@[e].key.word()));
                }
            }
        }
        assert(members(total) =~= want);
    }
    total
}

/// The commits that changed the file and at which it may hold every word.
pub fn overlapped_commits(doc: &Document, words: &Vec<String>) -> (out: RoaringBitmap)
    requires
        finished(doc),
        forall|i: int| 0 <= i < words@.len() ==> (#[trigger] words@[i])@.len() > 0,
    ensures
        members(out) == plain_overlap(doc, strings_view(words@)),
{
    let ghost ws = strings_view(words@);
    let mut total = doc.doc_modified_commits.clone();
    let mut i: usize = 0;
    while i < words.len()
        invariant
            i <= words@.len(),
            finished(doc),
            ws == strings_view(words@),
            forall|i: int| 0 <= i < words@.len() ==> (#[trigger] words@[i])@.len() > 0,
            forall|c: u32|
                members(total).contains(c) <==> doc.modified().contains(c) && forall|k: int|
                    0 <= k < i ==> (#[trigger] doc_word_commits(doc, ws[k])).contains(c),
        decreases words@.len() - i,
    {
        let ghost before = members(total);
        let commits = find_matching_commit_histories_in_doc(doc, words[i].as_str());
        intersect_with(&mut total, &commits);
        proof {
            assert(ws[i as int] == words@[i as int]@);
            assert forall|c: u32|
                members(total).contains(c) <==> doc.modified().contains(c) && forall|k: int|
                    0 <= k < i + 1 ==> (#[trigger] doc_word_commits(doc, ws[k])).contains(c) by {
                if members(total).contains(c) {
                    assert(before.contains(c));
                }
                if doc.modified().contains(c) && forall|k: int|
                    0 <= k < i + 1 ==> (#[trigger] doc_word_commits(doc, ws[k])).contains(c) {
                    assert(doc_word_commits(doc, ws[i as int]).contains(c));
                    assert(before.contains(c));
                }
            }
        }
        i += 1;
    }
    proof {
        assert(members(total) =~= plain_overlap(doc, ws));
    }
    total
}


pub fn clone_strings(list: &Vec<String>) -> (out: Vec<String>)
    ensures
        strings_view(out@) == strings_view(list@),
{
    let mut out: Vec<String> = Vec::new();
    let mut i: usize = 0;
    while i < list.len()
        invariant
            i <= list@.len(),
            out@.len() == i,
            forall|k: int| 0 <= k < i ==> (#[trigger] out@[k])@ == list@[k]@,
        decreases list@.len() - i,
    {
        out.push(list[i].clone());
        i += 1;
    }
    proof {
        assert(strings_view(out@) =~= strings_view(list@));
    }
    out
}

/// File `f` is a hit of the words: it may hold every word, and some commit
/// that changed it may hold them all.
pub open spec fn is_plain_hit(index: &GitIndex, words: Seq<Seq<char>>, f: u32) -> bool {
    &&& plain_candidates(index, words) matches Some(files) && files.contains(f)
    &&& f < index.file_id_to_document@.len()
    &&& plain_overlap(&index.file_id_to_document@[f as int], words) != Set::<u32>::empty()
}

/// The most results that a search with the given bound hands out.
pub open spec fn result_bound(limit: Option<usize>) -> Option<int> {
    match limit {
        Some(m) => Some(m as int),
        None => None,
    }
}

pub open spec fn limit_of(option: Option<SearchOption>) -> Option<usize> {
    match option {
        Some(o) => o.max_num_to_find,
        None => None,
    }
}

/// `results` are the raw results of a search for `words`: one result for
/// each hit, by ascending file id, as many as the bound allows.
pub open spec fn plain_results(
    index: &GitIndex,
    words: Seq<Seq<char>>,
    limit: Option<usize>,
    results: Seq<RawPerFileSearchResult>,
) -> bool {
    &&& forall|i: int, j: int|
        0 <= i < j < results.len() ==> (#[trigger] results[i]).file_id < (#[trigger] results[j]).file_id
    &&& forall|i: int|
        0 <= i < results.len() ==> {
            &&& is_plain_hit(index, words, (#[trigger] results[i]).file_id)
            &&& members(results[i].overlapped_commits) == plain_overlap(
                &index.file_id_to_document@[results[i].file_id as int],
                words,
            )
            &&& results[i].query matches Query::Words(list) && strings_view(list@) == words
        }
    &&& (result_bound(limit) matches Some(m) ==> results.len() <= m)
    &&& forall|f: u32| #[trigger]
        is_plain_hit(index, words, f) ==> (exists|i: int|
            0 <= i < results.len() && (#[trigger] results[i]).file_id == f) || (result_bound(
            limit,
        ) matches Some(m) && results.len() == m && (m == 0 || results.last().file_id < f))
}

/// What the results hold after the first `n` candidate files were looked at.
#[verifier::opaque]
pub open spec fn results_upto(
    index: &GitIndex,
    words: Seq<Seq<char>>,
    results: Seq<RawPerFileSearchResult>,
    files: Seq<u32>,
    n: int,
) -> bool {
    &&& forall|i: int, j: int|
        0 <= i < j < results.len() ==> (#[trigger] results[i]).file_id < (#[trigger] results[j]).file_id
    &&& forall|i: int|
        0 <= i < results.len() ==> {
            &&& is_plain_hit(index, words, (#[trigger] results[i]).file_id)
            &&& members(results[i].overlapped_commits) == plain_overlap(
                &index.file_id_to_document@[results[i].file_id as int],
                words,
            )
            &&& results[i].query matches Query::Words(list) && strings_view(list@) == words
        }
    &&& forall|i: int|
        0 <= i < results.len() ==> exists|k: int|
            0 <= k < n && files[k] == (#[trigger] results[i]).file_id
    &&& forall|k: int|
        0 <= k < n && is_plain_hit(index, words, #[trigger] files[k]) ==> exists|i: int|
            0 <= i < results.len() && (#[trigger] results[i]).file_id == files[k]
}

proof fn lemma_results_start(index: &GitIndex, words: Seq<Seq<char>>, files: Seq<u32>)
    ensures
        results_upto(index, words, Seq::empty(), files, 0),
{
    reveal(results_upto);
}

proof fn lemma_results_skip(
    index: &GitIndex,
    words: Seq<Seq<char>>,
    results: Seq<RawPerFileSearchResult>,
    files: Seq<u32>,
    n: int,
)
    requires
        0 <= n < files.len(),
        results_upto(index, words, results, files, n),
        !is_plain_hit(index, words, files[n]),
    ensures
        results_upto(index, words, results, files, n + 1),
{
    reveal(results_upto);
    assert forall|i: int| 0 <= i < results.len() implies exists|k: int|
        0 <= k < n + 1 && files[k] == (#[trigger] results[i]).file_id by {
        let k = choose|k: int| 0 <= k < n && files[k] == results[i].file_id;
        assert(0 <= k < n + 1);
    }
}

proof fn lemma_results_push(
    index: &GitIndex,
    words: Seq<Seq<char>>,
    before: Seq<RawPerFileSearchResult>,
    hit: RawPerFileSearchResult,
    files: Seq<u32>,
    n: int,
)
    requires
        0 <= n < files.len(),
        forall|a: int, b: int| 0 <= a < b < files.len() ==> files[a] < files[b],
        results_upto(index, words, before, files, n),
        hit.file_id == files[n],
        is_plain_hit(index, words, hit.file_id),
        members(hit.overlapped_commits) == plain_overlap(
            &index.file_id_to_document@[hit.file_id as int],
            words,
        ),
        hit.query matches Query::Words(list) && strings_view(list@) == words,
    ensures
        results_upto(index, words, before.push(hit), files, n + 1),
        before.push(hit).last().file_id == files[n],
{
    reveal(results_upto);
    let after = before.push(hit);
    assert forall|i: int, j: int| 0 <= i < j < after.len() implies (#[trigger] after[i]).file_id
        < (#[trigger] after[j]).file_id by {
        if j == before.len() {
            let k = choose|k: int| 0 <= k < n && files[k] == before[i].file_id;
            assert(files[k] < files[n]);
        }
    }
    assert forall|i: int| 0 <= i < after.len() implies exists|k: int|
        0 <= k < n + 1 && files[k] == (#[trigger] after[i]).file_id by {
        if i < before.len() {
            let k = choose|k: int| 0 <= k < n && files[k] == before[i].file_id;
            assert(0 <= k < n + 1);
        } else {
            assert(files[n] == after[i].file_id);
        }
    }
    assert forall|k: int|
        0 <= k < n + 1 && is_plain_hit(index, words, #[trigger] files[k]) implies exists|i: int|
        0 <= i < after.len() && (#[trigger] after[i]).file_id == files[k] by {
        if k < n {
            let i = choose|i: int|
                0 <= i < before.len() && (#[trigger] before[i]).file_id == files[k];
            assert(after[i].file_id == files[k]);
        } else {
            assert(after[before.len() as int].file_id == files[k]);
        }
    }
}

/// What the loop over the candidate files has established when it ends, or
/// when it stops at the bound.
proof fn lemma_search_done(
    index: &GitIndex,
    words: Seq<Seq<char>>,
    limit: Option<usize>,
    results: Seq<RawPerFileSearchResult>,
    files: Seq<u32>,
    n: int,
)
    requires
        0 <= n <= files.len(),
        plain_candidates(index, words) == Some(files.to_set()),
        forall|a: int, b: int| 0 <= a < b < files.len() ==> files[a] < files[b],
        results_upto(index, words, results, files, n),
        (result_bound(limit) matches Some(m) ==> results.len() <= m),
        n < files.len() ==> (result_bound(limit) matches Some(m) && results.len() == m
            && results.len() > 0 && results.last().file_id == files[n - 1]),
    ensures
        plain_results(index, words, limit, results),
{
    reveal(results_upto);
    assert forall|f: u32| #[trigger] is_plain_hit(index, words, f) implies (exists|i: int|
        0 <= i < results.len() && (#[trigger] results[i]).file_id == f) || (result_bound(
        limit,
    ) matches Some(m) && results.len() == m && (m == 0 || results.last().file_id < f)) by {
        assert(files.to_set().contains(f));
        let k = choose|k: int| 0 <= k < files.len() && files[k] == f;
        if k >= n {
            assert(n < files.len());
            if n - 1 < k {
                assert(files[n - 1] < files[k]);
            }
        }
    }
}

proof fn lemma_no_candidates(index: &GitIndex, words: Seq<Seq<char>>, limit: Option<usize>)
    requires
        plain_candidates(index, words) is None,
    ensures
        plain_results(index, words, limit, Seq::empty()),
{
}

/// The files that every one of the words may be in.
proof fn lemma_candidates(index: &GitIndex, words: Seq<Seq<char>>, sets: Seq<Set<u32>>)
    requires
        words.len() > 0,
        sets.len() == words.len(),
        forall|k: int| 0 <= k < words.len() ==> (#[trigger] word_files(index, words[k])) == Some(sets[k]),
    ensures
        plain_candidates(index, words) == Some(crate::bitmap::common(sets)),
{
    let files_set = crate::bitmap::common(sets);
    assert(plain_candidates(index, words) is Some);
    assert forall|f: u32|
        files_set.contains(f) <==> plain_candidates(index, words).unwrap().contains(f) by {
        if files_set.contains(f) {
            assert forall|k: int| 0 <= k < words.len() implies (#[trigger] word_files(
                index,
                words[k],
            )).unwrap().contains(f) by {
                assert(sets[k].contains(f));
            }
        }
        if plain_candidates(index, words).unwrap().contains(f) {
            assert forall|k: int| 0 <= k < sets.len() implies (#[trigger] sets[k]).contains(f) by {
                assert(word_files(index, words[k]).unwrap().contains(f));
            }
        }
    }
    assert(files_set =~= plain_candidates(index, words).unwrap());
}

impl<'i> GitSearcher<'i> {
    /// The files that may hold every one of the words, by ascending id.
    fn candidate_files(&self, words: &Vec<String>) -> (out: Option<Vec<u32>>)
        requires
            self.index.wf(),
            forall|k: int| 0 <= k < words@.len() ==> (#[trigger] words@[k])@.len() > 0,
        ensures
            match out {
                Some(files) => plain_candidates(self.index, strings_view(words@)) == Some(
                    files@.to_set(),
                ) && forall|a: int, b: int| 0 <= a < b < files@.len() ==> files@[a] < files@[b],
                None => plain_candidates(self.index, strings_view(words@)) is None,
            },
    {
        let index = self.index;
        let ghost ws = strings_view(words@);
        if words.len() == 0 {
            return None;
        }
        let mut per_word: Vec<RoaringBitmap> = Vec::new();
        let mut i: usize = 0;
        while i < words.len()
            invariant
                i <= words@.len(),
                index.wf(),
                index == self.index,
                ws == strings_view(words@),
                forall|k: int| 0 <= k < words@.len() ==> (#[trigger] words@[k])@.len() > 0,
                per_word@.len() == i,
                forall|k: int|
                    0 <= k < i ==> (#[trigger] word_files(index, ws[k])) == Some(
                        members(per_word@[k]),
                    ),
            decreases words@.len() - i,
        {
            proof {
                assert(ws[i as int] == words@[i as int]@);
            }
            match self.get_document_bitmap_containing_word(words[i].as_str()) {
                Some(files) => {
                    per_word.push(files);
                },
                None => {
                    proof {
                        assert(word_files(index, ws[i as int]) is None);
                    }
                    return None;
                },
            }
            i += 1;
        }
        let ghost sets = crate::bitmap::owned_sets_of(per_word@);
        proof {
            lemma_candidates(index, ws, sets);
        }
        match intersect_bitmap_vec(per_word) {
            Some(candidates) => Some(ascending(&candidates)),
            None => None,
        }
    }

    /// Searches for the files that hold every word of `query`, and for each
    /// the commits that changed it and at which it may hold them.
    pub fn search(&self, query: &str, option: Option<SearchOption>) -> (results: Vec<
        RawPerFileSearchResult,
    >)
        requires
            self.index.wf(),
        ensures
            plain_results(self.index, words_of(query@), limit_of(option), results@),
            plain_candidates(self.index, words_of(query@)) is None ==> results@.len() == 0,
    {
        let index = self.index;
        let ghost ws = words_of(query@);
        let ghost limit = limit_of(option);
        let max_num_to_find: Option<usize> = match option {
            Some(o) => o.max_num_to_find,
            None => None,
        };
        let mut results: Vec<RawPerFileSearchResult> = Vec::new();
        match max_num_to_find {
            Some(max) => {
                if max == 0 {
                    // No result is asked for.
                    return results;
                }
            },
            None => {},
        }
        let words = split_whitespace(query);
        let files = match self.candidate_files(&words) {
            Some(files) => files,
            None => {
                proof {
                    lemma_no_candidates(index, ws, limit);
                }
                return results;
            },
        };
        proof {
            lemma_results_start(index, ws, files@);
        }
        let mut n: usize = 0;
        while n < files.len()
            invariant
                n <= files@.len(),
                index.wf(),
                index == self.index,
                ws == strings_view(words@),
                ws == words_of(query@),
                limit == max_num_to_find,
                limit == limit_of(option),
                limit matches Some(m) ==> m > 0,
                forall|k: int| 0 <= k < words@.len() ==> (#[trigger] words@[k])@.len() > 0,
                plain_candidates(index, ws) == Some(files@.to_set()),
                forall|a: int, b: int| 0 <= a < b < files@.len() ==> files@[a] < files@[b],
                results_upto(index, ws, results@, files@, n as int),
                (result_bound(limit) matches Some(m) ==> results@.len() < m || results@.len()
                    == 0),
            decreases files@.len() - n,
        {
            let file_id = files[n];
            let ghost before = results@;
            let mut done = false;
            let mut hit = false;
            if (file_id as usize) < index.file_id_to_document.len() {
                let document = &index.file_id_to_document[file_id as usize];
                let overlapped = overlapped_commits(document, &words);
                if !overlapped.is_empty() {
                    hit = true;
                    proof {
                        assert(files@.to_set().contains(file_id));
                    }
                    let found = RawPerFileSearchResult {
                        query: Query::Words(clone_strings(&words)),
                        file_id,
                        overlapped_commits: overlapped,
                    };
                    proof {
                        lemma_results_push(index, ws, before, found, files@, n as int);
                    }
                    results.push(found);
                    match max_num_to_find {
                        Some(max) => {
                            if results.len() >= max {
                                done = true;
                            }
                        },
                        None => {},
                    }
                }
            }
            proof {
                if !hit {
                    lemma_results_skip(index, ws, results@, files@, n as int);
                }
            }
            n += 1;
            if done {
                proof {
                    lemma_search_done(index, ws, limit, results@, files@, n as int);
                }
                return results;
            }
        }
        proof {
            lemma_search_done(index, ws, limit, results@, files@, n as int);
        }
        results
    }
}


/// A text of white space only has no words.
pub proof fn lemma_blank_has_no_words(text: Seq<char>)
    requires
        forall|i: int| 0 <= i < text.len() ==> is_space(#[trigger] text[i]),
    ensures
        words_of(text) == Seq::<Seq<char>>::empty(),
    decreases text.len(),
{
    if text.len() > 0 {
        let shorter = text.drop_last();
        assert forall|i: int| 0 <= i < shorter.len() implies is_space(#[trigger] shorter[i]) by {
            assert(shorter[i] == text[i]);
        }
        lemma_blank_has_no_words(shorter);
        assert(is_space(text[text.len() - 1]));
    }
}

/// A query without words has no candidate files: the search finds nothing.
pub proof fn lemma_no_words_no_candidates(index: &GitIndex, text: Seq<char>)
    requires
        forall|i: int| 0 <= i < text.len() ==> is_space(#[trigger] text[i]),
    ensures
        plain_candidates(index, words_of(text)) is None,
{
    lemma_blank_has_no_words(text);
}

/// Two documents that hold every trigram of every word at the same commits,
/// and were changed by the same commits, match the words at the same commits.
pub proof fn lemma_same_trigrams_same_overlap(d1: &Document, d2: &Document, words: Seq<Seq<char>>)
    requires
        forall|i: int| 0 <= i < words.len() ==> (#[trigger] words[i]).len() >= 3,
        forall|i: int, t: u128|
            0 <= i < words.len() && #[trigger] word_trigrams(words[i]).contains(t) ==> d1.commits_of(
                t,
            ) == d2.commits_of(t),
        d1.modified() == d2.modified(),
    ensures
        plain_overlap(d1, words) == plain_overlap(d2, words),
{
    assert forall|i: int| 0 <= i < words.len() implies #[trigger] doc_word_commits(d1, words[i])
        == doc_word_commits(d2, words[i]) by {
        let w = words[i];
        assert(w.len() >= 3);
        assert forall|c: u32|
            doc_word_commits(d1, w).contains(c) <==> doc_word_commits(d2, w).contains(c) by {
            assert forall|t: u128| word_trigrams(w).contains(t) implies d1.commits_of(t)
                == d2.commits_of(t) by {}
        }
        assert(doc_word_commits(d1, w) =~= doc_word_commits(d2, w));
    }
    assert forall|c: u32| plain_overlap(d1, words).contains(c) <==> plain_overlap(
        d2,
        words,
    ).contains(c) by {
        if plain_overlap(d1, words).contains(c) {
            assert forall|i: int| 0 <= i < words.len() implies (#[trigger] doc_word_commits(
                d2,
                words[i],
            )).contains(c) by {
                assert(doc_word_commits(d1, words[i]).contains(c));
            }
        }
        if plain_overlap(d2, words).contains(c) {
            assert forall|i: int| 0 <= i < words.len() implies (#[trigger] doc_word_commits(
                d1,
                words[i],
            )).contains(c) by {
                assert(doc_word_commits(d2, words[i]).contains(c));
            }
        }
    }
    assert(plain_overlap(d1, words) =~= plain_overlap(d2, words));
}

/// Every commit of a raw result of a word search is one that changed the
/// file and at which the file's document holds every trigram of every word of
/// three characters or more.
pub proof fn lemma_overlap_holds_trigrams(doc: &Document, words: Seq<Seq<char>>, c: u32, i: int, t: u128)
    requires
        plain_overlap(doc, words).contains(c),
        0 <= i < words.len(),
        words[i].len() >= 3,
        word_trigrams(words[i]).contains(t),
    ensures
        doc.modified().contains(c),
        doc.commits_of(t).contains(c),
{
    assert(doc_word_commits(doc, words[i]).contains(c));
}

} // verus!
