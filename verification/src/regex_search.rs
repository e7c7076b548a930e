//! From a pattern to the trigrams that every match must contain.
//!
//! A pattern is planned as a disjunction (`RegexSearchCandidates`) of
//! conjunctions (`SearchPartTrigram`) of trigrams. A conjunction without
//! trigrams constrains nothing.

use crate::matcher::class_model;
use crate::matcher::class_ranges;
use crate::matcher::Pattern;
use crate::text::char_at;
use crate::text::chars_of;
use crate::text::string_from_chars;
use crate::text::utf8_text;
use arrayvec::ArrayVec;
use regex_syntax::hir::Class;
use vstd::prelude::*;
use vstd::utf8::decode_utf8;
use vstd::utf8::encode_utf8;
use vstd::utf8::valid_utf8;

verus! {

#[derive(Clone, PartialEq, Debug)]
pub enum CharacterClass {
    Char(char),
    CharRange(Vec<CharRange>),
}

#[derive(Clone, Copy, PartialEq, Debug)]
pub struct CharRange {
    // Ranges of code points, *inclusive*.
    pub start: u32,
    pub end: u32,
}

/// `ArrayVec`, taken as it is: nothing of its inside is seen here.
#[verifier::external_type_specification]
#[verifier::external_body]
#[verifier::reject_recursive_types(T)]
pub struct ExArrayVec<T, const CAP: usize>(ArrayVec<T, CAP>);

/// `ArrayVec::clone`, which the derived `Clone` of a trigram calls. Nothing
/// is stated of the copy: the library itself copies trigrams position by
/// position.
pub assume_specification<T: Clone, const CAP: usize>[ <ArrayVec<T, CAP> as Clone>::clone ](
    v: &ArrayVec<T, CAP>,
) -> (copy: ArrayVec<T, CAP>)
;

/// Up to three positions, each a character or a set of character ranges.
#[derive(Clone, PartialEq, Debug)]
pub struct Trigram {
    pub data: ArrayVec<CharacterClass, 3>,
}

pub enum RegexOrString {
    String(String),
    Regex(String),
}

#[derive(Clone, PartialEq, Debug)]
pub struct SearchPartTrigram {
    pub trigrams: Vec<Trigram>,
}

#[derive(Clone, PartialEq, Debug)]
pub struct RegexSearchCandidates {
    pub candidates: Vec<SearchPartTrigram>,
}

/// One position of a trigram, as a value: a code point, or inclusive ranges
/// of code points.
pub enum ClassModel {
    Char(u32),
    Ranges(Seq<(u32, u32)>),
}

pub type Gram = Seq<ClassModel>;

pub type Conj = Seq<Gram>;

pub type Disj = Seq<Conj>;

impl View for CharRange {
    type V = (u32, u32);

    open spec fn view(&self) -> (u32, u32) {
        (self.start, self.end)
    }
}

impl View for CharacterClass {
    type V = ClassModel;

    open spec fn view(&self) -> ClassModel {
        match self {
            CharacterClass::Char(c) => ClassModel::Char(*c as u32),
            CharacterClass::CharRange(ranges) => ClassModel::Ranges(
                Seq::new(ranges@.len(), |i: int| ranges@[i]@),
            ),
        }
    }
}

/// The positions that a vector of positions holds, in order.
pub uninterp spec fn classes_of(v: ArrayVec<CharacterClass, 3>) -> Seq<ClassModel>;

pub open spec fn no_classes() -> Seq<ClassModel> {
    Seq::empty()
}

/// `ArrayVec::new` makes an empty vector.
#[verifier::external_body]
fn positions_new() -> (v: ArrayVec<CharacterClass, 3>)
    ensures
        classes_of(v) == no_classes(),
{
    ArrayVec::new()
}

/// `ArrayVec::push` appends an item. It panics where the vector is full,
/// which here is at three items.
#[verifier::external_body]
fn positions_push(v: &mut ArrayVec<CharacterClass, 3>, class: CharacterClass)
    requires
        classes_of(*old(v)).len() < 3,
    ensures
        classes_of(*final(v)) == classes_of(*old(v)).push(class@),
{
    v.push(class)
}

/// `ArrayVec::len`: the number of items, which is never above the capacity.
#[verifier::external_body]
fn positions_len(v: &ArrayVec<CharacterClass, 3>) -> (n: usize)
    ensures
        n == classes_of(*v).len(),
        n <= 3,
{
    v.len()
}

/// Indexing an `ArrayVec` hands out the item at that place, and panics
/// where there is none.
#[verifier::external_body]
fn positions_get(v: &ArrayVec<CharacterClass, 3>, i: usize) -> (class: &CharacterClass)
    requires
        i < classes_of(*v).len(),
    ensures
        class@ == classes_of(*v)[i as int],
{
    &v[i]
}

impl View for Trigram {
    type V = Gram;

    open spec fn view(&self) -> Gram {
        classes_of(self.data)
    }
}

pub open spec fn grams_view(grams: Seq<Trigram>) -> Conj {
    Seq::new(grams.len(), |i: int| grams[i]@)
}

impl View for SearchPartTrigram {
    type V = Conj;

    open spec fn view(&self) -> Conj {
        grams_view(self.trigrams@)
    }
}

pub open spec fn parts_view(parts: Seq<SearchPartTrigram>) -> Disj {
    Seq::new(parts.len(), |i: int| parts[i]@)
}

impl View for RegexSearchCandidates {
    type V = Disj;

    open spec fn view(&self) -> Disj {
        parts_view(self.candidates@)
    }
}

pub open spec fn candidates_view(list: Seq<RegexSearchCandidates>) -> Seq<Disj> {
    Seq::new(list.len(), |i: int| list[i]@)
}

/// A string as a run of literal positions.
pub open spec fn literal_gram(chars: Seq<char>) -> Gram {
    Seq::new(chars.len(), |i: int| ClassModel::Char(chars[i] as u32))
}

/// Every window of three consecutive positions, in order.
pub open spec fn sliding(g: Gram) -> Conj {
    Seq::new(
        if g.len() >= 2 {
            (g.len() - 2) as nat
        } else {
            0
        },
        |i: int| g.subrange(i, i + 3),
    )
}

/// The trigrams of a run of positions: the run itself while it is shorter than
/// three, else its sliding windows.
pub open spec fn windows(g: Gram) -> Conj {
    if g.len() < 3 {
        seq![g]
    } else {
        sliding(g)
    }
}

/// A conjunction as the planner makes them: no empty trigram, and a short
/// trigram only alone.
pub open spec fn conj_wf(c: Conj) -> bool {
    &&& forall|i: int| 0 <= i < c.len() ==> 1 <= (#[trigger] c[i]).len() <= 3
    &&& c.len() >= 2 ==> forall|i: int| 0 <= i < c.len() ==> (#[trigger] c[i]).len() == 3
}

pub open spec fn disj_wf(d: Disj) -> bool {
    forall|i: int| 0 <= i < d.len() ==> conj_wf(#[trigger] d[i])
}

/// What follows `merged` when the conjunction `right` comes directly after it:
/// the last trigram of `merged` and the first of `right` are fused where they
/// fit into one trigram, else every window across their border is added.
pub open spec fn merge_step(merged: Conj, right: Conj) -> Conj {
    let left = merged.last();
    let first = right[0];
    if left.len() + first.len() <= 3 {
        merged.drop_last().push(left + first)
    } else {
        merged.drop_last() + sliding(left + first) + right.subrange(1, right.len() as int)
    }
}

/// `merge_step` from left to right over the conjunctions of one branch.
pub open spec fn merge_all(lists: Seq<Conj>) -> Conj
    decreases lists.len(),
{
    if lists.len() == 0 {
        Seq::empty()
    } else if lists.len() == 1 {
        lists[0]
    } else {
        merge_step(merge_all(lists.drop_last()), lists.last())
    }
}

/// A branch followed by one more conjunction. An empty conjunction adds
/// nothing.
pub open spec fn join(acc: Conj, next: Conj) -> Conj {
    if next.len() == 0 {
        acc
    } else if acc.len() == 0 {
        next
    } else {
        merge_step(acc, next)
    }
}

/// Every branch of `init` followed by every conjunction of `last`, the
/// branches of `init` varying slowest.
pub open spec fn cross(init: Disj, last: Disj) -> Disj
    decreases init.len(),
{
    if init.len() == 0 {
        Seq::empty()
    } else {
        cross(init.drop_last(), last) + Seq::new(last.len(), |k: int| join(init.last(), last[k]))
    }
}

/// The concatenation of patterns: one branch for every way to pick a
/// conjunction from each part, in lexicographic order of the picks.
pub open spec fn concat_model(parts: Seq<Disj>) -> Disj
    decreases parts.len(),
{
    if parts.len() == 0 {
        seq![Seq::<Gram>::empty()]
    } else {
        cross(concat_model(parts.drop_last()), parts.last())
    }
}

/// The alternation of patterns: their branches one after the other.
pub open spec fn alternation_model(parts: Seq<Disj>) -> Disj
    decreases parts.len(),
{
    if parts.len() == 0 {
        Seq::empty()
    } else {
        alternation_model(parts.drop_last()) + parts.last()
    }
}

/// `count` copies of a pattern in a row.
pub open spec fn power_model(part: Disj, count: nat) -> Disj
    decreases count,
{
    if count == 0 {
        seq![Seq::<Gram>::empty()]
    } else {
        cross(power_model(part, (count - 1) as nat), part)
    }
}

/// The branches for `from`, `from + 1`, .. `to` copies of a pattern.
pub open spec fn repeat_range_model(part: Disj, from: nat, to: nat) -> Disj
    decreases to + 1 - from,
{
    if from > to {
        Seq::empty()
    } else if from == to {
        power_model(part, from)
    } else {
        repeat_range_model(part, from, (to - 1) as nat) + power_model(part, to)
    }
}

pub open spec fn capped(count: int) -> nat {
    if count < 3 {
        if count < 0 {
            0
        } else {
            count as nat
        }
    } else {
        3
    }
}

/// A repetition between `min` and `max` times (without `max`: three times or
/// more). More than three copies add no trigram, so both bounds are capped at
/// three.
pub open spec fn repeat_model(part: Disj, min: u32, max: Option<u32>) -> Disj {
    repeat_range_model(
        part,
        capped(min as int),
        match max {
            Some(m) => capped(m as int),
            None => 3,
        },
    )
}

pub fn clone_class(c: &CharacterClass) -> (r: CharacterClass)
    ensures
        r@ == c@,
{
    match c {
        CharacterClass::Char(ch) => CharacterClass::Char(*ch),
        CharacterClass::CharRange(ranges) => {
            let mut copy: Vec<CharRange> = Vec::new();
            let mut i: usize = 0;
            while i < ranges.len()
                invariant
                    i <= ranges@.len(),
                    copy@ == ranges@.subrange(0, i as int),
                decreases ranges@.len() - i,
            {
                copy.push(ranges[i]);
                proof {
                    assert(copy@ =~= ranges@.subrange(0, i + 1));
                }
                i += 1;
            }
            proof {
                assert(copy@ =~= ranges@);
            }
            let r = CharacterClass::CharRange(copy);
            proof {
                assert(r@->Ranges_0 =~= c@->Ranges_0);
            }
            r
        },
    }
}

pub fn clone_trigram(t: &Trigram) -> (r: Trigram)
    ensures
        r@ == t@,
{
    let mut data = positions_new();
    let mut i: usize = 0;
    let n = t.len();
    while i < n
        invariant
            i <= n,
            n == t@.len(),
            n <= 3,
            classes_of(data) == t@.take(i as int),
        decreases n - i,
    {
        positions_push(&mut data, clone_class(t.at(i)));
        proof {
            assert(t@.take(i as int).push(t@[i as int]) =~= t@.take(i + 1));
        }
        i += 1;
    }
    proof {
        assert(t@.take(n as int) =~= t@);
    }
    Trigram { data }
}

/// Appends copies of `src[from..]` to `dst`.
fn extend_grams(dst: &mut Vec<Trigram>, src: &Vec<Trigram>, from: usize)
    requires
        from <= src@.len(),
    ensures
        grams_view(final(dst)@) == grams_view(old(dst)@) + grams_view(src@).subrange(
            from as int,
            src@.len() as int,
        ),
{
    let mut i: usize = from;
    while i < src.len()
        invariant
            from <= i <= src@.len(),
            grams_view(dst@) == grams_view(old(dst)@) + grams_view(src@).subrange(
                from as int,
                i as int,
            ),
        decreases src@.len() - i,
    {
        let ghost before = dst@;
        dst.push(clone_trigram(&src[i]));
        proof {
            assert(grams_view(dst@) =~= grams_view(before).push(src@[i as int]@));
            assert(grams_view(dst@) =~= grams_view(old(dst)@) + grams_view(src@).subrange(
                from as int,
                i + 1,
            ));
        }
        i += 1;
    }
}

pub fn clone_part(p: &SearchPartTrigram) -> (r: SearchPartTrigram)
    ensures
        r@ == p@,
{
    let mut trigrams: Vec<Trigram> = Vec::new();
    extend_grams(&mut trigrams, &p.trigrams, 0);
    let r = SearchPartTrigram { trigrams };
    proof {
        assert(r@ =~= p@);
    }
    r
}

impl Trigram {
    /// The number of positions.
    pub fn len(&self) -> (n: usize)
        ensures
            n == self@.len(),
            n <= 3,
    {
        positions_len(&self.data)
    }

    /// The position at place `i`.
    pub fn at(&self, i: usize) -> (class: &CharacterClass)
        requires
            i < self@.len(),
        ensures
            class@ == self@[i as int],
    {
        positions_get(&self.data, i)
    }

    /// The trigram of the given positions, at most three.
    pub fn from_classes(classes: &Vec<CharacterClass>) -> (t: Self)
        requires
            classes@.len() <= 3,
        ensures
            t@.len() == classes@.len(),
            forall|j: int| 0 <= j < classes@.len() ==> #[trigger] t@[j] == classes@[j]@,
    {
        let mut data = positions_new();
        let mut i: usize = 0;
        while i < classes.len()
            invariant
                i <= classes@.len() <= 3,
                classes_of(data).len() == i,
                forall|j: int| 0 <= j < i ==> #[trigger] classes_of(data)[j] == classes@[j]@,
            decreases classes@.len() - i,
        {
            positions_push(&mut data, clone_class(&classes[i]));
            i += 1;
        }
        Trigram { data }
    }

    /// The trigram of one position that holds the ranges of a character
    /// class.
    pub fn from_class(class: &Class) -> (t: Self)
        ensures
            t@ == seq![ClassModel::Ranges(class_model(*class))],
    {
        let ranges = class_ranges(class);
        let mut list: Vec<CharRange> = Vec::new();
        let mut i: usize = 0;
        while i < ranges.len()
            invariant
                i <= ranges@.len(),
                list@.len() == i,
                forall|k: int| 0 <= k < i ==> (#[trigger] list@[k])@ == ranges@[k],
            decreases ranges@.len() - i,
        {
            let (start, end) = ranges[i];
            list.push(CharRange { start, end });
            i += 1;
        }
        let position = CharacterClass::CharRange(list);
        proof {
            assert(position@->Ranges_0 =~= ranges@);
        }
        let mut data: Vec<CharacterClass> = Vec::new();
        data.push(position);
        let t = Trigram::from_classes(&data);
        proof {
            assert(t@ =~= seq![ClassModel::Ranges(class_model(*class))]);
        }
        t
    }

    /// The trigram of a string of at most three characters.
    pub fn new(s: &str) -> (t: Self)
        requires
            s@.len() <= 3,
        ensures
            t@ == literal_gram(s@),
    {
        let chars = chars_of(s);
        Self::from_chars(&chars, 0, chars.len())
    }

    fn from_chars(chars: &Vec<char>, lo: usize, hi: usize) -> (t: Self)
        requires
            lo <= hi <= chars@.len(),
            hi - lo <= 3,
        ensures
            t@ == literal_gram(chars@.subrange(lo as int, hi as int)),
    {
        let mut data: Vec<CharacterClass> = Vec::new();
        let mut i: usize = lo;
        while i < hi
            invariant
                lo <= i <= hi <= chars@.len(),
                data@.len() == i - lo,
                forall|j: int|
                    0 <= j < i - lo ==> (#[trigger] data@[j])@ == ClassModel::Char(
                        chars@[lo + j] as u32,
                    ),
            decreases hi - i,
        {
            data.push(CharacterClass::Char(char_at(chars, i)));
            i += 1;
        }
        let t = Trigram::from_classes(&data);
        proof {
            assert(t@ =~= literal_gram(chars@.subrange(lo as int, hi as int)));
        }
        t
    }

    /// The trigrams of a literal: the literal itself while it is shorter than
    /// three characters, else each window of three characters.
    pub fn from_long_string(s: &str) -> (v: Vec<Self>)
        ensures
            grams_view(v@) == windows(literal_gram(s@)),
    {
        let chars = chars_of(s);
        let mut v: Vec<Trigram> = Vec::new();
        if chars.len() < 3 {
            v.push(Self::from_chars(&chars, 0, chars.len()));
            proof {
                assert(chars@.subrange(0, chars@.len() as int) =~= chars@);
                assert(grams_view(v@) =~= windows(literal_gram(s@)));
            }
            return v;
        }
        let mut i: usize = 0;
        while i + 2 < chars.len()
            invariant
                chars@.len() >= 3,
                i + 2 <= chars@.len(),
                chars@.len() <= usize::MAX,
                v@.len() == i,
                forall|j: int|
                    0 <= j < i ==> (#[trigger] v@[j])@ == literal_gram(chars@).subrange(j, j + 3),
            decreases chars@.len() - i,
        {
            let t = Self::from_chars(&chars, i, i + 3);
            proof {
                assert(t@ =~= literal_gram(chars@).subrange(i as int, i + 3));
            }
            v.push(t);
            i += 1;
        }
        proof {
            assert(grams_view(v@) =~= windows(literal_gram(s@)));
        }
        v
    }

    /// Joins two trigrams that fit into one.
    pub fn concat_small(left: &Trigram, right: &Trigram) -> (t: Self)
        requires
            left@.len() + right@.len() <= 3,
        ensures
            t@ == left@ + right@,
    {
        let mut data: Vec<CharacterClass> = Vec::new();
        let total: usize = left.len() + right.len();
        let mut i: usize = 0;
        while i < total
            invariant
                i <= total,
                total == left@.len() + right@.len(),
                data@.len() == i,
                forall|j: int| 0 <= j < i ==> (#[trigger] data@[j])@ == (left@ + right@)[j],
            decreases total - i,
        {
            data.push(clone_class(Self::joined_at(left, right, i)));
            i += 1;
        }
        let t = Trigram::from_classes(&data);
        proof {
            assert(t@ =~= left@ + right@);
        }
        t
    }

    /// The position at place `i` of `left` followed by `right`.
    fn joined_at<'a>(left: &'a Trigram, right: &'a Trigram, i: usize) -> (class: &'a CharacterClass)
        requires
            i < left@.len() + right@.len(),
        ensures
            class@ == (left@ + right@)[i as int],
    {
        let n = left.len();
        if i < n {
            left.at(i)
        } else {
            right.at(i - n)
        }
    }

    /// Every window of three positions over `left` followed by `right`.
    pub fn concat(left: &Trigram, right: &Trigram) -> (v: Vec<Self>)
        ensures
            grams_view(v@) == sliding(left@ + right@),
    {
        let ghost joined = left@ + right@;
        let total: usize = left.len() + right.len();
        let mut v: Vec<Trigram> = Vec::new();
        let mut start: usize = 0;
        while start + 2 < total
            invariant
                joined == left@ + right@,
                total == joined.len(),
                total <= 6,
                start <= total,
                total < 3 ==> start == 0,
                total >= 3 ==> start + 2 <= total,
                v@.len() == start,
                forall|j: int| 0 <= j < start ==> (#[trigger] v@[j])@ == joined.subrange(j, j + 3),
            decreases total - start,
        {
            let mut data: Vec<CharacterClass> = Vec::new();
            let stop: usize = start + 3;
            let mut i: usize = start;
            while i < stop
                invariant
                    stop == start + 3,
                    start <= i <= stop <= total,
                    joined == left@ + right@,
                    total == joined.len(),
                    data@.len() == i - start,
                    forall|j: int|
                        0 <= j < i - start ==> (#[trigger] data@[j])@ == joined[start + j],
                decreases stop - i,
            {
                data.push(clone_class(Self::joined_at(left, right, i)));
                i += 1;
            }
            let t = Trigram::from_classes(&data);
            proof {
                assert(t@ =~= joined.subrange(start as int, start + 3));
            }
            v.push(t);
            start += 1;
        }
        proof {
            assert(grams_view(v@) =~= sliding(left@ + right@));
        }
        v
    }
}


pub proof fn lemma_merge_step_wf(merged: Conj, right: Conj)
    requires
        conj_wf(merged),
        conj_wf(right),
        merged.len() > 0,
        right.len() > 0,
    ensures
        conj_wf(merge_step(merged, right)),
        merge_step(merged, right).len() > 0,
{
    let left = merged.last();
    let first = right[0];
    let out = merge_step(merged, right);
    assert(1 <= left.len() <= 3);
    assert(1 <= first.len() <= 3);
    if left.len() + first.len() <= 3 {
        if merged.len() >= 2 {
            assert(merged[merged.len() - 1].len() == 3);
        }
        assert(out =~= seq![left + first]);
    } else {
        let front = merged.drop_last();
        let middle = sliding(left + first);
        let rest = right.subrange(1, right.len() as int);
        assert(middle.len() >= 2);
        assert forall|i: int| 0 <= i < out.len() implies (#[trigger] out[i]).len() == 3 by {
            if i < front.len() {
                assert(out[i] == merged[i]);
                assert(merged.len() >= 2);
            } else if i < front.len() + middle.len() {
                assert(out[i] == middle[i - front.len()]);
            } else {
                let k = i - front.len() - middle.len();
                assert(out[i] == rest[k]);
                assert(rest[k] == right[k + 1]);
            }
        }
    }
}

pub proof fn lemma_join_wf(acc: Conj, next: Conj)
    requires
        conj_wf(acc),
        conj_wf(next),
    ensures
        conj_wf(join(acc, next)),
{
    if next.len() > 0 && acc.len() > 0 {
        lemma_merge_step_wf(acc, next);
    }
}

/// The branches that `cross` adds for the last branch of `init`.
proof fn lemma_cross_take(init: Disj, last: Disj, j: int)
    requires
        0 <= j < init.len(),
    ensures
        cross(init.take(j + 1), last) == cross(init.take(j), last) + Seq::new(
            last.len(),
            |k: int| join(init[j], last[k]),
        ),
{
    assert(init.take(j + 1).drop_last() =~= init.take(j));
    assert(init.take(j + 1).last() == init[j]);
}

pub proof fn lemma_cross_wf(init: Disj, last: Disj)
    requires
        disj_wf(init),
        disj_wf(last),
    ensures
        disj_wf(cross(init, last)),
    decreases init.len(),
{
    if init.len() > 0 {
        lemma_cross_wf(init.drop_last(), last);
        let head = cross(init.drop_last(), last);
        let tail = Seq::new(last.len(), |k: int| join(init.last(), last[k]));
        assert forall|i: int| 0 <= i < cross(init, last).len() implies conj_wf(
            #[trigger] cross(init, last)[i],
        ) by {
            if i < head.len() {
                assert(cross(init, last)[i] == head[i]);
            } else {
                let k = i - head.len();
                assert(cross(init, last)[i] == tail[k]);
                assert(conj_wf(init[init.len() - 1]));
                assert(conj_wf(last[k]));
                lemma_join_wf(init.last(), last[k]);
            }
        }
    }
}

/// `merged` followed by `right`, trigram by trigram.
fn merge_pair(merged: Vec<Trigram>, right: &Vec<Trigram>) -> (out: Vec<Trigram>)
    requires
        conj_wf(grams_view(merged@)),
        conj_wf(grams_view(right@)),
        merged@.len() > 0,
        right@.len() > 0,
    ensures
        grams_view(out@) == merge_step(grams_view(merged@), grams_view(right@)),
{
    let ghost before = grams_view(merged@);
    let mut merged = merged;
    let n = merged.len();
    let left = merged.pop().unwrap();
    let first = &right[0];
    proof {
        assert(left@ == before[n - 1]);
        assert(first@ == grams_view(right@)[0]);
        assert(1 <= left@.len() <= 3);
        assert(1 <= first@.len() <= 3);
        assert(grams_view(merged@) =~= before.drop_last());
    }
    if first.len() + left.len() <= 3 {
        let fused = Trigram::concat_small(&left, first);
        merged.push(fused);
        proof {
            assert(grams_view(merged@) =~= before.drop_last().push(left@ + first@));
        }
    } else {
        let border = Trigram::concat(&left, first);
        extend_grams(&mut merged, &border, 0);
        proof {
            assert(grams_view(border@).subrange(0, border@.len() as int) =~= grams_view(border@));
        }
        extend_grams(&mut merged, right, 1);
    }
    merged
}

/// The trigrams of one branch: the given conjunctions, each merged into what
/// came before it.
pub fn merge_trigrams(trigrams: &[&Vec<Trigram>]) -> (merged: Vec<Trigram>)
    requires
        forall|i: int|
            0 <= i < trigrams@.len() ==> (#[trigger] trigrams@[i])@.len() > 0 && conj_wf(
                grams_view(trigrams@[i]@),
            ),
    ensures
        grams_view(merged@) == merge_all(Seq::new(trigrams@.len(), |i: int| grams_view(trigrams@[i]@))),
        conj_wf(grams_view(merged@)),
{
    let ghost lists = Seq::new(trigrams@.len(), |i: int| grams_view(trigrams@[i]@));
    let mut merged: Vec<Trigram> = Vec::new();
    if trigrams.len() == 0 {
        proof {
            assert(grams_view(merged@) =~= merge_all(lists));
        }
        return merged;
    }
    extend_grams(&mut merged, trigrams[0], 0);
    proof {
        assert(grams_view(merged@) =~= lists[0]);
        assert(lists.take(1) =~= seq![lists[0]]);
        assert(conj_wf(grams_view(trigrams@[0]@)));
    }
    let mut i: usize = 1;
    while i < trigrams.len()
        invariant
            1 <= i <= trigrams@.len(),
            lists == Seq::new(trigrams@.len(), |i: int| grams_view(trigrams@[i]@)),
            forall|i: int|
                0 <= i < trigrams@.len() ==> (#[trigger] trigrams@[i])@.len() > 0 && conj_wf(
                    grams_view(trigrams@[i]@),
                ),
            grams_view(merged@) == merge_all(lists.take(i as int)),
            conj_wf(grams_view(merged@)),
            merged@.len() > 0,
        decreases trigrams@.len() - i,
    {
        proof {
            assert(lists.take(i + 1).drop_last() =~= lists.take(i as int));
            assert(lists.take(i + 1).last() == lists[i as int]);
            assert(trigrams@[i as int]@.len() > 0);
            lemma_merge_step_wf(grams_view(merged@), grams_view(trigrams@[i as int]@));
        }
        merged = merge_pair(merged, trigrams[i]);
        i += 1;
    }
    proof {
        assert(lists.take(trigrams@.len() as int) =~= lists);
    }
    merged
}

/// One branch followed by one more conjunction.
fn join_parts(acc: &SearchPartTrigram, next: &SearchPartTrigram) -> (out: SearchPartTrigram)
    requires
        conj_wf(acc@),
        conj_wf(next@),
    ensures
        out@ == join(acc@, next@),
{
    if next.trigrams.len() == 0 {
        clone_part(acc)
    } else if acc.trigrams.len() == 0 {
        clone_part(next)
    } else {
        let mut merged: Vec<Trigram> = Vec::new();
        extend_grams(&mut merged, &acc.trigrams, 0);
        proof {
            assert(grams_view(merged@) =~= acc@);
        }
        SearchPartTrigram { trigrams: merge_pair(merged, &next.trigrams) }
    }
}

/// Every branch of `init` followed by every conjunction of `last`.
fn cross_parts(init: &Vec<SearchPartTrigram>, last: &Vec<SearchPartTrigram>) -> (out: Vec<
    SearchPartTrigram,
>)
    requires
        disj_wf(parts_view(init@)),
        disj_wf(parts_view(last@)),
    ensures
        parts_view(out@) == cross(parts_view(init@), parts_view(last@)),
        disj_wf(parts_view(out@)),
{
    let ghost a = parts_view(init@);
    let ghost b = parts_view(last@);
    let mut out: Vec<SearchPartTrigram> = Vec::new();
    let mut j: usize = 0;
    proof {
        assert(a.take(0) =~= Seq::<Conj>::empty());
        assert(parts_view(out@) =~= cross(a.take(0), b));
    }
    while j < init.len()
        invariant
            j <= init@.len(),
            a == parts_view(init@),
            b == parts_view(last@),
            disj_wf(a),
            disj_wf(b),
            parts_view(out@) == cross(a.take(j as int), b),
        decreases init@.len() - j,
    {
        let ghost start = parts_view(out@);
        let mut k: usize = 0;
        while k < last.len()
            invariant
                j < init@.len(),
                k <= last@.len(),
                a == parts_view(init@),
                b == parts_view(last@),
                disj_wf(a),
                disj_wf(b),
                parts_view(out@) == start + Seq::new(k as nat, |m: int| join(a[j as int], b[m])),
            decreases last@.len() - k,
        {
            proof {
                assert(conj_wf(a[j as int]));
                assert(conj_wf(b[k as int]));
            }
            let joined = join_parts(&init[j], &last[k]);
            let ghost before = parts_view(out@);
            out.push(joined);
            proof {
                assert(parts_view(out@) =~= before.push(join(a[j as int], b[k as int])));
                assert(parts_view(out@) =~= start + Seq::new(
                    (k + 1) as nat,
                    |m: int| join(a[j as int], b[m]),
                ));
            }
            k += 1;
        }
        proof {
            lemma_cross_take(a, b, j as int);
        }
        j += 1;
    }
    proof {
        assert(a.take(init@.len() as int) =~= a);
        lemma_cross_wf(a, b);
    }
    out
}

pub proof fn lemma_concat_model_wf(parts: Seq<Disj>)
    requires
        forall|i: int| 0 <= i < parts.len() ==> disj_wf(#[trigger] parts[i]),
    ensures
        disj_wf(concat_model(parts)),
    decreases parts.len(),
{
    if parts.len() > 0 {
        lemma_concat_model_wf(parts.drop_last());
        assert(disj_wf(parts[parts.len() - 1]));
        lemma_cross_wf(concat_model(parts.drop_last()), parts.last());
    }
}

pub proof fn lemma_power_model_wf(part: Disj, count: nat)
    requires
        disj_wf(part),
    ensures
        disj_wf(power_model(part, count)),
    decreases count,
{
    if count > 0 {
        lemma_power_model_wf(part, (count - 1) as nat);
        lemma_cross_wf(power_model(part, (count - 1) as nat), part);
    }
}

impl RegexSearchCandidates {
    pub open spec fn wf(&self) -> bool {
        disj_wf(self@)
    }

    /// The candidates of patterns that follow each other.
    pub fn concat(parts: &[RegexSearchCandidates]) -> (out: Self)
        requires
            forall|i: int| 0 <= i < parts@.len() ==> (#[trigger] parts@[i]).wf(),
        ensures
            out@ == concat_model(candidates_view(parts@)),
            out.wf(),
    {
        let ghost models = candidates_view(parts@);
        let mut acc: Vec<SearchPartTrigram> = Vec::new();
        acc.push(SearchPartTrigram { trigrams: Vec::new() });
        proof {
            assert(models.take(0) =~= Seq::<Disj>::empty());
            assert(acc@[0]@ =~= Seq::<Gram>::empty());
            assert(parts_view(acc@) =~= concat_model(models.take(0)));
        }
        let mut i: usize = 0;
        while i < parts.len()
            invariant
                i <= parts@.len(),
                models == candidates_view(parts@),
                forall|i: int| 0 <= i < parts@.len() ==> (#[trigger] parts@[i]).wf(),
                parts_view(acc@) == concat_model(models.take(i as int)),
                disj_wf(parts_view(acc@)),
            decreases parts@.len() - i,
        {
            proof {
                assert(parts@[i as int].wf());
                assert(models.take(i + 1).drop_last() =~= models.take(i as int));
                assert(models.take(i + 1).last() == parts@[i as int]@);
            }
            acc = cross_parts(&acc, &parts[i].candidates);
            i += 1;
        }
        proof {
            assert(models.take(parts@.len() as int) =~= models);
        }
        RegexSearchCandidates { candidates: acc }
    }

    /// The candidates of patterns of which any one may match.
    pub fn alternation(parts: &[RegexSearchCandidates]) -> (out: Self)
        ensures
            out@ == alternation_model(candidates_view(parts@)),
            (forall|i: int| 0 <= i < parts@.len() ==> (#[trigger] parts@[i]).wf()) ==> out.wf(),
    {
        let ghost models = candidates_view(parts@);
        let mut all: Vec<SearchPartTrigram> = Vec::new();
        proof {
            assert(models.take(0) =~= Seq::<Disj>::empty());
            assert(parts_view(all@) =~= alternation_model(models.take(0)));
        }
        let mut i: usize = 0;
        while i < parts.len()
            invariant
                i <= parts@.len(),
                models == candidates_view(parts@),
                parts_view(all@) == alternation_model(models.take(i as int)),
                (forall|i: int| 0 <= i < parts@.len() ==> (#[trigger] parts@[i]).wf())
                    ==> disj_wf(parts_view(all@)),
            decreases parts@.len() - i,
        {
            let ghost start = parts_view(all@);
            let part = &parts[i];
            let mut k: usize = 0;
            while k < part.candidates.len()
                invariant
                    k <= part.candidates@.len(),
                    parts_view(all@) == start + part@.take(k as int),
                decreases part.candidates@.len() - k,
            {
                let ghost before = parts_view(all@);
                all.push(clone_part(&part.candidates[k]));
                proof {
                    assert(parts_view(all@) =~= before.push(part@[k as int]));
                    assert(parts_view(all@) =~= start + part@.take(k + 1));
                }
                k += 1;
            }
            proof {
                assert(part@.take(part.candidates@.len() as int) =~= part@);
                assert(models.take(i + 1).drop_last() =~= models.take(i as int));
                assert(models.take(i + 1).last() == part@);
                if forall|i: int| 0 <= i < parts@.len() ==> (#[trigger] parts@[i]).wf() {
                    assert(parts@[i as int].wf());
                    assert forall|m: int| 0 <= m < parts_view(all@).len() implies conj_wf(
                        #[trigger] parts_view(all@)[m],
                    ) by {
                        if m < start.len() {
                            assert(parts_view(all@)[m] == start[m]);
                        } else {
                            assert(parts_view(all@)[m] == part@[m - start.len()]);
                        }
                    }
                }
            }
            i += 1;
        }
        proof {
            assert(models.take(parts@.len() as int) =~= models);
        }
        RegexSearchCandidates { candidates: all }
    }

    /// The candidates of a pattern repeated between `min` and `max` times.
    pub fn repeat(part: &RegexSearchCandidates, min: u32, max: Option<u32>) -> (out: Self)
        requires
            part.wf(),
        ensures
            out@ == repeat_model(part@, min, max),
            out.wf(),
    {
        // Only repeat up to 3 really matters.
        let min_repeat_count: u32 = if min < 3 {
            min
        } else {
            3
        };
        let max_repeat_count: u32 = match max {
            Some(m) => if m < 3 {
                m
            } else {
                3
            },
            None => 3,
        };
        let mut repeated: Vec<SearchPartTrigram> = Vec::new();
        let mut power: Vec<SearchPartTrigram> = Vec::new();
        power.push(SearchPartTrigram { trigrams: Vec::new() });
        proof {
            assert(power@[0]@ =~= Seq::<Gram>::empty());
            assert(parts_view(power@) =~= power_model(part@, 0));
            assert(parts_view(repeated@) =~= Seq::<Conj>::empty());
        }
        let mut count: u32 = 0;
        while count <= max_repeat_count
            invariant
                part.wf(),
                min_repeat_count <= 3,
                max_repeat_count <= 3,
                count <= max_repeat_count + 1,
                count <= max_repeat_count ==> parts_view(power@) == power_model(
                    part@,
                    count as nat,
                ),
                disj_wf(parts_view(power@)),
                disj_wf(parts_view(repeated@)),
                parts_view(repeated@) == (if count == 0 {
                    Seq::<Conj>::empty()
                } else {
                    repeat_range_model(part@, min_repeat_count as nat, (count - 1) as nat)
                }),
            decreases max_repeat_count + 1 - count,
        {
            if count >= min_repeat_count {
                let ghost start = parts_view(repeated@);
                let mut k: usize = 0;
                while k < power.len()
                    invariant
                        k <= power@.len(),
                        disj_wf(parts_view(power@)),
                        disj_wf(parts_view(repeated@)),
                        parts_view(repeated@) == start + parts_view(power@).take(k as int),
                    decreases power@.len() - k,
                {
                    let ghost before = parts_view(repeated@);
                    repeated.push(clone_part(&power[k]));
                    proof {
                        assert(conj_wf(parts_view(power@)[k as int]));
                        assert(parts_view(repeated@) =~= before.push(parts_view(power@)[k as int]));
                        assert(parts_view(repeated@) =~= start + parts_view(power@).take(k + 1));
                    }
                    k += 1;
                }
                proof {
                    assert(parts_view(power@).take(power@.len() as int) =~= parts_view(power@));
                    if count > 0 && count > min_repeat_count {
                    } else {
                        assert(start =~= Seq::<Conj>::empty()) by {
                            if count > 0 {
                                assert(repeat_range_model(
                                    part@,
                                    min_repeat_count as nat,
                                    (count - 1) as nat,
                                ) =~= Seq::<Conj>::empty());
                            }
                        }
                        assert(parts_view(repeated@) =~= parts_view(power@));
                    }
                }
            } else {
                proof {
                    assert(repeat_range_model(part@, min_repeat_count as nat, count as nat)
                        =~= Seq::<Conj>::empty());
                    if count > 0 {
                        assert(repeat_range_model(
                            part@,
                            min_repeat_count as nat,
                            (count - 1) as nat,
                        ) =~= Seq::<Conj>::empty());
                    }
                }
            }
            if count < max_repeat_count {
                power = cross_parts(&power, &part.candidates);
            }
            count += 1;
        }
        RegexSearchCandidates { candidates: repeated }
    }
}


/// Why a query was refused.
#[derive(Debug, PartialEq, Eq)]
pub enum QueryError {
    /// The pattern could not be read.
    Parse(String),
    /// The pattern holds a group that captures, a look-around, or a literal
    /// that is no text.
    Unsupported,
    /// No automaton could be built for a trigram of the pattern.
    Automaton,
}

/// The candidates of a pattern; `None` for a pattern that is not supported.
///
/// The empty pattern and the empty literal constrain nothing and have no
/// candidates. A literal has one branch: its trigrams. A class has one branch
/// with one trigram of one position.
pub open spec fn plan_model(p: Pattern) -> Option<Disj>
    decreases p,
{
    match p {
        Pattern::Empty => Some(Seq::empty()),
        Pattern::Literal(bytes) => if !valid_utf8(bytes@) {
            None
        } else if decode_utf8(bytes@).len() == 0 {
            Some(Seq::empty())
        } else {
            Some(seq![windows(literal_gram(decode_utf8(bytes@)))])
        },
        Pattern::Class(class) => Some(seq![seq![seq![ClassModel::Ranges(class_model(class))]]]),
        Pattern::Repetition { min, max, sub } => match plan_model(*sub) {
            Some(d) => Some(repeat_model(d, min, max)),
            None => None,
        },
        Pattern::Concat(list) => match plans_of(list@, list@.len()) {
            Some(plans) => Some(concat_model(plans)),
            None => None,
        },
        Pattern::Alternation(list) => match plans_of(list@, list@.len()) {
            Some(plans) => Some(alternation_model(plans)),
            None => None,
        },
        Pattern::Capture => None,
        Pattern::Look => None,
    }
}

/// The candidates of the first `n` patterns of a list; `None` when one of
/// them is not supported.
pub open spec fn plans_of(list: Seq<Pattern>, n: nat) -> Option<Seq<Disj>>
    decreases list, n,
{
    if n == 0 {
        Some(Seq::empty())
    } else if n > list.len() {
        None
    } else {
        match plans_of(list, (n - 1) as nat) {
            None => None,
            Some(plans) => match plan_model(list[n - 1]) {
                Some(plan) => Some(plans.push(plan)),
                None => None,
            },
        }
    }
}

/// The candidates of each pattern of a list, or `None` when one of them is not
/// supported.
fn plan_list(list: &Vec<Pattern>) -> (out: Option<Vec<RegexSearchCandidates>>)
    ensures
        match out {
            Some(plans) => {
                &&& plans_of(list@, list@.len()) == Some(candidates_view(plans@))
                &&& forall|i: int| 0 <= i < plans@.len() ==> (#[trigger] plans@[i]).wf()
            },
            None => plans_of(list@, list@.len()) is None,
        },
    decreases list, 1int,
{
    let mut plans: Vec<RegexSearchCandidates> = Vec::new();
    let mut i: usize = 0;
    proof {
        assert(candidates_view(plans@) =~= Seq::<Disj>::empty());
    }
    while i < list.len()
        invariant
            i <= list@.len(),
            plans@.len() == i,
            plans_of(list@, i as nat) == Some(candidates_view(plans@)),
            forall|k: int| 0 <= k < i ==> (#[trigger] plans@[k]).wf(),
        decreases list@.len() - i,
    {
        let ghost before = candidates_view(plans@);
        match build_candidates_from_hir(&list[i]) {
            Ok(plan) => {
                plans.push(plan);
                proof {
                    assert(candidates_view(plans@) =~= before.push(plan@));
                }
            },
            Err(_) => {
                proof {
                    lemma_plans_none(list@, (i + 1) as nat, list@.len());
                }
                return None;
            },
        }
        i += 1;
    }
    Some(plans)
}

/// Once a pattern of the list is not supported, no longer prefix is planned.
proof fn lemma_plans_none(list: Seq<Pattern>, n: nat, m: nat)
    requires
        plans_of(list, n) is None,
        n <= m,
    ensures
        plans_of(list, m) is None,
    decreases m,
{
    if n < m {
        lemma_plans_none(list, n, (m - 1) as nat);
    }
}

/// Plans a pattern: the branches of trigrams that every match must contain.
/// A pattern with a capturing group or a look-around is refused.
pub fn build_candidates_from_hir(hir: &Pattern) -> (out: Result<RegexSearchCandidates, QueryError>)
    ensures
        match out {
            Ok(c) => plan_model(*hir) == Some(c@) && c.wf(),
            Err(e) => plan_model(*hir) is None && e == QueryError::Unsupported,
        },
    decreases hir, 0int,
{
    match hir {
        Pattern::Empty => {
            let c = RegexSearchCandidates { candidates: Vec::new() };
            proof {
                assert(c@ =~= Seq::<Conj>::empty());
            }
            Ok(c)
        },
        Pattern::Literal(bytes) => {
            match utf8_text(bytes) {
                None => Err(QueryError::Unsupported),
                Some(literal) => {
                    let mut candidates: Vec<SearchPartTrigram> = Vec::new();
                    if literal.as_str().unicode_len() > 0 {
                        let trigrams = Trigram::from_long_string(literal.as_str());
                        candidates.push(SearchPartTrigram { trigrams });
                    }
                    let c = RegexSearchCandidates { candidates };
                    proof {
                        assert(c@ =~= plan_model(*hir).unwrap());
                        if literal@.len() > 0 {
                            lemma_windows_wf(literal_gram(literal@));
                        }
                    }
                    Ok(c)
                },
            }
        },
        Pattern::Class(outside) => {
            let ghost ranges = class_model(*outside);
            let mut trigrams: Vec<Trigram> = Vec::new();
            trigrams.push(Trigram::from_class(outside));
            let mut candidates: Vec<SearchPartTrigram> = Vec::new();
            candidates.push(SearchPartTrigram { trigrams });
            let c = RegexSearchCandidates { candidates };
            proof {
                let gram = seq![ClassModel::Ranges(ranges)];
                assert(c.candidates@[0].trigrams@[0]@ =~= gram);
                assert(c.candidates@[0]@ =~= seq![gram]);
                assert(c@ =~= seq![seq![gram]]);
            }
            Ok(c)
        },
        Pattern::Repetition { min, max, sub } => {
            match build_candidates_from_hir(sub) {
                Ok(candidate) => Ok(RegexSearchCandidates::repeat(&candidate, *min, *max)),
                Err(e) => Err(e),
            }
        },
        Pattern::Concat(list) => {
            match plan_list(list) {
                Some(plans) => Ok(RegexSearchCandidates::concat(plans.as_slice())),
                None => Err(QueryError::Unsupported),
            }
        },
        Pattern::Alternation(list) => {
            match plan_list(list) {
                Some(plans) => Ok(RegexSearchCandidates::alternation(plans.as_slice())),
                None => Err(QueryError::Unsupported),
            }
        },
        Pattern::Capture => Err(QueryError::Unsupported),
        Pattern::Look => Err(QueryError::Unsupported),
    }
}

pub proof fn lemma_windows_wf(g: Gram)
    requires
        g.len() > 0,
    ensures
        conj_wf(windows(g)),
{
}

/// The plan of a literal of three characters or more is one branch that
/// holds exactly the sliding windows of the literal, in order.
pub proof fn lemma_literal_plan(bytes: Vec<u8>, text: Seq<char>)
    requires
        bytes@ == encode_utf8(text),
        text.len() >= 3,
    ensures
        plan_model(Pattern::Literal(bytes)) == Some(seq![sliding(literal_gram(text))]),
        sliding(literal_gram(text)).len() == text.len() - 2,
        forall|i: int|
            0 <= i < text.len() - 2 ==> #[trigger] sliding(literal_gram(text))[i] == literal_gram(
                text.subrange(i, i + 3),
            ),
{
    vstd::utf8::encode_utf8_valid_utf8(text);
    vstd::utf8::encode_utf8_decode_utf8(text);
    assert forall|i: int| 0 <= i < text.len() - 2 implies #[trigger] sliding(literal_gram(text))[i]
        == literal_gram(text.subrange(i, i + 3)) by {
        assert(sliding(literal_gram(text))[i] =~= literal_gram(text.subrange(i, i + 3)));
    }
}


/// The hexadecimal digit of a number below sixteen, in upper case.
pub open spec fn hex_digit(d: u32) -> char {
    if d == 0 {
        '0'
    } else if d == 1 {
        '1'
    } else if d == 2 {
        '2'
    } else if d == 3 {
        '3'
    } else if d == 4 {
        '4'
    } else if d == 5 {
        '5'
    } else if d == 6 {
        '6'
    } else if d == 7 {
        '7'
    } else if d == 8 {
        '8'
    } else if d == 9 {
        '9'
    } else if d == 10 {
        'A'
    } else if d == 11 {
        'B'
    } else if d == 12 {
        'C'
    } else if d == 13 {
        'D'
    } else if d == 14 {
        'E'
    } else {
        'F'
    }
}

/// A number in hexadecimal, without leading zeros.
pub open spec fn hex_text(n: u32) -> Seq<char>
    decreases n,
{
    if n < 16 {
        seq![hex_digit(n)]
    } else {
        hex_text(n / 16).push(hex_digit(n % 16))
    }
}

/// One range of a class, as a regular expression writes it.
pub open spec fn range_text(r: (u32, u32)) -> Seq<char> {
    seq!['\\', 'u', '{'] + hex_text(r.0) + seq!['}', '-', '\\', 'u', '{'] + hex_text(r.1) + seq!['}']
}

pub open spec fn ranges_text(ranges: Seq<(u32, u32)>) -> Seq<char>
    decreases ranges.len(),
{
    if ranges.len() == 0 {
        Seq::empty()
    } else {
        ranges_text(ranges.drop_last()) + range_text(ranges.last())
    }
}

/// One position of a trigram, as a regular expression writes it.
pub open spec fn position_text(p: ClassModel) -> Seq<char> {
    match p {
        ClassModel::Char(c) => seq![c as char],
        ClassModel::Ranges(ranges) => seq!['['] + ranges_text(ranges) + seq![']'],
    }
}

pub open spec fn positions_text(g: Gram) -> Seq<char>
    decreases g.len(),
{
    if g.len() == 0 {
        Seq::empty()
    } else {
        positions_text(g.drop_last()) + position_text(g.last())
    }
}

/// The trigram is three plain characters.
pub open spec fn gram_is_literal(g: Gram) -> bool {
    g.len() == 3 && forall|i: int| 0 <= i < 3 ==> (#[trigger] g[i]) is Char
}

/// The characters of a trigram of plain characters.
pub open spec fn gram_text(g: Gram) -> Seq<char> {
    Seq::new(g.len(), |i: int| g[i]->Char_0 as char)
}

/// The pattern for the tokens that hold a match of the trigram.
pub open spec fn gram_pattern(g: Gram) -> Seq<char> {
    seq!['.', '*'] + positions_text(g) + seq!['.', '*']
}

fn hex_char(d: u32) -> (c: char)
    requires
        d < 16,
    ensures
        c == hex_digit(d),
{
    if d == 0 {
        '0'
    } else if d == 1 {
        '1'
    } else if d == 2 {
        '2'
    } else if d == 3 {
        '3'
    } else if d == 4 {
        '4'
    } else if d == 5 {
        '5'
    } else if d == 6 {
        '6'
    } else if d == 7 {
        '7'
    } else if d == 8 {
        '8'
    } else if d == 9 {
        '9'
    } else if d == 10 {
        'A'
    } else if d == 11 {
        'B'
    } else if d == 12 {
        'C'
    } else if d == 13 {
        'D'
    } else if d == 14 {
        'E'
    } else {
        'F'
    }
}

/// Appends the hexadecimal digits of `n`.
fn push_hex(out: &mut Vec<char>, n: u32)
    ensures
        final(out)@ == old(out)@ + hex_text(n),
    decreases n,
{
    if n < 16 {
        out.push(hex_char(n));
        proof {
            assert(out@ =~= old(out)@ + hex_text(n));
        }
    } else {
        push_hex(out, n / 16);
        out.push(hex_char(n % 16));
        proof {
            assert(out@ =~= old(out)@ + hex_text(n));
        }
    }
}

fn push_range(out: &mut Vec<char>, range: &CharRange)
    ensures
        final(out)@ == old(out)@ + range_text(range@),
{
    out.push('\\');
    out.push('u');
    out.push('{');
    push_hex(out, range.start);
    out.push('}');
    out.push('-');
    out.push('\\');
    out.push('u');
    out.push('{');
    push_hex(out, range.end);
    out.push('}');
    proof {
        assert(out@ =~= old(out)@ + range_text(range@));
    }
}

fn push_position(out: &mut Vec<char>, position: &CharacterClass)
    ensures
        final(out)@ == old(out)@ + position_text(position@),
{
    match position {
        CharacterClass::Char(c) => {
            proof {
                vstd::utf8::char_u32_cast(*c, *c as u32);
            }
            out.push(*c);
            proof {
                assert(out@ =~= old(out)@ + position_text(position@));
            }
        },
        CharacterClass::CharRange(ranges) => {
            out.push('[');
            let ghost start = out@;
            let ghost model = position@->Ranges_0;
            let mut i: usize = 0;
            proof {
                assert(model.take(0) =~= Seq::<(u32, u32)>::empty());
                assert(out@ =~= start + ranges_text(model.take(0)));
            }
            while i < ranges.len()
                invariant
                    i <= ranges@.len(),
                    model.len() == ranges@.len(),
                    forall|k: int| 0 <= k < ranges@.len() ==> #[trigger] model[k] == ranges@[k]@,
                    out@ == start + ranges_text(model.take(i as int)),
                decreases ranges@.len() - i,
            {
                push_range(out, &ranges[i]);
                proof {
                    assert(model.take(i + 1).drop_last() =~= model.take(i as int));
                    assert(model.take(i + 1).last() == ranges@[i as int]@);
                    assert(out@ =~= start + ranges_text(model.take(i + 1)));
                }
                i += 1;
            }
            out.push(']');
            proof {
                assert(model.take(ranges@.len() as int) =~= model);
                assert(out@ =~= old(out)@ + position_text(position@));
            }
        },
    }
}

impl Trigram {
    /// How the tokens that hold a match of the trigram are found: a trigram of
    /// three plain characters is itself the token; for any other a pattern
    /// selects the tokens.
    pub fn create_matching_regex_or_string(&self) -> (out: RegexOrString)
        ensures
            match out {
                RegexOrString::String(s) => gram_is_literal(self@) && s@ == gram_text(self@),
                RegexOrString::Regex(r) => !gram_is_literal(self@) && r@ == gram_pattern(self@),
            },
    {
        if self.len() == 3 {
            let mut text: Vec<char> = Vec::new();
            let mut i: usize = 0;
            let mut plain = true;
            while i < 3 && plain
                invariant
                    i <= 3,
                    self@.len() == 3,
                    plain ==> text@.len() == i,
                    plain ==> forall|k: int| 0 <= k < i ==> (#[trigger] self@[k]) is Char
                        && text@[k] == self@[k]->Char_0 as char,
                    !plain ==> !gram_is_literal(self@),
                decreases 3 - i + (if plain { 1int } else { 0int }),
            {
                match self.at(i) {
                    CharacterClass::Char(c) => {
                        proof {
                            vstd::utf8::char_u32_cast(*c, *c as u32);
                        }
                        text.push(*c);
                        i += 1;
                    },
                    CharacterClass::CharRange(_) => {
                        proof {
                            assert(!(self@[i as int] is Char));
                        }
                        plain = false;
                    },
                }
            }
            if plain {
                proof {
                    assert(text@ =~= gram_text(self@));
                }
                return RegexOrString::String(string_from_chars(&text));
            }
        }
        // Otherwise this is the regex.
        let mut pattern: Vec<char> = Vec::new();
        pattern.push('.');
        pattern.push('*');
        let ghost start = pattern@;
        let mut i: usize = 0;
        proof {
            assert(self@.take(0) =~= Seq::<ClassModel>::empty());
            assert(pattern@ =~= start + positions_text(self@.take(0)));
        }
        let n = self.len();
        while i < n
            invariant
                i <= n,
                n == self@.len(),
                start == seq!['.', '*'],
                pattern@ == start + positions_text(self@.take(i as int)),
            decreases n - i,
        {
            push_position(&mut pattern, self.at(i));
            proof {
                assert(self@.take(i + 1).drop_last() =~= self@.take(i as int));
                assert(self@.take(i + 1).last() == self@[i as int]);
                assert(pattern@ =~= start + positions_text(self@.take(i + 1)));
            }
            i += 1;
        }
        pattern.push('.');
        pattern.push('*');
        proof {
            assert(self@.take(n as int) =~= self@);
            assert(pattern@ =~= gram_pattern(self@));
        }
        RegexOrString::Regex(string_from_chars(&pattern))
    }
}

} // verus!
