//! Compressed sets of `u32`, and the set algebra the index is built on.

use roaring::RoaringBitmap;
use vstd::prelude::*;

verus! {

/// `roaring::RoaringBitmap`, taken as it is: nothing of its inside is seen here.
#[verifier::external_type_specification]
#[verifier::external_body]
pub struct ExRoaringBitmap(roaring::RoaringBitmap);

/// The integers that a bitmap holds.
pub uninterp spec fn members(b: RoaringBitmap) -> Set<u32>;

/// `RoaringBitmap::new` makes a bitmap that holds nothing.
pub assume_specification[ RoaringBitmap::new ]() -> (b: RoaringBitmap)
    ensures
        members(b) == Set::<u32>::empty(),
;

/// `RoaringBitmap::insert` adds `value` and says whether it was absent before.
pub assume_specification[ RoaringBitmap::insert ](b: &mut RoaringBitmap, value: u32) -> (added: bool)
    ensures
        members(*final(b)) == members(*old(b)).insert(value),
        added == !members(*old(b)).contains(value),
;

/// `RoaringBitmap::contains` is membership.
pub assume_specification[ RoaringBitmap::contains ](b: &RoaringBitmap, value: u32) -> (found: bool)
    ensures
        found == members(*b).contains(value),
;

/// `RoaringBitmap::is_empty` holds exactly of a bitmap without members.
pub assume_specification[ RoaringBitmap::is_empty ](b: &RoaringBitmap) -> (empty: bool)
    ensures
        empty == (members(*b) == Set::<u32>::empty()),
;

/// `RoaringBitmap::max` is the greatest member, where there is one.
pub assume_specification[ RoaringBitmap::max ](b: &RoaringBitmap) -> (m: Option<u32>)
    ensures
        m is None <==> members(*b) == Set::<u32>::empty(),
        m matches Some(x) ==> members(*b).contains(x) && forall|y: u32|
            members(*b).contains(y) ==> y <= x,
;

/// `RoaringBitmap::clone` copies the members.
pub assume_specification[ <RoaringBitmap as Clone>::clone ](b: &RoaringBitmap) -> (c: RoaringBitmap)
    ensures
        members(c) == members(*b),
;

/// `RoaringBitmap::optimize` changes how the members are stored, not which
/// they are.
pub assume_specification[ RoaringBitmap::optimize ](b: &mut RoaringBitmap) -> (changed: bool)
    ensures
        members(*final(b)) == members(*old(b)),
;

/// `RoaringBitmap::insert_range` with the half-open range `start..end`: every
/// integer of the range becomes a member, nothing else changes.
#[verifier::external_body]
pub(crate) fn insert_range(b: &mut RoaringBitmap, start: u32, end: u32)
    ensures
        members(*final(b)) == members(*old(b)).union(Set::new(|x: u32| start <= x < end)),
{
    b.insert_range(start..end);
}

/// `&=` of two bitmaps keeps the members that both hold.
#[verifier::external_body]
pub(crate) fn intersect_with(acc: &mut RoaringBitmap, other: &RoaringBitmap)
    ensures
        members(*final(acc)) == members(*old(acc)).intersect(members(*other)),
{
    *acc &= other;
}

/// `|=` of two bitmaps keeps the members that either holds.
#[verifier::external_body]
pub(crate) fn union_with(acc: &mut RoaringBitmap, other: &RoaringBitmap)
    ensures
        members(*final(acc)) == members(*old(acc)).union(members(*other)),
{
    *acc |= other;
}

/// `RoaringBitmap::iter` walks the members in ascending order, each once.
#[verifier::external_body]
pub(crate) fn ascending(b: &RoaringBitmap) -> (v: Vec<u32>)
    ensures
        forall|i: int, j: int| 0 <= i < j < v@.len() ==> v@[i] < v@[j],
        v@.to_set() == members(*b),
{
    b.iter().collect()
}


/// The sets that a list of bitmaps holds.
pub open spec fn sets_of(bitmaps: Seq<&RoaringBitmap>) -> Seq<Set<u32>> {
    Seq::new(bitmaps.len(), |i: int| members(*bitmaps[i]))
}

pub open spec fn owned_sets_of(bitmaps: Seq<RoaringBitmap>) -> Seq<Set<u32>> {
    Seq::new(bitmaps.len(), |i: int| members(bitmaps[i]))
}

/// The integers that every one of the sets holds.
pub open spec fn common(sets: Seq<Set<u32>>) -> Set<u32> {
    Set::new(|x: u32| forall|i: int| 0 <= i < sets.len() ==> (#[trigger] sets[i]).contains(x))
}

/// The integers that some one of the sets holds.
pub open spec fn any_of(sets: Seq<Set<u32>>) -> Set<u32> {
    Set::new(|x: u32| exists|i: int| 0 <= i < sets.len() && (#[trigger] sets[i]).contains(x))
}

pub proof fn lemma_common_push(sets: Seq<Set<u32>>, last: Set<u32>)
    ensures
        common(sets.push(last)) == common(sets).intersect(last),
{
    let longer = sets.push(last);
    assert forall|x: u32| common(longer).contains(x) <==> common(sets).intersect(last).contains(
        x,
    ) by {
        if common(longer).contains(x) {
            assert(longer[sets.len() as int].contains(x));
            assert forall|i: int| 0 <= i < sets.len() implies (#[trigger] sets[i]).contains(x) by {
                assert(longer[i].contains(x));
            }
        }
        if common(sets).intersect(last).contains(x) {
            assert forall|i: int| 0 <= i < longer.len() implies (#[trigger] longer[i]).contains(
                x,
            ) by {
                if i < sets.len() {
                    assert(sets[i].contains(x));
                }
            }
        }
    }
    assert(common(longer) =~= common(sets).intersect(last));
}

pub proof fn lemma_any_of_push(sets: Seq<Set<u32>>, last: Set<u32>)
    ensures
        any_of(sets.push(last)) == any_of(sets).union(last),
{
    let longer = sets.push(last);
    assert forall|x: u32| any_of(longer).contains(x) <==> any_of(sets).union(last).contains(x) by {
        if any_of(longer).contains(x) {
            let i = choose|i: int| 0 <= i < longer.len() && (#[trigger] longer[i]).contains(x);
            if i < sets.len() {
                assert(sets[i].contains(x));
            }
        }
        if any_of(sets).contains(x) {
            let i = choose|i: int| 0 <= i < sets.len() && (#[trigger] sets[i]).contains(x);
            assert(longer[i].contains(x));
        }
        if last.contains(x) {
            assert(longer[sets.len() as int].contains(x));
        }
    }
    assert(any_of(longer) =~= any_of(sets).union(last));
}

/// The intersection of the bitmaps; `None` for an empty list.
pub fn intersect_bitmaps(bitmaps: &[&RoaringBitmap]) -> (out: Option<RoaringBitmap>)
    ensures
        out is None <==> bitmaps@.len() == 0,
        out matches Some(b) ==> members(b) == common(sets_of(bitmaps@)),
{
    if bitmaps.len() == 0 {
        return None;
    }
    let ghost sets = sets_of(bitmaps@);
    let mut total = bitmaps[0].clone();
    proof {
        assert(sets.take(1) =~= Seq::<Set<u32>>::empty().push(sets[0]));
        lemma_common_push(Seq::<Set<u32>>::empty(), sets[0]);
        assert(members(total) =~= common(sets.take(1)));
    }
    let mut i: usize = 1;
    while i < bitmaps.len()
        invariant
            1 <= i <= bitmaps@.len(),
            sets == sets_of(bitmaps@),
            members(total) == common(sets.take(i as int)),
        decreases bitmaps@.len() - i,
    {
        intersect_with(&mut total, bitmaps[i]);
        proof {
            assert(sets.take(i + 1) =~= sets.take(i as int).push(sets[i as int]));
            lemma_common_push(sets.take(i as int), sets[i as int]);
        }
        i += 1;
    }
    proof {
        assert(sets.take(bitmaps@.len() as int) =~= sets);
    }
    Some(total)
}

/// The intersection of the bitmaps; `None` for an empty list. Once nothing
/// is left in common the remaining bitmaps are not looked at.
pub fn intersect_bitmap_vec(bitmaps: Vec<RoaringBitmap>) -> (out: Option<RoaringBitmap>)
    ensures
        out is None <==> bitmaps@.len() == 0,
        out matches Some(b) ==> members(b) == common(owned_sets_of(bitmaps@)),
{
    if bitmaps.len() == 0 {
        return None;
    }
    let ghost sets = owned_sets_of(bitmaps@);
    let last = bitmaps.len() - 1;
    let mut acc = bitmaps[last].clone();
    let mut i: usize = 0;
    // `acc` holds what the bitmaps before `i` and the last one have in common.
    while i < last
        invariant
            i <= last,
            last == bitmaps@.len() - 1,
            sets == owned_sets_of(bitmaps@),
            members(acc) == common(sets.take(i as int)).intersect(sets[last as int]),
        decreases last - i,
    {
        intersect_with(&mut acc, &bitmaps[i]);
        proof {
            assert(sets.take(i + 1) =~= sets.take(i as int).push(sets[i as int]));
            lemma_common_push(sets.take(i as int), sets[i as int]);
            assert(members(acc) =~= common(sets.take(i + 1)).intersect(sets[last as int]));
        }
        i += 1;
        if acc.is_empty() {
            proof {
                assert forall|x: u32| !common(sets).contains(x) by {
                    if common(sets).contains(x) {
                        assert(sets[last as int].contains(x));
                        assert forall|k: int| 0 <= k < i implies (#[trigger] sets.take(
                            i as int,
                        )[k]).contains(x) by {
                            assert(sets[k].contains(x));
                        }
                        assert(members(acc).contains(x));
                    }
                }
                assert(members(acc) =~= common(sets));
            }
            return Some(acc);
        }
    }
    proof {
        assert(sets =~= sets.take(last as int).push(sets[last as int]));
        lemma_common_push(sets.take(last as int), sets[last as int]);
    }
    Some(acc)
}

/// The union of the bitmaps; `None` for an empty list.
pub fn union_bitmaps(bitmaps: &[&RoaringBitmap]) -> (out: Option<RoaringBitmap>)
    ensures
        out is None <==> bitmaps@.len() == 0,
        out matches Some(b) ==> members(b) == any_of(sets_of(bitmaps@)),
{
    if bitmaps.len() == 0 {
        return None;
    }
    let ghost sets = sets_of(bitmaps@);
    let mut total = bitmaps[0].clone();
    proof {
        assert(sets.take(1) =~= Seq::<Set<u32>>::empty().push(sets[0]));
        lemma_any_of_push(Seq::<Set<u32>>::empty(), sets[0]);
        assert(any_of(Seq::<Set<u32>>::empty()) =~= Set::<u32>::empty());
        assert(members(total) =~= any_of(sets.take(1)));
    }
    let mut i: usize = 1;
    while i < bitmaps.len()
        invariant
            1 <= i <= bitmaps@.len(),
            sets == sets_of(bitmaps@),
            members(total) == any_of(sets.take(i as int)),
        decreases bitmaps@.len() - i,
    {
        union_with(&mut total, bitmaps[i]);
        proof {
            assert(sets.take(i + 1) =~= sets.take(i as int).push(sets[i as int]));
            lemma_any_of_push(sets.take(i as int), sets[i as int]);
        }
        i += 1;
    }
    proof {
        assert(sets.take(bitmaps@.len() as int) =~= sets);
    }
    Some(total)
}

} // verus!
