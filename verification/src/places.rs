//! The first place at which an item stands in a sequence.

use vstd::prelude::*;

verus! {

/// The first place among the first `n` items where `a` stands.
pub open spec fn place_in<A>(list: Seq<A>, n: int, a: A) -> Option<int>
    decreases n,
{
    if n <= 0 || n > list.len() {
        None
    } else {
        match place_in(list, n - 1, a) {
            Some(i) => Some(i),
            None => if list[n - 1] == a {
                Some(n - 1)
            } else {
                None
            },
        }
    }
}

/// The first place where `a` stands in the list.
pub open spec fn place<A>(list: Seq<A>, a: A) -> Option<int> {
    place_in(list, list.len() as int, a)
}

/// Where `a` stands first, nothing before it is `a`; where it stands
/// nowhere, nothing is `a`.
pub proof fn lemma_place<A>(list: Seq<A>, n: int, a: A)
    requires
        0 <= n <= list.len(),
    ensures
        match place_in(list, n, a) {
            Some(i) => 0 <= i < n && list[i] == a && forall|j: int|
                0 <= j < i ==> #[trigger] list[j] != a,
            None => forall|j: int| 0 <= j < n ==> #[trigger] list[j] != a,
        },
    decreases n,
{
    if n > 0 {
        lemma_place(list, n - 1, a);
    }
}

/// The first place of `a` is `at` where `a` stands there and nowhere before.
pub proof fn lemma_place_is<A>(list: Seq<A>, n: int, a: A, at: int)
    requires
        0 <= at < n <= list.len(),
        list[at] == a,
        forall|j: int| 0 <= j < at ==> #[trigger] list[j] != a,
    ensures
        place_in(list, n, a) == Some(at),
    decreases n,
{
    lemma_place(list, at, a);
    if n - 1 > at {
        lemma_place_is(list, n - 1, a, at);
    }
}

} // verus!
