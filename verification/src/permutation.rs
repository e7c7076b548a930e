//! Every way to pick one index from each of several ranges, in lexicographic
//! order: the first position varies slowest.

use vstd::prelude::*;

verus! {

pub struct PermutationIterator {
    pub limit: Vec<u32>,
    pub current: Option<Vec<u32>>,
}

/// The last position of `current` that can still grow, or -1.
pub open spec fn last_incrementable(current: Seq<u32>, limit: Seq<u32>) -> int
    decreases current.len(),
{
    if current.len() == 0 {
        -1
    } else if current.last() + 1 < limit[current.len() - 1] {
        current.len() - 1
    } else {
        last_incrementable(current.drop_last(), limit)
    }
}

/// The pick that follows `current`: its last position that can grow grows by
/// one and every later position starts over.
pub open spec fn successor(current: Seq<u32>, limit: Seq<u32>) -> Option<Seq<u32>> {
    let i = last_incrementable(current, limit);
    if i < 0 {
        None
    } else {
        Some(
            Seq::new(
                current.len(),
                |j: int|
                    if j < i {
                        current[j]
                    } else if j == i {
                        (current[i] + 1) as u32
                    } else {
                        0u32
                    },
            ),
        )
    }
}

proof fn lemma_last_incrementable(current: Seq<u32>, limit: Seq<u32>, i: int)
    requires
        -1 <= i < current.len(),
        i >= 0 ==> current[i] + 1 < limit[i],
        forall|j: int| i < j < current.len() ==> current[j] + 1 >= limit[j],
    ensures
        last_incrementable(current, limit) == i,
    decreases current.len(),
{
    if current.len() > 0 && i < current.len() - 1 {
        let shorter = current.drop_last();
        assert(current[current.len() - 1] + 1 >= limit[current.len() - 1]);
        assert forall|j: int| i < j < shorter.len() implies shorter[j] + 1 >= limit[j] by {
            assert(shorter[j] == current[j]);
        }
        if i >= 0 {
            assert(shorter[i] == current[i]);
        }
        lemma_last_incrementable(shorter, limit, i);
    }
}

impl PermutationIterator {
    pub open spec fn limit_view(&self) -> Seq<u32> {
        self.limit@
    }

    pub open spec fn current_view(&self) -> Option<Seq<u32>> {
        match self.current {
            Some(c) => Some(c@),
            None => None,
        }
    }

    /// The current pick has one index for each range, inside that range.
    pub open spec fn wf(&self) -> bool {
        match self.current {
            Some(c) => {
                &&& c@.len() == self.limit@.len()
                &&& forall|i: int| 0 <= i < c@.len() ==> c@[i] < self.limit@[i]
            },
            None => true,
        }
    }

    /// An iterator over the picks from ranges of the given sizes, none of them
    /// empty. It starts at the pick of all zeros.
    pub fn new(limit: &[u32]) -> (iter: Self)
        requires
            forall|i: int| 0 <= i < limit@.len() ==> limit@[i] > 0,
        ensures
            iter.wf(),
            iter.limit_view() == limit@,
            iter.current_view() == Some(Seq::new(limit@.len(), |i: int| 0u32)),
    {
        let mut copy: Vec<u32> = Vec::new();
        let mut current: Vec<u32> = Vec::new();
        let mut i: usize = 0;
        while i < limit.len()
            invariant
                i <= limit@.len(),
                copy@ == limit@.subrange(0, i as int),
                current@ == Seq::new(i as nat, |i: int| 0u32),
            decreases limit@.len() - i,
        {
            copy.push(limit[i]);
            current.push(0);
            proof {
                assert(copy@ =~= limit@.subrange(0, i + 1));
                assert(current@ =~= Seq::new((i + 1) as nat, |i: int| 0u32));
            }
            i += 1;
        }
        proof {
            assert(copy@ =~= limit@);
        }
        Self { limit: copy, current: Some(current) }
    }

    /// Hands out the current pick and moves on to its successor. After the
    /// last pick it hands out `None`.
    pub fn next(&mut self) -> (pick: Option<Vec<u32>>)
        requires
            old(self).wf(),
        ensures
            final(self).wf(),
            final(self).limit_view() == old(self).limit_view(),
            match pick {
                Some(p) => old(self).current_view() == Some(p@),
                None => old(self).current_view() is None,
            },
            final(self).current_view() == match old(self).current_view() {
                Some(c) => successor(c, old(self).limit_view()),
                None => None,
            },
    {
        let current: Vec<u32> = match &self.current {
            Some(c) => c.clone(),
            None => {
                return None;
            },
        };
        let mut next: Vec<u32> = current.clone();
        let len = next.len();
        let mut i: usize = len;
        while i > 0
            invariant
                *self == *old(self),
                old(self).current_view() == Some(current@),
                i <= len,
                len == current@.len(),
                len == self.limit@.len(),
                next@.len() == len,
                forall|j: int| 0 <= j < len ==> current@[j] < self.limit@[j],
                forall|j: int| 0 <= j < i ==> next@[j] == current@[j],
                forall|j: int| i <= j < len ==> next@[j] == 0,
                forall|j: int| i <= j < len ==> current@[j] + 1 >= self.limit@[j],
            decreases i,
        {
            i -= 1;
            if next[i] < self.limit[i] - 1 {
                next.set(i, next[i] + 1);
                proof {
                    lemma_last_incrementable(current@, self.limit@, i as int);
                    assert(next@ =~= successor(current@, self.limit@).unwrap());
                }
                self.current = Some(next);
                return Some(current);
            }
            next.set(i, 0);
        }
        proof {
            lemma_last_incrementable(current@, self.limit@, -1);
        }
        self.current = None;
        Some(current)
    }
}

} // verus!
