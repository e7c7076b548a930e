//! Dense numbering of trigram keys: each key that is added gets the next
//! position, and a hash map finds the position of a key again.

use crate::trigram_key::TrigramKey;
use ahash::AHashMap;
use ahash::AHashSet;
use vstd::prelude::*;

verus! {

/// `ahash::RandomState`, taken as it is: nothing of its inside is seen here.
#[verifier::external_type_specification]
#[verifier::external_body]
pub struct ExRandomState(ahash::RandomState);

/// `ahash::AHashMap`, taken as it is: nothing of its inside is seen here.
#[verifier::external_type_specification]
#[verifier::external_body]
#[verifier::reject_recursive_types(K)]
#[verifier::reject_recursive_types(V)]
#[verifier::reject_recursive_types(S)]
pub struct ExAHashMap<K, V, S>(ahash::AHashMap<K, V, S>);

/// `ahash::AHashSet`, taken as it is: nothing of its inside is seen here.
#[verifier::external_type_specification]
#[verifier::external_body]
#[verifier::reject_recursive_types(T)]
#[verifier::reject_recursive_types(S)]
pub struct ExAHashSet<T, S>(ahash::AHashSet<T, S>);

/// A map from key words to positions.
pub type SlotMap = AHashMap<u128, usize>;

/// A set of (commit, line) pairs.
pub type PairSet = AHashSet<(usize, usize)>;

/// The entries of a map from key words to positions.
pub uninterp spec fn slots(m: AHashMap<u128, usize>) -> Map<u128, usize>;

/// The pairs that a set of (commit, line) holds.
pub uninterp spec fn pairs(s: AHashSet<(usize, usize)>) -> Set<(usize, usize)>;

pub open spec fn no_slots() -> Map<u128, usize> {
    Map::empty()
}

pub open spec fn no_pairs() -> Set<(usize, usize)> {
    Set::empty()
}

/// `AHashMap::new` makes a map without entries.
#[verifier::external_body]
pub(crate) fn slots_new() -> (m: SlotMap)
    ensures
        slots(m) == no_slots(),
{
    AHashMap::new()
}

/// `AHashMap::get` hands out the value stored under `key`, where there is one.
#[verifier::external_body]
pub(crate) fn slots_get(m: &AHashMap<u128, usize>, key: u128) -> (found: Option<usize>)
    ensures
        found == (if slots(*m).contains_key(key) {
            Some(slots(*m)[key])
        } else {
            None
        }),
{
    m.get(&key).copied()
}

/// `AHashMap::insert` stores `value` under `key`, in place of what was there.
#[verifier::external_body]
pub(crate) fn slots_insert(m: &mut AHashMap<u128, usize>, key: u128, value: usize)
    ensures
        slots(*final(m)) == slots(*old(m)).insert(key, value),
{
    m.insert(key, value);
}

/// `AHashSet::new` makes a set without members.
#[verifier::external_body]
pub(crate) fn pairs_new() -> (s: PairSet)
    ensures
        pairs(s) == no_pairs(),
{
    AHashSet::new()
}

/// `HashSet::insert`, reached through `AHashSet`, adds a member.
#[verifier::external_body]
pub(crate) fn pairs_insert(s: &mut AHashSet<(usize, usize)>, pair: (usize, usize))
    ensures
        pairs(*final(s)) == pairs(*old(s)).insert(pair),
{
    s.insert(pair);
}

/// `HashSet::remove`, reached through `AHashSet`, takes a member out and says
/// whether it was there.
#[verifier::external_body]
pub(crate) fn pairs_remove(s: &mut AHashSet<(usize, usize)>, pair: (usize, usize)) -> (was_there:
    bool)
    ensures
        pairs(*final(s)) == pairs(*old(s)).remove(pair),
        was_there == pairs(*old(s)).contains(pair),
{
    s.remove(&pair)
}

/// `HashSet::is_empty`, reached through `AHashSet`.
#[verifier::external_body]
pub(crate) fn pairs_is_empty(s: &AHashSet<(usize, usize)>) -> (empty: bool)
    ensures
        empty == (pairs(*s) == no_pairs()),
{
    s.is_empty()
}

/// `HashSet::clear`, reached through `AHashSet`, takes every member out.
#[verifier::external_body]
pub(crate) fn pairs_clear(s: &mut AHashSet<(usize, usize)>)
    ensures
        pairs(*final(s)) == no_pairs(),
{
    s.clear();
}

/// Walking an `AHashSet` hands out every member once, in no order that
/// could be named.
#[verifier::external_body]
pub(crate) fn pairs_list(s: &AHashSet<(usize, usize)>) -> (list: Vec<(usize, usize)>)
    ensures
        list@.to_set() == pairs(*s),
        list@.no_duplicates(),
{
    s.iter().copied().collect()
}

/// The keys that were added, in the order in which they came, and the
/// position of each.
pub struct KeyIndex {
    pub positions: AHashMap<u128, usize>,
    pub keys: Vec<TrigramKey>,
}

impl KeyIndex {
    pub open spec fn wf(&self) -> bool {
        &&& forall|i: int| 0 <= i < self.keys@.len() ==> (#[trigger] self.keys@[i]).wf()
        &&& forall|i: int|
            0 <= i < self.keys@.len() ==> slots(self.positions).contains_key(
                (#[trigger] self.keys@[i]).word(),
            ) && slots(self.positions)[self.keys@[i].word()] == i
        &&& forall|w: u128| #[trigger]
            slots(self.positions).contains_key(w) ==> slots(self.positions)[w] < self.keys@.len()
                && self.keys@[slots(self.positions)[w] as int].word() == w
    }

    /// The number of keys.
    pub open spec fn count(&self) -> nat {
        self.keys@.len()
    }

    /// The words of the keys that were added.
    pub open spec fn words(&self) -> Set<u128> {
        slots(self.positions).dom()
    }

    /// The position of the key with word `w`.
    pub open spec fn position(&self, w: u128) -> int {
        slots(self.positions)[w] as int
    }

    pub fn new() -> (index: Self)
        ensures
            index.wf(),
            index.count() == 0,
            index.words() == Set::<u128>::empty(),
    {
        let index = Self { positions: slots_new(), keys: Vec::new() };
        proof {
            assert(index.words() =~= Set::<u128>::empty());
        }
        index
    }

    pub fn len(&self) -> (n: usize)
        ensures
            n == self.count(),
    {
        self.keys.len()
    }

    /// The position of `key`, if it was added.
    pub fn find(&self, key: &TrigramKey) -> (found: Option<usize>)
        requires
            self.wf(),
            key.wf(),
        ensures
            match found {
                Some(i) => self.words().contains(key.word()) && i == self.position(key.word())
                    && i < self.count() && self.keys@[i as int].word() == key.word(),
                None => !self.words().contains(key.word()),
            },
    {
        slots_get(&self.positions, key.as_u128())
    }

    /// The position of `key`, which is added behind the others if it is new.
    pub fn find_or_add(&mut self, key: TrigramKey) -> (found: (usize, bool))
        requires
            old(self).wf(),
            key.wf(),
        ensures
            final(self).wf(),
            found.1 == !old(self).words().contains(key.word()),
            final(self).words() == old(self).words().insert(key.word()),
            found.0 == final(self).position(key.word()),
            found.0 < final(self).count(),
            found.1 ==> final(self).keys@ == old(self).keys@.push(key) && found.0 == old(
                self,
            ).count(),
            !found.1 ==> final(self).keys@ == old(self).keys@,
            forall|w: u128|
                old(self).words().contains(w) ==> final(self).position(w) == old(self).position(w),
    {
        let word = key.as_u128();
        match slots_get(&self.positions, word) {
            Some(i) => {
                proof {
                    assert(self.words().insert(key.word()) =~= self.words());
                }
                (i, false)
            },
            None => {
                let i = self.keys.len();
                slots_insert(&mut self.positions, word, i);
                self.keys.push(key);
                proof {
                    assert(self.words() =~= old(self).words().insert(key.word()));
                    assert forall|j: int| 0 <= j < self.keys@.len() implies slots(
                        self.positions,
                    ).contains_key((#[trigger] self.keys@[j]).word()) && slots(
                        self.positions,
                    )[self.keys@[j].word()] == j by {
                        if j < i {
                            assert(self.keys@[j] == old(self).keys@[j]);
                        }
                    }
                    assert forall|w: u128| #[trigger]
                        slots(self.positions).contains_key(w) implies slots(self.positions)[w]
                        < self.keys@.len() && self.keys@[slots(self.positions)[w] as int].word()
                        == w by {
                        if w != word {
                            assert(slots(old(self).positions).contains_key(w));
                        }
                    }
                }
                (i, true)
            },
        }
    }
}


/// A map from paths to file ids.
pub type PathMap = AHashMap<String, usize>;

/// The entries of a map from paths to file ids.
pub uninterp spec fn path_slots(m: AHashMap<String, usize>) -> Map<Seq<char>, usize>;

pub open spec fn no_paths() -> Map<Seq<char>, usize> {
    Map::empty()
}

/// `AHashMap::new` makes a map without entries.
#[verifier::external_body]
pub(crate) fn paths_new() -> (m: PathMap)
    ensures
        path_slots(m) == no_paths(),
{
    AHashMap::new()
}

/// `AHashMap::get` hands out the value stored under `path`, where there is one.
#[verifier::external_body]
pub(crate) fn paths_get(m: &PathMap, path: &str) -> (found: Option<usize>)
    ensures
        found == (if path_slots(*m).contains_key(path@) {
            Some(path_slots(*m)[path@])
        } else {
            None
        }),
{
    m.get(path).copied()
}

/// `AHashMap::insert` stores `value` under `path`, in place of what was there.
#[verifier::external_body]
pub(crate) fn paths_insert(m: &mut PathMap, path: String, value: usize)
    ensures
        path_slots(*final(m)) == path_slots(*old(m)).insert(path@, value),
{
    m.insert(path, value);
}

/// The paths that were seen, in the order in which they came. The position
/// of a path is its file id.
pub struct PathIndex {
    pub positions: PathMap,
    pub paths: Vec<String>,
}

impl PathIndex {
    pub open spec fn wf(&self) -> bool {
        &&& forall|i: int|
            0 <= i < self.paths@.len() ==> path_slots(self.positions).contains_key(
                (#[trigger] self.paths@[i])@,
            ) && path_slots(self.positions)[self.paths@[i]@] == i
        &&& forall|p: Seq<char>| #[trigger]
            path_slots(self.positions).contains_key(p) ==> path_slots(self.positions)[p]
                < self.paths@.len() && self.paths@[path_slots(self.positions)[p] as int]@ == p
    }

    pub open spec fn count(&self) -> nat {
        self.paths@.len()
    }

    pub open spec fn has_path(&self, path: Seq<char>) -> bool {
        path_slots(self.positions).contains_key(path)
    }

    pub open spec fn file_id(&self, path: Seq<char>) -> int {
        path_slots(self.positions)[path] as int
    }

    pub fn new() -> (index: Self)
        ensures
            index.wf(),
            index.count() == 0,
    {
        Self { positions: paths_new(), paths: Vec::new() }
    }

    /// The file id of `path`, if the path was seen.
    pub fn find(&self, path: &str) -> (found: Option<usize>)
        requires
            self.wf(),
        ensures
            match found {
                Some(id) => self.has_path(path@) && id == self.file_id(path@) && id < self.count()
                    && self.paths@[id as int]@ == path@,
                None => !self.has_path(path@),
            },
    {
        paths_get(&self.positions, path)
    }

    /// The file id of `path`. A path that was not seen gets the next id.
    pub fn find_or_add(&mut self, path: &str) -> (found: (usize, bool))
        requires
            old(self).wf(),
        ensures
            final(self).wf(),
            found.1 == !old(self).has_path(path@),
            found.0 == final(self).file_id(path@),
            found.0 < final(self).count(),
            final(self).paths@[found.0 as int]@ == path@,
            found.1 ==> final(self).count() == old(self).count() + 1 && found.0 == old(
                self,
            ).count(),
            !found.1 ==> final(self).paths@ == old(self).paths@,
            forall|i: int| 0 <= i < old(self).count() ==> final(self).paths@[i] == old(self).paths@[i],
            forall|p: Seq<char>|
                old(self).has_path(p) ==> final(self).has_path(p) && final(self).file_id(p) == old(
                    self,
                ).file_id(p),
    {
        match paths_get(&self.positions, path) {
            Some(id) => (id, false),
            None => {
                let id = self.paths.len();
                paths_insert(&mut self.positions, path.to_owned(), id);
                self.paths.push(path.to_owned());
                proof {
                    assert forall|i: int| 0 <= i < self.paths@.len() implies path_slots(
                        self.positions,
                    ).contains_key((#[trigger] self.paths@[i])@) && path_slots(
                        self.positions,
                    )[self.paths@[i]@] == i by {
                        if i < id {
                            assert(self.paths@[i] == old(self).paths@[i]);
                        }
                    }
                    assert forall|p: Seq<char>| #[trigger]
                        path_slots(self.positions).contains_key(p) implies path_slots(
                        self.positions,
                    )[p] < self.paths@.len() && self.paths@[path_slots(self.positions)[p] as int]@
                        == p by {
                        if p != path@ {
                            assert(path_slots(old(self).positions).contains_key(p));
                        }
                    }
                }
                (id, true)
            },
        }
    }
}

} // verus!
