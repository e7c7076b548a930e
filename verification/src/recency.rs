//! A bounded table from keys to slot numbers that forgets the key that was
//! used least recently, kept in an `lru::LruCache`.

use crate::places::place;
use lru::LruCache;
use std::num::NonZeroUsize;
use vstd::prelude::*;

verus! {

/// `lru::DefaultHasher`, taken as it is: nothing of its inside is seen here.
#[verifier::external_type_specification]
#[verifier::external_body]
pub struct ExLruHasher(lru::DefaultHasher);

/// `LruCache`, taken as it is: nothing of its inside is seen here.
#[verifier::external_type_specification]
#[verifier::external_body]
#[verifier::reject_recursive_types(K)]
#[verifier::reject_recursive_types(V)]
#[verifier::reject_recursive_types(S)]
pub struct ExLruCache<K, V, S>(LruCache<K, V, S>);

/// A key: a list of texts.
pub type Key = Seq<Seq<char>>;

/// A table from lists of texts to slot numbers.
pub type SlotTable = LruCache<Vec<String>, usize>;

/// The entries of a table, the one used last first.
pub uninterp spec fn entries_of(table: LruCache<Vec<String>, usize>) -> Seq<(Key, usize)>;

/// The number of entries that a table holds at most.
pub uninterp spec fn limit_of(table: LruCache<Vec<String>, usize>) -> nat;

pub open spec fn no_entries() -> Seq<(Key, usize)> {
    Seq::empty()
}

/// The texts of a key.
pub open spec fn key_of(list: Seq<String>) -> Key {
    Seq::new(list.len(), |i: int| list[i]@)
}

/// The keys of the entries, in order.
pub open spec fn keys_of(entries: Seq<(Key, usize)>) -> Seq<Key> {
    Seq::new(entries.len(), |i: int| entries[i].0)
}

/// The slot stored under the key.
pub open spec fn slot_at(entries: Seq<(Key, usize)>, key: Key) -> Option<usize> {
    match place(keys_of(entries), key) {
        Some(i) => Some(entries[i].1),
        None => None,
    }
}

/// The entries after the key was used: its entry stands first.
pub open spec fn touched(entries: Seq<(Key, usize)>, key: Key) -> Seq<(Key, usize)> {
    match place(keys_of(entries), key) {
        Some(i) => seq![entries[i]] + entries.remove(i),
        None => entries,
    }
}

/// The entries but the last.
pub open spec fn without_last<A>(entries: Seq<A>) -> Seq<A> {
    if entries.len() > 0 {
        entries.drop_last()
    } else {
        entries
    }
}

/// The entries after `slot` was stored under the key: the new entry stands
/// first; an entry with the same key is gone, else, where the table was
/// full, the last one.
pub open spec fn stored(entries: Seq<(Key, usize)>, limit: nat, key: Key, slot: usize) -> Seq<
    (Key, usize),
> {
    match place(keys_of(entries), key) {
        Some(i) => seq![(key, slot)] + entries.remove(i),
        None => if entries.len() >= limit {
            seq![(key, slot)] + without_last(entries)
        } else {
            seq![(key, slot)] + entries
        },
    }
}

/// What `pop_lru` hands out: the last entry, if there is one.
pub open spec fn last_is(entries: Seq<(Key, usize)>, last: Option<(Vec<String>, usize)>) -> bool {
    match last {
        Some(entry) => entries.len() > 0 && key_of(entry.0@) == entries.last().0 && entry.1
            == entries.last().1,
        None => entries.len() == 0,
    }
}

/// `LruCache::sparse` makes an empty table for at most `limit` entries. It
/// sets no room aside beforehand, so any limit above zero can be asked for.
#[verifier::external_body]
pub(crate) fn table_new(limit: usize) -> (table: SlotTable)
    requires
        0 < limit,
    ensures
        entries_of(table) == no_entries(),
        limit_of(table) == limit,
{
    LruCache::sparse(NonZeroUsize::new(limit).unwrap())
}

/// `LruCache::len`: the number of entries, which is never above the limit.
#[verifier::external_body]
pub(crate) fn table_len(table: &LruCache<Vec<String>, usize>) -> (n: usize)
    ensures
        n == entries_of(*table).len(),
        n <= limit_of(*table),
{
    table.len()
}

/// `LruCache::cap`: the limit that the table was made with.
#[verifier::external_body]
pub(crate) fn table_limit(table: &LruCache<Vec<String>, usize>) -> (n: usize)
    ensures
        n == limit_of(*table),
        n > 0,
{
    table.cap().get()
}

/// `LruCache::get` hands out what is stored under the key and moves that
/// entry to the front.
#[verifier::external_body]
pub(crate) fn table_get(table: &mut LruCache<Vec<String>, usize>, key: &Vec<String>) -> (slot:
    Option<usize>)
    ensures
        slot == slot_at(entries_of(*old(table)), key_of(key@)),
        entries_of(*final(table)) == touched(entries_of(*old(table)), key_of(key@)),
        limit_of(*final(table)) == limit_of(*old(table)),
{
    table.get(key).copied()
}

/// `LruCache::put` stores a slot under the key, at the front. Where the key
/// is new and the table full, the last entry goes.
#[verifier::external_body]
pub(crate) fn table_put(table: &mut LruCache<Vec<String>, usize>, key: Vec<String>, slot: usize)
    ensures
        entries_of(*final(table)) == stored(
            entries_of(*old(table)),
            limit_of(*old(table)),
            key_of(key@),
            slot,
        ),
        limit_of(*final(table)) == limit_of(*old(table)),
{
    table.put(key, slot);
}

/// `LruCache::pop_lru` takes the last entry out and hands it over.
#[verifier::external_body]
pub(crate) fn table_pop(table: &mut LruCache<Vec<String>, usize>) -> (last: Option<
    (Vec<String>, usize),
>)
    ensures
        last_is(entries_of(*old(table)), last),
        entries_of(*final(table)) == without_last(entries_of(*old(table))),
        limit_of(*final(table)) == limit_of(*old(table)),
{
    table.pop_lru()
}

} // verus!
