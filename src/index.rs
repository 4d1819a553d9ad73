//! The hash index over distinct keys, and the hashing of keys.
//!
//! Each record of the index is an [`Entry`]: the key's hash, its length, its
//! packed bytes (short keys) or the offset of its bytes in the arena (long
//! keys), and its position in output order.
use vstd::multiset::Multiset;
use vstd::prelude::*;

use crate::inline::SHORT_VALUE_LEN;

verus! {

/// `(hash, length, packed key or arena offset, position)`.
pub type Entry = (u64, usize, u64, usize);

/// The hash that a hasher keyed with `k0..k3` gives the byte string `key`.
pub uninterp spec fn seeded_hash(k0: u64, k1: u64, k2: u64, k3: u64, key: Seq<u8>) -> u64;

/// Relies on `ahash::RandomState::with_seeds` and `RandomState::hash_one`:
/// hashers built from the same four keys hash equal byte strings equally.
#[verifier::external_body]
pub(crate) fn hash_bytes(k0: u64, k1: u64, k2: u64, k3: u64, key: &[u8]) -> (r: u64)
    ensures
        r == seeded_hash(k0, k1, k2, k3, key@),
{
    ahash::RandomState::with_seeds(k0, k1, k2, k3).hash_one(key)
}

/// Relies on `ahash::RandomState::new`, which is keyed at random, and
/// `RandomState::hash_one`: a random key for a map's hasher. Nothing is known
/// of its value.
#[verifier::external_body]
pub(crate) fn random_seed(salt: u64) -> u64 {
    ahash::RandomState::new().hash_one(salt)
}

/// Whether the record `e` stands for `key`: equal lengths, and equal packed
/// words for short keys or equal arena bytes for long ones.
pub open spec fn entry_matches(e: Entry, key: Seq<u8>, inline: u64, buffer: Seq<u8>) -> bool {
    &&& e.1 == key.len()
    &&& if key.len() <= SHORT_VALUE_LEN {
        e.2 == inline
    } else {
        &&& e.2 + e.1 <= buffer.len()
        &&& buffer.subrange(e.2 as int, e.2 + e.1) == key
    }
}

/// The equality that probes of the index use; see [`entry_matches`].
pub fn entry_matches_exec(e: &Entry, key: &[u8], inline: u64, buffer: &Vec<u8>) -> (r: bool)
    ensures
        r == entry_matches(*e, key@, inline, buffer@),
{
    if e.1 != key.len() {
        return false;
    }
    if key.len() <= SHORT_VALUE_LEN {
        return e.2 == inline;
    }
    if e.2 > buffer.len() as u64 {
        return false;
    }
    let start = e.2 as usize;
    if e.1 > buffer.len() - start {
        return false;
    }
    let mut i: usize = 0;
    while i < e.1
        invariant
            e.1 == key@.len(),
            key@.len() > SHORT_VALUE_LEN,
            start as int + e.1 as int <= buffer@.len() <= usize::MAX,
            start == e.2,
            i <= e.1,
            forall|j: int| 0 <= j < i ==> buffer@[start + j] == key@[j],
        decreases e.1 - i,
    {
        if buffer[start + i] != key[i] {
            assert(buffer@.subrange(start as int, start + e.1)[i as int] == buffer@[start + i]);
            return false;
        }
        i = i + 1;
    }
    assert(buffer@.subrange(start as int, start + e.1) =~= key@);
    true
}

/// The distinct-key index: a `hashbrown` raw table of [`Entry`] records. Every
/// record is stored under its own first field as hash.
#[verifier::external_body]
pub struct EntryTable {
    table: hashbrown::raw::RawTable<Entry>,
}

/// The records that the table holds.
pub uninterp spec fn table_entries(t: EntryTable) -> Multiset<Entry>;

/// Relies on `hashbrown::raw::RawTable::with_capacity`: a table with no items.
#[verifier::external_body]
pub(crate) fn table_with_capacity(capacity: usize) -> (r: EntryTable)
    ensures
        table_entries(r) =~= Multiset::empty(),
{
    EntryTable { table: hashbrown::raw::RawTable::with_capacity(capacity) }
}

/// Relies on `RawTable::insert`: the record is added, stored under its first
/// field as hash, which is also what the table rehashes it by when it grows.
#[verifier::external_body]
pub(crate) fn table_insert(t: &mut EntryTable, e: Entry)
    ensures
        table_entries(*final(t)) == table_entries(*old(t)).insert(e),
{
    t.table.insert(e.0, e, |x| x.0);
}

/// Relies on `RawTable::get`: it probes from `hash` and returns a record for
/// which the equality holds, and it misses only where no record stored under
/// `hash` satisfies it (records are never removed from this table).
#[verifier::external_body]
pub(crate) fn table_find(t: &EntryTable, hash: u64, key: &[u8], inline: u64, buffer: &Vec<u8>) -> (r:
    Option<Entry>)
    ensures
        r matches Some(e) ==> table_entries(*t).contains(e) && entry_matches(
            e,
            key@,
            inline,
            buffer@,
        ),
        r is None ==> forall|e: Entry|
            #![trigger table_entries(*t).contains(e)]
            table_entries(*t).contains(e) && e.0 == hash ==> !entry_matches(
                e,
                key@,
                inline,
                buffer@,
            ),
{
    t.table.get(hash, |e| entry_matches_exec(e, key, inline, buffer)).map(|e| *e)
}

/// Relies on `RawTable::len`: the number of records.
#[verifier::external_body]
pub(crate) fn table_len(t: &EntryTable) -> (r: usize)
    ensures
        r == table_entries(*t).len(),
{
    t.table.len()
}

/// Relies on `RawTable::capacity`: the records held plus the room left before
/// the table grows.
#[verifier::external_body]
pub(crate) fn table_capacity(t: &EntryTable) -> (r: usize)
    ensures
        r >= table_entries(*t).len(),
{
    t.table.capacity()
}

} // verus!
