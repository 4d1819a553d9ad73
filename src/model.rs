//! The mathematical model of the map's keys: the distinct keys in the order
//! in which they were first seen, `None` standing for the null value.
use vstd::prelude::*;

use crate::index::entry_matches;
use crate::inline::SHORT_VALUE_LEN;

verus! {

/// A key as the model sees it: a byte string, or `None` for null.
pub type Key = Option<Seq<u8>>;

/// The model of one input key.
pub open spec fn key_of(v: Option<Vec<u8>>) -> Key {
    match v {
        Some(b) => Some(b@),
        None => None,
    }
}

/// The model of a batch of input keys.
pub open spec fn batch_keys(values: Seq<Option<Vec<u8>>>) -> Seq<Key> {
    values.map_values(|v: Option<Vec<u8>>| key_of(v))
}

/// The distinct keys after `batch` is inserted, in order, into a map holding
/// `keys`: a key not seen before goes to the end, a repeated key changes
/// nothing.
pub open spec fn insert_keys(keys: Seq<Key>, batch: Seq<Key>) -> Seq<Key>
    decreases batch.len(),
{
    if batch.len() == 0 {
        keys
    } else {
        let before = insert_keys(keys, batch.drop_last());
        if before.contains(batch.last()) {
            before
        } else {
            before.push(batch.last())
        }
    }
}

/// Number of bytes that a key occupies in the arena (none for null).
pub open spec fn key_len(k: Key) -> nat {
    match k {
        Some(b) => b.len(),
        None => 0,
    }
}

/// Number of bytes that the keys occupy in the arena.
pub open spec fn bytes_len(keys: Seq<Key>) -> nat
    decreases keys.len(),
{
    if keys.len() == 0 {
        0
    } else {
        bytes_len(keys.drop_last()) + key_len(keys.last())
    }
}

pub proof fn lemma_bytes_len_push(keys: Seq<Key>, k: Key)
    ensures
        bytes_len(keys.push(k)) == bytes_len(keys) + key_len(k),
{
    assert(keys.push(k).drop_last() =~= keys);
}

/// A prefix of a key sequence takes no more bytes than the whole.
pub proof fn lemma_bytes_len_prefix(keys: Seq<Key>, j: int)
    requires
        0 <= j <= keys.len(),
    ensures
        bytes_len(keys.take(j)) <= bytes_len(keys),
    decreases keys.len() - j,
{
    if j < keys.len() {
        lemma_bytes_len_prefix(keys, j + 1);
        assert(keys.take(j + 1).drop_last() =~= keys.take(j));
    } else {
        assert(keys.take(j) =~= keys);
    }
}

/// Inserting a batch grows the arena by at most the bytes of the batch's
/// keys: a map that has room for every byte of a batch can take it.
pub proof fn lemma_insert_keys_bytes_bound(keys: Seq<Key>, batch: Seq<Key>)
    ensures
        bytes_len(insert_keys(keys, batch)) <= bytes_len(keys) + bytes_len(batch),
    decreases batch.len(),
{
    if batch.len() > 0 {
        lemma_insert_keys_bytes_bound(keys, batch.drop_last());
        lemma_bytes_len_push(insert_keys(keys, batch.drop_last()), batch.last());
    }
}

/// Inserting the first `i + 1` keys of a batch is inserting the first `i` and
/// then key `i`.
pub proof fn lemma_insert_keys_step(keys: Seq<Key>, batch: Seq<Key>, i: int)
    requires
        0 <= i < batch.len(),
    ensures
        insert_keys(keys, batch.take(i + 1)) == (if insert_keys(keys, batch.take(i)).contains(
            batch[i],
        ) {
            insert_keys(keys, batch.take(i))
        } else {
            insert_keys(keys, batch.take(i)).push(batch[i])
        }),
{
    assert(batch.take(i + 1).drop_last() =~= batch.take(i));
}

/// The arena only grows while a batch is inserted.
pub proof fn lemma_insert_keys_bytes_mono(keys: Seq<Key>, batch: Seq<Key>, i: int)
    requires
        0 <= i <= batch.len(),
    ensures
        bytes_len(insert_keys(keys, batch.take(i))) <= bytes_len(insert_keys(keys, batch)),
    decreases batch.len() - i,
{
    if i == batch.len() {
        assert(batch.take(i) =~= batch);
    } else {
        lemma_insert_keys_step(keys, batch, i);
        lemma_bytes_len_push(insert_keys(keys, batch.take(i)), batch[i]);
        lemma_insert_keys_bytes_mono(keys, batch, i + 1);
    }
}

/// Inserting keeps the keys distinct, and the keys afterwards are those held
/// before together with those of the batch.
pub proof fn lemma_insert_keys_contents(keys: Seq<Key>, batch: Seq<Key>)
    requires
        keys.no_duplicates(),
    ensures
        insert_keys(keys, batch).no_duplicates(),
        forall|k: Key|
            insert_keys(keys, batch).contains(k) <==> (keys.contains(k) || batch.contains(k)),
    decreases batch.len(),
{
    if batch.len() > 0 {
        let rest = batch.drop_last();
        lemma_insert_keys_contents(keys, rest);
        let before = insert_keys(keys, rest);
        let last = batch.last();
        assert forall|k: Key| batch.contains(k) <==> (rest.contains(k) || k == last) by {
            if batch.contains(k) {
                let j = choose|j: int| 0 <= j < batch.len() && batch[j] == k;
                if j < batch.len() - 1 {
                    assert(rest[j] == k);
                }
            }
            if rest.contains(k) {
                let j = choose|j: int| 0 <= j < rest.len() && rest[j] == k;
                assert(batch[j] == k);
            }
            if k == last {
                assert(batch[batch.len() - 1] == k);
            }
        }
        if !before.contains(last) {
            let after = before.push(last);
            assert forall|k: Key| after.contains(k) <==> (before.contains(k) || k == last) by {
                if after.contains(k) {
                    let j = choose|j: int| 0 <= j < after.len() && after[j] == k;
                    if j < before.len() {
                        assert(before[j] == k);
                    }
                }
                if before.contains(k) {
                    let j = choose|j: int| 0 <= j < before.len() && before[j] == k;
                    assert(after[j] == k);
                }
                if k == last {
                    assert(after[before.len() as int] == k);
                }
            }
            assert forall|a: int, b: int|
                0 <= a < after.len() && 0 <= b < after.len() && a != b implies after[a]
                != after[b] by {
                if a < before.len() && b < before.len() {
                } else if a < before.len() {
                    assert(before.contains(after[a]));
                } else if b < before.len() {
                    assert(before.contains(after[b]));
                }
            }
        }
    }
}

/// Inserting batch `a` and then batch `b` leaves the same keys, in the same
/// order, as inserting `a` followed by `b` as one batch.
pub proof fn law_batches_compose(keys: Seq<Key>, a: Seq<Key>, b: Seq<Key>)
    ensures
        insert_keys(insert_keys(keys, a), b) == insert_keys(keys, a + b),
    decreases b.len(),
{
    if b.len() == 0 {
        assert(a + b =~= a);
    } else {
        law_batches_compose(keys, a, b.drop_last());
        assert((a + b).drop_last() =~= a + b.drop_last());
        assert((a + b).last() == b.last());
    }
}

/// The keys of a sequence of batches, one batch after another.
pub open spec fn concat_batches(batches: Seq<Seq<Key>>) -> Seq<Key>
    decreases batches.len(),
{
    if batches.len() == 0 {
        Seq::empty()
    } else {
        concat_batches(batches.drop_last()) + batches.last()
    }
}

/// The keys after inserting each batch in turn into a map holding `keys`.
pub open spec fn insert_batches(keys: Seq<Key>, batches: Seq<Seq<Key>>) -> Seq<Key>
    decreases batches.len(),
{
    if batches.len() == 0 {
        keys
    } else {
        insert_keys(insert_batches(keys, batches.drop_last()), batches.last())
    }
}

/// Inserting batches one after another into an empty map, by either protocol,
/// leaves each distinct key of all batches exactly once, null included, in
/// the order of its first occurrence across all batches.
pub proof fn law_many_batches(batches: Seq<Seq<Key>>)
    ensures
        insert_batches(Seq::empty(), batches) == insert_keys(Seq::empty(), concat_batches(batches)),
        insert_batches(Seq::empty(), batches).no_duplicates(),
        forall|k: Key|
            insert_batches(Seq::empty(), batches).contains(k) <==> concat_batches(batches).contains(
                k,
            ),
        first_seen_ordered(concat_batches(batches), insert_batches(Seq::empty(), batches)),
    decreases batches.len(),
{
    if batches.len() > 0 {
        law_many_batches(batches.drop_last());
        law_batches_compose(Seq::empty(), concat_batches(batches.drop_last()), batches.last());
    } else {
        assert(insert_keys(Seq::<Key>::empty(), Seq::<Key>::empty()) == Seq::<Key>::empty());
    }
    law_dedup(concat_batches(batches));
    law_first_seen_order(concat_batches(batches));
}

/// Inserting distinct keys into an empty map gives back exactly those keys,
/// in their order.
pub proof fn law_round_trip_distinct(values: Seq<Key>)
    requires
        values.no_duplicates(),
    ensures
        insert_keys(Seq::empty(), values) == values,
    decreases values.len(),
{
    if values.len() > 0 {
        let rest = values.drop_last();
        assert(rest.no_duplicates()) by {
            assert forall|a: int, b: int|
                0 <= a < rest.len() && 0 <= b < rest.len() && a != b implies rest[a] != rest[b] by {
                assert(values[a] != values[b]);
            }
        }
        law_round_trip_distinct(rest);
        assert(!rest.contains(values.last())) by {
            if rest.contains(values.last()) {
                let j = choose|j: int| 0 <= j < rest.len() && rest[j] == values.last();
                assert(values[j] == values[values.len() - 1]);
            }
        }
        assert(rest.push(values.last()) =~= values);
    } else {
        assert(values =~= Seq::<Key>::empty());
    }
}

/// Inserting keys into an empty map keeps each distinct key exactly once:
/// the result has no repeats and holds exactly the keys of the batch, null
/// included if the batch has one.
pub proof fn law_dedup(batch: Seq<Key>)
    ensures
        insert_keys(Seq::empty(), batch).no_duplicates(),
        forall|k: Key| insert_keys(Seq::empty(), batch).contains(k) <==> batch.contains(k),
{
    lemma_insert_keys_contents(Seq::empty(), batch);
}

/// Of any two keys of `r`, the earlier occurs in `batch` before every
/// occurrence of the later one.
pub open spec fn first_seen_ordered(batch: Seq<Key>, r: Seq<Key>) -> bool {
    forall|p: int, q: int, j: int|
        #![trigger r[p], r[q], batch[j]]
        0 <= p < q < r.len() && 0 <= j < batch.len() && batch[j] == r[q] ==> batch.take(
            j,
        ).contains(r[p])
}

/// The distinct keys come out in the order of their first occurrence in the
/// batch: of two keys, the earlier one occurs in the batch before any
/// occurrence of the later one.
pub proof fn law_first_seen_order(batch: Seq<Key>)
    ensures
        first_seen_ordered(batch, insert_keys(Seq::empty(), batch)),
    decreases batch.len(),
{
    let r = insert_keys(Seq::empty(), batch);
    if batch.len() > 0 {
        let rest = batch.drop_last();
        let before = insert_keys(Seq::empty(), rest);
        law_first_seen_order(rest);
        assert(first_seen_ordered(rest, before));
        lemma_insert_keys_contents(Seq::empty(), rest);
        let n = batch.len() - 1;
        assert forall|p: int, q: int, j: int|
            #![trigger r[p], r[q], batch[j]]
            0 <= p < q < r.len() && 0 <= j < batch.len() && batch[j] == r[q] implies batch.take(
            j,
        ).contains(r[p]) by {
            assert(before.contains(before[p]));
            if j < n {
                assert(rest[j] == batch[j]);
                if q < before.len() {
                    assert(rest.take(j).contains(before[p]));
                    let i = choose|i: int| 0 <= i < j && rest.take(j)[i] == before[p];
                    assert(batch.take(j)[i] == r[p]);
                } else {
                    // the key at q is new in the last step, so it is not in `rest`
                    assert(rest.contains(rest[j]));
                    assert(before.contains(r[q]));
                    assert(false);
                }
            } else {
                assert(rest.contains(before[p]));
                let i = choose|i: int| 0 <= i < rest.len() && rest[i] == before[p];
                assert(batch.take(j)[i] == r[p]);
            }
        }
        assert(first_seen_ordered(batch, r));
    } else {
        assert(r.len() == 0);
    }
}

/// A key of exactly the inline threshold and one a byte longer never match
/// the same index record, and both are kept as distinct keys.
pub proof fn law_inline_boundary(
    keys: Seq<Key>,
    a: Seq<u8>,
    b: Seq<u8>,
    inline_a: u64,
    inline_b: u64,
    buffer: Seq<u8>,
)
    requires
        a.len() == SHORT_VALUE_LEN,
        b.len() == SHORT_VALUE_LEN + 1,
    ensures
        forall|e: (u64, usize, u64, usize)|
            !(#[trigger] entry_matches(e, a, inline_a, buffer) && entry_matches(
                e,
                b,
                inline_b,
                buffer,
            )),
        insert_keys(keys, seq![Some(a), Some(b)]).contains(Some(a)),
        insert_keys(keys, seq![Some(a), Some(b)]).contains(Some(b)),
        !keys.contains(Some(a)) && !keys.contains(Some(b)) ==> insert_keys(
            keys,
            seq![Some(a), Some(b)],
        ).len() == keys.len() + 2,
{
    let batch = seq![Some(a), Some(b)];
    let first = seq![Some(a)];
    assert(batch.drop_last() =~= first);
    assert(batch.last() == Some(b));
    assert(first.drop_last() =~= Seq::<Key>::empty());
    assert(first.last() == Some(a));
    assert(insert_keys(keys, Seq::<Key>::empty()) == keys);
    let one = insert_keys(keys, first);
    if keys.contains(Some(a)) {
        assert(one == keys);
    } else {
        assert(one == keys.push(Some(a)));
        assert(one[keys.len() as int] == Some(a));
    }
    assert(one.contains(Some(a)));
    if !keys.contains(Some(a)) {
        if !keys.contains(Some(b)) {
            assert(!one.contains(Some(b))) by {
                if one.contains(Some(b)) {
                    let j = choose|j: int| 0 <= j < one.len() && one[j] == Some(b);
                    if j < keys.len() {
                        assert(keys[j] == Some(b));
                    }
                }
            }
        }
    }
    let two = insert_keys(keys, batch);
    if !one.contains(Some(b)) {
        assert(two == one.push(Some(b)));
        assert(two[one.len() as int] == Some(b));
        let j = choose|j: int| 0 <= j < one.len() && one[j] == Some(a);
        assert(two[j] == Some(a));
    }
}

} // verus!
