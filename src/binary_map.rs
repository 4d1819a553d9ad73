//! [`ArrowBytesMap`]: a map from distinct byte-string keys (and null) to
//! payloads, which hands back its keys in first-seen order as a columnar byte
//! array without copying their bytes.
use vstd::prelude::*;

use crate::index::{
    entry_matches, hash_bytes, random_seed, seeded_hash, table_capacity, table_entries, table_find,
    table_insert, table_len, table_with_capacity, Entry, EntryTable,
};
use crate::inline::{lemma_pack_bound, lemma_pack_injective, pack, pack_inline, SHORT_VALUE_LEN};
use crate::model::{
    batch_keys, bytes_len, insert_keys, key_len, lemma_bytes_len_prefix, lemma_bytes_len_push,
    lemma_insert_keys_bytes_bound, lemma_insert_keys_bytes_mono, lemma_insert_keys_contents,
    lemma_insert_keys_step, Key,
};
use crate::output::{single_null_buffer, BytesArray, OffsetWidth, OutputType};

verus! {

/// The size, in records, that the index starts with.
const INITIAL_MAP_CAPACITY: usize = 128;

/// The size, in bytes, that the arena starts with.
const INITIAL_BUFFER_CAPACITY: usize = 8192;

/// A map from byte strings (and null) to payloads of type `V`.
///
/// Every distinct key gets one payload and one position; positions follow the
/// order in which keys were first inserted. The bytes of the keys live once,
/// in `buffer`, laid out as the values of a columnar byte array: key `i` is
/// `buffer[offsets[i]..offsets[i + 1]]`, and null takes an empty range.
/// The index holds one record per non-null key; a key of at most
/// [`SHORT_VALUE_LEN`] bytes is compared by its packed word, a longer one by
/// its bytes in `buffer`.
pub struct ArrowBytesMap<V> {
    /// Whether the output holds text or bytes.
    output_type: OutputType,
    /// The width of the output's offsets, which bounds the arena.
    offset_width: OffsetWidth,
    /// One record per distinct non-null key.
    map: EntryTable,
    /// The arena: the bytes of every distinct key, in order.
    buffer: Vec<u8>,
    /// Where each key's bytes end; starts with `0`.
    offsets: Vec<usize>,
    /// The payload of each key, by position.
    payloads: Vec<V>,
    /// The position of null, once inserted.
    null: Option<usize>,
    /// The four keys of the hasher.
    k0: u64,
    k1: u64,
    k2: u64,
    k3: u64,
}

/// Whether `make` may have produced `v` as the payload of a new `key`.
pub open spec fn made_by<V, MP: Fn(Option<&[u8]>) -> V>(make: MP, key: Key, v: V) -> bool {
    exists|a: Option<&[u8]>|
        #![trigger make.ensures((a,), v)]
        match a {
            Some(s) => key == Some(s@),
            None => key is None,
        } && make.ensures((a,), v)
}

/// `a * b`, or `usize::MAX` where the product does not fit.
fn saturating_mul(a: usize, b: usize) -> (r: usize)
    ensures
        r == if a * b <= usize::MAX {
            a * b
        } else {
            usize::MAX as int
        },
{
    proof {
        let x = a as int;
        let y = b as int;
        assert(x * y <= 0xffff_ffff_ffff_ffff * 0xffff_ffff_ffff_ffff) by (nonlinear_arith)
            requires
                0 <= x <= 0xffff_ffff_ffff_ffff,
                0 <= y <= 0xffff_ffff_ffff_ffff,
        ;
    }
    let wide: u128 = (a as u128) * (b as u128);
    if wide > usize::MAX as u128 {
        usize::MAX
    } else {
        wide as usize
    }
}

/// `x`, or `usize::MAX` where `x` is larger.
pub open spec fn capped(x: int) -> int {
    if x > usize::MAX {
        usize::MAX as int
    } else {
        x
    }
}

proof fn lemma_product_nonneg(a: int, b: int)
    requires
        a >= 0,
        b >= 0,
    ensures
        a * b >= 0,
{
    assert(a * b >= 0) by (nonlinear_arith)
        requires
            a >= 0,
            b >= 0,
    ;
}

proof fn lemma_product_mono(a: int, b: int, c: int)
    requires
        0 <= a <= b,
        c >= 0,
    ensures
        a * c <= b * c,
{
    assert(a * c <= b * c) by (nonlinear_arith)
        requires
            0 <= a <= b,
            c >= 0,
    ;
}

/// Relies on `Vec::capacity`: what the vector can hold without reallocating,
/// which is at least its length.
#[verifier::external_body]
fn vec_capacity<T>(v: &Vec<T>) -> (r: usize)
    ensures
        r >= v@.len(),
{
    v.capacity()
}

/// One step of insert-or-update on a map holding `keys` with payloads
/// `before`: a present key has its payload replaced by what `update` makes of
/// it, a new key is added with a payload that `make` made.
pub open spec fn update_step<V, MP: Fn(Option<&[u8]>) -> V, UP: Fn(V) -> V>(
    make: MP,
    update: UP,
    keys: Seq<Key>,
    before: Seq<V>,
    key: Key,
    after: Seq<V>,
) -> bool {
    if keys.contains(key) {
        &&& after.len() == before.len()
        &&& forall|p: int|
            0 <= p < before.len() ==> if keys[p] == key {
                update.ensures((before[p],), #[trigger] after[p])
            } else {
                after[p] == before[p]
            }
    } else {
        &&& after.len() == before.len() + 1
        &&& after.drop_last() == before
        &&& made_by(make, key, after.last())
    }
}

/// `trace[i]` is the payloads after the first `i` keys of `batch` were
/// inserted or updated, starting from a map that holds `keys`.
pub open spec fn is_update_trace<V, MP: Fn(Option<&[u8]>) -> V, UP: Fn(V) -> V>(
    make: MP,
    update: UP,
    keys: Seq<Key>,
    batch: Seq<Key>,
    trace: Seq<Seq<V>>,
) -> bool {
    &&& trace.len() == batch.len() + 1
    &&& forall|i: int|
        0 <= i < batch.len() ==> update_step(
            make,
            update,
            insert_keys(keys, batch.take(i)),
            #[trigger] trace[i],
            batch[i],
            trace[i + 1],
        )
}

/// How many times `k` occurs in `s`.
pub open spec fn occurrences(s: Seq<Key>, k: Key) -> nat
    decreases s.len(),
{
    if s.len() == 0 {
        0
    } else {
        occurrences(s.drop_last(), k) + if s.last() == k {
            1nat
        } else {
            0nat
        }
    }
}

proof fn lemma_occurrences_absent(s: Seq<Key>, k: Key)
    requires
        !s.contains(k),
    ensures
        occurrences(s, k) == 0,
    decreases s.len(),
{
    if s.len() > 0 {
        assert(!s.drop_last().contains(k)) by {
            if s.drop_last().contains(k) {
                let j = choose|j: int| 0 <= j < s.drop_last().len() && s.drop_last()[j] == k;
                assert(s[j] == k);
            }
        }
        assert(s[s.len() - 1] == s.last());
        lemma_occurrences_absent(s.drop_last(), k);
    }
}

/// Counting with insert-or-update: where new keys start at one and each
/// repeat adds one, every key's payload afterwards is its payload before (zero
/// for a new key) plus the number of its occurrences in the batch.
pub proof fn law_counting<MP: Fn(Option<&[u8]>) -> u64, UP: Fn(u64) -> u64>(
    make: MP,
    update: UP,
    keys: Seq<Key>,
    batch: Seq<Key>,
    trace: Seq<Seq<u64>>,
)
    requires
        keys.no_duplicates(),
        trace[0].len() == keys.len(),
        is_update_trace(make, update, keys, batch, trace),
        forall|a: Option<&[u8]>, v: u64| make.ensures((a,), v) ==> v == 1,
        forall|c: u64, v: u64| update.ensures((c,), v) ==> v == c + 1,
    ensures
        trace.last().len() == insert_keys(keys, batch).len(),
        forall|p: int|
            0 <= p < insert_keys(keys, batch).len() ==> trace.last()[p] == (if p < keys.len() {
                trace[0][p] as int
            } else {
                0int
            }) + occurrences(batch, insert_keys(keys, batch)[p]),
    decreases batch.len(),
{
    let n = batch.len() as int;
    let r = insert_keys(keys, batch);
    if n == 0 {
        return;
    }
    let rest = batch.drop_last();
    let shorter = trace.drop_last();
    assert forall|i: int| 0 <= i < rest.len() implies rest.take(i) == batch.take(i) by {
        assert(rest.take(i) =~= batch.take(i));
    }
    assert(is_update_trace(make, update, keys, rest, shorter)) by {
        assert forall|i: int| 0 <= i < rest.len() implies update_step(
            make,
            update,
            insert_keys(keys, rest.take(i)),
            #[trigger] shorter[i],
            rest[i],
            shorter[i + 1],
        ) by {
            assert(update_step(make, update, insert_keys(keys, batch.take(i)), trace[i], batch[i], trace[i + 1]));
        }
    }
    law_counting(make, update, keys, rest, shorter);
    lemma_insert_keys_contents(keys, rest);
    let before = insert_keys(keys, rest);
    let last = batch.last();
    assert(batch.take(n - 1) =~= rest);
    assert(update_step(make, update, before, trace[n - 1], last, trace[n]));
    assert(shorter.last() == trace[n - 1]);
    if before.contains(last) {
        assert forall|p: int| 0 <= p < r.len() implies trace.last()[p] == (if p < keys.len() {
            trace[0][p] as int
        } else {
            0int
        }) + occurrences(batch, r[p]) by {
            if before[p] == last {
                assert(update.ensures((trace[n - 1][p],), trace[n][p]));
            }
        }
    } else {
        let v = trace[n].last();
        let a = choose|a: Option<&[u8]>| #[trigger] make.ensures((a,), v) && match a {
            Some(s) => last == Some(s@),
            None => last is None,
        };
        assert(v == 1);
        assert(!rest.contains(last)) by {
            if rest.contains(last) {
                assert(before.contains(last));
            }
        }
        lemma_occurrences_absent(rest, last);
        assert(r == before.push(last));
        assert forall|p: int| 0 <= p < r.len() implies trace.last()[p] == (if p < keys.len() {
            trace[0][p] as int
        } else {
            0int
        }) + occurrences(batch, r[p]) by {
            if p < before.len() {
                assert(trace[n][p] == trace[n].drop_last()[p]);
                assert(before[p] != last) by {
                    assert(before.contains(before[p]));
                }
            } else {
                assert(keys.len() <= before.len()) by {
                    lemma_insert_keys_prefix_len(keys, rest);
                }
            }
        }
    }
}

/// Inserting never drops keys from the front of the sequence.
proof fn lemma_insert_keys_prefix_len(keys: Seq<Key>, batch: Seq<Key>)
    ensures
        keys.len() <= insert_keys(keys, batch).len(),
    decreases batch.len(),
{
    if batch.len() > 0 {
        lemma_insert_keys_prefix_len(keys, batch.drop_last());
    }
}

impl<V: Copy> ArrowBytesMap<V> {
    /// Number of distinct keys, null included.
    pub closed spec fn num_keys(&self) -> nat {
        self.payloads@.len()
    }

    /// The bytes of the key at position `p`.
    closed spec fn key_bytes(&self, p: int) -> Seq<u8> {
        self.buffer@.subrange(self.offsets@[p] as int, self.offsets@[p + 1] as int)
    }

    /// The key at position `p`.
    closed spec fn key_at(&self, p: int) -> Key {
        if self.null == Some(p as usize) {
            None
        } else {
            Some(self.key_bytes(p))
        }
    }

    /// The distinct keys in first-seen order.
    pub closed spec fn keys(&self) -> Seq<Key> {
        Seq::new(self.num_keys(), |p: int| self.key_at(p))
    }

    /// The payload of each key, by position.
    pub closed spec fn payloads(&self) -> Seq<V> {
        self.payloads@
    }

    /// Whether values are text or bytes.
    pub closed spec fn output_type_spec(&self) -> OutputType {
        self.output_type
    }

    /// The width of the offsets of the output.
    pub closed spec fn offset_width_spec(&self) -> OffsetWidth {
        self.offset_width
    }

    /// The hash of a key.
    closed spec fn hash_of(&self, key: Seq<u8>) -> u64 {
        seeded_hash(self.k0, self.k1, self.k2, self.k3, key)
    }

    /// The index record of the non-null key at position `p`.
    closed spec fn entry_for(&self, p: int) -> Entry {
        let k = self.key_bytes(p);
        (
            self.hash_of(k),
            k.len() as usize,
            if k.len() <= SHORT_VALUE_LEN {
                pack(k) as u64
            } else {
                self.offsets@[p] as u64
            },
            p as usize,
        )
    }

    /// The map's invariant.
    pub closed spec fn wf(&self) -> bool {
        &&& self.offsets@.len() == self.payloads@.len() + 1
        &&& self.offsets@[0] == 0
        &&& forall|i: int, j: int|
            0 <= i <= j < self.offsets@.len() ==> self.offsets@[i] <= self.offsets@[j]
        &&& self.offsets@.last() == self.buffer@.len()
        &&& self.buffer@.len() == bytes_len(self.keys())
        &&& self.buffer@.len() <= self.offset_width.max_offset()
        &&& self.null matches Some(p) ==> p < self.payloads@.len() && self.offsets@[p as int]
            == self.offsets@[p + 1]
        &&& self.keys().no_duplicates()
        &&& forall|p: int|
            0 <= p < self.payloads@.len() && self.null != Some(p as usize) ==> table_entries(
                self.map,
            ).contains(#[trigger] self.entry_for(p))
        &&& forall|e: Entry| #[trigger]
            table_entries(self.map).contains(e) ==> e.3 < self.payloads@.len() && self.null != Some(
                e.3,
            ) && e == self.entry_for(e.3 as int)
        &&& table_entries(self.map).len() + (if self.null is Some {
            1int
        } else {
            0int
        }) == self.payloads@.len()
    }

    /// The same kind of map, with the same hasher.
    closed spec fn same_setup(&self, other: &Self) -> bool {
        &&& self.output_type == other.output_type
        &&& self.offset_width == other.offset_width
        &&& self.k0 == other.k0
        &&& self.k1 == other.k1
        &&& self.k2 == other.k2
        &&& self.k3 == other.k3
    }

    /// The key at a position is null exactly at the null position.
    proof fn lemma_null_key(&self)
        requires
            self.wf(),
        ensures
            self.keys().contains(None) <==> self.null is Some,
            self.null matches Some(p) ==> self.keys()[p as int] is None,
    {
        if self.keys().contains(None) {
            let p = choose|p: int| 0 <= p < self.keys().len() && self.keys()[p] == None::<Seq<u8>>;
            assert(self.key_at(p) is None);
        }
        if let Some(p) = self.null {
            assert(self.keys()[p as int] is None);
        }
    }

    /// A key's bytes lie inside the arena.
    proof fn lemma_key_range(&self, p: int)
        requires
            self.wf(),
            0 <= p < self.num_keys(),
        ensures
            self.offsets@[p] <= self.offsets@[p + 1] <= self.buffer@.len(),
            self.key_bytes(p).len() == self.offsets@[p + 1] - self.offsets@[p],
    {
        assert(self.offsets@[p + 1] <= self.offsets@.last());
    }

    /// Looks `key` up in the index; `hash` is its hash.
    fn find_position(&self, key: &[u8], hash: u64) -> (r: Option<usize>)
        requires
            self.wf(),
            hash == self.hash_of(key@),
        ensures
            match r {
                Some(p) => p < self.num_keys() && self.keys()[p as int] == Some(key@),
                None => !self.keys().contains(Some(key@)),
            },
    {
        let inline: u64 = if key.len() <= SHORT_VALUE_LEN {
            pack_inline(key)
        } else {
            0
        };
        match table_find(&self.map, hash, key, inline, &self.buffer) {
            Some(e) => {
                proof {
                    let p = e.3 as int;
                    let kb = self.key_bytes(p);
                    self.lemma_key_range(p);
                    if key@.len() <= SHORT_VALUE_LEN {
                        lemma_pack_bound(kb);
                        lemma_pack_injective(kb, key@);
                    } else {
                        assert(kb =~= key@);
                    }
                    assert(self.keys()[p] == self.key_at(p));
                }
                Some(e.3)
            },
            None => {
                proof {
                    assert forall|p: int| 0 <= p < self.keys().len() implies self.keys()[p] != Some(
                        key@,
                    ) by {
                        if self.keys()[p] == Some(key@) {
                            assert(self.key_at(p) == Some(key@));
                            let kb = self.key_bytes(p);
                            self.lemma_key_range(p);
                            let e = self.entry_for(p);
                            assert(table_entries(self.map).contains(e));
                            if key@.len() <= SHORT_VALUE_LEN {
                                lemma_pack_bound(kb);
                            }
                            assert(entry_matches(e, key@, inline, self.buffer@));
                        }
                    }
                }
                None
            },
        }
    }

    /// Copies `key` to the end of the arena.
    fn append_bytes(buffer: &mut Vec<u8>, key: &[u8])
        ensures
            final(buffer)@ == old(buffer)@ + key@,
    {
        let mut i: usize = 0;
        while i < key.len()
            invariant
                i <= key@.len(),
                buffer@ == old(buffer)@ + key@.take(i as int),
            decreases key@.len() - i,
        {
            buffer.push(key[i]);
            i = i + 1;
            assert(buffer@ =~= old(buffer)@ + key@.take(i as int));
        }
        assert(key@.take(i as int) =~= key@);
    }

    /// Adds a new non-null key at the next position.
    fn push_key(&mut self, key: &[u8], hash: u64, payload: V)
        requires
            old(self).wf(),
            hash == old(self).hash_of(key@),
            !old(self).keys().contains(Some(key@)),
            old(self).buffer@.len() + key@.len() <= old(self).offset_width.max_offset(),
        ensures
            final(self).wf(),
            final(self).same_setup(old(self)),
            final(self).keys() == old(self).keys().push(Some(key@)),
            final(self).payloads() == old(self).payloads().push(payload),
    {
        let ghost before = *self;
        let offset = self.buffer.len();
        Self::append_bytes(&mut self.buffer, key);
        self.offsets.push(self.buffer.len());
        let pos = self.payloads.len();
        self.payloads.push(payload);
        let loc: u64 = if key.len() <= SHORT_VALUE_LEN {
            pack_inline(key)
        } else {
            offset as u64
        };
        table_insert(&mut self.map, (hash, key.len(), loc, pos));
        proof {
            let n = before.num_keys() as int;
            assert forall|p: int| 0 <= p < n implies #[trigger] self.key_bytes(p)
                == before.key_bytes(p) && self.entry_for(p) == before.entry_for(p) by {
                before.lemma_key_range(p);
                assert(self.key_bytes(p) =~= before.key_bytes(p));
            }
            assert(self.key_bytes(n) =~= key@);
            assert(self.keys() =~= before.keys().push(Some(key@)));
            lemma_bytes_len_push(before.keys(), Some(key@));
            if key@.len() <= SHORT_VALUE_LEN {
                lemma_pack_bound(key@);
            }
            assert(self.entry_for(n) == (hash, key@.len() as usize, loc, pos));
            assert forall|a: int, b: int|
                0 <= a < self.keys().len() && 0 <= b < self.keys().len() && a != b implies self.keys()[a]
                != self.keys()[b] by {
                if a < n && b < n {
                    assert(before.keys()[a] != before.keys()[b]);
                } else if a < n {
                    assert(before.keys().contains(self.keys()[a]));
                } else if b < n {
                    assert(before.keys().contains(self.keys()[b]));
                }
            }
            assert forall|i: int, j: int|
                0 <= i <= j < self.offsets@.len() implies self.offsets@[i] <= self.offsets@[j] by {
                if j < n + 1 {
                    assert(before.offsets@[i] <= before.offsets@[j]);
                } else if i < n + 1 {
                    assert(before.offsets@[i] <= before.offsets@[n]);
                }
            }
            assert forall|p: int|
                0 <= p < self.payloads@.len() && self.null != Some(p as usize) implies table_entries(
                self.map,
            ).contains(#[trigger] self.entry_for(p)) by {
                if p < n {
                    assert(table_entries(before.map).contains(before.entry_for(p)));
                }
            }
            assert forall|e: Entry| #[trigger]
                table_entries(self.map).contains(e) implies e.3 < self.payloads@.len() && self.null
                != Some(e.3) && e == self.entry_for(e.3 as int) by {
                if e != (hash, key@.len() as usize, loc, pos) {
                    assert(table_entries(before.map).contains(e));
                }
            }
        }
    }

    /// Records null at the next position.
    fn push_null(&mut self, payload: V)
        requires
            old(self).wf(),
            !old(self).keys().contains(None),
        ensures
            final(self).wf(),
            final(self).same_setup(old(self)),
            final(self).keys() == old(self).keys().push(None),
            final(self).payloads() == old(self).payloads().push(payload),
    {
        let ghost before = *self;
        proof {
            before.lemma_null_key();
        }
        let pos = self.payloads.len();
        self.offsets.push(self.buffer.len());
        self.payloads.push(payload);
        self.null = Some(pos);
        proof {
            let n = before.num_keys() as int;
            assert forall|p: int| 0 <= p < n implies #[trigger] self.key_bytes(p)
                == before.key_bytes(p) && self.entry_for(p) == before.entry_for(p) by {
                assert(self.key_bytes(p) =~= before.key_bytes(p));
            }
            assert(self.keys() =~= before.keys().push(None));
            lemma_bytes_len_push(before.keys(), None);
            assert forall|a: int, b: int|
                0 <= a < self.keys().len() && 0 <= b < self.keys().len() && a != b implies self.keys()[a]
                != self.keys()[b] by {
                if a < n && b < n {
                    assert(before.keys()[a] != before.keys()[b]);
                } else if a < n {
                    assert(before.keys().contains(self.keys()[a]));
                } else if b < n {
                    assert(before.keys().contains(self.keys()[b]));
                }
            }
            assert forall|i: int, j: int|
                0 <= i <= j < self.offsets@.len() implies self.offsets@[i] <= self.offsets@[j] by {
                if j < n + 1 {
                    assert(before.offsets@[i] <= before.offsets@[j]);
                } else if i < n + 1 {
                    assert(before.offsets@[i] <= before.offsets@[n]);
                }
            }
            assert forall|p: int|
                0 <= p < self.payloads@.len() && self.null != Some(p as usize) implies table_entries(
                self.map,
            ).contains(#[trigger] self.entry_for(p)) by {
                assert(table_entries(before.map).contains(before.entry_for(p)));
            }
            assert forall|e: Entry| #[trigger]
                table_entries(self.map).contains(e) implies e.3 < self.payloads@.len() && self.null
                != Some(e.3) && e == self.entry_for(e.3 as int) by {
                assert(table_entries(before.map).contains(e));
            }
        }
    }

    /// Replaces the payload at position `p`.
    fn set_payload(&mut self, p: usize, v: V)
        requires
            old(self).wf(),
            p < old(self).num_keys(),
        ensures
            final(self).wf(),
            final(self).same_setup(old(self)),
            final(self).keys() == old(self).keys(),
            final(self).payloads() == old(self).payloads().update(p as int, v),
    {
        let ghost before = *self;
        self.payloads.set(p, v);
        proof {
            assert(self.keys() =~= before.keys());
            assert forall|q: int| 0 <= q < self.payloads@.len() implies #[trigger] self.entry_for(q)
                == before.entry_for(q) by {}
            assert forall|e: Entry| #[trigger]
                table_entries(self.map).contains(e) implies e.3 < self.payloads@.len() && self.null
                != Some(e.3) && e == self.entry_for(e.3 as int) by {
                assert(table_entries(before.map).contains(e));
            }
            assert forall|q: int|
                0 <= q < self.payloads@.len() && self.null != Some(q as usize) implies table_entries(
                self.map,
            ).contains(#[trigger] self.entry_for(q)) by {
                assert(table_entries(before.map).contains(before.entry_for(q)));
            }
        }
    }

    /// The hash of every non-null key of a batch, computed once per batch.
    fn hash_batch(&self, values: &Vec<Option<Vec<u8>>>) -> (r: Vec<u64>)
        ensures
            r@.len() == values@.len(),
            forall|i: int|
                #![trigger r@[i]]
                0 <= i < values@.len() ==> (values@[i] matches Some(b) ==> r@[i] == self.hash_of(
                    b@,
                )),
    {
        let mut r: Vec<u64> = Vec::with_capacity(values.len());
        let mut i: usize = 0;
        while i < values.len()
            invariant
                i <= values@.len(),
                r@.len() == i,
                forall|j: int|
                    #![trigger r@[j]]
                    0 <= j < i ==> (values@[j] matches Some(b) ==> r@[j] == self.hash_of(b@)),
            decreases values@.len() - i,
        {
            let h: u64 = match &values[i] {
                Some(b) => hash_bytes(self.k0, self.k1, self.k2, self.k3, b.as_slice()),
                None => 0,
            };
            r.push(h);
            i = i + 1;
        }
        r
    }

    /// An empty map for values of the given kind, with offsets of the given
    /// width; its hasher is keyed at random.
    pub fn new(output_type: OutputType, offset_width: OffsetWidth) -> (r: Self)
        ensures
            r.wf(),
            r.keys() == Seq::<Key>::empty(),
            r.payloads() == Seq::<V>::empty(),
            r.output_type_spec() == output_type,
            r.offset_width_spec() == offset_width,
    {
        let mut offsets: Vec<usize> = Vec::new();
        offsets.push(0);
        let r = ArrowBytesMap {
            output_type,
            offset_width,
            map: table_with_capacity(INITIAL_MAP_CAPACITY),
            buffer: Vec::with_capacity(INITIAL_BUFFER_CAPACITY),
            offsets,
            payloads: Vec::new(),
            null: None,
            k0: random_seed(0),
            k1: random_seed(1),
            k2: random_seed(2),
            k3: random_seed(3),
        };
        proof {
            assert(r.keys() =~= Seq::<Key>::empty());
            assert(r.payloads() =~= Seq::<V>::empty());
        }
        r
    }

    /// The number of keys is the number of payloads.
    /// A well-formed map has one payload per key, and no key twice (so null
    /// at most once).
    pub proof fn lemma_lengths(&self)
        requires
            self.wf(),
        ensures
            self.keys().len() == self.payloads().len(),
            self.keys().no_duplicates(),
    {
    }

    /// Returns the contents of this map and leaves an empty map of the same
    /// kind in its place.
    pub fn take(&mut self) -> (r: Self)
        ensures
            r == *old(self),
            final(self).wf(),
            final(self).keys() == Seq::<Key>::empty(),
            final(self).payloads() == Seq::<V>::empty(),
            final(self).output_type_spec() == old(self).output_type_spec(),
            final(self).offset_width_spec() == old(self).offset_width_spec(),
    {
        let mut new_self = Self::new(self.output_type, self.offset_width);
        std::mem::swap(self, &mut new_self);
        new_self
    }

    /// Inserts each key of `values` that is not yet present, in order, with the
    /// payload that `make_payload_fn` makes for it (`None` for null). Present
    /// keys keep their payload. Returns, for each key of `values`, its payload
    /// after the key was inserted.
    pub fn insert_if_new<MP>(&mut self, values: &Vec<Option<Vec<u8>>>, make_payload_fn: MP) -> (observed: Vec<V>)
        where
            MP: Fn(Option<&[u8]>) -> V,
        requires
            old(self).wf(),
            forall|a: Option<&[u8]>| make_payload_fn.requires((a,)),
            bytes_len(insert_keys(old(self).keys(), batch_keys(values@)))
                <= old(self).offset_width_spec().max_offset(),
        ensures
            final(self).wf(),
            final(self).output_type_spec() == old(self).output_type_spec(),
            final(self).offset_width_spec() == old(self).offset_width_spec(),
            final(self).keys() == insert_keys(old(self).keys(), batch_keys(values@)),
            final(self).keys().no_duplicates(),
            final(self).keys().len() == final(self).payloads().len(),
            forall|p: int|
                0 <= p < old(self).payloads().len() ==> final(self).payloads()[p] == old(
                    self,
                ).payloads()[p],
            forall|p: int|
                old(self).payloads().len() <= p < final(self).payloads().len() ==> made_by(
                    make_payload_fn,
                    final(self).keys()[p],
                    final(self).payloads()[p],
                ),
            observed@.len() == values@.len(),
            forall|i: int, p: int|
                0 <= i < values@.len() && 0 <= p < final(self).keys().len() && final(self).keys()[p]
                    == batch_keys(values@)[i] ==> observed@[i] == final(self).payloads()[p],
    {
        let hashes = self.hash_batch(values);
        let ghost batch = batch_keys(values@);
        let ghost start = *self;
        let mut observed: Vec<V> = Vec::with_capacity(values.len());
        let mut i: usize = 0;
        while i < values.len()
            invariant
                start.wf(),
                self.wf(),
                self.same_setup(&start),
                batch == batch_keys(values@),
                i <= values@.len(),
                hashes@.len() == values@.len(),
                forall|j: int|
                    #![trigger hashes@[j]]
                    0 <= j < values@.len() ==> (values@[j] matches Some(b) ==> hashes@[j]
                        == start.hash_of(b@)),
                self.keys() == insert_keys(start.keys(), batch.take(i as int)),
                start.payloads().len() <= self.payloads().len(),
                forall|p: int|
                    0 <= p < start.payloads().len() ==> self.payloads()[p] == start.payloads()[p],
                forall|p: int|
                    start.payloads().len() <= p < self.payloads().len() ==> made_by(
                        make_payload_fn,
                        self.keys()[p],
                        self.payloads()[p],
                    ),
                observed@.len() == i,
                forall|j: int, p: int|
                    0 <= j < i && 0 <= p < self.keys().len() && self.keys()[p] == batch[j]
                        ==> observed@[j] == self.payloads()[p],
                forall|j: int| 0 <= j < i ==> self.keys().contains(#[trigger] batch[j]),
                forall|a: Option<&[u8]>| make_payload_fn.requires((a,)),
                bytes_len(insert_keys(start.keys(), batch)) <= start.offset_width.max_offset(),
            decreases values@.len() - i,
        {
            proof {
                lemma_insert_keys_step(start.keys(), batch, i as int);
                lemma_insert_keys_bytes_mono(start.keys(), batch, i + 1);
                self.lemma_null_key();
            }
            let ghost prev = *self;
            let ghost prev_observed = observed@;
            let ghost mut found_at: int = 0;
            match &values[i] {
                None => {
                    match self.null {
                        Some(p) => {
                            let v = self.payloads[p];
                            observed.push(v);
                            proof {
                                found_at = p as int;
                            }
                        },
                        None => {
                            let v = make_payload_fn(None);
                            self.push_null(v);
                            observed.push(v);
                            proof {
                                found_at = prev.payloads@.len() as int;
                                assert(make_payload_fn.ensures((None,), v));
                                assert(made_by(make_payload_fn, None, v));
                            }
                        },
                    }
                },
                Some(b) => {
                    let key = b.as_slice();
                    match self.find_position(key, hashes[i]) {
                        Some(p) => {
                            let v = self.payloads[p];
                            observed.push(v);
                            proof {
                                found_at = p as int;
                            }
                        },
                        None => {
                            proof {
                                lemma_bytes_len_push(self.keys(), Some(key@));
                            }
                            let v = make_payload_fn(Some(key));
                            self.push_key(key, hashes[i], v);
                            observed.push(v);
                            proof {
                                found_at = prev.payloads@.len() as int;
                                assert(make_payload_fn.ensures((Some(key),), v));
                                assert(made_by(make_payload_fn, Some(key@), v));
                            }
                        },
                    }
                },
            }
            proof {
                let k = self.keys();
                assert(batch[i as int] == batch_keys(values@)[i as int]);
                assert(0 <= found_at < k.len() && k[found_at] == batch[i as int]);
                assert(observed@[i as int] == self.payloads()[found_at]);
                assert forall|p: int| 0 <= p < prev.keys().len() implies k[p] == prev.keys()[p]
                    && self.payloads()[p] == prev.payloads()[p] by {}
                assert forall|j: int, p: int|
                    0 <= j < i + 1 && 0 <= p < k.len() && k[p] == batch[j] implies observed@[j]
                    == self.payloads()[p] by {
                    if j < i {
                        assert(prev.keys().contains(batch[j]));
                        let q = choose|q: int| 0 <= q < prev.keys().len() && prev.keys()[q] == batch[j];
                        assert(k[q] == batch[j]);
                        assert(p == q);
                        assert(observed@[j] == prev_observed[j]);
                    } else {
                        assert(p == found_at);
                    }
                }
                assert forall|j: int| 0 <= j < i + 1 implies k.contains(#[trigger] batch[j]) by {
                    if j < i {
                        assert(prev.keys().contains(batch[j]));
                        let q = choose|q: int| 0 <= q < prev.keys().len() && prev.keys()[q] == batch[j];
                        assert(k[q] == batch[j]);
                    } else {
                        assert(k[found_at] == batch[j]);
                    }
                }
            }
            i = i + 1;
        }
        proof {
            assert(batch.take(i as int) =~= batch);
        }
        observed
    }

    /// Inserts each key of `values` in order: a key not yet present gets the
    /// payload that `make_payload_fn` makes for it (`None` for null), a present
    /// key has its payload replaced by what `update_payload_fn` makes of it.
    pub fn insert_or_update<MP, UP>(&mut self, values: &Vec<Option<Vec<u8>>>, make_payload_fn: MP, update_payload_fn: UP)
        where
            MP: Fn(Option<&[u8]>) -> V,
            UP: Fn(V) -> V,
        requires
            old(self).wf(),
            forall|a: Option<&[u8]>| make_payload_fn.requires((a,)),
            forall|v: V| update_payload_fn.requires((v,)),
            bytes_len(insert_keys(old(self).keys(), batch_keys(values@)))
                <= old(self).offset_width_spec().max_offset(),
        ensures
            final(self).wf(),
            final(self).output_type_spec() == old(self).output_type_spec(),
            final(self).offset_width_spec() == old(self).offset_width_spec(),
            final(self).keys() == insert_keys(old(self).keys(), batch_keys(values@)),
            final(self).keys().no_duplicates(),
            final(self).keys().len() == final(self).payloads().len(),
            exists|trace: Seq<Seq<V>>|
                is_update_trace(
                    make_payload_fn,
                    update_payload_fn,
                    old(self).keys(),
                    batch_keys(values@),
                    trace,
                ) && trace[0] == old(self).payloads() && trace.last() == final(self).payloads(),
    {
        let hashes = self.hash_batch(values);
        let ghost batch = batch_keys(values@);
        let ghost start = *self;
        let ghost mut trace: Seq<Seq<V>> = seq![self.payloads()];
        let mut i: usize = 0;
        while i < values.len()
            invariant
                start.wf(),
                self.wf(),
                self.same_setup(&start),
                batch == batch_keys(values@),
                i <= values@.len(),
                hashes@.len() == values@.len(),
                forall|j: int|
                    #![trigger hashes@[j]]
                    0 <= j < values@.len() ==> (values@[j] matches Some(b) ==> hashes@[j]
                        == start.hash_of(b@)),
                self.keys() == insert_keys(start.keys(), batch.take(i as int)),
                trace.len() == i + 1,
                trace[0] == start.payloads(),
                trace.last() == self.payloads(),
                forall|j: int|
                    0 <= j < i ==> update_step(
                        make_payload_fn,
                        update_payload_fn,
                        insert_keys(start.keys(), batch.take(j)),
                        #[trigger] trace[j],
                        batch[j],
                        trace[j + 1],
                    ),
                forall|a: Option<&[u8]>| make_payload_fn.requires((a,)),
                forall|v: V| update_payload_fn.requires((v,)),
                bytes_len(insert_keys(start.keys(), batch)) <= start.offset_width.max_offset(),
            decreases values@.len() - i,
        {
            proof {
                lemma_insert_keys_step(start.keys(), batch, i as int);
                lemma_insert_keys_bytes_mono(start.keys(), batch, i + 1);
                self.lemma_null_key();
            }
            let ghost prev = *self;
            let ghost mut hit: Option<int> = None;
            match &values[i] {
                None => {
                    match self.null {
                        Some(p) => {
                            let nv = update_payload_fn(self.payloads[p]);
                            self.set_payload(p, nv);
                            proof {
                                hit = Some(p as int);
                            }
                        },
                        None => {
                            let v = make_payload_fn(None);
                            self.push_null(v);
                            proof {
                                assert(make_payload_fn.ensures((None,), v));
                                assert(made_by(make_payload_fn, None, v));
                            }
                        },
                    }
                },
                Some(b) => {
                    let key = b.as_slice();
                    match self.find_position(key, hashes[i]) {
                        Some(p) => {
                            let nv = update_payload_fn(self.payloads[p]);
                            self.set_payload(p, nv);
                            proof {
                                hit = Some(p as int);
                            }
                        },
                        None => {
                            proof {
                                lemma_bytes_len_push(self.keys(), Some(key@));
                            }
                            let v = make_payload_fn(Some(key));
                            self.push_key(key, hashes[i], v);
                            proof {
                                assert(make_payload_fn.ensures((Some(key),), v));
                                assert(made_by(make_payload_fn, Some(key@), v));
                            }
                        },
                    }
                },
            }
            proof {
                let ks = prev.keys();
                let key = batch[i as int];
                assert(key == batch_keys(values@)[i as int]);
                if let Some(p) = hit {
                    assert(ks[p] == key);
                    assert(ks.contains(key));
                    assert forall|q: int| 0 <= q < prev.payloads().len() implies if ks[q] == key {
                        update_payload_fn.ensures((prev.payloads()[q],), #[trigger] self.payloads()[q])
                    } else {
                        self.payloads()[q] == prev.payloads()[q]
                    } by {
                        if ks[q] == key {
                            assert(q == p);
                        }
                    }
                } else {
                    assert(self.payloads().drop_last() =~= prev.payloads());
                }
                assert(update_step(
                    make_payload_fn,
                    update_payload_fn,
                    ks,
                    prev.payloads(),
                    key,
                    self.payloads(),
                ));
                let old_trace = trace;
                trace = trace.push(self.payloads());
                assert forall|j: int|
                    0 <= j < i + 1 implies update_step(
                    make_payload_fn,
                    update_payload_fn,
                    insert_keys(start.keys(), batch.take(j)),
                    #[trigger] trace[j],
                    batch[j],
                    trace[j + 1],
                ) by {
                    if j < i {
                        assert(trace[j] == old_trace[j]);
                        assert(trace[j + 1] == old_trace[j + 1]);
                    }
                }
            }
            i = i + 1;
        }
        proof {
            assert(batch.take(i as int) =~= batch);
            assert(is_update_trace(make_payload_fn, update_payload_fn, start.keys(), batch, trace));
        }
    }

    /// The payload of each key of `values`, or `None` for a key (null
    /// included) that the map does not hold. Nothing is inserted.
    pub fn get_payloads(self, values: &Vec<Option<Vec<u8>>>) -> (r: Vec<Option<V>>)
        requires
            self.wf(),
        ensures
            r@.len() == values@.len(),
            forall|i: int, p: int|
                0 <= i < values@.len() && 0 <= p < self.keys().len() && self.keys()[p]
                    == batch_keys(values@)[i] ==> r@[i] == Some(self.payloads()[p]),
            forall|i: int|
                0 <= i < values@.len() && !self.keys().contains(batch_keys(values@)[i]) ==> r@[i]
                    is None,
    {
        let hashes = self.hash_batch(values);
        let ghost batch = batch_keys(values@);
        proof {
            self.lemma_null_key();
        }
        let mut r: Vec<Option<V>> = Vec::with_capacity(values.len());
        let mut i: usize = 0;
        while i < values.len()
            invariant
                self.wf(),
                self.keys().contains(None) <==> self.null is Some,
                self.null matches Some(p) ==> self.keys()[p as int] is None,
                batch == batch_keys(values@),
                i <= values@.len(),
                hashes@.len() == values@.len(),
                forall|j: int|
                    #![trigger hashes@[j]]
                    0 <= j < values@.len() ==> (values@[j] matches Some(b) ==> hashes@[j]
                        == self.hash_of(b@)),
                r@.len() == i,
                forall|j: int, p: int|
                    0 <= j < i && 0 <= p < self.keys().len() && self.keys()[p] == batch[j] ==> r@[j]
                        == Some(self.payloads()[p]),
                forall|j: int| 0 <= j < i && !self.keys().contains(batch[j]) ==> r@[j] is None,
            decreases values@.len() - i,
        {
            let found: Option<usize> = match &values[i] {
                None => self.null,
                Some(b) => self.find_position(b.as_slice(), hashes[i]),
            };
            let v: Option<V> = match found {
                Some(p) => Some(self.payloads[p]),
                None => None,
            };
            r.push(v);
            proof {
                let k = self.keys();
                assert(batch[i as int] == batch_keys(values@)[i as int]);
                if let Some(p) = found {
                    assert(k[p as int] == batch[i as int]);
                    assert forall|q: int| 0 <= q < k.len() && k[q] == batch[i as int] implies r@[i as int]
                        == Some(self.payloads()[q]) by {
                        assert(q == p);
                    }
                }
            }
            i = i + 1;
        }
        proof {
            assert(batch == batch_keys(values@));
        }
        r
    }

    /// Turns the map into a columnar byte array holding its distinct keys in
    /// first-seen order, null as a null value; the arena and the offsets
    /// become the array's buffers without being copied.
    pub fn into_state(self) -> (r: BytesArray)
        requires
            self.wf(),
        ensures
            r.well_formed(),
            r.decoded() == self.keys(),
            r.output_type == self.output_type_spec(),
            r.offset_width == self.offset_width_spec(),
            r.validity is Some <==> self.keys().contains(None),
            self.keys().no_duplicates(),
            forall|i: int|
                0 <= i < r.num_values() && r.value_at(i) is None ==> r.offsets@[i] == r.offsets@[i
                    + 1],
            r.values@.len() == bytes_len(self.keys()),
    {
        let ghost s = self;
        proof {
            self.lemma_null_key();
        }
        let validity = match self.null {
            Some(p) => Some(single_null_buffer(self.offsets.len() - 1, p)),
            None => None,
        };
        let r = BytesArray {
            output_type: self.output_type,
            offset_width: self.offset_width,
            offsets: self.offsets,
            values: self.buffer,
            validity,
        };
        proof {
            assert forall|i: int| 0 <= i < r.num_values() implies r.value_at(i) == s.keys()[i] by {
                assert(s.keys()[i] == s.key_at(i));
            }
            assert(r.decoded() =~= s.keys());
        }
        r
    }

    /// Number of distinct keys, null included.
    pub fn len(&self) -> (r: usize)
        requires
            self.wf(),
        ensures
            r == self.keys().len(),
    {
        self.payloads.len()
    }

    /// Whether the map holds no key, null included.
    pub fn is_empty(&self) -> (r: bool)
        requires
            self.wf(),
        ensures
            r == (self.keys().len() == 0),
    {
        proof {
            self.lemma_null_key();
        }
        table_len(&self.map) == 0 && self.null.is_none()
    }

    /// Number of distinct keys other than null.
    pub fn non_null_len(&self) -> (r: usize)
        requires
            self.wf(),
        ensures
            r == self.keys().len() - (if self.keys().contains(None) {
                1int
            } else {
                0int
            }),
    {
        proof {
            self.lemma_null_key();
        }
        table_len(&self.map)
    }

    /// The bytes that parts of the given capacities take: the arena's bytes,
    /// and the index records, offsets and payloads by their sizes; `usize::MAX`
    /// where the sum does not fit.
    pub fn size_of_parts(index_cap: usize, buffer_cap: usize, offsets_cap: usize, payloads_cap: usize) -> (r: usize)
        ensures
            r == capped(
                (buffer_cap + index_cap * vstd::layout::size_of::<Entry>() + offsets_cap
                    * vstd::layout::size_of::<usize>() + payloads_cap * vstd::layout::size_of::<V>()) as int,
            ),
    {
        let index_bytes = saturating_mul(index_cap, std::mem::size_of::<Entry>());
        let offset_bytes = saturating_mul(offsets_cap, std::mem::size_of::<usize>());
        let payload_bytes = saturating_mul(payloads_cap, std::mem::size_of::<V>());
        proof {
            lemma_product_nonneg(index_cap as int, vstd::layout::size_of::<Entry>() as int);
            lemma_product_nonneg(offsets_cap as int, vstd::layout::size_of::<usize>() as int);
            lemma_product_nonneg(payloads_cap as int, vstd::layout::size_of::<V>() as int);
        }
        buffer_cap.saturating_add(index_bytes).saturating_add(offset_bytes).saturating_add(
            payload_bytes,
        )
    }

    /// The bytes of memory that the map holds, not counting `self`: the index,
    /// the arena, the offsets and the payloads, by what each has allocated.
    /// That is at least the arena's key bytes, one offset per key and one more,
    /// and one payload per key.
    pub fn size(&self) -> (r: usize)
        requires
            self.wf(),
        ensures
            r >= capped(
                (bytes_len(self.keys()) + (self.keys().len() + 1) * vstd::layout::size_of::<usize>()
                    + self.keys().len() * vstd::layout::size_of::<V>()) as int,
            ),
    {
        let index_cap = table_capacity(&self.map);
        let buffer_cap = vec_capacity(&self.buffer);
        let offsets_cap = vec_capacity(&self.offsets);
        let payloads_cap = vec_capacity(&self.payloads);
        proof {
            let n = self.keys().len() as int;
            let su = vstd::layout::size_of::<usize>() as int;
            let sv = vstd::layout::size_of::<V>() as int;
            lemma_product_mono(n + 1, offsets_cap as int, su);
            lemma_product_mono(n, payloads_cap as int, sv);
            lemma_product_nonneg(index_cap as int, vstd::layout::size_of::<Entry>() as int);
        }
        Self::size_of_parts(index_cap, buffer_cap, offsets_cap, payloads_cap)
    }

    /// Whether values are text or bytes.
    pub fn output_type(&self) -> (r: OutputType)
        ensures
            r == self.output_type_spec(),
    {
        self.output_type
    }

    /// The width of the offsets of the output.
    pub fn offset_width(&self) -> (r: OffsetWidth)
        ensures
            r == self.offset_width_spec(),
    {
        self.offset_width
    }

    /// Number of key bytes held in the arena.
    pub fn arena_len(&self) -> (r: usize)
        requires
            self.wf(),
        ensures
            r == bytes_len(self.keys()),
            r <= self.offset_width_spec().max_offset(),
    {
        self.buffer.len()
    }

    /// Whether the arena has room for every byte of `values`, as if all its
    /// keys were new; where it has, inserting `values` cannot outgrow the
    /// offsets.
    pub fn has_room_for(&self, values: &Vec<Option<Vec<u8>>>) -> (r: bool)
        requires
            self.wf(),
        ensures
            r == (bytes_len(self.keys()) + bytes_len(batch_keys(values@))
                <= self.offset_width_spec().max_offset()),
            r ==> bytes_len(insert_keys(self.keys(), batch_keys(values@)))
                <= self.offset_width_spec().max_offset(),
    {
        let ghost batch = batch_keys(values@);
        let max: u64 = match self.offset_width {
            OffsetWidth::Standard => 0x7fff_ffff,
            OffsetWidth::Large => 0x7fff_ffff_ffff_ffff,
        };
        let mut total: u64 = self.buffer.len() as u64;
        let mut i: usize = 0;
        proof {
            assert(batch.take(0) =~= Seq::<Key>::empty());
            lemma_insert_keys_bytes_bound(self.keys(), batch);
        }
        while i < values.len()
            invariant
                self.wf(),
                batch == batch_keys(values@),
                i <= values@.len(),
                max == self.offset_width.max_offset(),
                total == bytes_len(self.keys()) + bytes_len(batch.take(i as int)),
                total <= max,
            decreases values@.len() - i,
        {
            let len: usize = match &values[i] {
                Some(b) => b.len(),
                None => 0,
            };
            proof {
                assert(batch[i as int] == batch_keys(values@)[i as int]);
                assert(len == key_len(batch[i as int]));
                assert(batch.take(i + 1).drop_last() =~= batch.take(i as int));
                assert(batch.take(i + 1).last() == batch[i as int]);
                lemma_bytes_len_prefix(batch, i + 1);
            }
            if len as u64 > max - total {
                return false;
            }
            total = total + len as u64;
            i = i + 1;
        }
        proof {
            assert(batch.take(i as int) =~= batch);
        }
        true
    }
}

} // verus!
