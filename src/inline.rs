//! Packing of short keys into one machine word.
//!
//! A key of at most [`SHORT_VALUE_LEN`] bytes is folded most-significant byte
//! first into a `u64`; together with the key's length the packed word
//! identifies the key, so short keys are compared without reading the arena.
use vstd::prelude::*;

verus! {

/// Largest key length, in bytes, that is packed into a word instead of being
/// compared through the arena.
pub const SHORT_VALUE_LEN: usize = 8;

/// `256` to the power `n`: one more than the largest word packed from `n` bytes.
pub open spec fn word_bound(n: nat) -> nat
    decreases n,
{
    if n == 0 {
        1
    } else {
        256 * word_bound((n - 1) as nat)
    }
}

/// The big-endian value of `s`: the first byte is the most significant.
pub open spec fn pack(s: Seq<u8>) -> nat
    decreases s.len(),
{
    if s.len() == 0 {
        0
    } else {
        pack(s.drop_last()) * 256 + s.last() as nat
    }
}

pub proof fn lemma_word_bound_mono(n: nat, m: nat)
    requires
        n <= m,
    ensures
        word_bound(n) <= word_bound(m),
    decreases m,
{
    if n < m {
        lemma_word_bound_mono(n, (m - 1) as nat);
    }
}

/// A packed key of `n` bytes is below `256^n`, and a short key fits a `usize`.
pub proof fn lemma_pack_bound(s: Seq<u8>)
    ensures
        pack(s) < word_bound(s.len()),
        s.len() <= SHORT_VALUE_LEN ==> pack(s) <= u64::MAX,
    decreases s.len(),
{
    if s.len() > 0 {
        lemma_pack_bound(s.drop_last());
        let p = pack(s.drop_last());
        let w = word_bound((s.len() - 1) as nat);
        let x = s.last() as nat;
        assert(p * 256 + x < 256 * w) by (nonlinear_arith)
            requires
                p < w,
                x < 256,
        ;
    }
    if s.len() <= SHORT_VALUE_LEN {
        lemma_word_bound_mono(s.len(), 8);
        reveal_with_fuel(word_bound, 9);
        assert(word_bound(8) == 0x1_0000_0000_0000_0000);
        assert(pack(s) < word_bound(s.len()));
        assert(pack(s) < 0x1_0000_0000_0000_0000);
    }
}

/// Keys of one length that pack to the same word are the same key.
pub proof fn lemma_pack_injective(a: Seq<u8>, b: Seq<u8>)
    requires
        a.len() == b.len(),
        pack(a) == pack(b),
    ensures
        a == b,
    decreases a.len(),
{
    if a.len() > 0 {
        let pa = pack(a.drop_last()) as int;
        let pb = pack(b.drop_last()) as int;
        let x = a.last() as int;
        let y = b.last() as int;
        assert(pa == pb && x == y) by (nonlinear_arith)
            requires
                pa * 256 + x == pb * 256 + y,
                0 <= x < 256,
                0 <= y < 256,
        ;
        lemma_pack_injective(a.drop_last(), b.drop_last());
        assert(a =~= a.drop_last().push(a.last()));
        assert(b =~= b.drop_last().push(b.last()));
    } else {
        assert(a =~= b);
    }
}

/// Folds a short key into one word, most-significant byte first.
pub fn pack_inline(value: &[u8]) -> (r: u64)
    requires
        value@.len() <= SHORT_VALUE_LEN,
    ensures
        r as nat == pack(value@),
{
    let mut acc: u64 = 0;
    let mut i: usize = 0;
    while i < value.len()
        invariant
            i <= value@.len() <= SHORT_VALUE_LEN,
            acc as nat == pack(value@.take(i as int)),
        decreases value@.len() - i,
    {
        proof {
            let next = value@.take(i + 1);
            assert(next.drop_last() =~= value@.take(i as int));
            lemma_pack_bound(next);
        }
        acc = acc * 256 + value[i] as u64;
        i = i + 1;
    }
    assert(value@.take(i as int) =~= value@);
    acc
}

} // verus!
