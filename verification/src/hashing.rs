//! Sharding hash: which worker owns a canonical key. The hash is used only
//! to distribute keys; it is distinct from whatever organizes each shard's
//! own storage.

use std::hash::Hasher;

use vstd::prelude::*;

use crate::state::{KeyV, StateKey};

verus! {

/// The 64-bit Fowler-Noll-Vo hash of a byte sequence: a fixed function of
/// the bytes alone, identical in every process and on every machine.
pub uninterp spec fn fnv64_of(bytes: Seq<u8>) -> u64;

/// Relies on fnv::FnvHasher: writing a byte slice folds each byte into the
/// running state with xor and a wrapping multiply and `finish` returns that
/// state, so the result depends on the bytes alone.
#[verifier::external_body]
fn fnv_hash(bytes: &Vec<u8>) -> (r: u64)
    ensures
        r == fnv64_of(bytes@),
{
    let mut h = fnv::FnvHasher::default();
    h.write(bytes.as_slice());
    h.finish()
}

/// Little-endian byte pair of a 16-bit amount.
pub open spec fn le_bytes(v: int) -> Seq<u8> {
    seq![(v % 256) as u8, ((v / 256) % 256) as u8]
}

/// Byte serialization of the piles, slot by slot.
pub open spec fn piles_bytes(p: Seq<int>) -> Seq<u8>
    decreases p.len(),
{
    if p.len() == 0 {
        Seq::empty()
    } else {
        le_bytes(p.first()) + piles_bytes(p.drop_first())
    }
}

proof fn lemma_piles_bytes_snoc(p: Seq<int>, v: int)
    ensures
        piles_bytes(p.push(v)) == piles_bytes(p) + le_bytes(v),
    decreases p.len(),
{
    if p.len() == 0 {
        assert(p.push(v).first() == v);
        assert(p.push(v).drop_first() =~= Seq::<int>::empty());
        assert(piles_bytes(p.push(v)) == le_bytes(v) + piles_bytes(Seq::<int>::empty()));
        assert(piles_bytes(Seq::<int>::empty()) == Seq::<u8>::empty());
        assert(le_bytes(v) + Seq::<u8>::empty() =~= le_bytes(v));
        assert(piles_bytes(p) + le_bytes(v) =~= le_bytes(v));
    } else {
        assert(p.push(v).first() == p.first());
        assert(p.push(v).drop_first() =~= p.drop_first().push(v));
        lemma_piles_bytes_snoc(p.drop_first(), v);
        assert((le_bytes(p.first()) + piles_bytes(p.drop_first())) + le_bytes(v)
            =~= le_bytes(p.first()) + (piles_bytes(p.drop_first()) + le_bytes(v)));
    }
}

/// Canonical byte serialization of a key: position first, then the piles.
pub open spec fn key_bytes_v(k: KeyV) -> Seq<u8> {
    le_bytes(k.x) + piles_bytes(k.piles)
}

/// Serialize a key for the sharding hash.
#[verifier::loop_isolation(false)]
fn key_bytes(k: &StateKey) -> (r: Vec<u8>)
    ensures
        r@ == key_bytes_v(k@),
{
    let mut r: Vec<u8> = Vec::new();
    r.push((k.x % 256) as u8);
    r.push((k.x / 256) as u8);
    proof {
        assert(r@ =~= le_bytes(k@.x) + piles_bytes(k@.piles.take(0)));
    }
    let mut i: usize = 0;
    while i < k.piles.len()
        invariant
            i <= k.piles@.len(),
            r@ == le_bytes(k@.x) + piles_bytes(k@.piles.take(i as int)),
        decreases k.piles@.len() - i,
    {
        let p = k.piles[i];
        r.push((p % 256) as u8);
        r.push((p / 256) as u8);
        proof {
            assert(k@.piles[i as int] == p as int);
            lemma_piles_bytes_snoc(k@.piles.take(i as int), p as int);
            assert(k@.piles.take(i as int).push(p as int) =~= k@.piles.take(i as int + 1));
            assert(r@ =~= le_bytes(k@.x) + (piles_bytes(k@.piles.take(i as int)) + le_bytes(
                p as int,
            )));
        }
        i = i + 1;
    }
    proof {
        assert(k@.piles.take(k.piles@.len() as int) =~= k@.piles);
    }
    r
}

/// The worker that owns a key: its sharding hash modulo the worker count.
pub open spec fn shard_of_spec(k: KeyV, w: int) -> int {
    fnv64_of(key_bytes_v(k)) as int % w
}

/// Compute a key's owning shard.
pub fn shard_of(k: &StateKey, w: usize) -> (r: usize)
    requires
        1 <= w,
    ensures
        r == shard_of_spec(k@, w as int),
        r < w,
{
    let bytes = key_bytes(k);
    let h = fnv_hash(&bytes);
    let m = h % (w as u64);
    proof {
        assert(m < w as u64);
    }
    m as usize
}

} // verus!
