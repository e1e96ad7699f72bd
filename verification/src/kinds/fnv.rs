//! FNV-1a: SipHash costs more than the lookup it guards when the key is
//! already an integer.

use vstd::prelude::*;

verus! {

/// The hash of no bytes.
pub const OFFSET_BASIS: u64 = 0xcbf2_9ce4_8422_2325;

pub const PRIME: u64 = 0x100_0000_01b3;

/// The FNV-1a state after one more byte.
pub open spec fn fnv_step(state: u64, b: u8) -> u64 {
    (state ^ (b as u64)).wrapping_mul(PRIME)
}

/// The FNV-1a state after `bytes`, starting from `state`.
pub open spec fn fnv1a(state: u64, bytes: Seq<u8>) -> u64
    decreases bytes.len(),
{
    if bytes.len() == 0 {
        state
    } else {
        fnv_step(fnv1a(state, bytes.drop_last()), bytes.last())
    }
}

#[derive(Clone, Copy)]
pub struct BuildFnv;

impl Default for BuildFnv {
    fn default() -> (builder: BuildFnv)
        ensures
            builder == BuildFnv,
    {
        BuildFnv
    }
}

pub struct Fnv(pub u64);

impl std::hash::BuildHasher for BuildFnv {
    type Hasher = Fnv;

    fn build_hasher(&self) -> (hasher: Fnv)
        ensures
            hasher.0 == OFFSET_BASIS,
    {
        Fnv(OFFSET_BASIS)
    }
}

impl std::hash::Hasher for Fnv {
    fn finish(&self) -> (hash: u64)
        ensures
            hash == self.0,
    {
        self.0
    }

    fn write(&mut self, bytes: &[u8])
        ensures
            final(self).0 == fnv1a(old(self).0, bytes@),
    {
        let ghost start = self.0;
        for i in 0..bytes.len()
            invariant
                self.0 == fnv1a(start, bytes@.take(i as int)),
        {
            self.0 = (self.0 ^ bytes[i] as u64).wrapping_mul(PRIME);
            assert(bytes@.take(i + 1).drop_last() == bytes@.take(i as int));
        }
        assert(bytes@.take(bytes@.len() as int) == bytes@);
    }
}

/// Hashing in two pieces is hashing the whole: `write` may be called once or
/// many times.
pub proof fn lemma_fnv_in_pieces(state: u64, a: Seq<u8>, b: Seq<u8>)
    ensures
        fnv1a(fnv1a(state, a), b) == fnv1a(state, a + b),
    decreases b.len(),
{
    if b.len() == 0 {
        assert(a + b == a);
    } else {
        lemma_fnv_in_pieces(state, a, b.drop_last());
        assert((a + b).drop_last() == a + b.drop_last());
    }
}

} // verus!
