//! Which multiply-linked inodes have been counted.

use std::collections::HashSet;

use vstd::prelude::*;

use crate::scan::collect::{needs_claim, shares_inode};
use crate::scan::entry::{Ent, EntView};
use crate::scan::options::ScanOptions;

verus! {

/// Hard-link sets are sharded to keep the lock off the hot path. Only inodes
/// with more than one link are ever inserted, so contention is low to begin
/// with.
pub const HARDLINK_SHARDS: usize = 64;

/// Which shard an inode belongs to.
pub fn shard_of(ino: u64) -> (shard: usize)
    ensures
        shard == ino % 64,
        shard < HARDLINK_SHARDS,
{
    (ino % 64) as usize
}

/// One shard of the inodes counted so far.
pub struct LinkSet {
    seen: HashSet<u128>,
}

/// Device and inode as one number.
spec fn packed(dev: i64, ino: u64) -> u128 {
    ((dev as int - i64::MIN) * 0x1_0000_0000_0000_0000 + ino) as u128
}

proof fn lemma_packed(a: i64, i: u64, b: i64, j: u64)
    ensures
        packed(a, i) == packed(b, j) ==> a == b && i == j,
{
}

impl View for LinkSet {
    type V = Set<(i64, u64)>;

    closed spec fn view(&self) -> Set<(i64, u64)> {
        Set::new(|link: (i64, u64)| self.seen@.contains(packed(link.0, link.1)))
    }
}

impl LinkSet {
    pub fn new() -> (set: LinkSet)
        ensures
            set@ == Set::<(i64, u64)>::empty(),
    {
        let set = LinkSet { seen: HashSet::new() };
        assert(set@ =~= Set::<(i64, u64)>::empty());
        set
    }

    /// Notes one more link to an inode. Returns true when it is the first one
    /// seen.
    pub fn claim_inode(&mut self, dev: i64, ino: u64) -> (first: bool)
        ensures
            first == !old(self)@.contains((dev, ino)),
            final(self)@ == old(self)@.insert((dev, ino)),
    {
        broadcast use vstd::std_specs::hash::group_hash_axioms;

        let ghost before = self@;
        let high: u128 = (dev as i128 + 0x8000_0000_0000_0000) as u128;
        let key: u128 = high * 0x1_0000_0000_0000_0000 + ino as u128;
        assert(key == packed(dev, ino));
        let first = self.seen.insert(key);
        proof {
            assert forall|link: (i64, u64)| self@.contains(link) == before.insert(
                (dev, ino),
            ).contains(link) by {
                lemma_packed(link.0, link.1, dev, ino);
            }
            assert(self@ =~= before.insert((dev, ino)));
        }
        first
    }
}

/// What claiming the inode of `ent` gives, when those in `seen` have been
/// claimed: whether it is new, or nothing if it need not be claimed.
pub open spec fn claim_of(
    opts: ScanOptions,
    ent: EntView,
    seen: Set<(i64, u64)>,
) -> Option<bool> {
    if shares_inode(opts, ent) {
        Some(!seen.contains((ent.dev, ent.ino)))
    } else {
        None
    }
}

/// The claimed inodes after `ent`.
pub open spec fn seen_with(
    opts: ScanOptions,
    ent: EntView,
    seen: Set<(i64, u64)>,
) -> Set<(i64, u64)> {
    if shares_inode(opts, ent) {
        seen.insert((ent.dev, ent.ino))
    } else {
        seen
    }
}

impl LinkSet {
    /// Claims the inode of `ent`, if it has to be claimed for the size to count.
    pub fn claim(&mut self, opts: &ScanOptions, ent: &Ent) -> (claimed: Option<bool>)
        ensures
            claimed == claim_of(*opts, ent@, old(self)@),
            final(self)@ == seen_with(*opts, ent@, old(self)@),
    {
        if needs_claim(opts, ent) {
            Some(self.claim_inode(ent.dev, ent.ino))
        } else {
            None
        }
    }
}

/// Whether each shard holds only the inodes that belong to it.
pub open spec fn sharded(shards: Seq<Set<(i64, u64)>>) -> bool {
    &&& shards.len() == HARDLINK_SHARDS
    &&& forall|s: int, link: (i64, u64)|
        0 <= s < shards.len() && #[trigger] shards[s].contains(link) ==> link.1 % 64 == s
}

/// Everything the shards hold.
pub open spec fn together(shards: Seq<Set<(i64, u64)>>) -> Set<(i64, u64)> {
    Set::new(
        |link: (i64, u64)| exists|s: int| 0 <= s < shards.len() && #[trigger] shards[s].contains(link),
    )
}

/// The shards act as one set: asking the shard of an inode is asking all of
/// them, and claiming the inode there claims it for all.
pub proof fn lemma_shards_act_as_one(shards: Seq<Set<(i64, u64)>>, dev: i64, ino: u64)
    requires
        sharded(shards),
    ensures
        ({
            let s = (ino % 64) as int;
            let after = shards.update(s, shards[s].insert((dev, ino)));
            &&& shards[s].contains((dev, ino)) == together(shards).contains((dev, ino))
            &&& sharded(after)
            &&& together(after) == together(shards).insert((dev, ino))
        }),
{
    let s = (ino % 64) as int;
    let key = (dev, ino);
    let after = shards.update(s, shards[s].insert(key));
    if together(shards).contains(key) {
        let t = choose|t: int| 0 <= t < shards.len() && #[trigger] shards[t].contains(key);
        assert(t == s);
    }
    assert forall|t: int, link: (i64, u64)|
        0 <= t < after.len() && #[trigger] after[t].contains(link) implies link.1 % 64 == t by {
        assert(shards[t].contains(link) || link == key);
    }
    assert forall|link: (i64, u64)| together(after).contains(link) == together(shards).insert(
        key,
    ).contains(link) by {
        if together(after).contains(link) {
            let t = choose|t: int| 0 <= t < after.len() && #[trigger] after[t].contains(link);
            assert(shards[t].contains(link) || link == key);
        }
        if together(shards).contains(link) {
            let t = choose|t: int| 0 <= t < shards.len() && #[trigger] shards[t].contains(link);
            assert(after[t].contains(link));
        }
        if link == key {
            assert(after[s].contains(link));
        }
    }
    assert(together(after) =~= together(shards).insert(key));
}

} // verus!
