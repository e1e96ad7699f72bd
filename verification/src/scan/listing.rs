//! What reading a directory comes to, as a list of items.

use vstd::prelude::*;

use crate::kinds::KindTableView;
use crate::scan::chunk::{DirChunk, RawEntry, NO_CHUNK};
use crate::scan::collect::{
    counted, cut, descends, entry_flags, fresh, shares_inode, subdirs_ok, weighs, Subdir,
};
use crate::scan::counts::lemma_flag_counts;
use crate::scan::entry::EntView;
use crate::scan::links::{claim_of, seen_with};
use crate::scan::options::{Progress, ScanOptions};
use crate::scan::walk::linked;
use crate::tree::flags;
use crate::tree::has_flag;

verus! {

/// What is kept of one entry of a directory.
pub struct Item {
    pub name: Seq<u8>,
    pub flags: u8,
    pub logical: u64,
    pub physical: u64,
    /// Whether the scan goes on below it.
    pub descends: bool,
}

impl Item {
    /// The entry's own size: blocks on disk, or apparent length.
    pub open spec fn spec_size(&self, physical: bool) -> u64 {
        if physical {
            self.physical
        } else {
            self.logical
        }
    }
}

/// What a directory lists, and whether it could not be read to the end.
pub struct Listing {
    pub items: Seq<Item>,
    pub unreadable: bool,
}

/// The item an entry becomes, found in a directory at `depth`.
pub open spec fn item_of(
    opts: ScanOptions,
    kinds: KindTableView,
    root_dev: i64,
    ent: EntView,
    claimed: Option<bool>,
    depth: u8,
) -> Item {
    Item {
        name: cut(ent.name),
        flags: entry_flags(opts, kinds, root_dev, ent, claimed),
        logical: if weighs(opts, ent, claimed) {
            ent.logical
        } else {
            0
        },
        physical: if weighs(opts, ent, claimed) {
            ent.physical
        } else {
            0
        },
        descends: descends(opts, root_dev, ent, depth),
    }
}

/// Whether entry `k` of a chunk says what `item` does, but for its children.
pub open spec fn tells(chunk: DirChunk, k: int, item: Item) -> bool {
    let e = chunk.entries@[k];
    &&& chunk.entry_name(k) == item.name
    &&& e.flags == item.flags
    &&& e.logical == item.logical
    &&& e.physical == item.physical
}

/// Whether a chunk holds what a listing says, with a slot for the children of
/// exactly the items the scan goes on below.
pub open spec fn holds(chunk: DirChunk, listing: Listing) -> bool {
    &&& chunk.entries@.len() == listing.items.len()
    &&& chunk.unreadable == listing.unreadable
    &&& forall|k: int|
        0 <= k < listing.items.len() ==> #[trigger] tells(chunk, k, listing.items[k])
    &&& forall|k: int|
        0 <= k < listing.items.len() ==> ((#[trigger] chunk.entries@[k]).chunk != NO_CHUNK
            <==> listing.items[k].descends)
}

/// Whether one of the subdirectories is entry `k`.
pub open spec fn queued(subdirs: Seq<Subdir>, k: int) -> bool {
    exists|i: int| 0 <= i < subdirs.len() && (#[trigger] subdirs[i]).index == k
}

/// Whether a chunk being filled, and the subdirectories queued with it, hold
/// exactly `items`.
pub open spec fn gathered(chunk: DirChunk, subdirs: Seq<Subdir>, items: Seq<Item>) -> bool {
    &&& chunk.entries@.len() == items.len()
    &&& forall|k: int| 0 <= k < items.len() ==> #[trigger] tells(chunk, k, items[k])
    &&& forall|k: int| 0 <= k < items.len() ==> (#[trigger] queued(subdirs, k) <==> items[k].descends)
}

/// One more entry is one more item.
pub proof fn lemma_gather(
    before: DirChunk,
    after: DirChunk,
    subdirs: Seq<Subdir>,
    more: Seq<Subdir>,
    items: Seq<Item>,
    item: Item,
)
    requires
        fresh(before),
        subdirs_ok(before, subdirs),
        gathered(before, subdirs, items),
        after.entries@.len() == before.entries@.len() + 1,
        forall|k: int|
            0 <= k < before.entries@.len() ==> #[trigger] after.entries@[k] == before.entries@[k],
        before.names@.len() <= after.names@.len(),
        after.names@.take(before.names@.len() as int) == before.names@,
        tells(after, before.entries@.len() as int, item),
        more.len() == subdirs.len() + if item.descends {
            1int
        } else {
            0int
        },
        more.take(subdirs.len() as int) == subdirs,
        item.descends ==> more.last().index == before.entries@.len(),
    ensures
        gathered(after, more, items.push(item)),
{
    let n = items.len() as int;
    let all = items.push(item);
    assert forall|i: int| 0 <= i < subdirs.len() implies #[trigger] more[i] == subdirs[i] by {
        assert(more.take(subdirs.len() as int)[i] == more[i]);
    }
    assert forall|k: int| 0 <= k < all.len() implies #[trigger] tells(after, k, all[k]) by {
        if k < n {
            assert(tells(before, k, items[k]));
            let e = before.entries@[k];
            assert(after.entries@[k] == e);
            assert(e.name_off + e.name_len <= before.names@.len());
            assert(after.entry_name(k) == after.names@.take(
                before.names@.len() as int,
            ).subrange(e.name_off as int, e.name_off + e.name_len));
        }
    }
    assert forall|k: int| 0 <= k < all.len() implies (#[trigger] queued(more, k)
        <==> all[k].descends) by {
        if k < n {
            assert(queued(subdirs, k) <==> items[k].descends);
            if queued(subdirs, k) {
                let i = choose|i: int| 0 <= i < subdirs.len() && (#[trigger] subdirs[i]).index == k;
                assert(more[i].index == k);
            }
            if queued(more, k) {
                let i = choose|i: int| 0 <= i < more.len() && (#[trigger] more[i]).index == k;
                assert(i < subdirs.len());
                assert(subdirs[i].index == k);
            }
        } else {
            if item.descends {
                assert(more[more.len() - 1].index == k);
            }
            if queued(more, k) && !item.descends {
                let i = choose|i: int| 0 <= i < more.len() && (#[trigger] more[i]).index == k;
                assert(subdirs[i].index == k);
            }
        }
    }
}

/// Giving the queued subdirectories their slots completes the listing.
pub proof fn lemma_gathered_holds(
    chunk0: DirChunk,
    subdirs: Seq<Subdir>,
    items: Seq<Item>,
    chunk: DirChunk,
    base: int,
)
    requires
        fresh(chunk0),
        gathered(chunk0, subdirs, items),
        linked(chunk0.entries@, chunk.entries@, subdirs, base),
        chunk.names == chunk0.names,
        0 <= base,
        base + subdirs.len() < NO_CHUNK,
    ensures
        holds(chunk, Listing { items, unreadable: chunk.unreadable }),
{
    assert forall|k: int| 0 <= k < items.len() implies #[trigger] tells(chunk, k, items[k]) && (
    chunk.entries@[k].chunk != NO_CHUNK <==> items[k].descends) by {
        assert(tells(chunk0, k, items[k]));
        assert(queued(subdirs, k) <==> items[k].descends);
        let e0 = chunk0.entries@[k];
        assert(e0.chunk == NO_CHUNK);
        if queued(subdirs, k) {
            let i = choose|i: int| 0 <= i < subdirs.len() && (#[trigger] subdirs[i]).index == k;
            assert(chunk.entries@[subdirs[i].index as int] == (RawEntry {
                chunk: (base + i) as u32,
                ..e0
            }));
        } else {
            assert forall|i: int| 0 <= i < subdirs.len() implies (#[trigger] subdirs[i]).index
                != k by {}
            assert(chunk.entries@[k] == e0);
        }
    }
    assert forall|k: int| 0 <= k < items.len() implies ((#[trigger] chunk.entries@[k]).chunk
        != NO_CHUNK <==> items[k].descends) by {
        assert(tells(chunk, k, items[k]));
    }
}

/// The inodes claimed once `ents` have been met, those in `seen` before them.
pub open spec fn seen_after(
    opts: ScanOptions,
    ents: Seq<EntView>,
    seen: Set<(i64, u64)>,
) -> Set<(i64, u64)>
    decreases ents.len(),
{
    if ents.len() == 0 {
        seen
    } else {
        seen_with(opts, ents.last(), seen_after(opts, ents.drop_last(), seen))
    }
}

/// What claiming gives for each of `ents`, met in this order.
pub open spec fn claims_of(
    opts: ScanOptions,
    ents: Seq<EntView>,
    seen: Set<(i64, u64)>,
) -> Seq<Option<bool>> {
    Seq::new(
        ents.len(),
        |k: int| claim_of(opts, ents[k], seen_after(opts, ents.take(k), seen)),
    )
}

/// The items `ents` become, given what claiming gave for each.
pub open spec fn items_of(
    opts: ScanOptions,
    kinds: KindTableView,
    root_dev: i64,
    ents: Seq<EntView>,
    claims: Seq<Option<bool>>,
    depth: u8,
) -> Seq<Item> {
    Seq::new(
        ents.len(),
        |k: int| item_of(opts, kinds, root_dev, ents[k], claims[k], depth),
    )
}

/// The counters once `ents` have been collected.
pub open spec fn counted_all(
    progress: Progress,
    opts: ScanOptions,
    ents: Seq<EntView>,
    claims: Seq<Option<bool>>,
) -> Progress
    decreases ents.len(),
{
    if ents.len() == 0 {
        progress
    } else {
        counted(
            counted_all(progress, opts, ents.drop_last(), claims.drop_last()),
            opts,
            ents.last(),
            claims.last(),
        )
    }
}

/// An inode that has been claimed stays claimed, and one is claimed only by a
/// link to it.
pub proof fn lemma_claimed_by(
    opts: ScanOptions,
    ents: Seq<EntView>,
    seen: Set<(i64, u64)>,
    link: (i64, u64),
)
    ensures
        seen_after(opts, ents, seen).contains(link) <==> (seen.contains(link) || exists|h: int|
            0 <= h < ents.len() && #[trigger] links_to(opts, ents[h], link)),
    decreases ents.len(),
{
    if ents.len() > 0 {
        let less = ents.drop_last();
        let last = ents.len() - 1;
        lemma_claimed_by(opts, less, seen, link);
        if exists|h: int| 0 <= h < less.len() && #[trigger] links_to(opts, less[h], link) {
            let h = choose|h: int| 0 <= h < less.len() && #[trigger] links_to(opts, less[h], link);
            assert(links_to(opts, ents[h], link));
        }
        if exists|h: int| 0 <= h < ents.len() && #[trigger] links_to(opts, ents[h], link) {
            let h = choose|h: int| 0 <= h < ents.len() && #[trigger] links_to(opts, ents[h], link);
            if h < last {
                assert(links_to(opts, less[h], link));
            }
        }
        assert(ents.last() == ents[last]);
        assert(seen_after(opts, ents, seen).contains(link) <==> seen_after(
            opts,
            less,
            seen,
        ).contains(link) || links_to(opts, ents[last], link));
    }
}

/// Whether `ent` is one of several links to the inode `link`.
pub open spec fn links_to(opts: ScanOptions, ent: EntView, link: (i64, u64)) -> bool {
    shares_inode(opts, ent) && (ent.dev, ent.ino) == link
}

/// However many links to an inode are met, its size counts once: the first one
/// met has the size, every further one is marked and weighs nothing.
pub proof fn lemma_counted_once(
    opts: ScanOptions,
    kinds: KindTableView,
    root_dev: i64,
    ents: Seq<EntView>,
    seen: Set<(i64, u64)>,
    depth: u8,
    link: (i64, u64),
    k: int,
)
    requires
        0 <= k < ents.len(),
        links_to(opts, ents[k], link),
    ensures
        ({
            let item = items_of(
                opts,
                kinds,
                root_dev,
                ents,
                claims_of(opts, ents, seen),
                depth,
            )[k];
            if seen.contains(link) || exists|h: int|
                0 <= h < k && #[trigger] links_to(opts, ents[h], link) {
                &&& item.logical == 0 && item.physical == 0
                &&& has_flag(item.flags, flags::HARDLINK_DUP)
            } else {
                &&& item.logical == ents[k].logical && item.physical == ents[k].physical
                &&& !has_flag(item.flags, flags::HARDLINK_DUP)
            }
        }),
{
    let before = ents.take(k);
    lemma_claimed_by(opts, before, seen, link);
    if exists|h: int| 0 <= h < k && #[trigger] links_to(opts, ents[h], link) {
        let h = choose|h: int| 0 <= h < k && #[trigger] links_to(opts, ents[h], link);
        assert(links_to(opts, before[h], link));
    }
    if exists|h: int| 0 <= h < before.len() && #[trigger] links_to(opts, before[h], link) {
        let h = choose|h: int| 0 <= h < before.len() && #[trigger] links_to(opts, before[h], link);
        assert(links_to(opts, ents[h], link));
    }
    lemma_flag_counts(opts, kinds, root_dev, ents[k], claims_of(opts, ents, seen)[k]);
}

} // verus!
