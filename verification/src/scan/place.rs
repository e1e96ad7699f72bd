//! Where the directories of a walk stand.
//!
//! A place is the list of names that lead from the scan root down to a
//! directory; the root's own is empty.

use vstd::prelude::*;

use crate::scan::chunk::{DirChunk, RawEntry, NO_CHUNK};
use crate::scan::collect::{fresh, subdirs_ok, Subdir};
use crate::scan::walk::linked;

verus! {

/// Whether slot `s` is filled and has an entry `k`.
pub open spec fn has_entry(chunks: Seq<Option<DirChunk>>, s: int, k: int) -> bool {
    0 <= s < chunks.len() && chunks[s] is Some && 0 <= k < chunks[s]->0.entries@.len()
}

/// Entry `k` in slot `s`.
pub open spec fn entry_in(chunks: Seq<Option<DirChunk>>, s: int, k: int) -> RawEntry {
    chunks[s]->0.entries@[k]
}

/// The name of entry `k` in slot `s`.
pub open spec fn name_in(chunks: Seq<Option<DirChunk>>, s: int, k: int) -> Seq<u8> {
    chunks[s]->0.entry_name(k)
}

/// Whether entry `k` in slot `s` has a slot of its own for its children.
pub open spec fn leads_on(chunks: Seq<Option<DirChunk>>, s: int, k: int) -> bool {
    has_entry(chunks, s, k) && entry_in(chunks, s, k).chunk != NO_CHUNK
}

/// The slots stand where `places` says: the root at the top, the children of
/// an entry one name below it. No two entries share a slot, and nothing is
/// read at `max_depth` or below.
pub open spec fn placed(
    chunks: Seq<Option<DirChunk>>,
    places: Seq<Seq<Seq<u8>>>,
    max_depth: int,
) -> bool {
    &&& 0 < chunks.len()
    &&& places.len() == chunks.len()
    &&& places[0] == Seq::<Seq<u8>>::empty()
    &&& forall|s: int| 1 <= s < places.len() ==> (#[trigger] places[s]).len() < max_depth
    &&& forall|s: int, k: int| #[trigger]
        has_entry(chunks, s, k) ==> places[s].len() < max_depth
    &&& forall|s: int, k: int| #[trigger]
        leads_on(chunks, s, k) ==> 0 < entry_in(chunks, s, k).chunk < chunks.len()
            && places[entry_in(chunks, s, k).chunk as int] == places[s].push(
            name_in(chunks, s, k),
        )
    &&& forall|s: int, k: int, t: int, j: int| #[trigger]
        leads_on(chunks, s, k) && #[trigger] leads_on(chunks, t, j) && entry_in(chunks, s, k).chunk
            == entry_in(chunks, t, j).chunk ==> s == t && k == j
}

/// The places of the directories queued below `place`.
pub open spec fn places_below(place: Seq<Seq<u8>>, subdirs: Seq<Subdir>) -> Seq<Seq<Seq<u8>>> {
    subdirs.map(|i: int, d: Subdir| place.push(d.name@))
}

/// A slot filled with no entries leaves every place as it is.
pub proof fn lemma_empty_placed(
    before: Seq<Option<DirChunk>>,
    after: Seq<Option<DirChunk>>,
    places: Seq<Seq<Seq<u8>>>,
    max_depth: int,
    slot: int,
)
    requires
        placed(before, places, max_depth),
        0 <= slot < before.len(),
        after == before.update(slot, after[slot]),
        after[slot] is Some,
        after[slot]->0.entries@.len() == 0,
    ensures
        placed(after, places, max_depth),
{
    assert forall|s: int, k: int| #[trigger] has_entry(after, s, k) implies places[s].len()
        < max_depth by {
        assert(has_entry(before, s, k));
    }
    assert forall|s: int, k: int| #[trigger] leads_on(after, s, k) implies 0 < entry_in(
        after,
        s,
        k,
    ).chunk < after.len() && places[entry_in(after, s, k).chunk as int] == places[s].push(
        name_in(after, s, k),
    ) by {
        assert(leads_on(before, s, k));
    }
    assert forall|s: int, k: int, t: int, j: int| #[trigger]
        leads_on(after, s, k) && #[trigger] leads_on(after, t, j) && entry_in(after, s, k).chunk
            == entry_in(after, t, j).chunk implies s == t && k == j by {
        assert(leads_on(before, s, k) && leads_on(before, t, j));
    }
}

/// Which subdirectory an entry that got a slot is.
proof fn lemma_linked_entry(
    chunk0: DirChunk,
    chunk: DirChunk,
    subdirs: Seq<Subdir>,
    base: int,
    k: int,
) -> (i: int)
    requires
        fresh(chunk0),
        subdirs_ok(chunk0, subdirs),
        linked(chunk0.entries@, chunk.entries@, subdirs, base),
        chunk.names == chunk0.names,
        0 <= k < chunk.entries@.len(),
        chunk.entries@[k].chunk != NO_CHUNK,
        base + subdirs.len() < NO_CHUNK,
        0 <= base,
    ensures
        0 <= i < subdirs.len(),
        subdirs[i].index == k,
        chunk.entries@[k].chunk == base + i,
        chunk.entry_name(k) == subdirs[i].name@,
{
    let e0 = chunk0.entries@[k];
    assert(e0.chunk == NO_CHUNK);
    if forall|i: int| 0 <= i < subdirs.len() ==> (#[trigger] subdirs[i]).index != k {
        assert(chunk.entries@[k] == e0);
    }
    let i = choose|i: int| 0 <= i < subdirs.len() && (#[trigger] subdirs[i]).index == k;
    assert(chunk.entries@[subdirs[i].index as int] == (RawEntry { chunk: (base + i) as u32, ..e0 }));
    i
}

/// Publishing a directory puts its subdirectories right below it.
pub proof fn lemma_publish_placed(
    before: Seq<Option<DirChunk>>,
    after: Seq<Option<DirChunk>>,
    places: Seq<Seq<Seq<u8>>>,
    max_depth: int,
    slot: int,
    chunk0: DirChunk,
    chunk: DirChunk,
    subdirs: Seq<Subdir>,
)
    requires
        placed(before, places, max_depth),
        0 <= slot < before.len(),
        before[slot] is None,
        places[slot].len() < max_depth,
        subdirs.len() > 0 ==> places[slot].len() + 1 < max_depth,
        fresh(chunk0),
        subdirs_ok(chunk0, subdirs),
        after.len() == before.len() + subdirs.len(),
        after.len() < NO_CHUNK,
        after[slot] == Some(chunk),
        linked(chunk0.entries@, chunk.entries@, subdirs, before.len() as int),
        chunk.names == chunk0.names,
        forall|s: int|
            0 <= s < before.len() && s != slot ==> #[trigger] after[s] == before[s],
        forall|s: int| before.len() <= s < after.len() ==> #[trigger] after[s] is None,
    ensures
        placed(after, places + places_below(places[slot], subdirs), max_depth),
{
    let more = places + places_below(places[slot], subdirs);
    let base = before.len() as int;
    assert forall|s: int| 1 <= s < more.len() implies (#[trigger] more[s]).len() < max_depth by {
        if s < base {
            assert(more[s] == places[s]);
        } else {
            assert(more[s] == places[slot].push(subdirs[s - base].name@));
        }
    }
    assert forall|s: int, k: int| #[trigger] has_entry(after, s, k) implies more[s].len()
        < max_depth by {
        assert(s < base);
        assert(more[s] == places[s]);
        if s != slot {
            assert(after[s] == before[s]);
            assert(has_entry(before, s, k));
        }
    }
    assert forall|s: int, k: int| #[trigger] leads_on(after, s, k) implies 0 < entry_in(
        after,
        s,
        k,
    ).chunk < after.len() && more[entry_in(after, s, k).chunk as int] == more[s].push(
        name_in(after, s, k),
    ) && (s != slot ==> leads_on(before, s, k) && entry_in(after, s, k).chunk < base) && (s == slot
        ==> entry_in(after, s, k).chunk >= base) by {
        assert(s < base);
        assert(more[s] == places[s]);
        if s != slot {
            assert(after[s] == before[s]);
            assert(leads_on(before, s, k));
            let to = entry_in(before, s, k).chunk as int;
            assert(more[to] == places[to]);
        } else {
            let i = lemma_linked_entry(chunk0, chunk, subdirs, base, k);
            assert(more[base + i] == places[slot].push(subdirs[i].name@));
        }
    }
    assert forall|s: int, k: int, t: int, j: int| #[trigger]
        leads_on(after, s, k) && #[trigger] leads_on(after, t, j) && entry_in(after, s, k).chunk
            == entry_in(after, t, j).chunk implies s == t && k == j by {
        if s == slot && t == slot {
            let a = lemma_linked_entry(chunk0, chunk, subdirs, base, k);
            let b = lemma_linked_entry(chunk0, chunk, subdirs, base, j);
        } else if s != slot && t != slot {
            assert(after[s] == before[s] && after[t] == before[t]);
            assert(leads_on(before, s, k) && leads_on(before, t, j));
        }
    }
}

} // verus!
