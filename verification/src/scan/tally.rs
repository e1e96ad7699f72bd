//! How many entries of a sort a whole scan holds.

use vstd::prelude::*;

use crate::scan::chunk::{chunks_wf, DirChunk, NO_CHUNK};
use crate::scan::counts::{
    chunk_count, duplicates, entry_worth, files, folders, leading, slot_count, symlinks,
    total_count,
};
use crate::scan::flatten::{
    all_met, arity, child_ok, expands, first_child, marked, range_ok, unrolled,
};
use crate::scan::listing::Listing;
use crate::scan::whole::{
    item_fact, lemma_child, lemma_child_fact, lemma_expands, lemma_root_fact, lemma_stands,
    node_fact, root_fact, shows, Flat,
};
use crate::summary::subtree::{
    lemma_split_siblings, lemma_subtree_sum, lemma_under_root, only_under, only_under_any,
    subtree_sum,
};
use crate::sums::{
    lemma_sum_point, lemma_sum_same, lemma_sum_shift, lemma_sum_split, lemma_sum_zero, sum,
};
use crate::tree::arena::{place_of, shape_wf};
use crate::tree::flags;
use crate::tree::{has_flag, Node};

verus! {

/// What the first `n` items listed at a place count for, with all below them,
/// when an entry counts by its flags.
pub open spec fn tally_upto(
    disk: spec_fn(Seq<Seq<u8>>) -> Listing,
    max_depth: int,
    place: Seq<Seq<u8>>,
    n: int,
    worth: spec_fn(u8, bool) -> int,
) -> int
    decreases max_depth - place.len(), n,
{
    if place.len() >= max_depth || n <= 0 {
        0
    } else {
        let item = disk(place).items[n - 1];
        let below = place.push(item.name);
        tally_upto(disk, max_depth, place, n - 1, worth) + worth(
            item_fact(disk, max_depth, place, n - 1).flags,
            item.descends,
        ) + if item.descends {
            tally_upto(disk, max_depth, below, disk(below).items.len() as int, worth)
        } else {
            0
        }
    }
}

/// What everything below a place counts for.
pub open spec fn tally(
    disk: spec_fn(Seq<Seq<u8>>) -> Listing,
    max_depth: int,
    place: Seq<Seq<u8>>,
    worth: spec_fn(u8, bool) -> int,
) -> int {
    tally_upto(disk, max_depth, place, disk(place).items.len() as int, worth)
}

/// What the nodes of an arena count for, given the slots of their children.
pub open spec fn count_at(
    nodes: Seq<Node>,
    slots: Seq<u32>,
    worth: spec_fn(u8, bool) -> int,
) -> spec_fn(int) -> int {
    |i: int| worth(nodes[i].flags, slots[i] != NO_CHUNK)
}

/// What all nodes of an arena count for.
pub open spec fn node_count(
    nodes: Seq<Node>,
    slots: Seq<u32>,
    worth: spec_fn(u8, bool) -> int,
) -> int {
    sum(0, nodes.len() as int, count_at(nodes, slots, worth))
}

/// What a node counts for by its flags.
pub open spec fn flag_count_at(
    nodes: Seq<Node>,
    worth: spec_fn(u8, bool) -> int,
) -> spec_fn(int) -> int {
    |i: int| worth(nodes[i].flags, true)
}

/// What the nodes of a tree count for by their flags.
pub open spec fn flag_count(nodes: Seq<Node>, worth: spec_fn(u8, bool) -> int) -> int {
    sum(0, nodes.len() as int, flag_count_at(nodes, worth))
}

/// Whether an entry counts by its flags alone.
pub open spec fn by_flags(worth: spec_fn(u8, bool) -> int) -> bool {
    forall|f: u8| #[trigger] worth(f, true) == worth(f, false)
}

/// The first `m` children of node `i` are its children.
proof fn lemma_children_of(f: Flat, i: int, m: int)
    requires
        f.scanned(),
        f.finished(),
        0 <= i < f.raw.len(),
        expands(f.chunks, f.slots, i),
        0 < m <= arity(f.chunks, f.slots)(i),
    ensures
        ({
            let from = first_child(f.chunks, f.slots, i);
            &&& i < from
            &&& from + m <= f.nodes.len()
            &&& forall|d: int| from <= d < from + m ==> (#[trigger] f.nodes[d]).parent == i
        }),
{
    let from = first_child(f.chunks, f.slots, i);
    let n = f.raw.len() as int;
    assert(child_ok(f.chunks, f.raw, f.names, f.slots, n, i, 0));
    assert(child_ok(f.chunks, f.raw, f.names, f.slots, n, i, m - 1));
    assert forall|d: int| from <= d < from + m implies (#[trigger] f.nodes[d]).parent == i by {
        assert(child_ok(f.chunks, f.raw, f.names, f.slots, n, i, d - from));
        assert(f.nodes[d].parent == f.raw[d].parent);
    }
}

/// The first `m` children of node `i`, with all below them, count for what the
/// items do.
proof fn lemma_children_count(
    f: Flat,
    disk: spec_fn(Seq<Seq<u8>>) -> Listing,
    worth: spec_fn(u8, bool) -> int,
    i: int,
    m: int,
)
    requires
        f.scanned(),
        f.finished(),
        shows(f.chunks, f.places, disk),
        shape_wf(f.nodes),
        0 <= i < f.raw.len(),
        expands(f.chunks, f.slots, i),
        0 <= m <= arity(f.chunks, f.slots)(i),
    ensures
        ({
            let from = first_child(f.chunks, f.slots, i);
            sum(
                0,
                f.nodes.len() as int,
                only_under_any(f.nodes, from, from + m, count_at(f.nodes, f.slots, worth)),
            ) == tally_upto(disk, f.max_depth, place_of(f.raw, f.names, i), m, worth)
        }),
    decreases f.raw.len() - i, m,
{
    let n = f.nodes.len() as int;
    let from = first_child(f.chunks, f.slots, i);
    let g = count_at(f.nodes, f.slots, worth);
    if m == 0 {
        let none = only_under_any(f.nodes, from, from, g);
        assert forall|j: int| 0 <= j < n implies #[trigger] none(j) == 0 by {}
        lemma_sum_zero(0, n, none);
    } else {
        lemma_children_count(f, disk, worth, i, m - 1);
        lemma_child(f, disk, i, m - 1);
        lemma_child_fact(f, disk, i, m - 1);
        let c = from + m - 1;
        lemma_counts(f, disk, worth, c);
        lemma_children_of(f, i, m);
        lemma_split_siblings(f.nodes, i, from, from + m, g);
        assert(node_fact(f.nodes, f.names, c).flags == f.nodes[c].flags);
    }
}

/// The subtree of a node counts for the node and what the listings call for.
proof fn lemma_counts(
    f: Flat,
    disk: spec_fn(Seq<Seq<u8>>) -> Listing,
    worth: spec_fn(u8, bool) -> int,
    i: int,
)
    requires
        f.scanned(),
        f.finished(),
        shows(f.chunks, f.places, disk),
        shape_wf(f.nodes),
        0 <= i < f.raw.len(),
    ensures
        subtree_sum(f.nodes, i, count_at(f.nodes, f.slots, worth)) == worth(f.nodes[i].flags, f.slots[i] != NO_CHUNK) + if f.slots[i] != NO_CHUNK {
            tally(disk, f.max_depth, place_of(f.raw, f.names, i), worth)
        } else {
            0
        },
    decreases f.raw.len() - i, arity(f.chunks, f.slots)(i) + 1,
{
    let n = f.nodes.len() as int;
    let g = count_at(f.nodes, f.slots, worth);
    lemma_subtree_sum(f.nodes, i, g);
    assert(range_ok(f.chunks, f.raw, f.slots, n, i));
    assert(f.nodes[i].child_start == f.raw[i].child_start && f.nodes[i].child_len == f.raw[i].child_len);
    if f.slots[i] != NO_CHUNK {
        let s = f.slots[i] as int;
        assert(f.slots[i] < f.chunks.len());
        assert(f.chunks[s] is Some);
        lemma_expands(f, i);
        lemma_stands(f, i);
        lemma_children_count(f, disk, worth, i, arity(f.chunks, f.slots)(i));
    } else {
        assert(!expands(f.chunks, f.slots, i));
        let none = only_under_any(f.nodes, 0, 0, g);
        assert forall|j: int| 0 <= j < n implies #[trigger] none(j) == 0 by {}
        lemma_sum_zero(0, n, none);
    }
}

/// The arena of a whole scan counts for what the listings call for.
pub proof fn lemma_arena_counts(
    f: Flat,
    disk: spec_fn(Seq<Seq<u8>>) -> Listing,
    worth: spec_fn(u8, bool) -> int,
)
    requires
        f.scanned(),
        f.finished(),
        shows(f.chunks, f.places, disk),
        shape_wf(f.nodes),
    ensures
        node_count(f.nodes, f.slots, worth) == worth(root_fact(disk, f.max_depth).flags, true) + tally(
            disk,
            f.max_depth,
            Seq::empty(),
            worth,
        ),
{
    let n = f.nodes.len() as int;
    let g = count_at(f.nodes, f.slots, worth);
    lemma_counts(f, disk, worth, 0);
    lemma_root_fact(f, disk);
    assert(node_fact(f.nodes, f.names, 0).flags == f.nodes[0].flags);
    assert forall|i: int| 0 <= i < n implies #[trigger] only_under(f.nodes, 0, g)(i) == g(i) by {
        lemma_under_root(f.nodes, i);
    }
    lemma_sum_same(0, n, only_under(f.nodes, 0, g), g);
}

/// Whether marking a directory unreadable leaves what it counts for as it was.
pub open spec fn steady(worth: spec_fn(u8, bool) -> int) -> bool {
    forall|f: u8, leads: bool|
        has_flag(f, flags::DIR) ==> #[trigger] worth(f | flags::UNREADABLE, leads) == worth(
            f,
            leads,
        )
}

/// The counters do not mind the mark.
pub proof fn lemma_counters_steady()
    ensures
        steady(files()),
        steady(symlinks()),
        steady(duplicates()),
        steady(folders()),
        steady(leading()),
{
    assert forall|f: u8| has_flag(f, flags::DIR) implies #[trigger] same_marks(f) by {
        assert((f & 1u8 != 0 ==> (f | 16u8) & 1u8 != 0) && ((f | 16u8) & 2u8 == f & 2u8) && ((f
            | 16u8) & 8u8 == f & 8u8)) by (bit_vector);
    }
    assert forall|f: u8, leads: bool| has_flag(f, flags::DIR) implies #[trigger] files()(
        f | flags::UNREADABLE,
        leads,
    ) == files()(f, leads) by {
        assert(same_marks(f));
    }
    assert forall|f: u8, leads: bool| has_flag(f, flags::DIR) implies #[trigger] symlinks()(
        f | flags::UNREADABLE,
        leads,
    ) == symlinks()(f, leads) by {
        assert(same_marks(f));
    }
    assert forall|f: u8, leads: bool| has_flag(f, flags::DIR) implies #[trigger] duplicates()(
        f | flags::UNREADABLE,
        leads,
    ) == duplicates()(f, leads) by {
        assert(same_marks(f));
    }
    assert forall|f: u8, leads: bool| has_flag(f, flags::DIR) implies #[trigger] folders()(
        f | flags::UNREADABLE,
        leads,
    ) == folders()(f, leads) by {
        assert(same_marks(f));
    }
}

/// Whether the marked flags of a directory are its flags in every other way.
spec fn same_marks(f: u8) -> bool {
    &&& has_flag(f | flags::UNREADABLE, flags::DIR)
    &&& has_flag(f | flags::UNREADABLE, flags::SYMLINK) == has_flag(f, flags::SYMLINK)
    &&& has_flag(f | flags::UNREADABLE, flags::HARDLINK_DUP) == has_flag(f, flags::HARDLINK_DUP)
}

/// What the chunk that node `p` takes counts for.
pub open spec fn taken_count(
    chunks: Seq<Option<DirChunk>>,
    slots: Seq<u32>,
    worth: spec_fn(u8, bool) -> int,
) -> spec_fn(int) -> int {
    |p: int|
        if expands(chunks, slots, p) {
            chunk_count(chunks[slots[p] as int]->0.entries@, worth)
        } else {
            0
        }
}

/// The children of the first `done` nodes count for what the chunks they come
/// from do.
proof fn lemma_taken(
    chunks: Seq<Option<DirChunk>>,
    raw: Seq<Node>,
    names: Seq<u8>,
    slots: Seq<u32>,
    worth: spec_fn(u8, bool) -> int,
    done: int,
)
    requires
        unrolled(chunks, raw, names, slots, raw.len() as int),
        chunks_wf(chunks),
        forall|k: int|
            0 <= k < slots.len() ==> #[trigger] slots[k] == NO_CHUNK || slots[k] < chunks.len(),
        steady(worth),
        0 <= done <= raw.len(),
        0 < raw.len(),
    ensures
        sum(0, first_child(chunks, slots, done), count_at(raw, slots, worth)) == worth(
            raw[0].flags,
            true,
        ) + sum(0, done, taken_count(chunks, slots, worth)),
    decreases done,
{
    let g = count_at(raw, slots, worth);
    let t = taken_count(chunks, slots, worth);
    let n = raw.len() as int;
    if done == 0 {
        assert(sum(0, 1, g) == sum(0, 0, g) + g(0));
    } else {
        let p = done - 1;
        lemma_taken(chunks, raw, names, slots, worth, p);
        let from = first_child(chunks, slots, p);
        let many = arity(chunks, slots)(p);
        lemma_first_child(chunks, slots, p);
        assert(first_child(chunks, slots, done) == from + many);
        assert(sum(0, done, t) == sum(0, p, t) + t(p));
        lemma_sum_split(0, from, from + many, g);
        if expands(chunks, slots, p) {
            lemma_taken_here(chunks, raw, names, slots, worth, p);
        }
    }
}

/// The children of one node count for what its chunk does.
proof fn lemma_taken_here(
    chunks: Seq<Option<DirChunk>>,
    raw: Seq<Node>,
    names: Seq<u8>,
    slots: Seq<u32>,
    worth: spec_fn(u8, bool) -> int,
    p: int,
)
    requires
        unrolled(chunks, raw, names, slots, raw.len() as int),
        chunks_wf(chunks),
        forall|k: int|
            0 <= k < slots.len() ==> #[trigger] slots[k] == NO_CHUNK || slots[k] < chunks.len(),
        steady(worth),
        0 <= p < raw.len(),
        expands(chunks, slots, p),
    ensures
        ({
            let from = first_child(chunks, slots, p);
            sum(from, from + arity(chunks, slots)(p), count_at(raw, slots, worth)) == taken_count(
                chunks,
                slots,
                worth,
            )(p)
        }),
{
    reveal(chunk_count);
    let from = first_child(chunks, slots, p);
    let many = arity(chunks, slots)(p);
    let g = count_at(raw, slots, worth);
    assert(slots[p] < chunks.len());
    let chunk = chunks[slots[p] as int]->0;
    assert(chunk.wf(chunks.len() as int));
    let own = entry_worth(chunk.entries@, worth);
    assert forall|k: int| 0 <= k < many implies #[trigger] own(k) == g(k + from) by {
        assert(child_ok(chunks, raw, names, slots, raw.len() as int, p, k));
        let e = chunk.entries@[k];
        let c = from + k;
        assert(raw[c].flags == marked(chunks, slots, c, e.flags));
        if e.chunk != NO_CHUNK {
            assert(has_flag(e.flags, flags::DIR));
            assert(worth(e.flags | flags::UNREADABLE, true) == worth(e.flags, true));
        }
    }
    lemma_sum_shift(0, many, from, own, g);
}

/// The children of a node start where it stands or later.
proof fn lemma_first_child(chunks: Seq<Option<DirChunk>>, slots: Seq<u32>, p: int)
    requires
        0 <= p,
    ensures
        1 <= first_child(chunks, slots, p),
        0 <= arity(chunks, slots)(p),
    decreases p,
{
    if p > 0 {
        lemma_first_child(chunks, slots, p - 1);
    }
}

/// What is left in the slots once the first `done` nodes have taken theirs.
spec fn remaining(
    chunks: Seq<Option<DirChunk>>,
    slots: Seq<u32>,
    done: int,
) -> Seq<Option<DirChunk>> {
    Seq::new(
        chunks.len(),
        |s: int|
            if exists|j: int| 0 <= j < done && #[trigger] slots[j] == s {
                None
            } else {
                chunks[s]
            },
    )
}

/// What the first `done` nodes took and what is left make up all chunks.
proof fn lemma_remaining(
    chunks: Seq<Option<DirChunk>>,
    slots: Seq<u32>,
    worth: spec_fn(u8, bool) -> int,
    done: int,
)
    requires
        chunks.len() < NO_CHUNK,
        forall|k: int|
            0 <= k < slots.len() ==> #[trigger] slots[k] == NO_CHUNK || slots[k] < chunks.len(),
        0 <= done <= slots.len(),
    ensures
        total_count(remaining(chunks, slots, done), worth) + sum(
            0,
            done,
            taken_count(chunks, slots, worth),
        ) == total_count(chunks, worth),
    decreases done,
{
    reveal(total_count);
    let t = taken_count(chunks, slots, worth);
    let rest = remaining(chunks, slots, done);
    if done == 0 {
        assert(rest =~= chunks);
    } else {
        let p = done - 1;
        lemma_remaining(chunks, slots, worth, p);
        let before = remaining(chunks, slots, p);
        let n = chunks.len() as int;
        let (x, y) = (slot_count(before, worth), slot_count(rest, worth));
        assert(sum(0, done, t) == sum(0, p, t) + t(p));
        assert forall|s: int| 0 <= s < n && s != slots[p] implies #[trigger] rest[s]
            == before[s] by {
            if exists|j: int| 0 <= j < done && #[trigger] slots[j] == s {
                let j = choose|j: int| 0 <= j < done && #[trigger] slots[j] == s;
                assert(0 <= j < p && slots[j] == s);
            }
            if exists|j: int| 0 <= j < p && #[trigger] slots[j] == s {
                let j = choose|j: int| 0 <= j < p && #[trigger] slots[j] == s;
                assert(0 <= j < done && slots[j] == s);
            }
        }
        if slots[p] == NO_CHUNK {
            assert(rest =~= before);
        } else {
            let s = slots[p] as int;
            assert(slots[p] < chunks.len());
            assert(rest[s] is None) by {
                assert(0 <= p < done && slots[p] == s);
            }
            assert forall|i: int| 0 <= i < n && i != s implies #[trigger] x(i) == y(i) by {
                assert(rest[i] == before[i]);
            }
            lemma_sum_point(0, n, s, x, y);
            if expands(chunks, slots, p) {
                assert(before[s] == chunks[s]) by {
                    assert forall|j: int| 0 <= j < p implies #[trigger] slots[j] != s by {}
                }
            } else if chunks[s] is Some {
                let j = choose|j: int| 0 <= j < p && #[trigger] slots[j] == slots[p];
                assert(0 <= j < p && slots[j] == s);
                assert(before[s] is None);
            }
        }
    }
}

/// The nodes of a walk that met every slot count for the root and for what the
/// chunks do.
pub proof fn lemma_nodes_are_entries(
    chunks: Seq<Option<DirChunk>>,
    raw: Seq<Node>,
    names: Seq<u8>,
    slots: Seq<u32>,
    worth: spec_fn(u8, bool) -> int,
)
    requires
        0 < chunks.len() < NO_CHUNK,
        unrolled(chunks, raw, names, slots, raw.len() as int),
        chunks_wf(chunks),
        forall|k: int|
            0 <= k < slots.len() ==> #[trigger] slots[k] == NO_CHUNK || slots[k] < chunks.len(),
        all_met(chunks, slots),
        steady(worth),
        0 < raw.len(),
    ensures
        node_count(raw, slots, worth) == worth(raw[0].flags, true) + total_count(chunks, worth),
{
    let n = raw.len() as int;
    lemma_taken(chunks, raw, names, slots, worth, n);
    lemma_remaining(chunks, slots, worth, n);
    reveal(total_count);
    let rest = remaining(chunks, slots, n);
    let left = slot_count(rest, worth);
    assert forall|s: int| 0 <= s < chunks.len() implies #[trigger] left(s) == 0 by {
        if chunks[s] is Some {
            let k = choose|k: int| 0 <= k < slots.len() && #[trigger] slots[k] == s;
            assert(0 <= k < n && slots[k] == s);
            assert(rest[s] is None);
        }
    }
    lemma_sum_zero(0, chunks.len() as int, left);
}

/// Where an entry counts by its flags alone, the slots do not matter.
pub proof fn lemma_flag_count(
    nodes: Seq<Node>,
    slots: Seq<u32>,
    worth: spec_fn(u8, bool) -> int,
)
    requires
        by_flags(worth),
    ensures
        flag_count(nodes, worth) == node_count(nodes, slots, worth),
{
    let (x, y) = (flag_count_at(nodes, worth), count_at(nodes, slots, worth));
    assert forall|i: int| 0 <= i < nodes.len() implies #[trigger] x(i) == y(i) by {
        assert(worth(nodes[i].flags, true) == worth(nodes[i].flags, false));
    }
    lemma_sum_same(0, nodes.len() as int, x, y);
}

} // verus!
