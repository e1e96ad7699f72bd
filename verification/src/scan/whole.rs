//! What a whole scan holds.
//!
//! The slots of a walk are filled in whatever order its tasks run. The tree
//! does not show that order: the nodes of a finished scan, with their places,
//! flags and sizes, are those that the listings of the directories call for.

use vstd::prelude::*;

use crate::kinds::KindTableView;
use crate::scan::chunk::{chunks_wf, DirChunk, NO_CHUNK};
use crate::scan::flatten::{
    arity, child_ok, expands, finished, first_child, lemma_origin, range_ok, walked,
};
use crate::scan::listing::{holds, tells, Item, Listing};
use crate::scan::place::{entry_in, has_entry, leads_on, name_in, placed};
use crate::scan::walk::WalkView;
use crate::sums::sum;
use crate::tree::arena::{place_of, size_at, span_size};
use crate::tree::flags;
use crate::tree::Node;

verus! {

/// Every slot is filled, with what `disk` lists at its place.
pub open spec fn shows(
    chunks: Seq<Option<DirChunk>>,
    places: Seq<Seq<Seq<u8>>>,
    disk: spec_fn(Seq<Seq<u8>>) -> Listing,
) -> bool {
    forall|s: int|
        0 <= s < chunks.len() ==> (#[trigger] chunks[s]) is Some && holds(
            chunks[s]->0,
            disk(places[s]),
        )
}

/// A walk that is over, and the arena it was flattened into.
pub struct Flat {
    pub chunks: Seq<Option<DirChunk>>,
    pub places: Seq<Seq<Seq<u8>>>,
    pub max_depth: int,
    /// The nodes as the chunks were appended, and the slots of their children.
    pub raw: Seq<Node>,
    pub slots: Seq<u32>,
    pub names: Seq<u8>,
    /// The nodes with their kinds and with sizes rolled up.
    pub nodes: Seq<Node>,
    pub kinds: KindTableView,
}

impl Flat {
    pub open spec fn scanned(&self) -> bool {
        &&& 0 < self.chunks.len() < NO_CHUNK
        &&& chunks_wf(self.chunks)
        &&& placed(self.chunks, self.places, self.max_depth)
        &&& 0 <= self.max_depth <= 255
        &&& walked(self.chunks, self.raw, self.names, self.slots)
        &&& forall|k: int|
            0 <= k < self.slots.len() ==> #[trigger] self.slots[k] == NO_CHUNK || self.slots[k]
                < self.chunks.len()
    }

    pub open spec fn finished(&self) -> bool {
        finished(self.raw, self.nodes, self.names, self.kinds)
    }
}

/// Where node `i` comes from: it is child `k` of node `p`.
pub open spec fn comes_as(
    chunks: Seq<Option<DirChunk>>,
    raw: Seq<Node>,
    names: Seq<u8>,
    slots: Seq<u32>,
    i: int,
    p: int,
    k: int,
) -> bool {
    &&& 0 <= p < i < raw.len()
    &&& expands(chunks, slots, p)
    &&& slots[p] < chunks.len()
    &&& 0 <= k < arity(chunks, slots)(p)
    &&& i == first_child(chunks, slots, p) + k
    &&& child_ok(chunks, raw, names, slots, raw.len() as int, p, k)
    &&& has_entry(chunks, slots[p] as int, k)
}

proof fn lemma_comes_as(f: Flat, i: int) -> (from: (int, int))
    requires
        f.scanned(),
        0 < i < f.raw.len(),
    ensures
        comes_as(f.chunks, f.raw, f.names, f.slots, i, from.0, from.1),
{
    let n = f.raw.len() as int;
    let p = lemma_origin(f.chunks, f.slots, n, i);
    let k = i - first_child(f.chunks, f.slots, p);
    assert(child_ok(f.chunks, f.raw, f.names, f.slots, n, p, k));
    assert(f.slots[p] == NO_CHUNK || f.slots[p] < f.chunks.len());
    (p, k)
}

/// A node stands at the place of the slot its children are in.
pub proof fn lemma_stands(f: Flat, i: int)
    requires
        f.scanned(),
        0 <= i < f.raw.len(),
    ensures
        f.slots[i] != NO_CHUNK ==> f.places[f.slots[i] as int] == place_of(f.raw, f.names, i),
        f.raw[i].depth == place_of(f.raw, f.names, i).len(),
        f.raw[i].depth <= f.max_depth,
    decreases i,
{
    if i > 0 {
        let (p, k) = lemma_comes_as(f, i);
        lemma_stands(f, p);
        let s = f.slots[p] as int;
        assert(has_entry(f.chunks, s, k));
        assert(place_of(f.raw, f.names, i) == place_of(f.raw, f.names, p).push(name_in(f.chunks, s, k)));
        if f.slots[i] != NO_CHUNK {
            assert(leads_on(f.chunks, s, k));
        }
    }
}

/// No two nodes have their children in one slot.
proof fn lemma_own_slot(f: Flat, i: int, j: int)
    requires
        f.scanned(),
        0 <= j < i < f.raw.len(),
        f.slots[i] != NO_CHUNK,
    ensures
        f.slots[j] != f.slots[i],
{
    let (p, k) = lemma_comes_as(f, i);
    assert(leads_on(f.chunks, f.slots[p] as int, k));
    if j > 0 && f.slots[j] == f.slots[i] {
        let (q, l) = lemma_comes_as(f, j);
        assert(leads_on(f.chunks, f.slots[q] as int, l));
        assert(f.slots[p] == f.slots[q] && k == l);
        if p < q {
            assert(f.slots[p] != f.slots[q]);
        } else if q < p {
            assert(f.slots[q] != f.slots[p]);
        }
    }
}

/// A node takes the chunk of its slot, whenever it has one and that is filled.
pub proof fn lemma_expands(f: Flat, i: int)
    requires
        f.scanned(),
        0 <= i < f.raw.len(),
        f.slots[i] != NO_CHUNK,
        f.chunks[f.slots[i] as int] is Some,
    ensures
        expands(f.chunks, f.slots, i),
{
    assert forall|j: int| 0 <= j < i implies #[trigger] f.slots[j] != f.slots[i] by {
        lemma_own_slot(f, i, j);
    }
}

/// What the first `n` items listed at a place weigh, with all below them, when
/// nothing is read at `max_depth` or below.
pub open spec fn weight_upto(
    disk: spec_fn(Seq<Seq<u8>>) -> Listing,
    max_depth: int,
    place: Seq<Seq<u8>>,
    n: int,
    physical: bool,
) -> int
    decreases max_depth - place.len(), n,
{
    if place.len() >= max_depth || n <= 0 {
        0
    } else {
        let item = disk(place).items[n - 1];
        let below = place.push(item.name);
        weight_upto(disk, max_depth, place, n - 1, physical) + if item.descends {
            weight_upto(disk, max_depth, below, disk(below).items.len() as int, physical)
        } else {
            item.spec_size(physical) as int
        }
    }
}

/// What everything below a place weighs.
pub open spec fn weight(
    disk: spec_fn(Seq<Seq<u8>>) -> Listing,
    max_depth: int,
    place: Seq<Seq<u8>>,
    physical: bool,
) -> int {
    weight_upto(disk, max_depth, place, disk(place).items.len() as int, physical)
}

/// What item `k` listed at a place weighs, with all below it.
pub open spec fn item_weight(
    disk: spec_fn(Seq<Seq<u8>>) -> Listing,
    max_depth: int,
    place: Seq<Seq<u8>>,
    k: int,
    physical: bool,
) -> int {
    let item = disk(place).items[k];
    if item.descends {
        weight(disk, max_depth, place.push(item.name), physical)
    } else {
        item.spec_size(physical) as int
    }
}

/// Child `k` of a node that takes its chunk, and the item it comes from.
pub proof fn lemma_child(
    f: Flat,
    disk: spec_fn(Seq<Seq<u8>>) -> Listing,
    p: int,
    k: int,
)
    requires
        f.scanned(),
        shows(f.chunks, f.places, disk),
        0 <= p < f.raw.len(),
        expands(f.chunks, f.slots, p),
        0 <= k < arity(f.chunks, f.slots)(p),
    ensures
        ({
            let place = place_of(f.raw, f.names, p);
            let c = first_child(f.chunks, f.slots, p) + k;
            let item = disk(place).items[k];
            &&& p < c < f.raw.len()
            &&& arity(f.chunks, f.slots)(p) == disk(place).items.len()
            &&& place.len() < f.max_depth
            &&& place_of(f.raw, f.names, c) == place.push(item.name)
            &&& item.descends <==> f.slots[c] != NO_CHUNK
            &&& f.raw[c].logical == item.logical
            &&& f.raw[c].physical == item.physical
            &&& f.raw[c].flags == if item.descends && disk(place.push(item.name)).unreadable {
                item.flags | flags::UNREADABLE
            } else {
                item.flags
            }
            &&& item.descends ==> item.logical == 0 && item.physical == 0
        }),
{
    let place = place_of(f.raw, f.names, p);
    let c = first_child(f.chunks, f.slots, p) + k;
    assert(f.slots[p] == NO_CHUNK || f.slots[p] < f.chunks.len());
    let s = f.slots[p] as int;
    assert(child_ok(f.chunks, f.raw, f.names, f.slots, f.raw.len() as int, p, k));
    lemma_stands(f, p);
    assert(f.chunks[s] is Some && holds(f.chunks[s]->0, disk(f.places[s])));
    assert(has_entry(f.chunks, s, k));
    let item = disk(place).items[k];
    let e = entry_in(f.chunks, s, k);
    assert(tells(f.chunks[s]->0, k, item));
    assert(f.chunks[s]->0.entries@[k].chunk != NO_CHUNK <==> item.descends);
    assert(place_of(f.raw, f.names, c) == place.push(item.name));
    assert(f.chunks[s]->0.wf(f.chunks.len() as int));
    if item.descends {
        lemma_stands(f, c);
        let t = f.slots[c] as int;
        assert(leads_on(f.chunks, s, k));
        assert(f.chunks[t] is Some && holds(f.chunks[t]->0, disk(f.places[t])));
        lemma_expands(f, c);
    } else {
        assert(!expands(f.chunks, f.slots, c));
    }
}

/// The children of node `i` weigh what the items listed at its place do.
proof fn lemma_children_weigh(
    f: Flat,
    disk: spec_fn(Seq<Seq<u8>>) -> Listing,
    i: int,
    m: int,
    physical: bool,
)
    requires
        f.scanned(),
        f.finished(),
        shows(f.chunks, f.places, disk),
        0 <= i < f.raw.len(),
        expands(f.chunks, f.slots, i),
        0 <= m <= arity(f.chunks, f.slots)(i),
    ensures
        ({
            let from = first_child(f.chunks, f.slots, i);
            span_size(f.nodes, from, from + m, physical) == weight_upto(
                disk,
                f.max_depth,
                place_of(f.raw, f.names, i),
                m,
                physical,
            )
        }),
    decreases f.raw.len() - i, m,
{
    let from = first_child(f.chunks, f.slots, i);
    let place = place_of(f.raw, f.names, i);
    let g = size_at(f.nodes, physical);
    if m > 0 {
        lemma_children_weigh(f, disk, i, m - 1, physical);
        lemma_child(f, disk, i, m - 1);
        let c = from + m - 1;
        lemma_weighs(f, disk, c, physical);
        assert(sum(from, from + m, g) == sum(from, from + m - 1, g) + g(c));
    }
}

/// A node weighs what the listings call for.
proof fn lemma_weighs(
    f: Flat,
    disk: spec_fn(Seq<Seq<u8>>) -> Listing,
    i: int,
    physical: bool,
)
    requires
        f.scanned(),
        f.finished(),
        shows(f.chunks, f.places, disk),
        0 <= i < f.raw.len(),
    ensures
        f.nodes[i].spec_size(physical) == if f.slots[i] != NO_CHUNK {
            weight(disk, f.max_depth, place_of(f.raw, f.names, i), physical)
        } else {
            f.raw[i].spec_size(physical) as int
        },
    decreases f.raw.len() - i, arity(f.chunks, f.slots)(i) + 1,
{
    let n = f.raw.len() as int;
    assert(range_ok(f.chunks, f.raw, f.slots, n, i));
    assert(f.nodes[i].child_start == f.raw[i].child_start && f.nodes[i].child_len == f.raw[i].child_len);
    assert(f.nodes[i].spec_size(physical) == f.raw[i].spec_size(physical) + span_size(
        f.nodes,
        f.nodes[i].child_start as int,
        f.nodes[i].child_start + f.nodes[i].child_len,
        physical,
    ));
    if f.slots[i] != NO_CHUNK {
        let s = f.slots[i] as int;
        assert(f.slots[i] < f.chunks.len());
        assert(f.chunks[s] is Some && holds(f.chunks[s]->0, disk(f.places[s])));
        lemma_stands(f, i);
        lemma_expands(f, i);
        let many = arity(f.chunks, f.slots)(i);
        assert(f.raw[i].spec_size(physical) == 0) by {
            if i > 0 {
                let (p, k) = lemma_comes_as(f, i);
                lemma_child(f, disk, p, k);
            }
        }
        lemma_children_weigh(f, disk, i, many, physical);
    } else {
        assert(!expands(f.chunks, f.slots, i));
    }
}

/// What is said of one entry of a scan: the names that lead to it, its flags,
/// and its sizes with all below it.
pub struct Fact {
    pub place: Seq<Seq<u8>>,
    pub flags: u8,
    pub logical: int,
    pub physical: int,
}

/// What an arena says of node `i`.
pub open spec fn node_fact(nodes: Seq<Node>, names: Seq<u8>, i: int) -> Fact {
    Fact {
        place: place_of(nodes, names, i),
        flags: nodes[i].flags,
        logical: nodes[i].logical as int,
        physical: nodes[i].physical as int,
    }
}

/// Everything an arena says.
pub open spec fn arena_facts(nodes: Seq<Node>, names: Seq<u8>) -> Set<Fact> {
    Set::new(|fact: Fact| exists|i: int| 0 <= i < nodes.len() && fact == #[trigger] node_fact(
        nodes,
        names,
        i,
    ))
}

/// The flags of a directory that is read, given those of its entry.
pub open spec fn read_flags(listing: Listing, flags: u8) -> u8 {
    if listing.unreadable {
        flags | flags::UNREADABLE
    } else {
        flags
    }
}

/// What the listings say of the scan root.
pub open spec fn root_fact(disk: spec_fn(Seq<Seq<u8>>) -> Listing, max_depth: int) -> Fact {
    let top = Seq::<Seq<u8>>::empty();
    Fact {
        place: top,
        flags: read_flags(disk(top), flags::DIR),
        logical: weight(disk, max_depth, top, false),
        physical: weight(disk, max_depth, top, true),
    }
}

/// What the listings say of item `k` at a place.
pub open spec fn item_fact(
    disk: spec_fn(Seq<Seq<u8>>) -> Listing,
    max_depth: int,
    place: Seq<Seq<u8>>,
    k: int,
) -> Fact {
    let item = disk(place).items[k];
    let below = place.push(item.name);
    Fact {
        place: below,
        flags: if item.descends {
            read_flags(disk(below), item.flags)
        } else {
            item.flags
        },
        logical: item_weight(disk, max_depth, place, k, false),
        physical: item_weight(disk, max_depth, place, k, true),
    }
}

/// Whether the listing at a place has an item of this name below which the
/// scan goes on.
pub open spec fn leads_to(
    disk: spec_fn(Seq<Seq<u8>>) -> Listing,
    place: Seq<Seq<u8>>,
    name: Seq<u8>,
) -> bool {
    exists|k: int| 0 <= k < disk(place).items.len() && goes_on(#[trigger] disk(place).items[k], name)
}

/// Whether an item has this name and the scan goes on below it.
pub open spec fn goes_on(item: Item, name: Seq<u8>) -> bool {
    item.descends && item.name == name
}

/// Whether the scan gets to a place.
pub open spec fn reached(disk: spec_fn(Seq<Seq<u8>>) -> Listing, place: Seq<Seq<u8>>) -> bool
    decreases place.len(),
{
    place.len() == 0 || (reached(disk, place.drop_last()) && leads_to(
        disk,
        place.drop_last(),
        place.last(),
    ))
}

/// Whether item `k` is listed at a place the scan gets to.
pub open spec fn listed(
    disk: spec_fn(Seq<Seq<u8>>) -> Listing,
    place: Seq<Seq<u8>>,
    k: int,
) -> bool {
    reached(disk, place) && 0 <= k < disk(place).items.len()
}

/// Everything the listings say.
pub open spec fn disk_facts(disk: spec_fn(Seq<Seq<u8>>) -> Listing, max_depth: int) -> Set<Fact> {
    Set::new(
        |fact: Fact|
            fact == root_fact(disk, max_depth) || exists|place: Seq<Seq<u8>>, k: int| #[trigger]
                listed(disk, place, k) && fact == item_fact(disk, max_depth, place, k),
    )
}

/// Kinds and sizes have no part in where a node stands.
proof fn lemma_same_place(f: Flat, i: int)
    requires
        f.finished(),
        0 <= i < f.nodes.len(),
    ensures
        place_of(f.nodes, f.names, i) == place_of(f.raw, f.names, i),
        f.nodes[i].flags == f.raw[i].flags,
        f.nodes[i].depth == f.raw[i].depth,
    decreases i,
{
    assert(f.nodes[i].parent == f.raw[i].parent && f.nodes[i].name_off == f.raw[i].name_off
        && f.nodes[i].name_len == f.raw[i].name_len);
    let up = f.raw[i].parent as int;
    if i > 0 && up < i {
        lemma_same_place(f, up);
    }
}

/// The root says what the listings do.
pub proof fn lemma_root_fact(f: Flat, disk: spec_fn(Seq<Seq<u8>>) -> Listing)
    requires
        f.scanned(),
        f.finished(),
        shows(f.chunks, f.places, disk),
    ensures
        node_fact(f.nodes, f.names, 0) == root_fact(disk, f.max_depth),
{
    assert(f.chunks[0] is Some && holds(f.chunks[0]->0, disk(f.places[0])));
    lemma_expands(f, 0);
    lemma_same_place(f, 0);
    lemma_weighs(f, disk, 0, true);
    lemma_weighs(f, disk, 0, false);
    assert(f.nodes[0].spec_size(true) == f.nodes[0].physical);
    assert(f.nodes[0].spec_size(false) == f.nodes[0].logical);
}

/// A child says what the item it comes from does.
pub proof fn lemma_child_fact(
    f: Flat,
    disk: spec_fn(Seq<Seq<u8>>) -> Listing,
    p: int,
    k: int,
)
    requires
        f.scanned(),
        f.finished(),
        shows(f.chunks, f.places, disk),
        0 <= p < f.raw.len(),
        expands(f.chunks, f.slots, p),
        0 <= k < arity(f.chunks, f.slots)(p),
    ensures
        node_fact(f.nodes, f.names, first_child(f.chunks, f.slots, p) + k) == item_fact(
            disk,
            f.max_depth,
            place_of(f.raw, f.names, p),
            k,
        ),
{
    let c = first_child(f.chunks, f.slots, p) + k;
    lemma_child(f, disk, p, k);
    lemma_same_place(f, c);
    lemma_weighs(f, disk, c, true);
    lemma_weighs(f, disk, c, false);
    assert(f.nodes[c].spec_size(true) == f.nodes[c].physical);
    assert(f.nodes[c].spec_size(false) == f.nodes[c].logical);
    assert(f.raw[c].spec_size(true) == f.raw[c].physical);
    assert(f.raw[c].spec_size(false) == f.raw[c].logical);
}

/// The scan gets to wherever a node takes a chunk.
proof fn lemma_node_reached(f: Flat, disk: spec_fn(Seq<Seq<u8>>) -> Listing, i: int)
    requires
        f.scanned(),
        shows(f.chunks, f.places, disk),
        0 <= i < f.raw.len(),
        f.slots[i] != NO_CHUNK,
    ensures
        reached(disk, place_of(f.raw, f.names, i)),
    decreases i,
{
    if i > 0 {
        let (p, k) = lemma_comes_as(f, i);
        lemma_node_reached(f, disk, p);
        lemma_child(f, disk, p, k);
        let up = place_of(f.raw, f.names, p);
        let here = place_of(f.raw, f.names, i);
        assert(here.drop_last() == up);
        assert(goes_on(disk(up).items[k], here.last()));
        assert(leads_to(disk, up, here.last()));
    }
}

/// Wherever the scan gets to, some node takes the chunk.
proof fn lemma_reached_node(
    f: Flat,
    disk: spec_fn(Seq<Seq<u8>>) -> Listing,
    place: Seq<Seq<u8>>,
) -> (i: int)
    requires
        f.scanned(),
        shows(f.chunks, f.places, disk),
        reached(disk, place),
    ensures
        0 <= i < f.raw.len(),
        expands(f.chunks, f.slots, i),
        f.slots[i] < f.chunks.len(),
        place_of(f.raw, f.names, i) == place,
        arity(f.chunks, f.slots)(i) == disk(place).items.len(),
    decreases place.len(),
{
    let i = if place.len() == 0 {
        assert(place == Seq::<Seq<u8>>::empty());
        0
    } else {
        let up = place.drop_last();
        let p = lemma_reached_node(f, disk, up);
        assert(leads_to(disk, up, place.last()));
        let k = choose|k: int|
            0 <= k < disk(up).items.len() && goes_on(#[trigger] disk(up).items[k], place.last());
        lemma_child(f, disk, p, k);
        assert(up.push(place.last()) == place);
        first_child(f.chunks, f.slots, p) + k
    };
    assert(f.slots[i] == NO_CHUNK || f.slots[i] < f.chunks.len());
    let s = f.slots[i] as int;
    assert(f.chunks[s] is Some && holds(f.chunks[s]->0, disk(f.places[s])));
    lemma_expands(f, i);
    lemma_stands(f, i);
    i
}

/// The arena of a whole scan says what the listings of the directories do, no
/// more and no less, whatever order they were read in.
pub proof fn lemma_arena_tells_disk(f: Flat, disk: spec_fn(Seq<Seq<u8>>) -> Listing)
    requires
        f.scanned(),
        f.finished(),
        shows(f.chunks, f.places, disk),
    ensures
        arena_facts(f.nodes, f.names) == disk_facts(disk, f.max_depth),
{
    let told = disk_facts(disk, f.max_depth);
    let said = arena_facts(f.nodes, f.names);
    lemma_root_fact(f, disk);
    assert forall|fact: Fact| said.contains(fact) implies told.contains(fact) by {
        let i = choose|i: int|
            0 <= i < f.nodes.len() && fact == #[trigger] node_fact(f.nodes, f.names, i);
        if i > 0 {
            let (p, k) = lemma_comes_as(f, i);
            lemma_child_fact(f, disk, p, k);
            lemma_node_reached(f, disk, p);
            lemma_child(f, disk, p, k);
            assert(listed(disk, place_of(f.raw, f.names, p), k));
        }
    }
    assert forall|fact: Fact| told.contains(fact) implies said.contains(fact) by {
        if fact == root_fact(disk, f.max_depth) {
            assert(fact == node_fact(f.nodes, f.names, 0));
        } else {
            let (place, k) = choose|place: Seq<Seq<u8>>, k: int| #[trigger]
                listed(disk, place, k) && fact == item_fact(disk, f.max_depth, place, k);
            let p = lemma_reached_node(f, disk, place);
            lemma_child_fact(f, disk, p, k);
            lemma_child(f, disk, p, k);
            assert(fact == node_fact(f.nodes, f.names, first_child(f.chunks, f.slots, p) + k));
        }
    }
    assert(said =~= told);
}

/// No node but the one put in at `added`, if one was, stands deeper than
/// `max_depth`.
pub open spec fn shallow(nodes: Seq<Node>, added: Option<int>, max_depth: int) -> bool {
    forall|i: int|
        0 <= i < nodes.len() && Some(i) != added ==> (#[trigger] nodes[i]).depth <= max_depth
}

/// What stands at `max_depth` has nothing below it.
pub open spec fn cut_off(nodes: Seq<Node>, max_depth: int) -> bool {
    forall|i: int|
        0 <= i < nodes.len() && (#[trigger] nodes[i]).depth == max_depth ==> nodes[i].child_len
            == 0
}

/// A walk that reads nothing at `max_depth` leaves no node below it.
pub proof fn lemma_depths(f: Flat)
    requires
        f.scanned(),
        f.finished(),
    ensures
        shallow(f.nodes, None, f.max_depth),
        cut_off(f.nodes, f.max_depth),
{
    let n = f.raw.len() as int;
    assert forall|i: int| 0 <= i < f.nodes.len() implies (#[trigger] f.nodes[i]).depth <= f.max_depth && (
    f.nodes[i].depth == f.max_depth ==> f.nodes[i].child_len == 0) by {
        lemma_same_place(f, i);
        lemma_stands(f, i);
        assert(range_ok(f.chunks, f.raw, f.slots, n, i));
        assert(f.nodes[i].child_len == f.raw[i].child_len);
        if expands(f.chunks, f.slots, i) && arity(f.chunks, f.slots)(i) > 0 {
            assert(f.slots[i] == NO_CHUNK || f.slots[i] < f.chunks.len());
            assert(has_entry(f.chunks, f.slots[i] as int, 0));
        }
    }
}

/// Every slot that is filled holds what `disk` lists at its place.
pub open spec fn shows_so_far(
    chunks: Seq<Option<DirChunk>>,
    places: Seq<Seq<Seq<u8>>>,
    disk: spec_fn(Seq<Seq<u8>>) -> Listing,
) -> bool {
    forall|s: int|
        0 <= s < chunks.len() && (#[trigger] chunks[s]) is Some ==> holds(
            chunks[s]->0,
            disk(places[s]),
        )
}

/// A walk shows the disk as long as each directory it publishes does, and when
/// no slot waits any more it shows all of it.
pub proof fn lemma_walk_shows_disk(
    before: WalkView,
    after: WalkView,
    slot: int,
    disk: spec_fn(Seq<Seq<u8>>) -> Listing,
)
    requires
        before.wf(),
        after.wf(),
        before.waits(slot),
        before.chunks.len() <= after.chunks.len(),
        after.places.take(before.places.len() as int) == before.places,
        forall|s: int|
            0 <= s < before.chunks.len() && s != slot ==> #[trigger] after.chunks[s]
                == before.chunks[s],
        forall|s: int|
            before.chunks.len() <= s < after.chunks.len() ==> #[trigger] after.chunks[s] is None,
        after.chunks[slot] is Some,
        holds(after.chunks[slot]->0, disk(before.places[slot])),
        shows_so_far(before.chunks, before.places, disk),
    ensures
        shows_so_far(after.chunks, after.places, disk),
        (forall|s: int| !after.waits(s)) ==> shows(after.chunks, after.places, disk),
{
    assert forall|s: int| 0 <= s < after.chunks.len() && (#[trigger] after.chunks[s]) is Some
        implies holds(after.chunks[s]->0, disk(after.places[s])) by {
        assert(s < before.chunks.len());
        assert(after.places.take(before.places.len() as int)[s] == after.places[s]);
        if s != slot {
            assert(after.chunks[s] == before.chunks[s]);
        }
    }
    if forall|s: int| !after.waits(s) {
        assert forall|s: int| 0 <= s < after.chunks.len() implies (#[trigger] after.chunks[s]) is Some
            && holds(after.chunks[s]->0, disk(after.places[s])) by {
            assert(!after.waits(s));
        }
    }
}

} // verus!
