//! Every inode counts once in the finished tree.

use vstd::prelude::*;

use crate::kinds::KindTableView;
use crate::scan::assemble::{assembled, comes_from, dressed, with_root_name};
use crate::scan::chunk::{chunks_wf, DirChunk, NO_CHUNK};
use crate::scan::collect::{counts_as_dir, cut, lemma_flags, shares_inode};
use crate::scan::counts::lemma_flag_counts;
use crate::scan::entry::EntView;
use crate::scan::flatten::{
    all_met, arity, child_ok, expands, first_child, flattened, lemma_origin, lemma_slots,
    range_ok, unrolled,
};
use crate::scan::links::claim_of;
use crate::scan::listing::{
    holds, item_of, items_of, lemma_claimed_by, links_to, seen_after, tells, Listing,
};
use crate::scan::options::ScanOptions;
use crate::scan::stats::lemma_first_children;
use crate::scan::walk::{all_owned, lemma_all_met};
use crate::scan::whole::Flat;
use crate::tree::flags;
use crate::tree::free::{moved, shifted};
use crate::tree::{has_flag, Node};

verus! {

/// What the directories of a walk held: for each slot the entries it was filled
/// from, and what claiming the inode of each gave.
pub struct Reading {
    pub opts: ScanOptions,
    pub kinds: KindTableView,
    pub root_dev: i64,
    pub ents: Seq<Seq<EntView>>,
    pub claims: Seq<Seq<Option<bool>>>,
}

impl Reading {
    /// Whether slot `s` was filled from an entry `k`.
    pub open spec fn has(&self, s: int, k: int) -> bool {
        0 <= s < self.ents.len() && 0 <= k < self.ents[s].len()
    }

    /// The listing of slot `s`, whose directory stands at `depth`.
    pub open spec fn listing(&self, s: int, depth: u8, unreadable: bool) -> Listing {
        Listing {
            items: items_of(
                self.opts,
                self.kinds,
                self.root_dev,
                self.ents[s],
                self.claims[s],
                depth,
            ),
            unreadable,
        }
    }

    /// The entries of all slots in the order in which their inodes were claimed.
    pub open spec fn in_order(&self, order: Seq<(int, int)>) -> Seq<EntView> {
        order.map(|n: int, at: (int, int)| self.ents[at.0][at.1])
    }

    /// Whether the inodes were claimed in this order, whichever directory an
    /// entry stands in: each entry that shares its inode once, and each told
    /// whether the inode had been claimed before.
    pub open spec fn claimed_in(&self, order: Seq<(int, int)>) -> bool {
        &&& order.no_duplicates()
        &&& forall|n: int|
            0 <= n < order.len() ==> self.has((#[trigger] order[n]).0, order[n].1)
                && self.claims[order[n].0][order[n].1] == claim_of(
                self.opts,
                self.ents[order[n].0][order[n].1],
                seen_after(self.opts, self.in_order(order).take(n), Set::empty()),
            )
        &&& forall|s: int, k: int| #[trigger]
            self.has(s, k) && shares_inode(self.opts, self.ents[s][k]) ==> order.contains((s, k))
    }
}

/// Whether the slots of a walk hold what was read: those filled hold the listing
/// of their entries, the others none.
pub open spec fn read_from(
    chunks: Seq<Option<DirChunk>>,
    places: Seq<Seq<Seq<u8>>>,
    r: Reading,
) -> bool {
    &&& r.ents.len() == chunks.len()
    &&& r.claims.len() == chunks.len()
    &&& forall|s: int|
        0 <= s < chunks.len() ==> match #[trigger] chunks[s] {
            Some(c) => holds(c, r.listing(s, places[s].len() as u8, c.unreadable)),
            None => r.ents[s].len() == 0,
        }
}

/// Which entry node `i` comes from: the slot of its parent, and its place among
/// the children.
pub open spec fn origin(f: Flat, i: int) -> (int, int) {
    let p = f.raw[i].parent as int;
    (f.slots[p] as int, i - first_child(f.chunks, f.slots, p))
}

/// The entries that the nodes of an arena come from; the root comes from none.
pub open spec fn origins(f: Flat, r: Reading) -> Seq<EntView> {
    Seq::new(
        f.raw.len(),
        |i: int|
            {
                let (s, k) = origin(f, i);
                r.ents[s][k]
            },
    )
}

/// An arena as the chunks were appended.
pub open spec fn laid_out(f: Flat) -> bool {
    &&& 0 < f.chunks.len() < NO_CHUNK
    &&& chunks_wf(f.chunks)
    &&& unrolled(f.chunks, f.raw, f.names, f.slots, f.raw.len() as int)
    &&& forall|k: int|
        0 <= k < f.slots.len() ==> #[trigger] f.slots[k] == NO_CHUNK || f.slots[k] < f.chunks.len()
}

/// What a node other than the root comes from.
proof fn lemma_origin_of(f: Flat, i: int)
    requires
        laid_out(f),
        0 < i < f.raw.len(),
    ensures
        ({
            let p = f.raw[i].parent as int;
            let (s, k) = origin(f, i);
            &&& 0 <= p < i
            &&& expands(f.chunks, f.slots, p)
            &&& 0 <= s < f.chunks.len()
            &&& 0 <= k < arity(f.chunks, f.slots)(p)
            &&& child_ok(f.chunks, f.raw, f.names, f.slots, f.raw.len() as int, p, k)
        }),
{
    let n = f.raw.len() as int;
    let p = lemma_origin(f.chunks, f.slots, n, i);
    let k = i - first_child(f.chunks, f.slots, p);
    assert(child_ok(f.chunks, f.raw, f.names, f.slots, n, p, k));
    assert(f.slots[p] == NO_CHUNK || f.slots[p] < f.chunks.len());
}

/// No two nodes come from one entry.
proof fn lemma_origins_differ(f: Flat, i: int, j: int)
    requires
        laid_out(f),
        0 < i < f.raw.len(),
        0 < j < f.raw.len(),
        origin(f, i) == origin(f, j),
    ensures
        i == j,
{
    lemma_origin_of(f, i);
    lemma_origin_of(f, j);
    let (p, q) = (f.raw[i].parent as int, f.raw[j].parent as int);
    assert(f.slots[p] == f.slots[q]);
    if p < q {
        assert(f.slots[p] != f.slots[q]);
    } else if q < p {
        assert(f.slots[q] != f.slots[p]);
    }
}

/// The first node whose children are in a slot.
proof fn lemma_first_with(slots: Seq<u32>, s: int, k: int) -> (p: int)
    requires
        0 <= k < slots.len(),
        slots[k] == s,
    ensures
        0 <= p < slots.len(),
        slots[p] == s,
        forall|j: int| 0 <= j < p ==> #[trigger] slots[j] != s,
    decreases k,
{
    if exists|j: int| 0 <= j < k && #[trigger] slots[j] == s {
        let j = choose|j: int| 0 <= j < k && #[trigger] slots[j] == s;
        lemma_first_with(slots, s, j)
    } else {
        k
    }
}

/// Every entry becomes a node.
proof fn lemma_node_of(f: Flat, s: int, k: int) -> (i: int)
    requires
        laid_out(f),
        all_met(f.chunks, f.slots),
        0 <= s < f.chunks.len(),
        f.chunks[s] is Some,
        0 <= k < f.chunks[s]->0.entries@.len(),
    ensures
        0 < i < f.raw.len(),
        origin(f, i) == (s, k),
{
    let any = choose|j: int| 0 <= j < f.slots.len() && #[trigger] f.slots[j] == s;
    let p = lemma_first_with(f.slots, s, any);
    assert(expands(f.chunks, f.slots, p));
    assert(child_ok(f.chunks, f.raw, f.names, f.slots, f.raw.len() as int, p, k));
    first_child(f.chunks, f.slots, p) + k
}

/// What a node that comes from an entry other than a directory says.
proof fn lemma_says(f: Flat, r: Reading, i: int)
    requires
        laid_out(f),
        f.finished(),
        read_from(f.chunks, f.places, r),
        0 < i < f.raw.len(),
    ensures
        ({
            let (s, k) = origin(f, i);
            let item = item_of(
                r.opts,
                r.kinds,
                r.root_dev,
                r.ents[s][k],
                r.claims[s][k],
                f.places[s].len() as u8,
            );
            &&& r.has(s, k)
            &&& f.names.subrange(f.nodes[i].name_off as int, f.nodes[i].name_off + f.nodes[i].name_len)
                == item.name
            &&& !counts_as_dir(r.ents[s][k]) ==> f.nodes[i].flags == item.flags && f.nodes[i].logical
                == item.logical && f.nodes[i].physical == item.physical
        }),
{
    lemma_origin_of(f, i);
    let (s, k) = origin(f, i);
    let p = f.raw[i].parent as int;
    let chunk = f.chunks[s]->0;
    let listing = r.listing(s, f.places[s].len() as u8, chunk.unreadable);
    assert(holds(chunk, listing));
    assert(tells(chunk, k, listing.items[k]));
    let e = chunk.entries@[k];
    let ent = r.ents[s][k];
    assert(chunk.wf(f.chunks.len() as int));
    lemma_flags(r.opts, r.kinds, r.root_dev, ent, r.claims[s][k]);
    assert(range_ok(f.chunks, f.raw, f.slots, f.raw.len() as int, i));
    if !counts_as_dir(ent) {
        assert(!has_flag(e.flags, flags::DIR));
        assert(e.chunk == NO_CHUNK);
        assert(!expands(f.chunks, f.slots, i));
        assert(f.nodes[i].child_len == 0);
        assert(f.nodes[i].spec_size(true) == f.raw[i].spec_size(true));
        assert(f.nodes[i].spec_size(false) == f.raw[i].spec_size(false));
    }
}

/// The first of a list of entries that is a link to an inode.
proof fn lemma_first_link(opts: ScanOptions, ents: Seq<EntView>, link: (i64, u64), n: int) -> (m:
    int)
    requires
        0 <= n < ents.len(),
        links_to(opts, ents[n], link),
    ensures
        0 <= m <= n,
        links_to(opts, ents[m], link),
        forall|h: int| 0 <= h < m ==> !links_to(opts, #[trigger] ents[h], link),
    decreases n,
{
    if exists|h: int| 0 <= h < n && links_to(opts, #[trigger] ents[h], link) {
        let h = choose|h: int| 0 <= h < n && links_to(opts, #[trigger] ents[h], link);
        lemma_first_link(opts, ents, link, h)
    } else {
        n
    }
}

/// What claiming gave for the entry at `n` in the order.
proof fn lemma_claim_at(r: Reading, order: Seq<(int, int)>, link: (i64, u64), first: int, n: int)
    requires
        r.claimed_in(order),
        0 <= first < order.len(),
        0 <= n < order.len(),
        links_to(r.opts, r.in_order(order)[first], link),
        links_to(r.opts, r.in_order(order)[n], link),
        forall|h: int| 0 <= h < first ==> !links_to(r.opts, #[trigger] r.in_order(order)[h], link),
    ensures
        r.claims[order[n].0][order[n].1] == Some(n == first),
{
    let ents = r.in_order(order);
    let before = ents.take(n);
    assert(r.has(order[n].0, order[n].1));
    assert(ents[n] == r.ents[order[n].0][order[n].1]);
    lemma_claimed_by(r.opts, before, Set::empty(), link);
    if n <= first {
        assert(n == first);
        assert forall|h: int| 0 <= h < before.len() implies !(#[trigger] links_to(
            r.opts,
            before[h],
            link,
        )) by {
            assert(before[h] == ents[h]);
        }
    } else {
        assert(before[first] == ents[first]);
        assert(links_to(r.opts, before[first], link));
    }
}

/// Where node `i` stands in the finished tree, when free space was put in.
pub open spec fn stands_at(nodes: Seq<Node>, free: Option<u64>, i: int) -> int {
    match free {
        // The free space is the last of the root's children.
        Some(_) => shifted(i, nodes[0].child_len as int),
        None => i,
    }
}

/// Whether a node has the size of its inode.
pub open spec fn has_size(n: Node, ent: EntView) -> bool {
    &&& !has_flag(n.flags, flags::HARDLINK_DUP)
    &&& n.logical == ent.logical
    &&& n.physical == ent.physical
}

/// Whether a node is marked as a further link and weighs nothing.
pub open spec fn is_further(n: Node) -> bool {
    &&& has_flag(n.flags, flags::HARDLINK_DUP)
    &&& n.logical == 0
    &&& n.physical == 0
}

/// The node that comes from entry `i` of `from`.
pub open spec fn node_from(nodes: Seq<Node>, free: Option<u64>, i: int) -> Node {
    nodes[stands_at(nodes, free, i)]
}

/// Whether entry `i` of `from` is one of several links to an inode.
pub open spec fn is_link(opts: ScanOptions, from: Seq<EntView>, link: (i64, u64), i: int) -> bool {
    0 < i < from.len() && links_to(opts, from[i], link)
}

/// Among the nodes of an inode, entry `one` has its size and no other.
pub open spec fn only(
    opts: ScanOptions,
    nodes: Seq<Node>,
    free: Option<u64>,
    from: Seq<EntView>,
    link: (i64, u64),
    one: int,
) -> bool {
    &&& is_link(opts, from, link, one)
    &&& has_size(node_from(nodes, free, one), from[one])
    &&& forall|j: int|
        j != one && #[trigger] is_link(opts, from, link, j) ==> is_further(
            node_from(nodes, free, j),
        )
}

/// Among the nodes of an inode one has its size, before the root is named.
proof fn lemma_one_node(
    f: Flat,
    r: Reading,
    order: Seq<(int, int)>,
    link: (i64, u64),
    any: int,
) -> (one: int)
    requires
        laid_out(f),
        all_met(f.chunks, f.slots),
        f.finished(),
        read_from(f.chunks, f.places, r),
        r.claimed_in(order),
        is_link(r.opts, origins(f, r), link, any),
    ensures
        only(r.opts, f.nodes, None, origins(f, r), link, one),
{
    let from = origins(f, r);
    let ents = r.in_order(order);
    let n = lemma_in_order(f, r, order, any);
    let first = lemma_first_link(r.opts, ents, link, n);
    let (s, k) = order[first];
    assert(r.has(order[first].0, order[first].1));
    if f.chunks[s] is None {
        assert(r.ents[s].len() == 0);
    }
    let chunk = f.chunks[s]->0;
    assert(holds(chunk, r.listing(s, f.places[s].len() as u8, chunk.unreadable)));
    let one = lemma_node_of(f, s, k);
    assert(from[one] == ents[first]);
    lemma_says(f, r, one);
    lemma_claim_at(r, order, link, first, first);
    lemma_flag_counts(r.opts, r.kinds, r.root_dev, from[one], r.claims[s][k]);
    assert forall|j: int| j != one && #[trigger] is_link(r.opts, from, link, j) implies is_further(
        node_from(f.nodes, None, j),
    ) by {
        let m = lemma_in_order(f, r, order, j);
        if m == first {
            lemma_origins_differ(f, one, j);
        }
        lemma_claim_at(r, order, link, first, m);
        lemma_says(f, r, j);
        let (t, h) = origin(f, j);
        lemma_flag_counts(r.opts, r.kinds, r.root_dev, from[j], r.claims[t][h]);
    }
    one
}

/// Where the entry of a node that shares its inode stands in the order.
proof fn lemma_in_order(f: Flat, r: Reading, order: Seq<(int, int)>, i: int) -> (n: int)
    requires
        laid_out(f),
        f.finished(),
        read_from(f.chunks, f.places, r),
        r.claimed_in(order),
        0 < i < f.raw.len(),
        shares_inode(r.opts, origins(f, r)[i]),
    ensures
        0 <= n < order.len(),
        order[n] == origin(f, i),
        r.in_order(order)[n] == origins(f, r)[i],
{
    lemma_says(f, r, i);
    let (s, k) = origin(f, i);
    assert(r.has(s, k));
    assert(order.contains((s, k)));
    choose|n: int| 0 <= n < order.len() && order[n] == (s, k)
}

/// Whether each entry that was read is that of a node, and each node but the
/// root and the free space has the name of its entry.
pub open spec fn comes_of(
    nodes: Seq<Node>,
    names: Seq<u8>,
    free: Option<u64>,
    from: Seq<EntView>,
    r: Reading,
) -> bool {
    &&& nodes.len() == from.len() + if free is Some {
        1int
    } else {
        0int
    }
    &&& forall|i: int|
        0 < i < from.len() ==> names.subrange(
            node_from(nodes, free, i).name_off as int,
            node_from(nodes, free, i).name_off + node_from(nodes, free, i).name_len,
        ) == cut((#[trigger] from[i]).name)
    &&& forall|s: int, k: int| #[trigger]
        r.has(s, k) ==> exists|i: int| 0 < i < from.len() && #[trigger] from[i] == r.ents[s][k]
}

/// However many names an inode has in a scanned tree, and whichever directories
/// they stand in, exactly one of their nodes has its size; the others are
/// marked and weigh nothing. Returns the entry that each node comes from.
pub proof fn lemma_tree_counts_once(
    chunks: Seq<Option<DirChunk>>,
    places: Seq<Seq<Seq<u8>>>,
    r: Reading,
    order: Seq<(int, int)>,
    kinds: KindTableView,
    root: Seq<u8>,
    free: Option<u64>,
    out_nodes: Seq<Node>,
    out_names: Seq<u8>,
) -> (from: Seq<EntView>)
    requires
        0 < chunks.len() < NO_CHUNK,
        chunks_wf(chunks),
        all_owned(chunks),
        read_from(chunks, places, r),
        r.claimed_in(order),
        assembled(chunks, kinds, root, free, out_nodes, out_names),
        out_nodes.len() <= u32::MAX,
    ensures
        comes_of(out_nodes, out_names, free, from, r),
        forall|link: (i64, u64), any: int| #[trigger]
            is_link(r.opts, from, link, any) ==> exists|one: int| #[trigger]
                only(r.opts, out_nodes, free, from, link, one),
{
    let (nodes, names) = choose|nodes: Seq<Node>, names: Seq<u8>| #[trigger]
        comes_from(chunks, kinds, nodes, names) && dressed(
            nodes,
            names,
            root,
            free,
            out_nodes,
            out_names,
        );
    let (raw, slots) = choose|raw: Seq<Node>, slots: Seq<u32>| #[trigger]
        flattened(chunks, kinds, nodes, names, raw, slots);
    lemma_slots(chunks, raw, names, slots);
    lemma_all_met(chunks, raw, names, slots);
    let f = Flat { chunks, places, max_depth: 0, raw, slots, names, nodes, kinds };
    assert(laid_out(f));
    lemma_first_children(chunks, kinds, nodes, names, raw, slots);
    let from = origins(f, r);
    assert forall|i: int| 0 < i < from.len() implies #[trigger] same_entry(
        nodes,
        names,
        out_nodes,
        out_names,
        free,
        i,
    ) by {
        lemma_origin_of(f, i);
        assert(nodes[i].name_off == raw[i].name_off && nodes[i].name_len == raw[i].name_len);
        lemma_same_entry(nodes, names, root, free, out_nodes, out_names, i);
    }
    assert forall|i: int| 0 < i < from.len() implies out_names.subrange(
        node_from(out_nodes, free, i).name_off as int,
        node_from(out_nodes, free, i).name_off + node_from(out_nodes, free, i).name_len,
    ) == cut((#[trigger] from[i]).name) by {
        assert(same_entry(nodes, names, out_nodes, out_names, free, i));
        lemma_says(f, r, i);
    }
    assert forall|s: int, k: int| #[trigger] r.has(s, k) implies exists|i: int|
        0 < i < from.len() && #[trigger] from[i] == r.ents[s][k] by {
        if chunks[s] is None {
            assert(r.ents[s].len() == 0);
        }
        let chunk = chunks[s]->0;
        assert(holds(chunk, r.listing(s, places[s].len() as u8, chunk.unreadable)));
        let i = lemma_node_of(f, s, k);
        assert(from[i] == r.ents[s][k]);
    }
    assert forall|link: (i64, u64), any: int| #[trigger]
        is_link(r.opts, from, link, any) implies exists|one: int| #[trigger]
        only(r.opts, out_nodes, free, from, link, one) by {
        let one = lemma_one_node(f, r, order, link, any);
        assert(same_entry(nodes, names, out_nodes, out_names, free, one));
        assert forall|j: int| j != one && #[trigger] is_link(r.opts, from, link, j) implies
            is_further(node_from(out_nodes, free, j)) by {
            assert(same_entry(nodes, names, out_nodes, out_names, free, j));
            assert(is_further(node_from(nodes, None, j)));
        }
        assert(only(r.opts, out_nodes, free, from, link, one));
    }
    from
}

/// Whether naming the root and putting in the free space left node `i` as it
/// was, but for where it stands.
spec fn same_entry(
    nodes: Seq<Node>,
    names: Seq<u8>,
    out_nodes: Seq<Node>,
    out_names: Seq<u8>,
    free: Option<u64>,
    i: int,
) -> bool {
    let (a, b) = (nodes[i], node_from(out_nodes, free, i));
    &&& a.flags == b.flags
    &&& a.logical == b.logical
    &&& a.physical == b.physical
    &&& names.subrange(a.name_off as int, a.name_off + a.name_len) == out_names.subrange(
        b.name_off as int,
        b.name_off + b.name_len,
    )
}

proof fn lemma_same_entry(
    nodes: Seq<Node>,
    names: Seq<u8>,
    root: Seq<u8>,
    free: Option<u64>,
    out_nodes: Seq<Node>,
    out_names: Seq<u8>,
    i: int,
)
    requires
        0 < i < nodes.len(),
        nodes[0].child_len < u32::MAX,
        nodes[i].name_off + nodes[i].name_len <= names.len(),
        dressed(nodes, names, root, free, out_nodes, out_names),
    ensures
        same_entry(nodes, names, out_nodes, out_names, free, i),
{
    let title = crate::paths::shown_name(root);
    let called = with_root_name(nodes, names.len() as int, title);
    let n = nodes[i];
    assert(called[i] == n);
    if let Some(bytes) = free {
        let at = 1 + called[0].child_len;
        assert(out_nodes[0].child_len == at);
        assert(out_nodes[shifted(i, at)] == moved(n, at));
    }
    assert(out_names.subrange(n.name_off as int, n.name_off + n.name_len) == names.subrange(
        n.name_off as int,
        n.name_off + n.name_len,
    ));
}

} // verus!
