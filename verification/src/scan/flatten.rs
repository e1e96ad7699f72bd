//! Chunks to arena: a breadth-first queue walk, which is just a forward scan
//! over the node vector because children are appended in order.

use rayon::iter::{IntoParallelRefMutIterator, ParallelIterator};
use vstd::prelude::*;
use vstd::slice::slice_subrange;

use crate::kinds::{KindTable, KindTableView, KIND_FOLDER};
use crate::scan::chunk::{
    chunks_fit, chunks_wf, lemma_slots_hold, slot_entries, slot_names, slot_size, total_entries, total_names, total_size,
    DirChunk, RawEntry, NO_CHUNK,
};
use crate::sums::{
    lemma_sum_bounds, lemma_sum_point, lemma_sum_same, lemma_sum_shift, lemma_sum_split, lemma_sum_zero, sum,
};
use crate::tree::arena::{
    arena_wf, child_end, deeper, in_child_range, name_len_at, name_total, names_wf, shape_wf, size_at, span_size,
};
use crate::tree::flags;
use crate::tree::{has_flag, make_node, Node, NodeId, ROOT};

verus! {

/// Whether node `k` is the one that takes the chunk its slot names: the slot
/// holds something and no earlier node has taken it.
pub open spec fn expands(chunks: Seq<Option<DirChunk>>, slots: Seq<u32>, k: int) -> bool {
    &&& slots[k] != NO_CHUNK
    &&& chunks[slots[k] as int] is Some
    &&& forall|j: int| 0 <= j < k ==> #[trigger] slots[j] != slots[k]
}

/// The flags node `k` ends up with, given those its entry had.
pub open spec fn marked(
    chunks: Seq<Option<DirChunk>>,
    slots: Seq<u32>,
    k: int,
    flags: u8,
) -> u8 {
    if expands(chunks, slots, k) && chunks[slots[k] as int]->0.unreadable {
        flags | flags::UNREADABLE
    } else {
        flags
    }
}

/// How many children node `k` gets.
pub open spec fn arity(chunks: Seq<Option<DirChunk>>, slots: Seq<u32>) -> spec_fn(int) -> int {
    |k: int|
        if expands(chunks, slots, k) {
            chunks[slots[k] as int]->0.entries@.len() as int
        } else {
            0
        }
}

/// How many bytes of names the children of node `k` bring.
pub open spec fn name_weight(
    chunks: Seq<Option<DirChunk>>,
    slots: Seq<u32>,
) -> spec_fn(int) -> int {
    |k: int|
        if expands(chunks, slots, k) {
            chunks[slots[k] as int]->0.names@.len() as int
        } else {
            0
        }
}

/// Where the children of node `k` start: after the root and the children of
/// every node before `k`.
pub open spec fn first_child(chunks: Seq<Option<DirChunk>>, slots: Seq<u32>, k: int) -> int {
    1 + sum(0, k, arity(chunks, slots))
}

/// Where the names of the children of node `k` start.
pub open spec fn name_base(chunks: Seq<Option<DirChunk>>, slots: Seq<u32>, k: int) -> int {
    sum(0, k, name_weight(chunks, slots))
}

/// Child `k` of node `p` stands in its place and says what its entry said.
/// `done` nodes have had their chunk appended.
pub open spec fn child_ok(
    chunks: Seq<Option<DirChunk>>,
    nodes: Seq<Node>,
    names: Seq<u8>,
    slots: Seq<u32>,
    done: int,
    p: int,
    k: int,
) -> bool {
    let c = first_child(chunks, slots, p) + k;
    let chunk = chunks[slots[p] as int]->0;
    let e = chunk.entries@[k];
    let n = nodes[c];
    &&& p < c < nodes.len()
    &&& slots[c] == e.chunk
    &&& n.parent == p
    &&& n.depth == deeper(nodes[p].depth)
    &&& n.flags == if c < done {
        marked(chunks, slots, c, e.flags)
    } else {
        e.flags
    }
    &&& n.name_off == name_base(chunks, slots, p) + e.name_off
    &&& n.name_len == e.name_len
    &&& n.name_off + n.name_len <= names.len()
    &&& names.subrange(n.name_off as int, n.name_off + n.name_len) == chunk.entry_name(k)
    &&& n.logical == e.logical
    &&& n.physical == e.physical
    &&& n.kind == 0
}

/// Node `p` records the child range its chunk was appended at.
pub open spec fn range_ok(
    chunks: Seq<Option<DirChunk>>,
    nodes: Seq<Node>,
    slots: Seq<u32>,
    done: int,
    p: int,
) -> bool {
    let open = p < done && expands(chunks, slots, p);
    &&& nodes[p].child_start == if open {
        first_child(chunks, slots, p)
    } else {
        0
    }
    &&& nodes[p].child_len == if open {
        arity(chunks, slots)(p)
    } else {
        0
    }
}

/// The root as the walk starts with it, but for its child range.
pub open spec fn root_ok(
    chunks: Seq<Option<DirChunk>>,
    nodes: Seq<Node>,
    slots: Seq<u32>,
    done: int,
) -> bool {
    let n = nodes[0];
    &&& slots[0] == 0
    &&& n.parent == ROOT
    &&& n.depth == 0
    &&& n.flags == if 0 < done {
        marked(chunks, slots, 0, flags::DIR)
    } else {
        flags::DIR
    }
    &&& n.name_off == 0
    &&& n.name_len == 0
    &&& n.logical == 0
    &&& n.physical == 0
    &&& n.kind == 0
}

/// The walk has appended the chunks of the first `done` nodes.
pub open spec fn unrolled(
    chunks: Seq<Option<DirChunk>>,
    nodes: Seq<Node>,
    names: Seq<u8>,
    slots: Seq<u32>,
    done: int,
) -> bool {
    &&& 0 <= done <= nodes.len()
    &&& nodes.len() == slots.len()
    &&& nodes.len() == first_child(chunks, slots, done)
    &&& names.len() == name_base(chunks, slots, done)
    &&& root_ok(chunks, nodes, slots, done)
    &&& forall|p: int| 0 <= p < nodes.len() ==> #[trigger] range_ok(chunks, nodes, slots, done, p)
    &&& forall|p: int, k: int|
        0 <= p < done && 0 <= k < arity(chunks, slots)(p) ==> #[trigger] child_ok(
            chunks,
            nodes,
            names,
            slots,
            done,
            p,
            k,
        )
}

/// What is left in the slots after the first `done` nodes took theirs.
pub open spec fn left_over(
    chunks: Seq<Option<DirChunk>>,
    slots: Seq<u32>,
    done: int,
    rest: Seq<Option<DirChunk>>,
) -> bool {
    &&& rest.len() == chunks.len()
    &&& forall|s: int|
        0 <= s < chunks.len() ==> #[trigger] rest[s] == if exists|j: int|
            0 <= j < done && #[trigger] slots[j] == s {
            None
        } else {
            chunks[s]
        }
}

/// The node an entry becomes.
pub open spec fn entry_node(e: RawEntry, parent: int, base: int, depth: u8) -> Node {
    Node {
        parent: parent as u32,
        child_start: 0,
        child_len: 0,
        name_off: (base + e.name_off) as u32,
        name_len: e.name_len,
        kind: 0,
        flags: e.flags,
        depth,
        logical: e.logical,
        physical: e.physical,
    }
}

/// The nodes the entries of a chunk become.
pub open spec fn entry_nodes(chunk: DirChunk, parent: int, base: int, depth: u8) -> Seq<Node> {
    chunk.entries@.map(|k: int, e: RawEntry| entry_node(e, parent, base, depth))
}

/// The slots the entries of a chunk name.
pub open spec fn entry_slots(chunk: DirChunk) -> Seq<u32> {
    chunk.entries@.map(|k: int, e: RawEntry| e.chunk)
}

/// Appending to `slots` changes nothing about the nodes already there.
proof fn lemma_prefix(chunks: Seq<Option<DirChunk>>, a: Seq<u32>, b: Seq<u32>)
    requires
        a.len() <= b.len(),
        forall|k: int| 0 <= k < a.len() ==> a[k] == b[k],
    ensures
        forall|k: int|
            0 <= k < a.len() ==> #[trigger] expands(chunks, a, k) == expands(chunks, b, k),
        forall|k: int|
            0 <= k < a.len() ==> #[trigger] expands(chunks, b, k) == expands(chunks, a, k),
        forall|k: int|
            0 <= k <= a.len() ==> #[trigger] first_child(chunks, b, k) == first_child(chunks, a, k),
        forall|k: int|
            0 <= k <= a.len() ==> #[trigger] name_base(chunks, b, k) == name_base(chunks, a, k),
{
    assert forall|k: int| 0 <= k < a.len() implies #[trigger] expands(chunks, a, k) == expands(
        chunks,
        b,
        k,
    ) by {
        if expands(chunks, a, k) {
            assert forall|j: int| 0 <= j < k implies #[trigger] b[j] != b[k] by {
                assert(a[j] != a[k]);
            }
        }
        if expands(chunks, b, k) {
            assert forall|j: int| 0 <= j < k implies #[trigger] a[j] != a[k] by {
                assert(b[j] != b[k]);
            }
        }
    }
    assert forall|k: int| 0 <= k <= a.len() implies #[trigger] first_child(chunks, b, k)
        == first_child(chunks, a, k) by {
        assert forall|j: int| 0 <= j < k implies #[trigger] arity(chunks, b)(j) == arity(
            chunks,
            a,
        )(j) by {
            assert(expands(chunks, a, j) == expands(chunks, b, j));
        }
        lemma_sum_same(0, k, arity(chunks, b), arity(chunks, a));
    }
    assert forall|k: int| 0 <= k <= a.len() implies #[trigger] name_base(chunks, b, k)
        == name_base(chunks, a, k) by {
        assert forall|j: int| 0 <= j < k implies #[trigger] name_weight(chunks, b)(j)
            == name_weight(chunks, a)(j) by {
            assert(expands(chunks, a, j) == expands(chunks, b, j));
        }
        lemma_sum_same(0, k, name_weight(chunks, b), name_weight(chunks, a));
    }
}

/// A node that takes no chunk only moves the walk on.
proof fn lemma_skip(
    chunks: Seq<Option<DirChunk>>,
    nodes: Seq<Node>,
    names: Seq<u8>,
    slots: Seq<u32>,
    done: int,
)
    requires
        unrolled(chunks, nodes, names, slots, done),
        done < nodes.len(),
        !expands(chunks, slots, done),
    ensures
        unrolled(chunks, nodes, names, slots, done + 1),
{
    assert(arity(chunks, slots)(done) == 0);
    assert(name_weight(chunks, slots)(done) == 0);
    assert forall|p: int| 0 <= p < nodes.len() implies #[trigger] range_ok(
        chunks,
        nodes,
        slots,
        done + 1,
        p,
    ) by {
        assert(range_ok(chunks, nodes, slots, done, p));
    }
    assert forall|p: int, k: int|
        0 <= p < done + 1 && 0 <= k < arity(chunks, slots)(p) implies #[trigger] child_ok(
        chunks,
        nodes,
        names,
        slots,
        done + 1,
        p,
        k,
    ) by {
        assert(child_ok(chunks, nodes, names, slots, done, p, k));
    }
}

/// Taking a chunk appends its entries as the children of node `done`.
#[verifier::rlimit(30)]
proof fn lemma_expand(
    chunks: Seq<Option<DirChunk>>,
    nodes: Seq<Node>,
    names: Seq<u8>,
    slots: Seq<u32>,
    done: int,
    after: Seq<Node>,
    names_after: Seq<u8>,
    slots_after: Seq<u32>,
)
    requires
        unrolled(chunks, nodes, names, slots, done),
        chunks_wf(chunks),
        done < nodes.len(),
        nodes.len() <= u32::MAX,
        slots[done] < chunks.len(),
        expands(chunks, slots, done),
        nodes.len() + chunks[slots[done] as int]->0.entries@.len() <= u32::MAX,
        names.len() + chunks[slots[done] as int]->0.names@.len() <= u32::MAX,
        ({
            let chunk = chunks[slots[done] as int]->0;
            let kids = entry_nodes(
                chunk,
                done,
                names.len() as int,
                deeper(nodes[done].depth),
            );
            let opened = Node {
                child_start: nodes.len() as u32,
                child_len: chunk.entries@.len() as u32,
                flags: marked(chunks, slots, done, nodes[done].flags),
                ..nodes[done]
            };
            &&& after == nodes.update(done, opened) + kids
            &&& names_after == names + chunk.names@
            &&& slots_after == slots + entry_slots(chunk)
        }),
    ensures
        unrolled(chunks, after, names_after, slots_after, done + 1),
{
    let chunk = chunks[slots[done] as int]->0;
    lemma_prefix(chunks, slots, slots_after);
    assert(first_child(chunks, slots, done) == first_child(chunks, slots_after, done));
    assert(name_base(chunks, slots, done) == name_base(chunks, slots_after, done));
    assert(expands(chunks, slots_after, done));
    assert(arity(chunks, slots_after)(done) == chunk.entries@.len());
    assert(name_weight(chunks, slots_after)(done) == chunk.names@.len());
    assert(first_child(chunks, slots_after, done + 1) == after.len());
    assert(chunk.wf(chunks.len() as int));
    assert forall|p: int| 0 <= p < after.len() implies #[trigger] range_ok(
        chunks,
        after,
        slots_after,
        done + 1,
        p,
    ) by {
        if p < nodes.len() {
            assert(range_ok(chunks, nodes, slots, done, p));
            assert(expands(chunks, slots, p) == expands(chunks, slots_after, p));
            assert(first_child(chunks, slots, p) == first_child(chunks, slots_after, p));
        }
    }
    assert forall|p: int, k: int|
        0 <= p < done + 1 && 0 <= k < arity(chunks, slots_after)(p) implies #[trigger] child_ok(
        chunks,
        after,
        names_after,
        slots_after,
        done + 1,
        p,
        k,
    ) by {
        assert(expands(chunks, slots, p) == expands(chunks, slots_after, p));
        assert(first_child(chunks, slots, p) == first_child(chunks, slots_after, p));
        assert(name_base(chunks, slots, p) == name_base(chunks, slots_after, p));
        let c = first_child(chunks, slots_after, p) + k;
        let e = chunks[slots[p] as int]->0.entries@[k];
        if p < done {
            assert(child_ok(chunks, nodes, names, slots, done, p, k));
            assert(expands(chunks, slots, c) == expands(chunks, slots_after, c));
            let n = nodes[c];
            assert(names_after.subrange(n.name_off as int, n.name_off + n.name_len)
                == names.subrange(n.name_off as int, n.name_off + n.name_len));
        } else {
            assert(p == done);
            assert(c == nodes.len() + k);
            assert(e == chunk.entries@[k]);
            assert(e.name_off + e.name_len <= chunk.names@.len());
            let n = after[c];
            assert(n == entry_node(e, done, names.len() as int, deeper(nodes[done].depth)));
            assert(names_after.subrange(n.name_off as int, n.name_off + n.name_len)
                == chunk.entry_name(k));
        }
    }
    assert(expands(chunks, slots, 0) == expands(chunks, slots_after, 0));
}

/// Appends a node per entry of `chunk`, and the slots of their children.
fn append_entries(
    nodes: &mut Vec<Node>,
    slots: &mut Vec<u32>,
    chunk: &DirChunk,
    parent: NodeId,
    base: u32,
    depth: u8,
)
    requires
        forall|k: int|
            0 <= k < chunk.entries@.len() ==> base + (#[trigger] chunk.entries@[k]).name_off
                <= u32::MAX,
    ensures
        final(nodes)@ == old(nodes)@ + entry_nodes(*chunk, parent as int, base as int, depth),
        final(slots)@ == old(slots)@ + entry_slots(*chunk),
{
    let ghost to_node = |k: int, e: RawEntry| entry_node(e, parent as int, base as int, depth);
    let ghost to_slot = |k: int, e: RawEntry| e.chunk;
    let ghost es = chunk.entries@;
    for k in 0..chunk.entries.len()
        invariant
            es == chunk.entries@,
            forall|j: int| 0 <= j < es.len() ==> base + (#[trigger] es[j]).name_off <= u32::MAX,
            to_node == (|k: int, e: RawEntry| entry_node(e, parent as int, base as int, depth)),
            to_slot == (|k: int, e: RawEntry| e.chunk),
            nodes@ == old(nodes)@ + es.take(k as int).map(to_node),
            slots@ == old(slots)@ + es.take(k as int).map(to_slot),
    {
        let e = chunk.entries[k];
        assert(es[k as int] == e);
        nodes.push(
            make_node(parent, base + e.name_off, e.name_len, e.flags, depth, e.logical, e.physical),
        );
        slots.push(e.chunk);
        assert(es.take(k + 1) == es.take(k as int).push(e));
        assert(nodes@ == old(nodes)@ + es.take(k + 1).map(to_node));
        assert(slots@ == old(slots)@ + es.take(k + 1).map(to_slot));
    }
    assert(es.take(es.len() as int) == es);
}

/// Emptying a slot takes what it held off every total.
proof fn lemma_take(rest: Seq<Option<DirChunk>>, s: int)
    requires
        0 <= s < rest.len(),
        rest[s] is Some,
    ensures
        ({
            let after = rest.update(s, None);
            let chunk = rest[s]->0;
            &&& total_entries(after) == total_entries(rest) - chunk.entries@.len()
            &&& total_names(after) == total_names(rest) - chunk.names@.len()
            &&& total_size(after, true) == total_size(rest, true) - chunk.own_size(true)
            &&& total_size(after, false) == total_size(rest, false) - chunk.own_size(false)
        }),
{
    let after = rest.update(s, None);
    let n = rest.len() as int;
    lemma_sum_point(0, n, s, slot_entries(rest), slot_entries(after));
    lemma_sum_point(0, n, s, slot_names(rest), slot_names(after));
    lemma_sum_point(0, n, s, slot_size(rest, true), slot_size(after, true));
    lemma_sum_point(0, n, s, slot_size(rest, false), slot_size(after, false));
}

/// No total is negative.
proof fn lemma_totals(rest: Seq<Option<DirChunk>>)
    ensures
        0 <= total_entries(rest),
        0 <= total_names(rest),
        0 <= total_size(rest, true),
        0 <= total_size(rest, false),
{
    let n = rest.len() as int;
    lemma_slots_hold(rest);
    lemma_sum_bounds(0, n, slot_entries(rest));
    lemma_sum_bounds(0, n, slot_names(rest));
    lemma_sum_bounds(0, n, slot_size(rest, true));
    lemma_sum_bounds(0, n, slot_size(rest, false));
}

/// Appending a chunk's nodes adds the chunk's weight to the arena.
proof fn lemma_weigh(
    nodes: Seq<Node>,
    done: int,
    opened: Node,
    chunk: DirChunk,
    kids: Seq<Node>,
    physical: bool,
)
    requires
        0 <= done < nodes.len(),
        opened.logical == nodes[done].logical,
        opened.physical == nodes[done].physical,
        kids.len() == chunk.entries@.len(),
        forall|k: int|
            0 <= k < kids.len() ==> (#[trigger] kids[k]).logical == chunk.entries@[k].logical
                && kids[k].physical == chunk.entries@[k].physical,
    ensures
        ({
            let after = nodes.update(done, opened) + kids;
            span_size(after, 0, after.len() as int, physical) == span_size(
                nodes,
                0,
                nodes.len() as int,
                physical,
            ) + chunk.own_size(physical)
        }),
{
    let after = nodes.update(done, opened) + kids;
    let n = nodes.len() as int;
    let m = kids.len() as int;
    let own = |k: int| chunk.entries@[k].spec_size(physical) as int;
    lemma_sum_split(0, n, n + m, size_at(after, physical));
    lemma_sum_same(0, n, size_at(after, physical), size_at(nodes, physical));
    assert forall|k: int| 0 <= k < m implies #[trigger] own(k) == size_at(after, physical)(k + n) by {
        assert(after[k + n] == kids[k]);
    }
    lemma_sum_shift(0, m, n, own, size_at(after, physical));
}

/// The forward scan: every node takes the chunk its slot names, if that is
/// still there, and the chunk's entries go to the end of the queue.
fn unroll(chunks: Vec<Option<DirChunk>>) -> (arena: (Vec<Node>, Vec<u8>))
    requires
        0 < chunks@.len() < NO_CHUNK,
        chunks_wf(chunks@),
        total_entries(chunks@) + 1 <= u32::MAX,
        total_names(chunks@) <= u32::MAX,
    ensures
        arena.0@.len() <= 1 + total_entries(chunks@),
        arena.1@.len() <= total_names(chunks@),
        span_size(arena.0@, 0, arena.0@.len() as int, true) <= total_size(chunks@, true),
        span_size(arena.0@, 0, arena.0@.len() as int, false) <= total_size(chunks@, false),
        exists|slots: Seq<u32>| #[trigger] walked(chunks@, arena.0@, arena.1@, slots),
{
    let ghost given = chunks@;
    let mut chunks = chunks;
    let mut nodes: Vec<Node> = Vec::new();
    let mut names: Vec<u8> = Vec::new();
    // Which chunk holds each node's children, parallel to `nodes`.
    let mut pending: Vec<u32> = Vec::new();

    nodes.push(make_node(ROOT, 0, 0, flags::DIR, 0, 0, 0));
    pending.push(0);
    proof {
        assert(unrolled(given, nodes@, names@, pending@, 0));
        assert(sum(0, 1, size_at(nodes@, true)) == sum(0, 0, size_at(nodes@, true)) + 0);
        assert(sum(0, 1, size_at(nodes@, false)) == sum(0, 0, size_at(nodes@, false)) + 0);
    }

    let mut i: usize = 0;
    while i < nodes.len()
        invariant
            0 < given.len() < NO_CHUNK,
            chunks_wf(given),
            total_entries(given) + 1 <= u32::MAX,
            total_names(given) <= u32::MAX,
            i <= nodes@.len(),
            unrolled(given, nodes@, names@, pending@, i as int),
            left_over(given, pending@, i as int, chunks@),
            forall|k: int|
                0 <= k < pending@.len() ==> #[trigger] pending@[k] == NO_CHUNK || pending@[k]
                    < given.len(),
            nodes@.len() + total_entries(chunks@) == 1 + total_entries(given),
            names@.len() + total_names(chunks@) == total_names(given),
            span_size(nodes@, 0, nodes@.len() as int, true) + total_size(chunks@, true)
                == total_size(given, true),
            span_size(nodes@, 0, nodes@.len() as int, false) + total_size(chunks@, false)
                == total_size(given, false),
        decreases 1 + total_entries(given) - i,
    {
        proof {
            lemma_totals(chunks@);
        }
        let ghost nodes0 = nodes@;
        let ghost names0 = names@;
        let ghost slots0 = pending@;
        let ghost rest0 = chunks@;
        let slot: u32 = pending[i];
        if slot == NO_CHUNK {
            proof {
                lemma_skip(given, nodes0, names0, slots0, i as int);
                assert(left_over(given, pending@, i + 1, chunks@)) by {
                    assert forall|s: int| 0 <= s < given.len() implies #[trigger] chunks@[s]
                        == if exists|j: int| 0 <= j < i + 1 && #[trigger] pending@[j] == s {
                        None
                    } else {
                        given[s]
                    } by {
                        if exists|j: int| 0 <= j < i + 1 && #[trigger] pending@[j] == s {
                            let j = choose|j: int| 0 <= j < i + 1 && #[trigger] pending@[j] == s;
                            assert(0 <= j < i && pending@[j] == s);
                        }
                    }
                }
            }
            i += 1;
            continue;
        }
        let taken = chunks[slot as usize].take();
        proof {
            assert(taken == rest0[slot as int]);
            assert(chunks@ == rest0.update(slot as int, None));
            assert forall|s: int| 0 <= s < given.len() implies #[trigger] chunks@[s] == if exists|
                j: int,
            |
                0 <= j < i + 1 && #[trigger] pending@[j] == s {
                None
            } else {
                given[s]
            } by {
                assert(rest0[s] == if exists|j: int| 0 <= j < i && #[trigger] pending@[j] == s {
                    None
                } else {
                    given[s]
                });
                assert(pending@[i as int] == slot);
                if s != slot {
                    if exists|j: int| 0 <= j < i + 1 && #[trigger] pending@[j] == s {
                        let j = choose|j: int| 0 <= j < i + 1 && #[trigger] pending@[j] == s;
                        assert(0 <= j < i && pending@[j] == s);
                    }
                }
            }
            assert(expands(given, slots0, i as int) == (taken is Some)) by {
                assert(rest0[slot as int] == if exists|j: int|
                    0 <= j < i && #[trigger] slots0[j] == slot {
                    None
                } else {
                    given[slot as int]
                });
            }
        }
        match taken {
            None => {
                proof {
                    assert(rest0 == chunks@);
                    lemma_skip(given, nodes0, names0, slots0, i as int);
                }
                i += 1;
            },
            Some(chunk) => {
                proof {
                    lemma_take(rest0, slot as int);
                    lemma_totals(chunks@);
                    assert(given[slot as int] == Some(chunk));
                    assert(chunk.wf(given.len() as int));
                }
                let mut opened = nodes[i];
                if chunk.unreadable {
                    opened.flags = opened.flags | flags::UNREADABLE;
                }
                let depth: u8 = if opened.depth == u8::MAX {
                    opened.depth
                } else {
                    opened.depth + 1
                };
                let base: u32 = names.len() as u32;
                names.extend_from_slice(&chunk.names);
                opened.child_start = nodes.len() as NodeId;
                opened.child_len = chunk.entries.len() as u32;
                nodes.set(i, opened);
                append_entries(&mut nodes, &mut pending, &chunk, i as NodeId, base, depth);
                proof {
                    let kids = entry_nodes(
                        chunk,
                        i as int,
                        names0.len() as int,
                        deeper(nodes0[i as int].depth),
                    );
                    assert(depth == deeper(nodes0[i as int].depth));
                    assert(nodes@ == nodes0.update(i as int, opened) + kids);
                    assert(opened == Node {
                        child_start: nodes0.len() as u32,
                        child_len: chunk.entries@.len() as u32,
                        flags: marked(given, slots0, i as int, nodes0[i as int].flags),
                        ..nodes0[i as int]
                    });
                    assert(names@ == names0 + chunk.names@);
                    lemma_expand(
                        given,
                        nodes0,
                        names0,
                        slots0,
                        i as int,
                        nodes@,
                        names@,
                        pending@,
                    );
                    lemma_weigh(nodes0, i as int, opened, chunk, kids, true);
                    lemma_weigh(nodes0, i as int, opened, chunk, kids, false);
                    assert forall|k: int| 0 <= k < pending@.len() implies #[trigger] pending@[k]
                        == NO_CHUNK || pending@[k] < given.len() by {
                        if k >= slots0.len() {
                            assert(pending@[k] == chunk.entries@[k - slots0.len()].chunk);
                        }
                    }
                    assert(left_over(given, pending@, i + 1, chunks@)) by {
                        assert forall|s: int| 0 <= s < given.len() implies #[trigger] chunks@[s]
                            == if exists|j: int| 0 <= j < i + 1 && #[trigger] pending@[j] == s {
                            None
                        } else {
                            given[s]
                        } by {
                            assert(forall|j: int| 0 <= j < i + 1 ==> pending@[j] == slots0[j]);
                            if exists|j: int| 0 <= j < i + 1 && #[trigger] slots0[j] == s {
                                let j = choose|j: int| 0 <= j < i + 1 && #[trigger] slots0[j] == s;
                                assert(pending@[j] == s);
                            }
                        }
                    }
                }
                i += 1;
            },
        }
    }
    proof {
        lemma_totals(chunks@);
        if all_met(given, pending@) {
            lemma_all_taken(given, pending@, chunks@);
        }
    }
    let arena = (nodes, names);
    assert(walked(given, arena.0@, arena.1@, pending@));
    arena
}

/// Every slot that holds something is named by some node.
pub open spec fn all_met(chunks: Seq<Option<DirChunk>>, slots: Seq<u32>) -> bool {
    forall|s: int|
        0 <= s < chunks.len() && (#[trigger] chunks[s]) is Some ==> exists|k: int|
            0 <= k < slots.len() && #[trigger] slots[k] == s
}

/// Nothing is left out: one node per entry and the root, all names, all bytes.
pub open spec fn complete(
    chunks: Seq<Option<DirChunk>>,
    nodes: Seq<Node>,
    names: Seq<u8>,
) -> bool {
    &&& nodes.len() == 1 + total_entries(chunks)
    &&& names.len() == total_names(chunks)
    &&& span_size(nodes, 0, nodes.len() as int, true) == total_size(chunks, true)
    &&& span_size(nodes, 0, nodes.len() as int, false) == total_size(chunks, false)
}

/// The walk is over: every node has taken its chunk, and where it met all
/// slots it has all there is.
pub open spec fn walked(
    chunks: Seq<Option<DirChunk>>,
    nodes: Seq<Node>,
    names: Seq<u8>,
    slots: Seq<u32>,
) -> bool {
    &&& unrolled(chunks, nodes, names, slots, nodes.len() as int)
    &&& all_met(chunks, slots) ==> complete(chunks, nodes, names)
}

/// Where every slot was named, nothing is left over.
proof fn lemma_all_taken(
    chunks: Seq<Option<DirChunk>>,
    slots: Seq<u32>,
    rest: Seq<Option<DirChunk>>,
)
    requires
        left_over(chunks, slots, slots.len() as int, rest),
        all_met(chunks, slots),
    ensures
        total_entries(rest) == 0,
        total_names(rest) == 0,
        total_size(rest, true) == 0,
        total_size(rest, false) == 0,
{
    let n = rest.len() as int;
    assert forall|s: int| 0 <= s < n implies (#[trigger] rest[s]) is None by {
        assert(chunks[s] is Some || chunks[s] is None);
    }
    lemma_sum_zero(0, n, slot_entries(rest));
    lemma_sum_zero(0, n, slot_names(rest));
    lemma_sum_zero(0, n, slot_size(rest, true));
    lemma_sum_zero(0, n, slot_size(rest, false));
}

/// Child ranges come one after the other.
proof fn lemma_ranges(chunks: Seq<Option<DirChunk>>, slots: Seq<u32>, a: int, b: int)
    requires
        0 <= a < b,
    ensures
        first_child(chunks, slots, a) + arity(chunks, slots)(a) <= first_child(chunks, slots, b),
    decreases b,
{
    if a < b - 1 {
        lemma_ranges(chunks, slots, a, b - 1);
    }
}

/// Every node but the root was appended by some node before it.
pub proof fn lemma_origin(chunks: Seq<Option<DirChunk>>, slots: Seq<u32>, n: int, c: int) -> (p: int)
    requires
        0 <= n,
        1 <= c < first_child(chunks, slots, n),
    ensures
        0 <= p < n,
        first_child(chunks, slots, p) <= c < first_child(chunks, slots, p) + arity(chunks, slots)(p),
    decreases n,
{
    if c < first_child(chunks, slots, n - 1) {
        lemma_origin(chunks, slots, n - 1, c)
    } else {
        n - 1
    }
}

/// The names of the children of the first `done` nodes fit the bytes that
/// their chunks brought.
proof fn lemma_names_fit(
    chunks: Seq<Option<DirChunk>>,
    nodes: Seq<Node>,
    names: Seq<u8>,
    slots: Seq<u32>,
    done: int,
)
    requires
        unrolled(chunks, nodes, names, slots, nodes.len() as int),
        chunks_wf(chunks),
        forall|k: int|
            0 <= k < slots.len() ==> #[trigger] slots[k] == NO_CHUNK || slots[k] < chunks.len(),
        0 <= done <= nodes.len(),
    ensures
        sum(0, first_child(chunks, slots, done), name_len_at(nodes)) <= name_base(
            chunks,
            slots,
            done,
        ),
    decreases done,
{
    let f = name_len_at(nodes);
    let n = nodes.len() as int;
    if done == 0 {
        assert(sum(0, 1, f) == sum(0, 0, f) + f(0));
    } else {
        let p = done - 1;
        lemma_names_fit(chunks, nodes, names, slots, p);
        let from = first_child(chunks, slots, p);
        let many = arity(chunks, slots)(p);
        if p > 0 {
            lemma_ranges(chunks, slots, 0, p);
        }
        assert(first_child(chunks, slots, done) == from + many);
        assert(name_base(chunks, slots, done) == name_base(chunks, slots, p) + name_weight(
            chunks,
            slots,
        )(p));
        lemma_sum_split(0, from, from + many, f);
        if expands(chunks, slots, p) {
            assert(slots[p] < chunks.len());
            let chunk = chunks[slots[p] as int]->0;
            assert(chunk.wf(chunks.len() as int));
            reveal(DirChunk::own_names);
            let own = |k: int| chunk.entries@[k].name_len as int;
            assert forall|k: int| 0 <= k < many implies #[trigger] own(k) == f(k + from) by {
                assert(child_ok(chunks, nodes, names, slots, n, p, k));
            }
            lemma_sum_shift(0, many, from, own, f);
        }
    }
}

/// A finished walk leaves a breadth-first arena.
proof fn lemma_shape(
    chunks: Seq<Option<DirChunk>>,
    nodes: Seq<Node>,
    names: Seq<u8>,
    slots: Seq<u32>,
)
    requires
        unrolled(chunks, nodes, names, slots, nodes.len() as int),
        chunks_wf(chunks),
        forall|k: int|
            0 <= k < slots.len() ==> #[trigger] slots[k] == NO_CHUNK || slots[k] < chunks.len(),
        0 < nodes.len() <= u32::MAX,
        names.len() <= u32::MAX,
    ensures
        shape_wf(nodes),
        names_wf(nodes, names),
        forall|p: int|
            0 <= p < nodes.len() ==> if (#[trigger] nodes[p]).spec_is_dir() {
                nodes[p].logical == 0 && nodes[p].physical == 0
            } else {
                nodes[p].child_len == 0
            },
{
    let n = nodes.len() as int;
    assert(name_total(nodes) <= names.len()) by {
        reveal(name_total);
        lemma_names_fit(chunks, nodes, names, slots, n);
    }
    assert forall|c: int| 1 <= c < n implies (#[trigger] nodes[c]).parent < c && nodes[c].depth
        == deeper(nodes[nodes[c].parent as int].depth) && nodes[c].name_off + nodes[c].name_len
        <= names.len() by {
        let p = lemma_origin(chunks, slots, n, c);
        assert(child_ok(chunks, nodes, names, slots, n, p, c - first_child(chunks, slots, p)));
    }
    assert forall|p: int| 0 <= p < n && (#[trigger] nodes[p]).child_len > 0 implies p
        < nodes[p].child_start && child_end(nodes, p) <= n by {
        assert(range_ok(chunks, nodes, slots, n, p));
        assert(child_ok(chunks, nodes, names, slots, n, p, 0));
        lemma_ranges(chunks, slots, p, n);
    }
    assert forall|p: int, c: int| 0 <= p < n && 1 <= c < n implies (#[trigger] in_child_range(
        nodes,
        p,
        c,
    ) <==> nodes[c].parent == p) by {
        assert(range_ok(chunks, nodes, slots, n, p));
        if in_child_range(nodes, p, c) {
            assert(child_ok(chunks, nodes, names, slots, n, p, c - first_child(chunks, slots, p)));
        }
        if nodes[c].parent == p {
            let q = lemma_origin(chunks, slots, n, c);
            assert(child_ok(chunks, nodes, names, slots, n, q, c - first_child(chunks, slots, q)));
        }
    }
    assert forall|c: int, d: int| 1 <= c <= d < n implies (#[trigger] nodes[c]).parent <= (
    #[trigger] nodes[d]).parent by {
        let p = lemma_origin(chunks, slots, n, c);
        let q = lemma_origin(chunks, slots, n, d);
        assert(child_ok(chunks, nodes, names, slots, n, p, c - first_child(chunks, slots, p)));
        assert(child_ok(chunks, nodes, names, slots, n, q, d - first_child(chunks, slots, q)));
        if q < p {
            lemma_ranges(chunks, slots, q, p);
        }
    }
    assert forall|p: int| 0 <= p < n implies if (#[trigger] nodes[p]).spec_is_dir() {
        nodes[p].logical == 0 && nodes[p].physical == 0
    } else {
        nodes[p].child_len == 0
    } by {
        assert(range_ok(chunks, nodes, slots, n, p));
        if p == 0 {
            lemma_mark(flags::DIR);
            assert(has_flag(flags::DIR, flags::DIR)) by (bit_vector);
        } else {
            let q = lemma_origin(chunks, slots, n, p);
            let k = p - first_child(chunks, slots, q);
            assert(child_ok(chunks, nodes, names, slots, n, q, k));
            assert(slots[q] == NO_CHUNK || slots[q] < chunks.len());
            let chunk = chunks[slots[q] as int]->0;
            assert(chunk.wf(chunks.len() as int));
            let e = chunk.entries@[k];
            lemma_mark(e.flags);
        }
    }
}

/// Marking an entry unreadable does not change whether it is a directory.
pub proof fn lemma_mark(flags: u8)
    ensures
        has_flag(flags | flags::UNREADABLE, flags::DIR) == has_flag(flags, flags::DIR),
{
    assert(((flags | 16u8) & 1u8 != 0) == (flags & 1u8 != 0)) by (bit_vector);
}

/// Sizes roll up in one backwards pass: in breadth-first order a child's index
/// always exceeds its parent's, so every child is already final by the time it
/// is reached.
fn roll_up(nodes: &mut Vec<Node>)
    requires
        shape_wf(old(nodes)@),
        span_size(old(nodes)@, 0, old(nodes)@.len() as int, true) <= u64::MAX,
        span_size(old(nodes)@, 0, old(nodes)@.len() as int, false) <= u64::MAX,
    ensures
        rolled(old(nodes)@, final(nodes)@),
        final(nodes)@[0].physical == span_size(old(nodes)@, 0, old(nodes)@.len() as int, true),
        final(nodes)@[0].logical == span_size(old(nodes)@, 0, old(nodes)@.len() as int, false),
{
    let ghost own = nodes@;
    let ghost n = nodes@.len() as int;
    let mut i: usize = nodes.len();
    proof {
        assert forall|p: int, physical: bool| 0 <= p < n implies #[trigger] nodes@[p].spec_size(
            physical,
        ) == own[p].spec_size(physical) + late_children(nodes@, p, n, physical) by {
            assert(in_child_range(own, p, n) || !in_child_range(own, p, n));
        }
    }
    while i > 1
        invariant
            n == nodes@.len(),
            n == own.len(),
            1 <= i <= n,
            shape_wf(own),
            span_size(own, 0, n, true) <= u64::MAX,
            span_size(own, 0, n, false) <= u64::MAX,
            forall|p: int| 0 <= p < n ==> same_but_size(own[p], #[trigger] nodes@[p]),
            forall|p: int, physical: bool|
                0 <= p < n ==> #[trigger] nodes@[p].spec_size(physical) == own[p].spec_size(
                    physical,
                ) + late_children(nodes@, p, i as int, physical),
            span_size(nodes@, 0, i as int, true) == span_size(own, 0, n, true),
            span_size(nodes@, 0, i as int, false) == span_size(own, 0, n, false),
        decreases i,
    {
        let ghost before = nodes@;
        i -= 1;
        let child = nodes[i];
        let p = child.parent as usize;
        let mut parent = nodes[p];
        proof {
            assert(own[i as int].parent < i);
            assert forall|physical: bool|
                child.spec_size(physical) + #[trigger] parent.spec_size(physical)
                    <= u64::MAX by {
                let f = size_at(before, physical);
                lemma_sum_bounds(0, i as int, f);
                assert(f(p as int) <= sum(0, i as int, f));
                assert(sum(0, i + 1, f) == sum(0, i as int, f) + f(i as int));
            }
            assert(child.spec_size(true) + parent.spec_size(true) <= u64::MAX);
            assert(child.spec_size(false) + parent.spec_size(false) <= u64::MAX);
        }
        parent.logical = parent.logical + child.logical;
        parent.physical = parent.physical + child.physical;
        nodes.set(p, parent);
        proof {
            assert forall|physical: bool|
                span_size(nodes@, 0, i as int, physical) == #[trigger] span_size(
                    before,
                    0,
                    i + 1,
                    physical,
                ) by {
                let f = size_at(before, physical);
                let g = size_at(nodes@, physical);
                lemma_sum_point(0, i as int, p as int, f, g);
                assert(sum(0, i + 1, f) == sum(0, i as int, f) + f(i as int));
            }
            assert(span_size(nodes@, 0, i as int, true) == span_size(before, 0, i + 1, true));
            assert(span_size(nodes@, 0, i as int, false) == span_size(before, 0, i + 1, false));
            assert forall|q: int, physical: bool| 0 <= q < n implies #[trigger] nodes@[q].spec_size(
                physical,
            ) == own[q].spec_size(physical) + late_children(nodes@, q, i as int, physical) by {
                assert(in_child_range(own, q, i as int) <==> own[i as int].parent == q);
                assert(same_but_size(own[q], before[q]) && same_but_size(own[q], nodes@[q]));
                lemma_late(own, before, nodes@, q, i as int, physical);
                assert(before[q].spec_size(physical) == own[q].spec_size(physical)
                    + late_children(before, q, i + 1, physical));
            }
        }
    }
    proof {
        assert forall|p: int, physical: bool| 0 <= p < n implies #[trigger] nodes@[p].spec_size(
            physical,
        ) == own[p].spec_size(physical) + span_size(
            nodes@,
            nodes@[p].child_start as int,
            child_end(nodes@, p),
            physical,
        ) by {
            assert(same_but_size(own[p], nodes@[p]));
        }
        assert(span_size(nodes@, 0, 1, true) == span_size(nodes@, 0, 0, true)
            + nodes@[0].physical);
        assert(span_size(nodes@, 0, 1, false) == span_size(nodes@, 0, 0, false)
            + nodes@[0].logical);
    }
}

/// Two nodes agree on everything but their sizes.
pub open spec fn same_but_size(a: Node, b: Node) -> bool {
    b == Node { logical: b.logical, physical: b.physical, ..a }
}

/// `nodes` is `own` with every subtree's sizes added up.
pub open spec fn rolled(own: Seq<Node>, nodes: Seq<Node>) -> bool {
    &&& nodes.len() == own.len()
    &&& forall|p: int| 0 <= p < nodes.len() ==> same_but_size(own[p], #[trigger] nodes[p])
    &&& forall|p: int, physical: bool|
        0 <= p < nodes.len() ==> #[trigger] nodes[p].spec_size(physical) == own[p].spec_size(
            physical,
        ) + span_size(nodes, nodes[p].child_start as int, child_end(nodes, p), physical)
}

/// Total size of the children of `p` from index `from` on.
spec fn late_children(nodes: Seq<Node>, p: int, from: int, physical: bool) -> int {
    span_size(
        nodes,
        if from > nodes[p].child_start {
            from
        } else {
            nodes[p].child_start as int
        },
        child_end(nodes, p),
        physical,
    )
}

/// Folding node `i` into its parent accounts for one more child of that parent
/// and for no child of any other node.
proof fn lemma_late(
    own: Seq<Node>,
    before: Seq<Node>,
    after: Seq<Node>,
    q: int,
    i: int,
    physical: bool,
)
    requires
        before.len() == own.len(),
        after.len() == own.len(),
        1 <= i < own.len(),
        0 <= q < own.len(),
        own[q].child_len > 0 ==> child_end(own, q) <= own.len(),
        in_child_range(own, q, i) <==> own[i].parent == q,
        same_but_size(own[q], before[q]),
        same_but_size(own[q], after[q]),
        forall|k: int| i <= k < own.len() ==> #[trigger] after[k] == before[k],
    ensures
        late_children(after, q, i, physical) == late_children(before, q, i + 1, physical)
            + if own[i].parent == q {
            before[i].spec_size(physical) as int
        } else {
            0
        },
{
    let f = size_at(before, physical);
    let g = size_at(after, physical);
    let lo = own[q].child_start as int;
    let hi = child_end(own, q);
    let a = if i > lo {
        i
    } else {
        lo
    };
    let b = if i + 1 > lo {
        i + 1
    } else {
        lo
    };
    assert forall|k: int| a <= k < hi implies #[trigger] f(k) == g(k) by {
        assert(after[k] == before[k]);
    }
    lemma_sum_same(a, hi, f, g);
    if in_child_range(own, q, i) {
        lemma_sum_split(a, b, hi, f);
        assert(sum(i, i + 1, f) == sum(i, i, f) + f(i));
    }
}

/// The kind a node is given: a folder's for directories and free space, the
/// one its name has for everything else.
pub open spec fn node_kind(n: Node, names: Seq<u8>, kinds: KindTableView) -> u16 {
    if has_flag(n.flags, flags::DIR | flags::FREE_SPACE) {
        KIND_FOLDER
    } else {
        kinds.kind_of(names.subrange(n.name_off as int, n.name_off + n.name_len))
    }
}

/// Gives one node its kind.
fn classify_node(n: &mut Node, names: &[u8], kinds: &KindTable)
    requires
        old(n).name_off + old(n).name_len <= names@.len(),
    ensures
        *final(n) == (Node { kind: node_kind(*old(n), names@, kinds@), ..*old(n) }),
{
    n.kind = if n.flags & (flags::DIR | flags::FREE_SPACE) != 0 {
        KIND_FOLDER
    } else {
        let off: usize = n.name_off as usize;
        assert(names@.len() == names.len());
        kinds.classify(slice_subrange(names, off, off + n.name_len as usize))
    };
}

/// Gives every node its kind. 400 k+ lookups are worth spreading over the
/// pool; the names are only read here, so the split is trivially safe.
///
/// Calls rayon's `par_iter_mut` and `ParallelIterator::for_each`, which run
/// [`classify_node`] once on every node, in no particular order and on any
/// thread; the contract says that each node comes out as that leaves it.
#[verifier::external_body]
fn classify(nodes: &mut Vec<Node>, names: &[u8], kinds: &KindTable)
    requires
        names_wf(old(nodes)@, names@),
    ensures
        final(nodes)@ == old(nodes)@.map(
            |i: int, n: Node| Node { kind: node_kind(n, names@, kinds@), ..n },
        ),
{
    nodes.par_iter_mut().for_each(|n| classify_node(n, names, kinds));
}

/// `nodes` is what the walk left, classified, with sizes rolled up.
pub open spec fn finished(
    raw: Seq<Node>,
    nodes: Seq<Node>,
    names: Seq<u8>,
    kinds: KindTableView,
) -> bool {
    &&& nodes.len() == raw.len()
    &&& forall|p: int|
        0 <= p < nodes.len() ==> same_but_size(
            Node { kind: node_kind(raw[p], names, kinds), ..raw[p] },
            #[trigger] nodes[p],
        )
    &&& forall|p: int, physical: bool|
        0 <= p < nodes.len() ==> #[trigger] nodes[p].spec_size(physical) == raw[p].spec_size(
            physical,
        ) + span_size(nodes, nodes[p].child_start as int, child_end(nodes, p), physical)
}

/// The arena a set of chunks becomes: the nodes of the breadth-first walk, with
/// their kinds, and with the sizes of every subtree added up. The root weighs
/// what all entries together do.
pub open spec fn flattened(
    chunks: Seq<Option<DirChunk>>,
    kinds: KindTableView,
    nodes: Seq<Node>,
    names: Seq<u8>,
    raw: Seq<Node>,
    slots: Seq<u32>,
) -> bool {
    &&& walked(chunks, raw, names, slots)
    &&& finished(raw, nodes, names, kinds)
    &&& nodes[0].physical == span_size(raw, 0, raw.len() as int, true)
    &&& nodes[0].logical == span_size(raw, 0, raw.len() as int, false)
}

/// Chunks to arena.
pub fn flatten(chunks: Vec<Option<DirChunk>>, kinds: &KindTable) -> (arena: (Vec<Node>, Vec<u8>))
    requires
        0 < chunks@.len() < NO_CHUNK,
        chunks_wf(chunks@),
        chunks_fit(chunks@),
    ensures
        arena_wf(arena.0@, arena.1@),
        arena.0@.len() <= 1 + total_entries(chunks@),
        arena.1@.len() <= total_names(chunks@),
        arena.0@[0].physical <= total_size(chunks@, true),
        arena.0@[0].logical <= total_size(chunks@, false),
        exists|raw: Seq<Node>, slots: Seq<u32>| #[trigger]
            flattened(chunks@, kinds@, arena.0@, arena.1@, raw, slots),
{
    let ghost given = chunks@;
    let (mut nodes, names) = unroll(chunks);
    let ghost raw = nodes@;
    let ghost slots = choose|slots: Seq<u32>| #[trigger] walked(given, raw, names@, slots);
    proof {
        lemma_slots(given, raw, names@, slots);
        lemma_shape(given, raw, names@, slots);
    }
    roll_up(&mut nodes);
    let ghost sized = nodes@;
    proof {
        lemma_same_names(raw, sized, names@);
    }
    classify(&mut nodes, &names, kinds);
    proof {
        let done = nodes@;
        assert forall|p: int| 0 <= p < done.len() implies same_but_size(
            Node { kind: node_kind(raw[p], names@, kinds@), ..raw[p] },
            #[trigger] done[p],
        ) by {
            assert(same_but_size(raw[p], sized[p]));
        }
        assert forall|lo: int, hi: int, physical: bool|
            0 <= lo && hi <= done.len() implies #[trigger] span_size(done, lo, hi, physical)
            == span_size(sized, lo, hi, physical) by {
            lemma_sum_same(lo, hi, size_at(done, physical), size_at(sized, physical));
        }
        assert forall|p: int, physical: bool| 0 <= p < done.len() implies #[trigger] done[p].spec_size(
            physical,
        ) == raw[p].spec_size(physical) + span_size(
            done,
            done[p].child_start as int,
            child_end(done, p),
            physical,
        ) by {
            assert(same_but_size(raw[p], sized[p]));
            assert(sized[p].spec_size(physical) == raw[p].spec_size(physical) + span_size(
                sized,
                sized[p].child_start as int,
                child_end(sized, p),
                physical,
            ));
            assert(raw[p].child_len > 0 ==> child_end(raw, p) <= raw.len());
        }
        lemma_same_names(raw, done, names@);
        lemma_same_shape(raw, done);
        assert forall|p: int|
            0 <= p < done.len() && !(#[trigger] done[p]).spec_is_dir() implies done[p].child_len
            == 0 by {
            assert(same_but_size(raw[p], sized[p]));
            assert(!raw[p].spec_is_dir());
        }
        assert forall|p: int, physical: bool|
            0 <= p < done.len() && done[p].spec_is_dir() implies #[trigger] done[p].spec_size(
            physical,
        ) == span_size(done, done[p].child_start as int, child_end(done, p), physical) by {
            assert(same_but_size(raw[p], sized[p]));
            assert(raw[p].spec_is_dir());
        }
        assert(flattened(given, kinds@, done, names@, raw, slots));
    }
    (nodes, names)
}

/// Every slot the walk met is the root's or came from an entry.
pub proof fn lemma_slots(
    chunks: Seq<Option<DirChunk>>,
    nodes: Seq<Node>,
    names: Seq<u8>,
    slots: Seq<u32>,
)
    requires
        unrolled(chunks, nodes, names, slots, nodes.len() as int),
        chunks_wf(chunks),
        chunks.len() > 0,
    ensures
        forall|k: int|
            0 <= k < slots.len() ==> #[trigger] slots[k] == NO_CHUNK || slots[k] < chunks.len(),
{
    let n = nodes.len() as int;
    assert forall|k: int| 0 <= k < slots.len() implies #[trigger] slots[k] == NO_CHUNK || slots[k]
        < chunks.len() by {
        lemma_slot(chunks, nodes, names, slots, k);
    }
}

proof fn lemma_slot(
    chunks: Seq<Option<DirChunk>>,
    nodes: Seq<Node>,
    names: Seq<u8>,
    slots: Seq<u32>,
    k: int,
)
    requires
        unrolled(chunks, nodes, names, slots, nodes.len() as int),
        chunks_wf(chunks),
        chunks.len() > 0,
        0 <= k < slots.len(),
    ensures
        slots[k] == NO_CHUNK || slots[k] < chunks.len(),
    decreases k,
{
    if k > 0 {
        let n = nodes.len() as int;
        let p = lemma_origin(chunks, slots, n, k);
        let j = k - first_child(chunks, slots, p);
        assert(child_ok(chunks, nodes, names, slots, n, p, j));
        lemma_slot(chunks, nodes, names, slots, p);
        let chunk = chunks[slots[p] as int]->0;
        assert(chunk.wf(chunks.len() as int));
        assert(slots[k] == chunk.entries@[j].chunk);
    }
}

/// Kinds and sizes have no part in the names.
proof fn lemma_same_names(raw: Seq<Node>, done: Seq<Node>, names: Seq<u8>)
    requires
        names_wf(raw, names),
        done.len() == raw.len(),
        forall|p: int|
            0 <= p < done.len() ==> (#[trigger] done[p]).name_off == raw[p].name_off
                && done[p].name_len == raw[p].name_len,
    ensures
        names_wf(done, names),
{
    reveal(name_total);
    lemma_sum_same(0, raw.len() as int, name_len_at(done), name_len_at(raw));
    assert forall|i: int| 0 <= i < done.len() implies (#[trigger] done[i]).name_off
        + done[i].name_len <= names.len() by {
        assert(raw[i].name_off + raw[i].name_len <= names.len());
    }
}

/// Kinds and sizes have no part in the shape.
proof fn lemma_same_shape(raw: Seq<Node>, done: Seq<Node>)
    requires
        shape_wf(raw),
        done.len() == raw.len(),
        forall|p: int|
            0 <= p < done.len() ==> (#[trigger] done[p]).parent == raw[p].parent && done[p].depth
                == raw[p].depth && done[p].child_start == raw[p].child_start && done[p].child_len
                == raw[p].child_len,
    ensures
        shape_wf(done),
{
    assert forall|p: int, c: int| 0 <= p < done.len() && 1 <= c < done.len() implies (
    #[trigger] in_child_range(done, p, c) <==> done[c].parent == p) by {
        assert(in_child_range(raw, p, c) <==> raw[c].parent == p);
    }
    assert forall|c: int, d: int| 1 <= c <= d < done.len() implies (#[trigger] done[c]).parent <= (
    #[trigger] done[d]).parent by {
        assert(raw[c].parent <= raw[d].parent);
    }
    assert forall|p: int| 0 <= p < done.len() && (#[trigger] done[p]).child_len > 0 implies p
        < done[p].child_start && child_end(done, p) <= done.len() by {
        assert(raw[p].child_len > 0);
    }
    assert forall|c: int| 1 <= c < done.len() implies (#[trigger] done[c]).parent < c
        && done[c].depth == deeper(done[done[c].parent as int].depth) by {
        assert(raw[c].parent < c);
    }
}

} // verus!
