//! What makes a vector of nodes a breadth-first tree.

use vstd::prelude::*;

use crate::sums::{lemma_sum_same, sum};
use crate::tree::Node;

verus! {

/// The sizes of the nodes of an arena, as a function of the index.
pub open spec fn size_at(nodes: Seq<Node>, physical: bool) -> spec_fn(int) -> int {
    |i: int| nodes[i].spec_size(physical) as int
}

/// Total size of the nodes `lo..hi`.
pub open spec fn span_size(nodes: Seq<Node>, lo: int, hi: int, physical: bool) -> int {
    sum(lo, hi, size_at(nodes, physical))
}

/// Whether `c` lies in the child range that node `p` records.
pub open spec fn in_child_range(nodes: Seq<Node>, p: int, c: int) -> bool {
    nodes[p].child_start <= c < nodes[p].child_start + nodes[p].child_len
}

/// One past the last child of `p`.
pub open spec fn child_end(nodes: Seq<Node>, p: int) -> int {
    nodes[p].child_start + nodes[p].child_len
}

/// Depth of an entry one level below depth `d`; the count stops at 255.
pub open spec fn deeper(d: u8) -> u8 {
    if d == u8::MAX {
        d
    } else {
        (d + 1) as u8
    }
}

/// Breadth-first shape: node 0 is the root, every other node comes after its
/// parent, the children of a node are exactly its recorded range, and children
/// stand in the order of their parents.
pub open spec fn shape_wf(nodes: Seq<Node>) -> bool {
    &&& 0 < nodes.len() <= u32::MAX
    &&& nodes[0].parent == 0
    &&& nodes[0].depth == 0
    &&& forall|c: int| 1 <= c < nodes.len() ==> (#[trigger] nodes[c]).parent < c
    &&& forall|c: int|
        1 <= c < nodes.len() ==> (#[trigger] nodes[c]).depth == deeper(
            nodes[nodes[c].parent as int].depth,
        )
    &&& forall|p: int|
        0 <= p < nodes.len() && (#[trigger] nodes[p]).child_len > 0 ==> p < nodes[p].child_start
            && child_end(nodes, p) <= nodes.len()
    &&& forall|p: int, c: int|
        0 <= p < nodes.len() && 1 <= c < nodes.len() ==> (#[trigger] in_child_range(nodes, p, c)
            <==> nodes[c].parent == p)
    &&& forall|c: int, d: int|
        1 <= c <= d < nodes.len() ==> (#[trigger] nodes[c]).parent <= (#[trigger] nodes[d]).parent
}

/// A directory weighs what its children add up to, and nothing else has
/// children.
pub open spec fn sizes_wf(nodes: Seq<Node>) -> bool {
    &&& forall|p: int|
        0 <= p < nodes.len() && !(#[trigger] nodes[p]).spec_is_dir() ==> nodes[p].child_len == 0
    &&& forall|p: int, physical: bool|
        0 <= p < nodes.len() && nodes[p].spec_is_dir() ==> #[trigger] nodes[p].spec_size(physical)
            == span_size(nodes, nodes[p].child_start as int, child_end(nodes, p), physical)
}

/// The lengths of the names of an arena, as a function of the index.
pub open spec fn name_len_at(nodes: Seq<Node>) -> spec_fn(int) -> int {
    |i: int| nodes[i].name_len as int
}

/// Bytes of all names together.
#[verifier::opaque]
pub open spec fn name_total(nodes: Seq<Node>) -> int {
    sum(0, nodes.len() as int, name_len_at(nodes))
}

/// Every node's name lies inside the name buffer, and the buffer has room for
/// all of them side by side.
pub open spec fn names_wf(nodes: Seq<Node>, names: Seq<u8>) -> bool {
    &&& names.len() <= u32::MAX
    &&& name_total(nodes) <= names.len()
    &&& forall|i: int|
        0 <= i < nodes.len() ==> (#[trigger] nodes[i]).name_off + nodes[i].name_len <= names.len()
}

/// The names that lead from below the root down to node `i`.
pub open spec fn place_of(nodes: Seq<Node>, names: Seq<u8>, i: int) -> Seq<Seq<u8>>
    decreases i,
{
    let n = nodes[i];
    let up = n.parent as int;
    if i <= 0 || up >= i {
        Seq::empty()
    } else {
        place_of(nodes, names, up).push(
            names.subrange(n.name_off as int, n.name_off + n.name_len),
        )
    }
}

/// Everything a finished tree promises of its arena.
pub open spec fn arena_wf(nodes: Seq<Node>, names: Seq<u8>) -> bool {
    &&& shape_wf(nodes)
    &&& sizes_wf(nodes)
    &&& names_wf(nodes, names)
}

/// Names have no part in the shape or the sizes.
pub proof fn lemma_rename(before: Seq<Node>, after: Seq<Node>, id: int)
    requires
        0 <= id < before.len(),
        shape_wf(before),
        sizes_wf(before),
        after == before.update(
            id,
            Node { name_off: after[id].name_off, name_len: after[id].name_len, ..before[id] },
        ),
    ensures
        shape_wf(after),
        sizes_wf(after),
{
    assert forall|p: int, c: int| 0 <= p < after.len() && 1 <= c < after.len() implies (
    #[trigger] in_child_range(after, p, c) <==> after[c].parent == p) by {
        assert(in_child_range(before, p, c) <==> before[c].parent == p);
    }
    assert forall|c: int, d: int| 1 <= c <= d < after.len() implies (#[trigger] after[c]).parent
        <= (#[trigger] after[d]).parent by {
        assert(before[c].parent <= before[d].parent);
    }
    assert forall|p: int| 0 <= p < after.len() && (#[trigger] after[p]).child_len > 0 implies p
        < after[p].child_start && child_end(after, p) <= after.len() by {
        assert(before[p].child_len > 0);
    }
    assert forall|c: int| 1 <= c < after.len() implies (#[trigger] after[c]).parent < c
        && after[c].depth == deeper(after[after[c].parent as int].depth) by {
        assert(before[c].parent < c);
    }
    assert forall|p: int|
        0 <= p < after.len() && !(#[trigger] after[p]).spec_is_dir() implies after[p].child_len
        == 0 by {
        assert(!before[p].spec_is_dir());
    }
    assert forall|p: int, physical: bool|
        0 <= p < after.len() && after[p].spec_is_dir() implies #[trigger] after[p].spec_size(
        physical,
    ) == span_size(after, after[p].child_start as int, child_end(after, p), physical) by {
        assert(before[p].spec_size(physical) == after[p].spec_size(physical));
        lemma_sum_same(
            after[p].child_start as int,
            child_end(after, p),
            size_at(before, physical),
            size_at(after, physical),
        );
    }
}

/// One node that is no directory makes an arena.
pub proof fn lemma_lone_file(nodes: Seq<Node>, names: Seq<u8>)
    requires
        nodes.len() == 1,
        nodes[0].parent == 0,
        nodes[0].depth == 0,
        nodes[0].child_start == 0,
        nodes[0].child_len == 0,
        !nodes[0].spec_is_dir(),
        nodes[0].name_off + nodes[0].name_len <= names.len() <= u32::MAX,
    ensures
        arena_wf(nodes, names),
{
    reveal(name_total);
    let f = name_len_at(nodes);
    assert(sum(0, 1, f) == sum(0, 0, f) + f(0));
}

} // verus!
