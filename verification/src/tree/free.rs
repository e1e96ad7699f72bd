//! Making room for the free-space node.

use vstd::prelude::*;

use crate::sums::{lemma_sum_first, lemma_sum_same, lemma_sum_shift, lemma_sum_split, sum};
use crate::tree::arena::{
    child_end, deeper, in_child_range, name_len_at, name_total, shape_wf, size_at, sizes_wf, span_size,
};
use crate::tree::flags;
use crate::tree::{has_flag, Node, NodeId, ROOT};

verus! {

/// Where node `id` stands once a node has been put in at `at`.
pub open spec fn shifted(id: int, at: int) -> int {
    if id >= at {
        id + 1
    } else {
        id
    }
}

/// A node other than the root after a node has been put in at `at`.
pub open spec fn moved(n: Node, at: int) -> Node {
    Node {
        parent: shifted(n.parent as int, at) as u32,
        child_start: if n.child_len > 0 {
            shifted(n.child_start as int, at) as u32
        } else {
            n.child_start
        },
        ..n
    }
}

/// The free-space node itself.
pub open spec fn free_node(bytes: u64, kind: u16, name_off: u32) -> Node {
    Node {
        parent: ROOT,
        child_start: 0,
        child_len: 0,
        name_off,
        name_len: 12,
        kind,
        flags: flags::FREE_SPACE,
        depth: 1,
        logical: bytes,
        physical: bytes,
    }
}

/// The arena with the free-space node as the last child of the root.
pub open spec fn with_free_space(
    nodes: Seq<Node>,
    bytes: u64,
    kind: u16,
    name_off: u32,
) -> Seq<Node> {
    let at = 1 + nodes[0].child_len;
    Seq::new(
        nodes.len() + 1,
        |i: int|
            if i == 0 {
                Node {
                    child_start: 1,
                    child_len: (nodes[0].child_len + 1) as u32,
                    logical: (nodes[0].logical + bytes) as u64,
                    physical: (nodes[0].physical + bytes) as u64,
                    ..nodes[0]
                }
            } else if i < at {
                moved(nodes[i], at)
            } else if i == at {
                free_node(bytes, kind, name_off)
            } else {
                moved(nodes[i - 1], at)
            },
    )
}

fn shift(id: NodeId, at: NodeId) -> (to: NodeId)
    requires
        id < u32::MAX,
    ensures
        to == shifted(id as int, at as int),
{
    if id >= at {
        id + 1
    } else {
        id
    }
}

fn move_node(n: &Node, at: NodeId) -> (to: Node)
    requires
        n.parent < u32::MAX,
        n.child_len > 0 ==> n.child_start < u32::MAX,
    ensures
        to == moved(*n, at as int),
{
    let child_start: u32 = if n.child_len > 0 {
        shift(n.child_start, at)
    } else {
        n.child_start
    };
    Node { parent: shift(n.parent, at), child_start, ..*n }
}

/// The root's children are the nodes right after it.
pub proof fn lemma_root_children(nodes: Seq<Node>)
    requires
        shape_wf(nodes),
    ensures
        nodes[0].child_len > 0 ==> nodes[0].child_start == 1,
        1 + nodes[0].child_len <= nodes.len(),
        forall|c: int|
            1 <= c < nodes.len() ==> (c < 1 + nodes[0].child_len <==> (#[trigger] nodes[c]).parent
                == 0),
{
    if nodes.len() > 1 {
        assert(nodes[1].parent < 1);
        assert(in_child_range(nodes, 0, 1) <==> nodes[1].parent == 0);
    } else if nodes[0].child_len > 0 {
        assert(child_end(nodes, 0) <= nodes.len());
    }
    assert forall|c: int| 1 <= c < nodes.len() implies (c < 1 + nodes[0].child_len <==> (
    #[trigger] nodes[c]).parent == 0) by {
        assert(in_child_range(nodes, 0, c) <==> nodes[c].parent == 0);
    }
}

/// A copy of `nodes` with the free-space node as the last child of the root.
pub fn insert_free_space(nodes: &Vec<Node>, bytes: u64, kind: u16, name_off: u32) -> (out: Vec<
    Node,
>)
    requires
        shape_wf(nodes@),
        nodes@.len() < u32::MAX,
        nodes@[0].logical + bytes <= u64::MAX,
        nodes@[0].physical + bytes <= u64::MAX,
    ensures
        out@ == with_free_space(nodes@, bytes, kind, name_off),
{
    proof {
        lemma_root_children(nodes@);
    }
    let mut out: Vec<Node> = Vec::new();
    let root = nodes[0];
    let at: u32 = 1 + root.child_len;
    let ghost goal = with_free_space(nodes@, bytes, kind, name_off);
    out.push(
        Node {
            child_start: 1,
            child_len: root.child_len + 1,
            logical: root.logical + bytes,
            physical: root.physical + bytes,
            ..root
        },
    );
    let mut i: usize = 1;
    while i < nodes.len() + 1
        invariant
            shape_wf(nodes@),
            nodes@.len() < u32::MAX,
            1 <= i <= nodes@.len() + 1,
            at == 1 + nodes@[0].child_len,
            at <= nodes@.len(),
            goal == with_free_space(nodes@, bytes, kind, name_off),
            out@ == goal.take(i as int),
        decreases nodes@.len() + 1 - i,
    {
        if i == at as usize {
            out.push(
                Node {
                    parent: ROOT,
                    child_start: 0,
                    child_len: 0,
                    name_off,
                    name_len: 12,
                    kind,
                    flags: flags::FREE_SPACE,
                    depth: 1,
                    logical: bytes,
                    physical: bytes,
                },
            );
        } else {
            let from: usize = if i < at as usize {
                i
            } else {
                i - 1
            };
            let n = nodes[from];
            proof {
                assert(nodes@[from as int].parent < from);
                assert(n.child_len > 0 ==> child_end(nodes@, from as int) <= nodes@.len());
            }
            out.push(move_node(&n, at));
        }
        assert(out@ == goal.take(i + 1));
        i += 1;
    }
    assert(goal.take(goal.len() as int) == goal);
    out
}

/// Which node of the old arena stands at `i` in the new one, but for the root
/// and the node put in at `at`.
spec fn source(i: int, at: int) -> int {
    if i < at {
        i
    } else {
        i - 1
    }
}

/// Below the root's children, all child ranges come after them.
proof fn lemma_lower_ranges(nodes: Seq<Node>)
    requires
        shape_wf(nodes),
    ensures
        forall|p: int|
            1 <= p < nodes.len() && (#[trigger] nodes[p]).child_len > 0 ==> nodes[p].child_start
                >= 1 + nodes[0].child_len && nodes[p].child_start > p && child_end(nodes, p)
                <= nodes.len(),
{
    lemma_root_children(nodes);
    assert forall|p: int| 1 <= p < nodes.len() && (#[trigger] nodes[p]).child_len > 0 implies
        nodes[p].child_start >= 1 + nodes[0].child_len && nodes[p].child_start > p && child_end(
        nodes,
        p,
    ) <= nodes.len() by {
        let s = nodes[p].child_start as int;
        assert(in_child_range(nodes, p, s) <==> nodes[s].parent == p);
    }
}

/// The arena stays a breadth-first tree ...
#[verifier::rlimit(40)]
proof fn lemma_free_space_shape(nodes: Seq<Node>, bytes: u64, kind: u16, name_off: u32)
    requires
        shape_wf(nodes),
        nodes.len() < u32::MAX,
    ensures
        shape_wf(with_free_space(nodes, bytes, kind, name_off)),
{
    let after = with_free_space(nodes, bytes, kind, name_off);
    let at = 1 + nodes[0].child_len;
    lemma_root_children(nodes);
    lemma_lower_ranges(nodes);
    assert forall|c: int| 1 <= c < after.len() implies (#[trigger] after[c]).parent < c
        && after[c].depth == deeper(after[after[c].parent as int].depth) by {
        if c != at {
            let o = source(c, at);
            let p = nodes[o].parent as int;
            assert(p < o);
            if p != 0 {
                assert(after[shifted(p, at)] == moved(nodes[p], at));
            }
        }
    }
    assert forall|p: int| 0 <= p < after.len() && (#[trigger] after[p]).child_len > 0 implies p
        < after[p].child_start && child_end(after, p) <= after.len() by {
        if p != 0 {
            let o = source(p, at);
            assert(nodes[o].child_len > 0);
        }
    }
    assert forall|p: int, c: int| 0 <= p < after.len() && 1 <= c < after.len() implies (
    #[trigger] in_child_range(after, p, c) <==> after[c].parent == p) by {
        if c == at {
            if p != 0 && p != at {
                let o = source(p, at);
                assert(nodes[o].child_len > 0 ==> nodes[o].child_start >= at);
            }
        } else {
            let co = source(c, at);
            if p == 0 {
                assert(nodes[co].parent == 0 <==> co < at);
            } else if p != at {
                let o = source(p, at);
                assert(in_child_range(nodes, o, co) <==> nodes[co].parent == o);
                assert(nodes[o].child_len > 0 ==> nodes[o].child_start >= at);
            }
        }
    }
    assert forall|c: int, d: int| 1 <= c <= d < after.len() implies (#[trigger] after[c]).parent
        <= (#[trigger] after[d]).parent by {
        if c != at && d != at {
            assert(nodes[source(c, at)].parent <= nodes[source(d, at)].parent);
        } else if d == at && c != at {
            assert(nodes[source(c, at)].parent == 0);
        }
    }
}

/// The free-space node brings its own name and no other.
pub proof fn lemma_free_space_names(nodes: Seq<Node>, bytes: u64, kind: u16, name_off: u32)
    requires
        shape_wf(nodes),
    ensures
        name_total(with_free_space(nodes, bytes, kind, name_off)) == name_total(nodes) + 12,
{
    let after = with_free_space(nodes, bytes, kind, name_off);
    let at = 1 + nodes[0].child_len;
    lemma_root_children(nodes);
    lemma_put_in_names(nodes, after, at);
}

proof fn lemma_put_in_names(nodes: Seq<Node>, after: Seq<Node>, at: int)
    requires
        0 <= at <= nodes.len(),
        after.len() == nodes.len() + 1,
        after[at].name_len == 12,
        forall|i: int| 0 <= i < at ==> (#[trigger] after[i]).name_len == nodes[i].name_len,
        forall|i: int|
            at <= i < nodes.len() ==> (#[trigger] nodes[i]).name_len == after[i + 1].name_len,
    ensures
        name_total(after) == name_total(nodes) + 12,
{
    reveal(name_total);
    lemma_put_in(name_len_at(nodes), name_len_at(after), nodes.len() as int, at);
}

/// A term put in at `at` is added to the sum.
pub proof fn lemma_put_in(f: spec_fn(int) -> int, g: spec_fn(int) -> int, n: int, at: int)
    requires
        0 <= at <= n,
        forall|i: int| 0 <= i < at ==> #[trigger] f(i) == g(i),
        forall|i: int| at <= i < n ==> #[trigger] f(i) == g(i + 1),
    ensures
        sum(0, n + 1, g) == sum(0, n, f) + g(at),
{
    lemma_sum_split(0, at, n, f);
    lemma_sum_split(0, at, n + 1, g);
    lemma_sum_first(at, n + 1, g);
    lemma_sum_same(0, at, f, g);
    lemma_sum_shift(at, n, 1, f, g);
}

/// ... and its sizes still add up.
proof fn lemma_free_space_sizes(nodes: Seq<Node>, bytes: u64, kind: u16, name_off: u32)
    requires
        shape_wf(nodes),
        sizes_wf(nodes),
        nodes[0].spec_is_dir(),
        nodes.len() < u32::MAX,
        nodes[0].logical + bytes <= u64::MAX,
        nodes[0].physical + bytes <= u64::MAX,
    ensures
        sizes_wf(with_free_space(nodes, bytes, kind, name_off)),
{
    let after = with_free_space(nodes, bytes, kind, name_off);
    let at = 1 + nodes[0].child_len;
    lemma_root_children(nodes);
    lemma_lower_ranges(nodes);
    assert(!has_flag(flags::FREE_SPACE, flags::DIR)) by (bit_vector);
    assert forall|p: int|
        0 <= p < after.len() && !(#[trigger] after[p]).spec_is_dir() implies after[p].child_len
        == 0 by {
        if p != at {
            assert(nodes[source(p, at)].spec_is_dir() == after[p].spec_is_dir());
        }
    }
    assert forall|p: int, physical: bool|
        0 <= p < after.len() && after[p].spec_is_dir() implies #[trigger] after[p].spec_size(
        physical,
    ) == span_size(after, after[p].child_start as int, child_end(after, p), physical) by {
        let o = source(p, at);
        assert(p == at ==> !after[p].spec_is_dir());
        assert(after[p].spec_is_dir() == nodes[o].spec_is_dir());
        assert(nodes[o].spec_size(physical) == span_size(
            nodes,
            nodes[o].child_start as int,
            child_end(nodes, o),
            physical,
        ));
        lemma_one_size(nodes, bytes, kind, name_off, p, physical);
    }
}

proof fn lemma_one_size(
    nodes: Seq<Node>,
    bytes: u64,
    kind: u16,
    name_off: u32,
    p: int,
    physical: bool,
)
    requires
        1 + nodes[0].child_len <= nodes.len() < u32::MAX,
        0 <= p <= nodes.len(),
        p != 1 + nodes[0].child_len,
        nodes[0].logical + bytes <= u64::MAX,
        nodes[0].physical + bytes <= u64::MAX,
        ({
            let at = 1 + nodes[0].child_len;
            let o = source(p, at);
            let n = nodes[o];
            &&& n.spec_size(physical) == span_size(
                nodes,
                n.child_start as int,
                child_end(nodes, o),
                physical,
            )
            &&& o == 0 && n.child_len > 0 ==> n.child_start == 1
            &&& o > 0 && n.child_len > 0 ==> n.child_start >= at && child_end(nodes, o)
                <= nodes.len()
        }),
    ensures
        ({
            let after = with_free_space(nodes, bytes, kind, name_off);
            after[p].spec_size(physical) == span_size(
                after,
                after[p].child_start as int,
                child_end(after, p),
                physical,
            )
        }),
{
    let after = with_free_space(nodes, bytes, kind, name_off);
    let at = 1 + nodes[0].child_len;
    let o = source(p, at);
    if p == 0 {
        lemma_root_span(nodes, bytes, kind, name_off, physical);
    } else {
        assert(after[p] == moved(nodes[o], at));
        if nodes[o].child_len > 0 {
            lemma_lower_span(
                nodes,
                bytes,
                kind,
                name_off,
                nodes[o].child_start as int,
                child_end(nodes, o),
                physical,
            );
        }
    }
}

/// The root's children weigh what they did, and the free space.
proof fn lemma_root_span(
    nodes: Seq<Node>,
    bytes: u64,
    kind: u16,
    name_off: u32,
    physical: bool,
)
    requires
        nodes.len() >= 1 + nodes[0].child_len,
    ensures
        ({
            let at = 1 + nodes[0].child_len;
            span_size(with_free_space(nodes, bytes, kind, name_off), 1, at + 1, physical)
                == span_size(nodes, 1, at, physical) + bytes
        }),
{
    let after = with_free_space(nodes, bytes, kind, name_off);
    let at = 1 + nodes[0].child_len;
    let f = size_at(nodes, physical);
    let g = size_at(after, physical);
    assert forall|i: int| 1 <= i < at implies #[trigger] f(i) == g(i) by {
        assert(after[i] == moved(nodes[i], at));
    }
    lemma_sum_same(1, at, f, g);
    assert(sum(1, at + 1, g) == sum(1, at, g) + g(at));
}

/// A range below the root's children weighs what it did one index lower.
proof fn lemma_lower_span(
    nodes: Seq<Node>,
    bytes: u64,
    kind: u16,
    name_off: u32,
    s: int,
    e: int,
    physical: bool,
)
    requires
        1 + nodes[0].child_len <= s <= e <= nodes.len(),
    ensures
        span_size(with_free_space(nodes, bytes, kind, name_off), s + 1, e + 1, physical)
            == span_size(nodes, s, e, physical),
{
    let after = with_free_space(nodes, bytes, kind, name_off);
    let at = 1 + nodes[0].child_len;
    let f = size_at(nodes, physical);
    let g = size_at(after, physical);
    assert forall|i: int| s <= i < e implies #[trigger] f(i) == g(i + 1) by {
        assert(after[i + 1] == moved(nodes[i], at));
    }
    lemma_sum_shift(s, e, 1, f, g);
}

/// The arena stays a breadth-first tree whose sizes add up.
pub proof fn lemma_free_space(nodes: Seq<Node>, bytes: u64, kind: u16, name_off: u32)
    requires
        shape_wf(nodes),
        sizes_wf(nodes),
        nodes[0].spec_is_dir(),
        nodes.len() < u32::MAX,
        nodes[0].logical + bytes <= u64::MAX,
        nodes[0].physical + bytes <= u64::MAX,
    ensures
        shape_wf(with_free_space(nodes, bytes, kind, name_off)),
        sizes_wf(with_free_space(nodes, bytes, kind, name_off)),
{
    lemma_free_space_shape(nodes, bytes, kind, name_off);
    lemma_free_space_sizes(nodes, bytes, kind, name_off);
}

} // verus!
