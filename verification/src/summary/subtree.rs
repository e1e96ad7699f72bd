//! Walking a subtree.

use vstd::prelude::*;

use crate::sums::{lemma_sum_add, lemma_sum_point, lemma_sum_same, lemma_sum_zero, sum};
use crate::tree::arena::{child_end, in_child_range, shape_wf};
use crate::tree::{Node, NodeId, Tree, ROOT};

verus! {

/// Whether node `id` is `root` or lies below it.
pub open spec fn under(nodes: Seq<Node>, id: int, root: int) -> bool
    decreases id,
{
    id == root || (0 < id < nodes.len() && nodes[id].parent < id && under(
        nodes,
        nodes[id].parent as int,
        root,
    ))
}

/// Whether node `id` is or lies below one of the nodes `lo..hi`.
pub open spec fn under_any(nodes: Seq<Node>, id: int, lo: int, hi: int) -> bool {
    exists|c: int| lo <= c < hi && #[trigger] under(nodes, id, c)
}

/// The subtree of `id` in the order a walk visits it: the node, then the
/// subtrees of its children, the last child first.
pub open spec fn preorder(nodes: Seq<Node>, id: int) -> Seq<NodeId>
    decreases nodes.len() - id, 0int,
{
    if 0 <= id < nodes.len() && nodes[id].child_start > id && child_end(nodes, id) <= nodes.len() {
        seq![id as NodeId] + preorder_all(
            nodes,
            nodes[id].child_start as int,
            child_end(nodes, id),
        )
    } else {
        seq![id as NodeId]
    }
}

/// The subtrees of the nodes `lo..hi`, the last one first.
pub open spec fn preorder_all(nodes: Seq<Node>, lo: int, hi: int) -> Seq<NodeId>
    decreases nodes.len() - lo, hi - lo + 1,
{
    if 0 <= lo < hi <= nodes.len() {
        preorder(nodes, hi - 1) + preorder_all(nodes, lo, hi - 1)
    } else {
        Seq::empty()
    }
}

/// The subtrees of the nodes on a stack, the top one first.
spec fn unstacked(nodes: Seq<Node>, stack: Seq<NodeId>) -> Seq<NodeId>
    decreases stack.len(),
{
    if stack.len() == 0 {
        Seq::empty()
    } else {
        preorder(nodes, stack.last() as int) + unstacked(nodes, stack.drop_last())
    }
}

/// The ids `lo..hi`.
pub open spec fn id_range(lo: int, hi: int) -> Seq<NodeId> {
    Seq::new((if lo <= hi { hi - lo } else { 0 }) as nat, |i: int| (lo + i) as NodeId)
}

proof fn lemma_unstacked_push(nodes: Seq<Node>, stack: Seq<NodeId>, lo: int, hi: int)
    requires
        0 <= lo <= hi <= nodes.len() <= u32::MAX,
    ensures
        unstacked(nodes, stack + id_range(lo, hi)) == preorder_all(nodes, lo, hi) + unstacked(
            nodes,
            stack,
        ),
    decreases hi - lo,
{
    let kids = id_range(lo, hi);
    if lo == hi {
        assert(stack + kids == stack);
        assert(preorder_all(nodes, lo, hi) + unstacked(nodes, stack) == unstacked(nodes, stack));
    } else {
        let less = id_range(lo, hi - 1);
        assert((stack + kids).drop_last() == stack + less);
        assert((stack + kids).last() == hi - 1);
        lemma_unstacked_push(nodes, stack, lo, hi - 1);
        assert(preorder(nodes, hi - 1) + (preorder_all(nodes, lo, hi - 1) + unstacked(nodes, stack))
            == (preorder(nodes, hi - 1) + preorder_all(nodes, lo, hi - 1)) + unstacked(
            nodes,
            stack,
        ));
    }
}

/// The ids of `root` and everything under it, depth first, `root` first.
pub fn for_each_in_subtree(tree: &Tree, root: NodeId) -> (visited: Vec<NodeId>)
    requires
        tree@.wf(),
        tree@.has(root as int),
    ensures
        visited@ == preorder(tree@.nodes, root as int),
        forall|k: int| 0 <= k < visited@.len() ==> tree@.has(#[trigger] visited@[k] as int),
{
    let ghost nodes = tree@.nodes;
    let ghost goal = preorder(nodes, root as int);
    let mut visited: Vec<NodeId> = Vec::new();
    let mut stack: Vec<NodeId> = Vec::new();
    stack.push(root);
    proof {
        assert(stack@.drop_last() == Seq::<NodeId>::empty());
        reveal_with_fuel(unstacked, 2);
        assert(visited@ + unstacked(nodes, stack@) == goal);
    }
    while stack.len() > 0
        invariant
            tree@.wf(),
            nodes == tree@.nodes,
            goal == preorder(nodes, root as int),
            visited@ + unstacked(nodes, stack@) == goal,
            forall|k: int| 0 <= k < stack@.len() ==> tree@.has(#[trigger] stack@[k] as int),
            forall|k: int| 0 <= k < visited@.len() ==> tree@.has(#[trigger] visited@[k] as int),
        decreases goal.len() - visited@.len(),
    {
        let ghost before = stack@;
        let ghost seen = visited@;
        if let Some(id) = stack.pop() {
            visited.push(id);
            let kids = tree.children(id);
            let ghost rest = stack@;
            let lo: NodeId = kids.start;
            let hi: NodeId = kids.end;
            proof {
                assert(before.drop_last() == rest);
                assert(tree@.has(before.last() as int));
                assert(hi > lo ==> nodes[id as int].child_len > 0);
                assert(rest + id_range(lo as int, lo as int) == rest);
            }
            for c in lo..hi
                invariant
                    tree@.wf(),
                    nodes == tree@.nodes,
                    hi > lo ==> hi <= nodes.len(),
                    stack@ == rest + id_range(lo as int, c as int),
                    forall|k: int| 0 <= k < stack@.len() ==> tree@.has(#[trigger] stack@[k] as int),
            {
                stack.push(c);
                assert(stack@ == rest + id_range(lo as int, c + 1));
            }
            proof {
                let n = nodes[id as int];
                if n.child_len > 0 {
                    lemma_unstacked_push(nodes, rest, lo as int, hi as int);
                    assert(preorder(nodes, id as int) == seq![id] + preorder_all(
                        nodes,
                        lo as int,
                        hi as int,
                    ));
                } else {
                    assert(stack@ == rest);
                    assert(preorder_all(nodes, lo as int, hi as int) == Seq::<NodeId>::empty());
                    assert(preorder(nodes, id as int) == seq![id]);
                }
                assert(visited@ + unstacked(nodes, stack@) == seen + (preorder(nodes, id as int)
                    + unstacked(nodes, rest)));
            }
        }
    }
    assert(visited@ + Seq::<NodeId>::empty() == visited@);
    visited
}

/// The sum of `f` over the ids of a list.
pub open spec fn list_sum(ids: Seq<NodeId>, f: spec_fn(int) -> int) -> int
    decreases ids.len(),
{
    if ids.len() == 0 {
        0
    } else {
        list_sum(ids.drop_last(), f) + f(ids.last() as int)
    }
}

pub proof fn lemma_list_sum_append(a: Seq<NodeId>, b: Seq<NodeId>, f: spec_fn(int) -> int)
    ensures
        list_sum(a + b, f) == list_sum(a, f) + list_sum(b, f),
    decreases b.len(),
{
    if b.len() == 0 {
        assert(a + b == a);
    } else {
        assert((a + b).drop_last() == a + b.drop_last());
        lemma_list_sum_append(a, b.drop_last(), f);
    }
}

/// `f` on the nodes at and below `root`, nothing elsewhere.
pub open spec fn only_under(
    nodes: Seq<Node>,
    root: int,
    f: spec_fn(int) -> int,
) -> spec_fn(int) -> int {
    |i: int|
        if under(nodes, i, root) {
            f(i)
        } else {
            0
        }
}

/// `f` on the nodes at and below `lo..hi`, nothing elsewhere.
pub open spec fn only_under_any(
    nodes: Seq<Node>,
    lo: int,
    hi: int,
    f: spec_fn(int) -> int,
) -> spec_fn(int) -> int {
    |i: int|
        if under_any(nodes, i, lo, hi) {
            f(i)
        } else {
            0
        }
}

/// The sum of `f` over all nodes at and below `root`.
pub open spec fn subtree_sum(nodes: Seq<Node>, root: int, f: spec_fn(int) -> int) -> int {
    sum(0, nodes.len() as int, only_under(nodes, root, f))
}

/// Parents come before their children; the rest of the shape is not needed to
/// reason about who lies under whom.
pub open spec fn parents_first(nodes: Seq<Node>) -> bool {
    forall|c: int| 1 <= c < nodes.len() ==> (#[trigger] nodes[c]).parent < c
}

/// What lies under a node does not come before it.
pub proof fn lemma_under_order(nodes: Seq<Node>, id: int, root: int)
    requires
        under(nodes, id, root),
    ensures
        root <= id,
    decreases id,
{
    if id != root {
        lemma_under_order(nodes, nodes[id].parent as int, root);
    }
}

/// Two nodes that a third lies under lie under one another.
pub proof fn lemma_under_line(nodes: Seq<Node>, id: int, a: int, b: int)
    requires
        under(nodes, id, a),
        under(nodes, id, b),
    ensures
        under(nodes, a, b) || under(nodes, b, a),
    decreases id,
{
    if id != a && id != b {
        lemma_under_line(nodes, nodes[id].parent as int, a, b);
    }
}

/// No node lies under two siblings.
pub proof fn lemma_siblings_apart(nodes: Seq<Node>, id: int, a: int, b: int)
    requires
        1 <= a < nodes.len(),
        1 <= b < nodes.len(),
        a != b,
        nodes[a].parent == nodes[b].parent,
        nodes[a].parent < a,
        nodes[b].parent < b,
        under(nodes, id, a),
    ensures
        !under(nodes, id, b),
{
    if under(nodes, id, b) {
        lemma_under_line(nodes, id, a, b);
        if under(nodes, a, b) {
            lemma_under_order(nodes, nodes[a].parent as int, b);
        } else {
            lemma_under_order(nodes, nodes[b].parent as int, a);
        }
    }
}

/// Everything lies under the root.
pub proof fn lemma_under_root(nodes: Seq<Node>, id: int)
    requires
        parents_first(nodes),
        0 <= id < nodes.len(),
    ensures
        under(nodes, id, 0),
    decreases id,
{
    if id > 0 {
        assert(nodes[id].parent < id);
        lemma_under_root(nodes, nodes[id].parent as int);
    }
}

/// A node lies under another exactly if it is that node or lies under one of
/// its children.
pub proof fn lemma_under_children(nodes: Seq<Node>, id: int, p: int)
    requires
        shape_wf(nodes),
        0 <= p < nodes.len(),
        0 <= id < nodes.len(),
    ensures
        under(nodes, id, p) <==> id == p || under_any(
            nodes,
            id,
            nodes[p].child_start as int,
            child_end(nodes, p),
        ),
        under_any(nodes, id, nodes[p].child_start as int, child_end(nodes, p)) ==> id != p,
    decreases id,
{
    let lo = nodes[p].child_start as int;
    let hi = child_end(nodes, p);
    if under_any(nodes, id, lo, hi) {
        let c = choose|c: int| lo <= c < hi && #[trigger] under(nodes, id, c);
        assert(nodes[p].child_len > 0);
        assert(in_child_range(nodes, p, c) <==> nodes[c].parent == p);
        lemma_under_order(nodes, id, c);
        lemma_under_child(nodes, id, c, p);
    }
    if under(nodes, id, p) && id != p {
        let up = nodes[id].parent as int;
        lemma_under_children(nodes, up, p);
        if up == p {
            assert(in_child_range(nodes, p, id) <==> nodes[id].parent == p);
            assert(under(nodes, id, id));
        } else {
            let c = choose|c: int| lo <= c < hi && #[trigger] under(nodes, up, c);
            lemma_under_order(nodes, up, c);
            assert(under(nodes, id, c));
        }
    }
}

/// What lies under a child lies under its parent.
pub proof fn lemma_under_child(nodes: Seq<Node>, id: int, c: int, p: int)
    requires
        1 <= c < nodes.len(),
        nodes[c].parent == p,
        p < c,
        under(nodes, id, c),
    ensures
        under(nodes, id, p),
    decreases id,
{
    if id == c {
        assert(under(nodes, p, p));
    } else {
        lemma_under_child(nodes, nodes[id].parent as int, c, p);
    }
}

/// The sum over a subtree is its root's share and that of the subtrees of its
/// children.
pub proof fn lemma_subtree_sum(nodes: Seq<Node>, root: int, f: spec_fn(int) -> int)
    requires
        shape_wf(nodes),
        0 <= root < nodes.len(),
    ensures
        subtree_sum(nodes, root, f) == f(root) + sum(
            0,
            nodes.len() as int,
            only_under_any(nodes, nodes[root].child_start as int, child_end(nodes, root), f),
        ),
{
    let n = nodes.len() as int;
    let lo = nodes[root].child_start as int;
    let hi = child_end(nodes, root);
    let own = |i: int|
        if i == root {
            f(i)
        } else {
            0
        };
    let rest = only_under_any(nodes, lo, hi, f);
    assert forall|i: int| 0 <= i < n implies #[trigger] only_under(nodes, root, f)(i) == own(i)
        + rest(i) by {
        lemma_under_children(nodes, i, root);
    }
    lemma_sum_add(0, n, own, rest, only_under(nodes, root, f));
    let none = |i: int| 0int;
    lemma_sum_zero(0, n, none);
    lemma_sum_point(0, n, root, none, own);
}

/// Summing over a walk is summing over the subtree: every node at and below
/// `root` is visited exactly once, and no other.
pub proof fn lemma_visits_once(nodes: Seq<Node>, root: int, f: spec_fn(int) -> int)
    requires
        shape_wf(nodes),
        0 <= root < nodes.len(),
    ensures
        list_sum(preorder(nodes, root), f) == subtree_sum(nodes, root, f),
    decreases nodes.len() - root, 0int,
{
    let n = nodes.len() as int;
    let lo = nodes[root].child_start as int;
    let hi = child_end(nodes, root);
    lemma_subtree_sum(nodes, root, f);
    let rest = only_under_any(nodes, lo, hi, f);
    reveal_with_fuel(list_sum, 2);
    let first = seq![root as NodeId];
    assert(first.drop_last() == Seq::<NodeId>::empty());
    assert(list_sum(first, f) == f(root));
    if nodes[root].child_len > 0 {
        lemma_visits_all_once(nodes, root, lo, hi, f);
        lemma_list_sum_append(first, preorder_all(nodes, lo, hi), f);
    } else {
        assert forall|i: int| 0 <= i < n implies #[trigger] rest(i) == 0 by {}
        lemma_sum_zero(0, n, rest);
        if lo > root {
            assert(preorder_all(nodes, lo, hi) == Seq::<NodeId>::empty());
            assert(preorder(nodes, root) == first);
        }
    }
}

/// What lies under siblings lies under the last of them or under the others.
pub proof fn lemma_split_siblings(
    nodes: Seq<Node>,
    p: int,
    lo: int,
    hi: int,
    f: spec_fn(int) -> int,
)
    requires
        0 <= p < lo < hi <= nodes.len(),
        forall|d: int| lo <= d < hi ==> (#[trigger] nodes[d]).parent == p,
    ensures
        sum(0, nodes.len() as int, only_under_any(nodes, lo, hi, f)) == sum(
            0,
            nodes.len() as int,
            only_under(nodes, hi - 1, f),
        ) + sum(0, nodes.len() as int, only_under_any(nodes, lo, hi - 1, f)),
{
    let n = nodes.len() as int;
    let c = hi - 1;
    let all = only_under_any(nodes, lo, hi, f);
    let last = only_under(nodes, c, f);
    let less = only_under_any(nodes, lo, c, f);
    assert forall|i: int| 0 <= i < n implies #[trigger] all(i) == last(i) + less(i) by {
        if under_any(nodes, i, lo, c) {
            let d = choose|d: int| lo <= d < c && #[trigger] under(nodes, i, d);
            assert(lo <= d < hi);
            assert(nodes[c].parent == p && nodes[d].parent == p);
            if under(nodes, i, c) {
                lemma_siblings_apart(nodes, i, c, d);
            }
        } else if under_any(nodes, i, lo, hi) {
            let d = choose|d: int| lo <= d < hi && #[trigger] under(nodes, i, d);
            assert(d == c);
        }
    }
    lemma_sum_add(0, n, last, less, all);
}

proof fn lemma_visits_all_once(
    nodes: Seq<Node>,
    p: int,
    lo: int,
    hi: int,
    f: spec_fn(int) -> int,
)
    requires
        shape_wf(nodes),
        0 <= p < nodes.len(),
        p < nodes[p].child_start <= lo <= hi <= child_end(nodes, p) <= nodes.len(),
    ensures
        list_sum(preorder_all(nodes, lo, hi), f) == sum(
            0,
            nodes.len() as int,
            only_under_any(nodes, lo, hi, f),
        ),
    decreases nodes.len() - lo, hi - lo + 1,
{
    let n = nodes.len() as int;
    let all = only_under_any(nodes, lo, hi, f);
    if lo == hi {
        assert forall|i: int| 0 <= i < n implies #[trigger] all(i) == 0 by {}
        lemma_sum_zero(0, n, all);
    } else {
        let c = hi - 1;
        assert forall|d: int| lo <= d < hi implies (#[trigger] nodes[d]).parent == p by {
            assert(in_child_range(nodes, p, d) <==> nodes[d].parent == p);
        }
        lemma_split_siblings(nodes, p, lo, hi, f);
        lemma_visits_once(nodes, c, f);
        lemma_visits_all_once(nodes, p, lo, c, f);
        lemma_list_sum_append(preorder(nodes, c), preorder_all(nodes, lo, c), f);
    }
}

/// One on every node.
pub open spec fn each() -> spec_fn(int) -> int {
    |i: int| 1
}

/// Number of entries under `root`, inclusive.
pub fn subtree_len(tree: &Tree, root: NodeId) -> (n: usize)
    requires
        tree@.wf(),
        tree@.has(root as int),
    ensures
        n == subtree_sum(tree@.nodes, root as int, each()),
{
    if root == ROOT {
        proof {
            lemma_whole_tree(tree@.nodes);
        }
        return tree.len();
    }
    let visited = for_each_in_subtree(tree, root);
    proof {
        lemma_visits_once(tree@.nodes, root as int, each());
        lemma_list_len(visited@);
    }
    visited.len()
}

proof fn lemma_list_len(ids: Seq<NodeId>)
    ensures
        list_sum(ids, each()) == ids.len(),
    decreases ids.len(),
{
    if ids.len() > 0 {
        lemma_list_len(ids.drop_last());
    }
}

/// The subtree of the scan root is the whole tree.
pub proof fn lemma_whole_tree(nodes: Seq<Node>)
    requires
        parents_first(nodes),
    ensures
        subtree_sum(nodes, 0, each()) == nodes.len(),
{
    let n = nodes.len() as int;
    assert forall|i: int| 0 <= i < n implies #[trigger] only_under(nodes, 0, each())(i) == each()(
        i,
    ) by {
        lemma_under_root(nodes, i);
    }
    lemma_sum_same(0, n, only_under(nodes, 0, each()), each());
    lemma_sum_ones(n);
}

pub proof fn lemma_sum_ones(n: int)
    requires
        0 <= n,
    ensures
        sum(0, n, each()) == n,
    decreases n,
{
    if n > 0 {
        lemma_sum_ones(n - 1);
    }
}

/// A list of ids that names every node at and below `root` once and no other.
pub open spec fn visits(nodes: Seq<Node>, root: int, ids: Seq<NodeId>) -> bool {
    &&& forall|k: int|
        0 <= k < ids.len() ==> (#[trigger] ids[k]) < nodes.len() && under(
            nodes,
            ids[k] as int,
            root,
        )
    &&& forall|f: spec_fn(int) -> int| #[trigger] list_sum(ids, f) == subtree_sum(nodes, root, f)
}

/// The order in which the rollups look at a subtree: the whole tree in storage
/// order, a part of it depth first.
pub open spec fn visiting_order(nodes: Seq<Node>, root: int) -> Seq<NodeId> {
    if root == 0 {
        id_range(0, nodes.len() as int)
    } else {
        preorder(nodes, root)
    }
}

proof fn lemma_preorder_under(nodes: Seq<Node>, root: int)
    requires
        shape_wf(nodes),
        0 <= root < nodes.len(),
    ensures
        forall|k: int|
            0 <= k < preorder(nodes, root).len() ==> (#[trigger] preorder(nodes, root)[k])
                < nodes.len() && under(nodes, preorder(nodes, root)[k] as int, root),
    decreases nodes.len() - root, 0int,
{
    let order = preorder(nodes, root);
    let lo = nodes[root].child_start as int;
    let hi = child_end(nodes, root);
    if nodes[root].child_len > 0 {
        lemma_preorder_all_under(nodes, root, lo, hi);
        assert forall|k: int| 0 <= k < order.len() implies (#[trigger] order[k]) < nodes.len()
            && under(nodes, order[k] as int, root) by {
            if k > 0 {
                assert(order[k] == preorder_all(nodes, lo, hi)[k - 1]);
            }
        }
    } else {
        assert(preorder_all(nodes, lo, hi) == Seq::<NodeId>::empty());
    }
}

proof fn lemma_preorder_all_under(nodes: Seq<Node>, p: int, lo: int, hi: int)
    requires
        shape_wf(nodes),
        0 <= p < nodes.len(),
        p < nodes[p].child_start <= lo <= hi <= child_end(nodes, p) <= nodes.len(),
    ensures
        forall|k: int|
            0 <= k < preorder_all(nodes, lo, hi).len() ==> (#[trigger] preorder_all(
                nodes,
                lo,
                hi,
            )[k]) < nodes.len() && under(nodes, preorder_all(nodes, lo, hi)[k] as int, p),
    decreases nodes.len() - lo, hi - lo + 1,
{
    if lo < hi {
        let c = hi - 1;
        let first = preorder(nodes, c);
        let rest = preorder_all(nodes, lo, c);
        let all = preorder_all(nodes, lo, hi);
        lemma_preorder_under(nodes, c);
        lemma_preorder_all_under(nodes, p, lo, c);
        assert(in_child_range(nodes, p, c) <==> nodes[c].parent == p);
        assert forall|k: int| 0 <= k < all.len() implies (#[trigger] all[k]) < nodes.len() && under(
            nodes,
            all[k] as int,
            p,
        ) by {
            if k < first.len() {
                assert(all[k] == first[k]);
                lemma_under_child(nodes, all[k] as int, c, p);
            } else {
                assert(all[k] == rest[k - first.len()]);
            }
        }
    }
}

proof fn lemma_range_sum(n: int, f: spec_fn(int) -> int)
    requires
        0 <= n <= u32::MAX,
    ensures
        list_sum(id_range(0, n), f) == sum(0, n, f),
    decreases n,
{
    if n > 0 {
        assert(id_range(0, n).drop_last() == id_range(0, n - 1));
        lemma_range_sum(n - 1, f);
    }
}

/// A walk names every node of the subtree once.
pub proof fn lemma_preorder_visits(nodes: Seq<Node>, root: int)
    requires
        shape_wf(nodes),
        0 <= root < nodes.len(),
    ensures
        visits(nodes, root, preorder(nodes, root)),
{
    let ids = preorder(nodes, root);
    lemma_preorder_under(nodes, root);
    assert forall|f: spec_fn(int) -> int| #[trigger] list_sum(ids, f) == subtree_sum(
        nodes,
        root,
        f,
    ) by {
        lemma_visits_once(nodes, root, f);
    }
}

/// A walk comes to a directory before it comes to what is in it.
pub proof fn lemma_preorder_from_above(nodes: Seq<Node>, root: int, k: int)
    requires
        shape_wf(nodes),
        0 <= root < nodes.len() <= u32::MAX,
        0 < k < preorder(nodes, root).len(),
    ensures
        preorder(nodes, root).take(k).contains(nodes[preorder(nodes, root)[k] as int].parent),
    decreases nodes.len() - root, 0int,
{
    let order = preorder(nodes, root);
    let lo = nodes[root].child_start as int;
    let hi = child_end(nodes, root);
    if nodes[root].child_len > 0 {
        let rest = preorder_all(nodes, lo, hi);
        assert(order[k] == rest[k - 1]);
        lemma_preorder_all_from_above(nodes, root, lo, hi, k - 1);
        let up = nodes[order[k] as int].parent;
        if up == root {
            assert(order.take(k)[0] == up);
        } else {
            let seen = rest.take(k - 1);
            let j = choose|j: int| 0 <= j < seen.len() && seen[j] == up;
            assert(order.take(k)[j + 1] == up);
        }
    } else {
        assert(preorder_all(nodes, lo, hi) == Seq::<NodeId>::empty());
    }
}

proof fn lemma_preorder_all_from_above(nodes: Seq<Node>, p: int, lo: int, hi: int, k: int)
    requires
        shape_wf(nodes),
        0 <= p < nodes.len() <= u32::MAX,
        p < nodes[p].child_start <= lo <= hi <= child_end(nodes, p) <= nodes.len(),
        0 <= k < preorder_all(nodes, lo, hi).len(),
    ensures
        ({
            let all = preorder_all(nodes, lo, hi);
            let up = nodes[all[k] as int].parent;
            up == p || all.take(k).contains(up)
        }),
    decreases nodes.len() - lo, hi - lo + 1,
{
    if lo < hi {
        let c = hi - 1;
        let first = preorder(nodes, c);
        let rest = preorder_all(nodes, lo, c);
        let all = preorder_all(nodes, lo, hi);
        let up = nodes[all[k] as int].parent;
        assert(in_child_range(nodes, p, c) <==> nodes[c].parent == p);
        assert(first[0] == c);
        if 0 < k < first.len() {
            assert(all[k] == first[k]);
            lemma_preorder_from_above(nodes, c, k);
            assert(all.take(k) == first.take(k));
        } else if k >= first.len() {
            let i = k - first.len();
            assert(all[k] == rest[i]);
            lemma_preorder_all_from_above(nodes, p, lo, c, i);
            if up != p {
                let seen = rest.take(i);
                let j = choose|j: int| 0 <= j < seen.len() && seen[j] == up;
                assert(all.take(k)[j + first.len()] == up);
            }
        }
    }
}

/// The order the rollups use names every node of the subtree once.
pub proof fn lemma_visiting_order(nodes: Seq<Node>, root: int)
    requires
        shape_wf(nodes),
        0 <= root < nodes.len(),
    ensures
        visits(nodes, root, visiting_order(nodes, root)),
{
    let n = nodes.len() as int;
    let ids = visiting_order(nodes, root);
    if root == 0 {
        assert forall|k: int| 0 <= k < ids.len() implies (#[trigger] ids[k]) < nodes.len() && under(
            nodes,
            ids[k] as int,
            root,
        ) by {
            lemma_under_root(nodes, k);
        }
        assert forall|f: spec_fn(int) -> int| #[trigger] list_sum(ids, f) == subtree_sum(
            nodes,
            root,
            f,
        ) by {
            lemma_range_sum(n, f);
            assert forall|i: int| 0 <= i < n implies #[trigger] only_under(nodes, 0, f)(i) == f(
                i,
            ) by {
                lemma_under_root(nodes, i);
            }
            lemma_sum_same(0, n, only_under(nodes, 0, f), f);
        }
    } else {
        lemma_preorder_visits(nodes, root);
    }
}

/// The ids of a subtree in the order the rollups look at them.
pub fn visit(tree: &Tree, root: NodeId) -> (ids: Vec<NodeId>)
    requires
        tree@.wf(),
        tree@.has(root as int),
    ensures
        ids@ == visiting_order(tree@.nodes, root as int),
        visits(tree@.nodes, root as int, ids@),
{
    proof {
        lemma_visiting_order(tree@.nodes, root as int);
    }
    if root == ROOT {
        // The whole tree is the whole vector.
        let n: NodeId = tree.len() as NodeId;
        let mut ids: Vec<NodeId> = Vec::new();
        for id in 0..n
            invariant
                ids@ == id_range(0, id as int),
        {
            ids.push(id);
            assert(ids@ == id_range(0, id + 1));
        }
        ids
    } else {
        for_each_in_subtree(tree, root)
    }
}

/// Part of a list adds up to no more than all of it.
pub proof fn lemma_list_sum_part(ids: Seq<NodeId>, k: int, f: spec_fn(int) -> int)
    requires
        0 <= k <= ids.len(),
        forall|i: int| 0 <= #[trigger] f(i),
    ensures
        0 <= list_sum(ids.take(k), f) <= list_sum(ids, f),
        k < ids.len() ==> list_sum(ids.take(k + 1), f) == list_sum(ids.take(k), f) + f(
            ids[k] as int,
        ),
        k < ids.len() ==> list_sum(ids.take(k + 1), f) <= list_sum(ids, f),
{
    lemma_list_sum_append(ids.take(k), ids.skip(k), f);
    assert(ids.take(k) + ids.skip(k) == ids);
    lemma_list_sum_positive(ids.take(k), f);
    lemma_list_sum_positive(ids.skip(k), f);
    if k < ids.len() {
        assert(ids.take(k + 1).drop_last() == ids.take(k));
        lemma_list_sum_append(ids.take(k + 1), ids.skip(k + 1), f);
        assert(ids.take(k + 1) + ids.skip(k + 1) == ids);
        lemma_list_sum_positive(ids.skip(k + 1), f);
    }
}

proof fn lemma_list_sum_positive(ids: Seq<NodeId>, f: spec_fn(int) -> int)
    requires
        forall|i: int| 0 <= #[trigger] f(i),
    ensures
        0 <= list_sum(ids, f),
    decreases ids.len(),
{
    if ids.len() > 0 {
        lemma_list_sum_positive(ids.drop_last(), f);
        assert(0 <= f(ids.last() as int));
    }
}

/// A subtree has at least its root, and fits the tree.
pub proof fn lemma_subtree_counts_itself(nodes: Seq<Node>, root: int)
    requires
        0 <= root < nodes.len(),
    ensures
        1 <= subtree_sum(nodes, root, each()) <= nodes.len(),
{
    let n = nodes.len() as int;
    let f = only_under(nodes, root, each());
    crate::sums::lemma_sum_bounds(0, n, f);
    assert(f(root) == 1);
    crate::sums::lemma_sum_le(0, n, f, each());
    lemma_sum_ones(n);
}

/// One for node `x`, nothing for any other.
spec fn only(x: NodeId) -> spec_fn(int) -> int {
    |i: int|
        if i == x {
            1
        } else {
            0
        }
}

proof fn lemma_counted(ids: Seq<NodeId>, x: NodeId)
    ensures
        list_sum(ids, only(x)) >= if ids.contains(x) {
            1int
        } else {
            0
        },
    decreases ids.len(),
{
    if ids.len() > 0 {
        let less = ids.drop_last();
        lemma_counted(less, x);
        if ids.contains(x) && ids.last() != x {
            let k = choose|k: int| 0 <= k < ids.len() && ids[k] == x;
            assert(less[k] == x);
        }
    }
}

/// Looking at a subtree looks at every node at and below its root, and at none
/// of them twice.
pub proof fn lemma_no_repeats(nodes: Seq<Node>, root: int, ids: Seq<NodeId>)
    requires
        nodes.len() <= u32::MAX,
        visits(nodes, root, ids),
    ensures
        ids.no_duplicates(),
        forall|x: NodeId|
            x < nodes.len() && #[trigger] under(nodes, x as int, root) ==> ids.contains(x),
{
    let n = nodes.len() as int;
    assert forall|a: int, b: int| 0 <= a < b < ids.len() implies ids[a] != ids[b] by {
        if ids[a] == ids[b] {
            let x = ids[b];
            let head = ids.take(b);
            let tail = ids.skip(b);
            assert(head + tail == ids);
            lemma_list_sum_append(head, tail, only(x));
            assert(head[a] == x && tail[0] == x);
            lemma_counted(head, x);
            lemma_counted(tail, x);
            assert(list_sum(ids, only(x)) == subtree_sum(nodes, root, only(x)));
            lemma_once(nodes, root, x);
        }
    }
    assert forall|x: NodeId| x < nodes.len() && #[trigger] under(nodes, x as int, root) implies ids.contains(x) by {
        assert(list_sum(ids, only(x)) == subtree_sum(nodes, root, only(x)));
        crate::sums::lemma_sum_bounds(0, n, only_under(nodes, root, only(x)));
        assert(only_under(nodes, root, only(x))(x as int) == 1);
        lemma_absent(ids, x);
    }
}

proof fn lemma_absent(ids: Seq<NodeId>, x: NodeId)
    ensures
        !ids.contains(x) ==> list_sum(ids, only(x)) == 0,
    decreases ids.len(),
{
    if ids.len() > 0 {
        let less = ids.drop_last();
        lemma_absent(less, x);
        assert(ids[ids.len() - 1] == ids.last());
        if less.contains(x) {
            let k = choose|k: int| 0 <= k < less.len() && less[k] == x;
            assert(ids[k] == x);
        }
    }
}

proof fn lemma_once(nodes: Seq<Node>, root: int, x: NodeId)
    ensures
        subtree_sum(nodes, root, only(x)) <= 1,
{
    let n = nodes.len() as int;
    let f = only_under(nodes, root, only(x));
    let zero = |i: int| 0int;
    crate::sums::lemma_sum_zero(0, n, zero);
    if x < n {
        crate::sums::lemma_sum_point(0, n, x as int, zero, f);
    } else {
        crate::sums::lemma_sum_zero(0, n, f);
    }
}

} // verus!
