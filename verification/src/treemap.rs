//! What the treemap draws, without the geometry.
//!
//! Layout never visits the whole tree. A subtree whose rectangle would be too
//! small is emitted as one aggregate block and not descended into, so the work
//! is bounded by the number of blocks the screen can show no matter how big the
//! scan was. Rectangles and cushions are the caller's: here they are values of
//! any type, and only who is drawn, and in which order, is decided.

use std::collections::HashMap;

use vstd::prelude::*;

pub mod placer;
pub mod strips;

use crate::sort::{not_after, sort, Ranked};
use crate::sums::sum;
use crate::tree::arena::{child_end, in_child_range, size_at, span_size};
use crate::tree::flags;
use crate::tree::{has_flag, Node, NodeId, Tree};

verus! {

/// One drawable block.
#[derive(Clone, Copy, Debug)]
pub struct Cell<R, C> {
    pub node: NodeId,
    pub rect: R,
    /// Cushion coefficients, in image pixel space.
    pub cushion: C,
    pub depth: u16,
}

/// A finished layout.
pub struct Layout<R, C> {
    pub root: NodeId,
    pub view: R,
    /// Blocks to draw. Pairwise disjoint.
    pub leaves: Vec<Cell<R, C>>,
    /// Directories that were subdivided, with the rectangle their children
    /// were placed into. Used for hover outlines and drill-down targets.
    pub dirs: Vec<Cell<R, C>>,
    pub physical: bool,
    dir_index: HashMap<NodeId, u32>,
}

/// A layout as mathematics.
pub struct LayoutView<R, C> {
    pub root: NodeId,
    pub view: R,
    pub leaves: Seq<Cell<R, C>>,
    pub dirs: Seq<Cell<R, C>>,
    pub physical: bool,
}

impl<R, C> View for Layout<R, C> {
    type V = LayoutView<R, C>;

    closed spec fn view(&self) -> LayoutView<R, C> {
        LayoutView {
            root: self.root,
            view: self.view,
            leaves: self.leaves@,
            dirs: self.dirs@,
            physical: self.physical,
        }
    }
}

/// Whether cell `i` is the last one of `node`.
pub open spec fn is_last<R, C>(cells: Seq<Cell<R, C>>, node: NodeId, i: int) -> bool {
    &&& 0 <= i < cells.len()
    &&& cells[i].node == node
    &&& forall|j: int| i < j < cells.len() ==> (#[trigger] cells[j]).node != node
}

/// Whether cell `i` is the first one of `node`.
pub open spec fn is_first<R, C>(cells: Seq<Cell<R, C>>, node: NodeId, i: int) -> bool {
    &&& 0 <= i < cells.len()
    &&& cells[i].node == node
    &&& forall|j: int| 0 <= j < i ==> (#[trigger] cells[j]).node != node
}

/// Whether no cell is of `node`.
pub open spec fn lacks<R, C>(cells: Seq<Cell<R, C>>, node: NodeId) -> bool {
    forall|i: int| 0 <= i < cells.len() ==> (#[trigger] cells[i]).node != node
}

/// What a directory's index holds: its last cell among the first `n`.
spec fn indexed<R, C>(index: Map<NodeId, u32>, dirs: Seq<Cell<R, C>>, n: int) -> bool {
    &&& forall|node: NodeId| #[trigger]
        index.contains_key(node) ==> is_last(dirs.take(n), node, index[node] as int)
    &&& forall|node: NodeId| !#[trigger] index.contains_key(node) ==> lacks(dirs.take(n), node)
}

impl<R: Copy, C: Copy> Layout<R, C> {
    /// Whether the index of directories is in order.
    pub closed spec fn wf(&self) -> bool {
        indexed(self.dir_index@, self.dirs@, self.dirs@.len() as int)
    }

    /// A layout of these cells.
    pub fn new(
        root: NodeId,
        view: R,
        leaves: Vec<Cell<R, C>>,
        dirs: Vec<Cell<R, C>>,
        physical: bool,
    ) -> (layout: Layout<R, C>)
        requires
            dirs@.len() <= u32::MAX,
        ensures
            layout.wf(),
            layout@ == (LayoutView { root, view, leaves: leaves@, dirs: dirs@, physical }),
    {
        broadcast use vstd::std_specs::hash::group_hash_axioms;

        let mut dir_index: HashMap<NodeId, u32> = HashMap::new();
        for i in 0..dirs.len()
            invariant
                dirs@.len() <= u32::MAX,
                indexed(dir_index@, dirs@, i as int),
        {
            let ghost before = dir_index@;
            let node: NodeId = dirs[i].node;
            dir_index.insert(node, i as u32);
            proof {
                let less = dirs@.take(i as int);
                let more = dirs@.take(i + 1);
                assert(more[i as int].node == node);
                assert forall|n: NodeId| #[trigger] dir_index@.contains_key(n) implies is_last(
                    more,
                    n,
                    dir_index@[n] as int,
                ) by {
                    if n != node {
                        assert(before.contains_key(n));
                        let k = before[n] as int;
                        assert(is_last(less, n, k));
                        assert(more[k] == less[k]);
                        assert forall|j: int| k < j < more.len() implies (#[trigger] more[j]).node
                            != n by {
                            if j < i {
                                assert(more[j] == less[j]);
                            }
                        }
                    }
                }
                assert forall|n: NodeId| !#[trigger] dir_index@.contains_key(n) implies lacks(
                    more,
                    n,
                ) by {
                    assert(!before.contains_key(n));
                    assert(lacks(less, n));
                    assert forall|j: int| 0 <= j < more.len() implies (#[trigger] more[j]).node
                        != n by {
                        if j < i {
                            assert(more[j] == less[j]);
                        }
                    }
                }
            }
        }
        Layout { root, view, leaves, dirs, physical, dir_index }
    }

    /// The rectangle a subdivided directory's children occupy.
    pub fn dir_rect(&self, node: NodeId) -> (rect: Option<R>)
        requires
            self.wf(),
        ensures
            match rect {
                Some(rect) => exists|i: int| #[trigger]
                    is_last(self@.dirs, node, i) && rect == self@.dirs[i].rect,
                None => lacks(self@.dirs, node),
            },
    {
        broadcast use vstd::std_specs::hash::group_hash_axioms;

        assert(self.dirs@.take(self.dirs@.len() as int) == self.dirs@);
        match self.dir_index.get(&node) {
            Some(i) => {
                assert(is_last(self@.dirs, node, *i as int));
                Some(self.dirs[*i as usize].rect)
            },
            None => None,
        }
    }

    /// Rectangle of any laid-out node, whether it was subdivided or drawn as a
    /// single block.
    pub fn rect_of(&self, node: NodeId) -> (rect: Option<R>)
        requires
            self.wf(),
        ensures
            match rect {
                Some(rect) => {
                    ||| exists|i: int| #[trigger]
                        is_last(self@.dirs, node, i) && rect == self@.dirs[i].rect
                    ||| lacks(self@.dirs, node) && exists|i: int| #[trigger]
                        is_first(self@.leaves, node, i) && rect == self@.leaves[i].rect
                },
                None => lacks(self@.dirs, node) && lacks(self@.leaves, node),
            },
    {
        if let Some(rect) = self.dir_rect(node) {
            return Some(rect);
        }
        self.leaf_rect(node)
    }

    /// The rectangle of the first block drawn for a node.
    pub fn leaf_rect(&self, node: NodeId) -> (rect: Option<R>)
        ensures
            match rect {
                Some(rect) => exists|i: int| #[trigger]
                    is_first(self@.leaves, node, i) && rect == self@.leaves[i].rect,
                None => lacks(self@.leaves, node),
            },
    {
        for i in 0..self.leaves.len()
            invariant
                forall|j: int| 0 <= j < i ==> (#[trigger] self@.leaves[j]).node != node,
        {
            if self.leaves[i].node == node {
                assert(is_first(self@.leaves, node, i as int));
                return Some(self.leaves[i].rect);
            }
        }
        None
    }

    pub fn block_count(&self) -> (n: usize)
        ensures
            n == self@.leaves.len(),
    {
        self.leaves.len()
    }
}

/// Whether a node can be subdivided, given that its rectangle has the room.
pub open spec fn subdividable(n: Node, collapse_packages: bool, roomy: bool) -> bool {
    n.child_len > 0 && !(collapse_packages && has_flag(n.flags, flags::PACKAGE)) && roomy
}

/// What goes into a subdivided directory: the children that weigh something,
/// largest first.
pub open spec fn is_plan(
    nodes: Seq<Node>,
    node: int,
    physical: bool,
    items: Seq<(NodeId, u64)>,
) -> bool {
    &&& forall|j: int|
        0 <= j < items.len() ==> in_child_range(nodes, node, (#[trigger] items[j]).0 as int)
            && items[j].1 == nodes[items[j].0 as int].spec_size(physical) && items[j].1 > 0
    &&& forall|i: int, j: int|
        0 <= i < j < items.len() ==> (#[trigger] items[i]).0 != (#[trigger] items[j]).0
    &&& forall|i: int, j: int|
        0 <= i < j < items.len() ==> (#[trigger] items[i]).1 >= (#[trigger] items[j]).1
    &&& forall|c: int|
        #[trigger] in_child_range(nodes, node, c) && nodes[c].spec_size(physical) > 0
            ==> planned(items, c)
}

/// Whether child `c` is among the items.
pub open spec fn planned(items: Seq<(NodeId, u64)>, c: int) -> bool {
    exists|j: int| 0 <= j < items.len() && (#[trigger] items[j]).0 == c
}

/// The sizes of a list of items.
pub open spec fn item_size(items: Seq<(NodeId, u64)>) -> spec_fn(int) -> int {
    |i: int| items[i].1 as int
}

/// The ranks of the children `lo..hi` that weigh something.
spec fn weighty(nodes: Seq<Node>, lo: int, hi: int, physical: bool) -> Seq<Ranked>
    decreases hi - lo,
{
    if hi <= lo {
        Seq::empty()
    } else {
        let less = weighty(nodes, lo, hi - 1, physical);
        let size = nodes[hi - 1].spec_size(physical);
        if size > 0 {
            less.push(Ranked { key: size, tie: 0, id: (hi - 1) as u32 })
        } else {
            less
        }
    }
}

proof fn lemma_weighty(nodes: Seq<Node>, lo: int, hi: int, physical: bool)
    requires
        0 <= lo <= hi <= nodes.len() <= u32::MAX,
    ensures
        ({
            let r = weighty(nodes, lo, hi, physical);
            &&& forall|j: int|
                0 <= j < r.len() ==> lo <= (#[trigger] r[j]).id < hi && r[j].tie == 0 && r[j].key
                    == nodes[r[j].id as int].spec_size(physical) && r[j].key > 0
            &&& forall|i: int, j: int|
                0 <= i < j < r.len() ==> (#[trigger] r[i]).id < (#[trigger] r[j]).id
            &&& forall|c: int|
                lo <= c < hi && (#[trigger] nodes[c]).spec_size(physical) > 0 ==> exists|j: int|
                    0 <= j < r.len() && (#[trigger] r[j]).id == c
            &&& sum(0, r.len() as int, |i: int| r[i].key as int) == span_size(
                nodes,
                lo,
                hi,
                physical,
            )
        }),
    decreases hi - lo,
{
    if lo < hi {
        lemma_weighty(nodes, lo, hi - 1, physical);
        let less = weighty(nodes, lo, hi - 1, physical);
        let r = weighty(nodes, lo, hi, physical);
        assert forall|c: int|
            lo <= c < hi && (#[trigger] nodes[c]).spec_size(physical) > 0 implies exists|j: int|
            0 <= j < r.len() && (#[trigger] r[j]).id == c by {
            if c == hi - 1 {
                assert(r[less.len() as int].id == c);
            } else {
                let j = choose|j: int| 0 <= j < less.len() && (#[trigger] less[j]).id == c;
                assert(r[j].id == c);
            }
        }
        let f = |i: int| r[i].key as int;
        let g = |i: int| less[i].key as int;
        crate::sums::lemma_sum_same(0, less.len() as int, f, g);
        if r.len() > less.len() {
            assert(sum(0, r.len() as int, f) == sum(0, less.len() as int, f) + f(
                less.len() as int,
            ));
        }
        assert(span_size(nodes, lo, hi, physical) == span_size(nodes, lo, hi - 1, physical)
            + size_at(nodes, physical)(hi - 1));
    }
}

/// The children to lay out and what they weigh together.
#[derive(Debug)]
pub struct Plan {
    pub items: Vec<(NodeId, u64)>,
    pub total: u64,
}

/// The sum of keys does not depend on their order.
proof fn lemma_sum_of_keys(a: Seq<Ranked>, b: Seq<Ranked>)
    requires
        a.to_multiset() == b.to_multiset(),
    ensures
        sum(0, a.len() as int, |i: int| a[i].key as int) == sum(
            0,
            b.len() as int,
            |i: int| b[i].key as int,
        ),
    decreases a.len(),
{
    broadcast use vstd::seq_lib::group_to_multiset_ensures;

    assert(a.to_multiset().len() == a.len());
    assert(b.to_multiset().len() == b.len());
    if a.len() > 0 {
        let last = a.last();
        assert(a.contains(last));
        assert(a.to_multiset().count(last) > 0);
        assert(b.contains(last));
        let k = choose|k: int| 0 <= k < b.len() && b[k] == last;
        let rest = b.remove(k);
        let less = a.drop_last();
        assert(a.remove(a.len() - 1) == less);
        assert(less.to_multiset() == a.to_multiset().remove(last));
        assert(rest.to_multiset() == b.to_multiset().remove(last));
        lemma_sum_of_keys(less, rest);
        let f = |i: int| a[i].key as int;
        let g = |i: int| b[i].key as int;
        let p = |i: int| less[i].key as int;
        let q = |i: int| rest[i].key as int;
        crate::sums::lemma_sum_same(0, less.len() as int, f, p);
        assert(sum(0, a.len() as int, f) == sum(0, less.len() as int, f) + f(a.len() - 1));
        // The elements of `b` before `k` stay, those after it move down by one.
        crate::sums::lemma_sum_split(0, k, b.len() as int, g);
        crate::sums::lemma_sum_first(k, b.len() as int, g);
        crate::sums::lemma_sum_split(0, k, rest.len() as int, q);
        crate::sums::lemma_sum_same(0, k, g, q);
        assert forall|i: int| k <= i < rest.len() implies #[trigger] q(i) == g(i + 1) by {}
        crate::sums::lemma_sum_shift(k, rest.len() as int, 1, q, g);
    }
}

/// What deciding how to draw a node comes to.
pub open spec fn plans(
    nodes: Seq<Node>,
    node: int,
    physical: bool,
    collapse_packages: bool,
    roomy: bool,
    plan: Option<Plan>,
) -> bool {
    let n = nodes[node];
    match plan {
        Some(plan) => {
            &&& subdividable(n, collapse_packages, roomy)
            &&& plan.items@.len() > 0
            &&& is_plan(nodes, node, physical, plan.items@)
            &&& plan.total == sum(0, plan.items@.len() as int, item_size(plan.items@))
            &&& plan.total == n.spec_size(physical)
        },
        None => !subdividable(n, collapse_packages, roomy) || forall|c: int|
            #[trigger] in_child_range(nodes, node, c) ==> nodes[c].spec_size(physical) == 0,
    }
}

/// Decides how a node is drawn: as one block (`None`), or subdivided into its
/// children that weigh something, largest first. `roomy` says whether its
/// rectangle is large enough to subdivide. Zero-sized entries would get
/// zero-area rectangles, so they are dropped rather than laid out; the sidebar
/// still accounts for them.
pub fn plan(
    tree: &Tree,
    node: NodeId,
    physical: bool,
    collapse_packages: bool,
    roomy: bool,
) -> (plan: Option<Plan>)
    requires
        tree@.wf(),
        tree@.has(node as int),
    ensures
        plans(tree@.nodes, node as int, physical, collapse_packages, roomy, plan),
        roomy && tree@.nodes[node as int].child_len > 0 && !(collapse_packages
            && tree@.nodes[node as int].flags & flags::PACKAGE != 0) && (physical
            && tree@.nodes[node as int].physical > 0 || !physical
            && tree@.nodes[node as int].logical > 0) ==> plan is Some,
{
    broadcast use vstd::seq_lib::group_to_multiset_ensures;

    let ghost nodes = tree@.nodes;
    let n = tree.node(node);
    if n.child_len == 0 || (collapse_packages && n.has(flags::PACKAGE)) || !roomy {
        return None;
    }
    let range = tree.children(node);
    let lo: NodeId = range.start;
    let hi: NodeId = range.end;
    assert(nodes[node as int].child_len > 0);
    let mut list: Vec<Ranked> = Vec::new();
    for c in lo..hi
        invariant
            tree@.wf(),
            nodes == tree@.nodes,
            hi <= nodes.len(),
            list@ == weighty(nodes, lo as int, c as int, physical),
    {
        let size: u64 = tree.size(c, physical);
        if size > 0 {
            list.push(Ranked { key: size, tie: 0, id: c });
        }
    }
    let ghost unsorted = list@;
    proof {
        lemma_weighty(nodes, lo as int, hi as int, physical);
        assert(nodes[node as int].spec_is_dir());
        assert(nodes[node as int].spec_size(physical) == span_size(
            nodes,
            lo as int,
            hi as int,
            physical,
        ));
    }
    if list.len() == 0 {
        proof {
            assert(span_size(nodes, lo as int, hi as int, physical) == 0);
            assert forall|c: int| #[trigger]
                in_child_range(nodes, node as int, c) implies nodes[c].spec_size(physical)
                == 0 by {
                assert(lo <= c < hi);
            }
        }
        return None;
    }
    let order = sort(list);
    proof {
        lemma_sum_of_keys(order@, unsorted);
        assert(unsorted.no_duplicates());
        unsorted.lemma_multiset_has_no_duplicates();
        order@.lemma_multiset_has_no_duplicates_conv();
        assert forall|j: int| 0 <= j < order@.len() implies unsorted.contains(
            #[trigger] order@[j],
        ) by {
            assert(order@.contains(order@[j]));
            assert(order@.to_multiset().count(order@[j]) > 0);
        }
        assert forall|j: int| 0 <= j < unsorted.len() implies order@.contains(
            #[trigger] unsorted[j],
        ) by {
            assert(unsorted.contains(unsorted[j]));
            assert(unsorted.to_multiset().count(unsorted[j]) > 0);
        }
    }
    let mut items: Vec<(NodeId, u64)> = Vec::new();
    for j in 0..order.len()
        invariant
            items@.len() == j,
            forall|i: int|
                0 <= i < j ==> (#[trigger] items@[i]).0 == order@[i].id && items@[i].1
                    == order@[i].key,
    {
        items.push((order[j].id, order[j].key));
    }
    let total: u64 = tree.size(node, physical);
    proof {
        crate::sums::lemma_sum_same(
            0,
            items@.len() as int,
            item_size(items@),
            |i: int| order@[i].key as int,
        );
        lemma_plan(nodes, node as int, lo as int, hi as int, physical, unsorted, order@, items@);
    }
    Some(Plan { items, total })
}

proof fn lemma_plan(
    nodes: Seq<Node>,
    node: int,
    lo: int,
    hi: int,
    physical: bool,
    unsorted: Seq<Ranked>,
    order: Seq<Ranked>,
    items: Seq<(NodeId, u64)>,
)
    requires
        0 <= lo <= hi <= nodes.len() <= u32::MAX,
        lo == nodes[node].child_start,
        hi == child_end(nodes, node),
        unsorted == weighty(nodes, lo, hi, physical),
        crate::sort::sorted(order),
        order.no_duplicates(),
        forall|j: int| 0 <= j < order.len() ==> unsorted.contains(#[trigger] order[j]),
        forall|j: int| 0 <= j < unsorted.len() ==> order.contains(#[trigger] unsorted[j]),
        items.len() == order.len(),
        forall|i: int|
            0 <= i < items.len() ==> (#[trigger] items[i]).0 == order[i].id && items[i].1
                == order[i].key,
    ensures
        is_plan(nodes, node, physical, items),
{
    lemma_weighty(nodes, lo, hi, physical);
    assert forall|j: int| 0 <= j < items.len() implies in_child_range(
        nodes,
        node,
        (#[trigger] items[j]).0 as int,
    ) && items[j].1 == nodes[items[j].0 as int].spec_size(physical) && items[j].1 > 0 by {
        assert(unsorted.contains(order[j]));
        let k = choose|k: int| 0 <= k < unsorted.len() && unsorted[k] == order[j];
        assert(lo <= unsorted[k].id < hi);
    }
    assert forall|i: int, j: int| 0 <= i < j < items.len() implies (#[trigger] items[i]).0 != (
    #[trigger] items[j]).0 by {
        assert(order[i] != order[j]);
        assert(unsorted.contains(order[i]) && unsorted.contains(order[j]));
        let g = choose|g: int| 0 <= g < unsorted.len() && unsorted[g] == order[i];
        let h = choose|h: int| 0 <= h < unsorted.len() && unsorted[h] == order[j];
        assert(unsorted[g].tie == 0 && unsorted[h].tie == 0);
    }
    assert forall|i: int, j: int| 0 <= i < j < items.len() implies (#[trigger] items[i]).1 >= (
    #[trigger] items[j]).1 by {
        assert(not_after(order[i], order[j]));
    }
    assert forall|c: int| #[trigger]
        in_child_range(nodes, node, c) && nodes[c].spec_size(physical) > 0 implies planned(
        items,
        c,
    ) by {
        assert(lo <= c < hi && nodes[c].spec_size(physical) > 0);
        let k = choose|k: int| 0 <= k < unsorted.len() && (#[trigger] unsorted[k]).id == c;
        assert(order.contains(unsorted[k]));
        let j = choose|j: int| 0 <= j < order.len() && order[j] == unsorted[k];
        assert(items[j].0 == c);
    }
}

} // verus!
