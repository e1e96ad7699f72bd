//! The order in which a subtree is drawn.

use vstd::prelude::*;

use crate::summary::subtree::{
    lemma_siblings_apart, lemma_under_child, lemma_under_children, lemma_under_order, only_under, under,
};
use crate::summary::totals::{file_size, lemma_sizes_add_up};
use crate::sums::lemma_sum_bounds;
use crate::tree::arena::{child_end, in_child_range, shape_wf, sizes_wf};
use crate::tree::{Node, NodeId};
use crate::treemap::{Cell, Layout, LayoutView};

verus! {

/// A child placed inside its parent.
#[derive(Clone, Copy, Debug)]
pub struct Placed<R, C> {
    pub node: NodeId,
    pub rect: R,
    pub cushion: C,
}

/// What has been drawn and what is still to be, the next on top.
pub struct Placer<R, C> {
    pending: Vec<Cell<R, C>>,
    leaves: Vec<Cell<R, C>>,
    dirs: Vec<Cell<R, C>>,
}

pub struct PlacerView<R, C> {
    pub pending: Seq<Cell<R, C>>,
    pub leaves: Seq<Cell<R, C>>,
    pub dirs: Seq<Cell<R, C>>,
}

impl<R, C> View for Placer<R, C> {
    type V = PlacerView<R, C>;

    closed spec fn view(&self) -> PlacerView<R, C> {
        PlacerView { pending: self.pending@, leaves: self.leaves@, dirs: self.dirs@ }
    }
}

/// The nodes of a list of cells.
pub open spec fn nodes_of<R, C>(cells: Seq<Cell<R, C>>) -> Seq<NodeId> {
    cells.map(|i: int, c: Cell<R, C>| c.node)
}

/// No node of the list is or lies under another.
pub open spec fn apart(nodes: Seq<Node>, ids: Seq<NodeId>) -> bool {
    forall|i: int, j: int|
        0 <= i < ids.len() && 0 <= j < ids.len() && i != j ==> !under(
            nodes,
            #[trigger] ids[i] as int,
            #[trigger] ids[j] as int,
        )
}

/// All nodes of the list lie under `root`.
pub open spec fn all_under(nodes: Seq<Node>, root: int, ids: Seq<NodeId>) -> bool {
    forall|i: int|
        0 <= i < ids.len() ==> (#[trigger] ids[i]) < nodes.len() && under(
            nodes,
            ids[i] as int,
            root,
        )
}

/// No node of `ids` is or lies under one of `parts`.
pub open spec fn above_all(nodes: Seq<Node>, ids: Seq<NodeId>, parts: Seq<NodeId>) -> bool {
    forall|i: int, j: int|
        0 <= i < ids.len() && 0 <= j < parts.len() ==> !under(
            nodes,
            #[trigger] ids[i] as int,
            #[trigger] parts[j] as int,
        )
}

/// Whether node `id` is or lies under part `j` of a list.
pub open spec fn shown_by(nodes: Seq<Node>, id: int, ids: Seq<NodeId>, j: int) -> bool {
    under(nodes, id, ids[j] as int)
}

impl<R, C> PlacerView<R, C> {
    /// The nodes that make up the picture: those drawn as one block, then those
    /// still to be decided.
    pub open spec fn front(&self) -> Seq<NodeId> {
        nodes_of(self.leaves) + nodes_of(self.pending)
    }

    /// Whether node `id` is part of the picture: it is, or lies under, one of
    /// the nodes that make it up.
    pub open spec fn shows(&self, nodes: Seq<Node>, id: int) -> bool {
        exists|j: int| 0 <= j < self.front().len() && shown_by(nodes, id, self.front(), j)
    }

    /// Every file under `root` that weighs something is part of the picture.
    pub open spec fn complete(&self, nodes: Seq<Node>, root: int, physical: bool) -> bool {
        forall|id: int|
            0 <= id < nodes.len() && under(nodes, id, root) && !nodes[id].spec_is_dir()
                && nodes[id].spec_size(physical) > 0 ==> #[trigger] self.shows(nodes, id)
    }

    /// The nodes that have been subdivided.
    pub open spec fn opened(&self) -> Seq<NodeId> {
        nodes_of(self.dirs)
    }

    /// The picture is made of separate parts of the subtree of `root`. The
    /// nodes that have been subdivided are different ones, and each stands
    /// above the parts, not in or below one.
    pub open spec fn wf(&self, nodes: Seq<Node>, root: int) -> bool {
        &&& all_under(nodes, root, self.front())
        &&& apart(nodes, self.front())
        &&& all_under(nodes, root, self.opened())
        &&& self.opened().no_duplicates()
        &&& above_all(nodes, self.opened(), self.front())
    }
}

impl<R: Copy, C: Copy> Placer<R, C> {
    /// A picture of one node that is still to be decided.
    pub fn new(root: NodeId, rect: R, cushion: C) -> (placer: Placer<R, C>)
        ensures
            placer@.pending == seq![Cell { node: root, rect, cushion, depth: 0 }],
            placer@.leaves == Seq::<Cell<R, C>>::empty(),
            placer@.dirs == Seq::<Cell<R, C>>::empty(),
            forall|nodes: Seq<Node>| root < nodes.len() ==> #[trigger] placer@.wf(nodes, root as int),
    {
        let mut pending: Vec<Cell<R, C>> = Vec::new();
        pending.push(Cell { node: root, rect, cushion, depth: 0 });
        Placer { pending, leaves: Vec::new(), dirs: Vec::new() }
    }

    /// The node to decide next.
    pub fn next(&self) -> (cell: Option<Cell<R, C>>)
        ensures
            match cell {
                Some(cell) => self@.pending.len() > 0 && cell == self@.pending.last(),
                None => self@.pending.len() == 0,
            },
    {
        let n: usize = self.pending.len();
        if n == 0 {
            None
        } else {
            let c = &self.pending[n - 1];
            Some(Cell { node: c.node, rect: c.rect, cushion: c.cushion, depth: c.depth })
        }
    }

    /// Draws the next node as one block.
    pub fn settle(&mut self)
        requires
            old(self)@.pending.len() > 0,
        ensures
            final(self)@.leaves == old(self)@.leaves.push(old(self)@.pending.last()),
            final(self)@.pending == old(self)@.pending.drop_last(),
            final(self)@.dirs == old(self)@.dirs,
            forall|nodes: Seq<Node>, root: int|
                old(self)@.wf(nodes, root) ==> #[trigger] final(self)@.wf(nodes, root),
    {
        let ghost before = self@;
        if let Some(cell) = self.pending.pop() {
            self.leaves.push(cell);
        }
        proof {
            assert forall|nodes: Seq<Node>, root: int| before.wf(nodes, root) implies #[trigger] self@.wf(
                nodes,
                root,
            ) by {
                lemma_settle(before, self@, nodes, root);
            }
        }
    }

    /// Subdivides the next node: its children go where it stood, to be decided
    /// in order.
    pub fn split(&mut self, inner: R, placed: &Vec<Placed<R, C>>)
        requires
            old(self)@.pending.len() > 0,
            old(self)@.pending.last().depth < u16::MAX,
        ensures
            final(self)@.leaves == old(self)@.leaves,
            final(self)@.dirs == old(self)@.dirs.push(
                Cell { rect: inner, ..old(self)@.pending.last() },
            ),
            final(self)@.pending == old(self)@.pending.drop_last() + children(
                placed@,
                old(self)@.pending.last().depth,
            ),
    {
        let ghost before = self@;
        if let Some(cell) = self.pending.pop() {
            let ghost rest = self.pending@;
            self.dirs.push(
                Cell { node: cell.node, rect: inner, cushion: cell.cushion, depth: cell.depth },
            );
            let mut i: usize = placed.len();
            assert(self.pending@ == rest + children(placed@, cell.depth).take(0));
            while i > 0
                invariant
                    i <= placed@.len(),
                    cell.depth < u16::MAX,
                    self.leaves@ == before.leaves,
                    self.dirs@ == before.dirs.push(Cell { rect: inner, ..cell }),
                    self.pending@ == rest + children(placed@, cell.depth).take(placed@.len() - i),
                decreases i,
            {
                i -= 1;
                let p = &placed[i];
                self.pending.push(
                    Cell {
                        node: p.node,
                        rect: p.rect,
                        cushion: p.cushion,
                        depth: cell.depth + 1,
                    },
                );
                assert(self.pending@ == rest + children(placed@, cell.depth).take(
                    placed@.len() - i,
                ));
            }
            proof {
                let kids = children(placed@, cell.depth);
                assert(kids.take(kids.len() as int) == kids);
            }
        }
    }

    /// The finished layout, once nothing is left to decide.
    pub fn finish(self, root: NodeId, view: R, physical: bool) -> (layout: Layout<R, C>)
        requires
            self@.pending.len() == 0,
            self@.dirs.len() <= u32::MAX,
        ensures
            layout.wf(),
            layout@ == (LayoutView {
                root,
                view,
                leaves: self@.leaves,
                dirs: self@.dirs,
                physical,
            }),
    {
        Layout::new(root, view, self.leaves, self.dirs, physical)
    }
}

/// The cells of placed children, the first on top.
pub open spec fn children<R, C>(placed: Seq<Placed<R, C>>, depth: u16) -> Seq<Cell<R, C>> {
    Seq::new(
        placed.len(),
        |i: int|
            {
                let p = placed[placed.len() - 1 - i];
                Cell {
                    node: p.node,
                    rect: p.rect,
                    cushion: p.cushion,
                    depth: (depth + 1) as u16,
                }
            },
    )
}

proof fn lemma_settle<R, C>(
    before: PlacerView<R, C>,
    after: PlacerView<R, C>,
    nodes: Seq<Node>,
    root: int,
)
    requires
        before.pending.len() > 0,
        before.wf(nodes, root),
        after.leaves == before.leaves.push(before.pending.last()),
        after.pending == before.pending.drop_last(),
        after.dirs == before.dirs,
    ensures
        after.wf(nodes, root),
{
    // The settled node moves from the end to the middle; the others keep their
    // order.
    let old_front = before.front();
    let new_front = after.front();
    let m = before.leaves.len() as int;
    let n = old_front.len() as int;
    let from = |i: int|
        if i < m {
            i
        } else if i == m {
            n - 1
        } else {
            i - 1
        };
    assert(new_front.len() == n);
    assert forall|i: int| 0 <= i < n implies #[trigger] new_front[i] == old_front[from(i)] by {}
    assert forall|i: int| 0 <= i < n implies (#[trigger] new_front[i]) < nodes.len() && under(
        nodes,
        new_front[i] as int,
        root,
    ) by {
        assert(new_front[i] == old_front[from(i)]);
    }
    assert forall|i: int, j: int| 0 <= i < n && 0 <= j < n && i != j implies !under(
        nodes,
        #[trigger] new_front[i] as int,
        #[trigger] new_front[j] as int,
    ) by {
        assert(new_front[i] == old_front[from(i)]);
        assert(new_front[j] == old_front[from(j)]);
        assert(from(i) != from(j));
    }
    assert forall|i: int, j: int|
        0 <= i < after.opened().len() && 0 <= j < n implies !under(
        nodes,
        #[trigger] after.opened()[i] as int,
        #[trigger] new_front[j] as int,
    ) by {
        assert(new_front[j] == old_front[from(j)]);
        assert(before.opened()[i] == after.opened()[i]);
    }
}

/// Subdividing a node into some of its children keeps the picture made of
/// separate parts: no block is drawn twice, and none over another, and no node
/// is both a block and subdivided.
pub proof fn lemma_split_keeps_apart<R, C>(
    before: PlacerView<R, C>,
    after: PlacerView<R, C>,
    nodes: Seq<Node>,
    root: int,
    placed: Seq<Placed<R, C>>,
)
    requires
        shape_wf(nodes),
        before.pending.len() > 0,
        before.wf(nodes, root),
        after.leaves == before.leaves,
        after.dirs.len() == before.dirs.len() + 1,
        after.dirs.drop_last() == before.dirs,
        after.dirs.last().node == before.pending.last().node,
        after.pending == before.pending.drop_last() + children(
            placed,
            before.pending.last().depth,
        ),
        forall|i: int|
            0 <= i < placed.len() ==> in_child_range(
                nodes,
                before.pending.last().node as int,
                (#[trigger] placed[i]).node as int,
            ),
        forall|i: int, j: int|
            0 <= i < j < placed.len() ==> (#[trigger] placed[i]).node != (#[trigger] placed[j]).node,
    ensures
        after.wf(nodes, root),
        after.front().len() == before.front().len() - 1 + placed.len(),
{
    let p = before.pending.last().node as int;
    let old_front = before.front();
    let new_front = after.front();
    let n = old_front.len() - 1;
    let k = placed.len() as int;
    assert(old_front[n] == p);
    assert(new_front.len() == n + k);
    assert forall|i: int| 0 <= i < n implies #[trigger] new_front[i] == old_front[i] by {}
    assert forall|i: int| n <= i < n + k implies #[trigger] new_front[i] == placed[k - 1 - (i
        - n)].node && new_front[i] < nodes.len() && nodes[new_front[i] as int].parent == p && p
        < new_front[i] by {
        let c = placed[k - 1 - (i - n)].node as int;
        assert(in_child_range(nodes, p, c));
        assert(nodes[p].child_len > 0);
        assert(in_child_range(nodes, p, c) <==> nodes[c].parent == p);
    }
    assert forall|i: int| 0 <= i < new_front.len() implies (#[trigger] new_front[i]) < nodes.len()
        && under(nodes, new_front[i] as int, root) by {
        if i < n {
            assert(new_front[i] == old_front[i]);
        } else {
            assert(old_front[n] < nodes.len());
            assert(under(nodes, new_front[i] as int, root));
        }
    }
    assert forall|i: int, j: int|
        0 <= i < new_front.len() && 0 <= j < new_front.len() && i != j implies !under(
        nodes,
        #[trigger] new_front[i] as int,
        #[trigger] new_front[j] as int,
    ) by {
        let (a, b) = (new_front[i] as int, new_front[j] as int);
        if i < n && j < n {
            assert(a == old_front[i] && b == old_front[j]);
        } else if i < n {
            // A node under a child of `p` would be under `p`.
            assert(a == old_front[i]);
            if under(nodes, a, b) {
                lemma_under_child(nodes, a, b, p);
                assert(!under(nodes, old_front[i] as int, old_front[n] as int));
            }
        } else if j < n {
            // A child under another part would put `p` under it, or be it.
            assert(b == old_front[j]);
            if under(nodes, a, b) {
                if a == b {
                    assert(under(nodes, b, b));
                    assert(under(nodes, a, a));
                    lemma_under_child(nodes, b, a, p);
                    assert(!under(nodes, old_front[j] as int, old_front[n] as int));
                } else {
                    assert(!under(nodes, old_front[n] as int, old_front[j] as int));
                }
            }
        } else {
            assert(a != b);
            if under(nodes, a, b) {
                assert(under(nodes, a, a));
                lemma_siblings_apart(nodes, a, a, b);
            }
        }
    }
    lemma_split_opens(before, after, nodes, root, placed);
}

/// The subdivided node joins the others, above all parts.
proof fn lemma_split_opens<R, C>(
    before: PlacerView<R, C>,
    after: PlacerView<R, C>,
    nodes: Seq<Node>,
    root: int,
    placed: Seq<Placed<R, C>>,
)
    requires
        shape_wf(nodes),
        before.pending.len() > 0,
        before.wf(nodes, root),
        after.leaves == before.leaves,
        after.dirs.len() == before.dirs.len() + 1,
        after.dirs.drop_last() == before.dirs,
        after.dirs.last().node == before.pending.last().node,
        after.pending == before.pending.drop_last() + children(
            placed,
            before.pending.last().depth,
        ),
        forall|i: int|
            0 <= i < placed.len() ==> in_child_range(
                nodes,
                before.pending.last().node as int,
                (#[trigger] placed[i]).node as int,
            ),
    ensures
        all_under(nodes, root, after.opened()),
        after.opened().no_duplicates(),
        above_all(nodes, after.opened(), after.front()),
{
    let p = before.pending.last().node as int;
    let old_front = before.front();
    let new_front = after.front();
    let was = before.opened();
    let now = after.opened();
    let n = old_front.len() - 1;
    let m = was.len() as int;
    let k = placed.len() as int;
    assert(old_front[n] == p);
    assert(now.len() == m + 1);
    assert(now[m] == p);
    assert forall|i: int| 0 <= i < m implies #[trigger] now[i] == was[i] by {
        assert(after.dirs.drop_last()[i] == after.dirs[i]);
    }
    assert forall|i: int| 0 <= i < now.len() implies (#[trigger] now[i]) < nodes.len() && under(
        nodes,
        now[i] as int,
        root,
    ) by {
        if i < m {
            assert(now[i] == was[i]);
        } else {
            assert(old_front[n] < nodes.len());
        }
    }
    assert forall|i: int, j: int|
        0 <= i < now.len() && 0 <= j < now.len() && i != j implies now[i] != now[j] by {
        if i < m && j < m {
            assert(now[i] == was[i] && now[j] == was[j]);
        } else {
            let o = if i < m {
                i
            } else {
                j
            };
            assert(now[o] == was[o]);
            assert(!under(nodes, was[o] as int, old_front[n] as int));
            assert(under(nodes, p, p));
        }
    }
    assert forall|i: int, j: int| 0 <= i < now.len() && 0 <= j < new_front.len() implies !under(
        nodes,
        #[trigger] now[i] as int,
        #[trigger] new_front[j] as int,
    ) by {
        let a = now[i] as int;
        let b = new_front[j] as int;
        if j < n {
            assert(b == old_front[j]);
            if i < m {
                assert(a == was[i]);
            } else {
                assert(!under(nodes, old_front[n] as int, old_front[j] as int));
            }
        } else {
            assert(b == placed[k - 1 - (j - n)].node);
            assert(in_child_range(nodes, p, b));
            assert(old_front[n] < nodes.len());
            assert(nodes[p].child_len > 0);
            assert(in_child_range(nodes, p, b) <==> nodes[b].parent == p);
            if under(nodes, a, b) {
                lemma_under_child(nodes, a, b, p);
                if i < m {
                    assert(a == was[i]);
                    assert(!under(nodes, was[i] as int, old_front[n] as int));
                } else {
                    lemma_under_order(nodes, a, b);
                }
            }
        }
    }
}

/// A finished picture shows every node at most once, as a block or as a folder
/// that was subdivided, and shows at least one block if it ever had a part.
pub proof fn lemma_each_once<R, C>(done: PlacerView<R, C>, nodes: Seq<Node>, root: int)
    requires
        done.pending.len() == 0,
        done.wf(nodes, root),
    ensures
        nodes_of(done.leaves).no_duplicates(),
        nodes_of(done.dirs).no_duplicates(),
        forall|i: int, j: int|
            0 <= i < done.dirs.len() && 0 <= j < done.leaves.len() ==> (#[trigger] done.dirs[i]).node
                != (#[trigger] done.leaves[j]).node,
        done.front().len() > 0 ==> done.leaves.len() > 0,
{
    let front = done.front();
    assert forall|i: int, j: int|
        0 <= i < done.leaves.len() && 0 <= j < done.leaves.len() && i != j implies nodes_of(
        done.leaves,
    )[i] != nodes_of(done.leaves)[j] by {
        assert(front[i] == done.leaves[i].node && front[j] == done.leaves[j].node);
        assert(!under(nodes, front[i] as int, front[j] as int));
        assert(under(nodes, front[i] as int, front[i] as int));
    }
    assert forall|i: int, j: int|
        0 <= i < done.dirs.len() && 0 <= j < done.leaves.len() implies (#[trigger] done.dirs[i]).node
        != (#[trigger] done.leaves[j]).node by {
        assert(done.opened()[i] == done.dirs[i].node && front[j] == done.leaves[j].node);
        assert(!under(nodes, done.opened()[i] as int, front[j] as int));
        assert(under(nodes, front[j] as int, front[j] as int));
    }
}

/// A picture of one node that is still to be decided leaves nothing out.
pub proof fn lemma_start_is_complete<R, C>(
    start: PlacerView<R, C>,
    nodes: Seq<Node>,
    root: NodeId,
    physical: bool,
)
    requires
        start.pending.len() == 1,
        start.pending[0].node == root,
        start.leaves.len() == 0,
    ensures
        start.complete(nodes, root as int, physical),
{
    assert(start.front()[0] == root);
    assert forall|id: int|
        0 <= id < nodes.len() && under(nodes, id, root as int) && !nodes[id].spec_is_dir()
            && nodes[id].spec_size(physical) > 0 implies #[trigger] start.shows(nodes, id) by {
        assert(shown_by(nodes, id, start.front(), 0));
    }
}

/// Drawing a node as one block leaves nothing out.
pub proof fn lemma_settle_keeps_all<R, C>(
    before: PlacerView<R, C>,
    after: PlacerView<R, C>,
    nodes: Seq<Node>,
    root: int,
    physical: bool,
)
    requires
        before.pending.len() > 0,
        before.complete(nodes, root, physical),
        after.leaves == before.leaves.push(before.pending.last()),
        after.pending == before.pending.drop_last(),
    ensures
        after.complete(nodes, root, physical),
{
    let old_front = before.front();
    let new_front = after.front();
    let m = before.leaves.len() as int;
    assert forall|id: int|
        0 <= id < nodes.len() && under(nodes, id, root) && !nodes[id].spec_is_dir()
            && nodes[id].spec_size(physical) > 0 implies #[trigger] after.shows(nodes, id) by {
        assert(before.shows(nodes, id));
        let j = choose|j: int|
            0 <= j < old_front.len() && shown_by(nodes, id, old_front, j);
        let k = if j < m {
            j
        } else if j == old_front.len() - 1 {
            m
        } else {
            j + 1
        };
        assert(new_front[k] == old_front[j]);
        assert(shown_by(nodes, id, new_front, k));
    }
}

/// Subdividing a node into all its children that weigh something leaves nothing
/// out: a file that was part of the picture still is.
pub proof fn lemma_split_keeps_all<R, C>(
    before: PlacerView<R, C>,
    after: PlacerView<R, C>,
    nodes: Seq<Node>,
    root: int,
    placed: Seq<Placed<R, C>>,
    physical: bool,
)
    requires
        shape_wf(nodes),
        sizes_wf(nodes),
        before.pending.len() > 0,
        before.wf(nodes, root),
        before.complete(nodes, root, physical),
        nodes[before.pending.last().node as int].child_len > 0,
        after.leaves == before.leaves,
        after.pending == before.pending.drop_last() + children(
            placed,
            before.pending.last().depth,
        ),
        forall|c: int| #[trigger]
            in_child_range(nodes, before.pending.last().node as int, c) && nodes[c].spec_size(
                physical,
            ) > 0 ==> is_placed(placed, c),
    ensures
        after.complete(nodes, root, physical),
{
    let p = before.pending.last().node as int;
    assert(before.front()[before.front().len() - 1] == p);
    assert forall|id: int|
        0 <= id < nodes.len() && under(nodes, id, root) && !nodes[id].spec_is_dir()
            && nodes[id].spec_size(physical) > 0 implies #[trigger] after.shows(nodes, id) by {
        assert(before.shows(nodes, id));
        if under(nodes, id, p) {
            let c = lemma_child_above(nodes, id, p, physical);
            lemma_shown_by_child(before, after, nodes, placed, id, c);
        } else {
            lemma_shown_elsewhere(before, after, nodes, placed, id);
        }
    }
}

/// A file that lies under a part that was not subdivided is still shown.
proof fn lemma_shown_elsewhere<R, C>(
    before: PlacerView<R, C>,
    after: PlacerView<R, C>,
    nodes: Seq<Node>,
    placed: Seq<Placed<R, C>>,
    id: int,
)
    requires
        before.pending.len() > 0,
        before.shows(nodes, id),
        !under(nodes, id, before.pending.last().node as int),
        after.leaves == before.leaves,
        after.pending == before.pending.drop_last() + children(
            placed,
            before.pending.last().depth,
        ),
    ensures
        after.shows(nodes, id),
{
    let old_front = before.front();
    let j = choose|j: int| 0 <= j < old_front.len() && shown_by(nodes, id, old_front, j);
    assert(old_front[old_front.len() - 1] == before.pending.last().node);
    assert(after.front()[j] == old_front[j]);
    assert(shown_by(nodes, id, after.front(), j));
}

/// A file under a placed child is shown.
proof fn lemma_shown_by_child<R, C>(
    before: PlacerView<R, C>,
    after: PlacerView<R, C>,
    nodes: Seq<Node>,
    placed: Seq<Placed<R, C>>,
    id: int,
    c: int,
)
    requires
        before.pending.len() > 0,
        under(nodes, id, c),
        is_placed(placed, c),
        after.leaves == before.leaves,
        after.pending == before.pending.drop_last() + children(
            placed,
            before.pending.last().depth,
        ),
    ensures
        after.shows(nodes, id),
{
    let i = choose|i: int| 0 <= i < placed.len() && (#[trigger] placed[i]).node == c;
    let k = before.front().len() - 1 + (placed.len() - 1 - i);
    assert(after.front()[k] == c);
    assert(shown_by(nodes, id, after.front(), k));
}

/// The child of a directory that a file under the directory lies under; it
/// weighs something if the file does.
proof fn lemma_child_above(nodes: Seq<Node>, id: int, p: int, physical: bool) -> (c: int)
    requires
        shape_wf(nodes),
        sizes_wf(nodes),
        0 <= p < nodes.len(),
        0 <= id < nodes.len(),
        nodes[p].child_len > 0,
        under(nodes, id, p),
        !nodes[id].spec_is_dir(),
        nodes[id].spec_size(physical) > 0,
    ensures
        in_child_range(nodes, p, c),
        under(nodes, id, c),
        nodes[c].spec_size(physical) > 0,
{
    assert(nodes[p].spec_is_dir());
    lemma_under_children(nodes, id, p);
    let lo = nodes[p].child_start as int;
    let hi = child_end(nodes, p);
    let c = choose|c: int| lo <= c < hi && #[trigger] under(nodes, id, c);
    lemma_holds(nodes, id, c, physical);
    c
}

/// Whether child `c` has been placed.
pub open spec fn is_placed<R, C>(placed: Seq<Placed<R, C>>, c: int) -> bool {
    exists|i: int| 0 <= i < placed.len() && (#[trigger] placed[i]).node == c
}

/// A node weighs at least what a file under it does.
proof fn lemma_holds(nodes: Seq<Node>, id: int, c: int, physical: bool)
    requires
        shape_wf(nodes),
        sizes_wf(nodes),
        0 <= c < nodes.len(),
        0 <= id < nodes.len(),
        under(nodes, id, c),
        !nodes[id].spec_is_dir(),
    ensures
        nodes[id].spec_size(physical) <= nodes[c].spec_size(physical),
{
    lemma_sizes_add_up(nodes, c, physical);
    let f = only_under(nodes, c, file_size(nodes, physical));
    lemma_sum_bounds(0, nodes.len() as int, f);
    assert(f(id) == nodes[id].spec_size(physical));
}

} // verus!
