//! What the map shows.

use vstd::prelude::*;

use crate::bmp::{bmp, encode_rgba, header, le32, lemma_pixel};
use crate::canvas::{drills_into, folder_at, placed_at};
use crate::kinds::Kind;
use crate::laws::records::spelled;
use crate::raster::{color_of, dims, owner, paint_ids, Bounds, NO_NODE};
use crate::sidebar::opens;
use crate::sums::sum;
use crate::tree::arena::in_child_range;
use crate::tree::flags;
use crate::tree::{Node, NodeId};
use crate::treemap::placer::{children, Placed, Placer};
use crate::treemap::strips::Strip;
use crate::treemap::{is_first, is_last, item_size, lacks, planned, plans, Cell, Layout, Plan};

verus! {

/// The size of a node in the metric asked for.
pub open spec fn measured(n: Node, physical: bool) -> u64 {
    if physical {
        n.physical
    } else {
        n.logical
    }
}

/// Whether `c` is a child of `n`.
pub open spec fn is_child(n: Node, c: int) -> bool {
    n.child_start <= c < n.child_start + n.child_len
}

/// Whether `c` is a child of `n` that weighs something.
pub open spec fn is_weighty_child(nodes: Seq<Node>, n: Node, physical: bool, c: int) -> bool {
    is_child(n, c) && measured(nodes[c], physical) > 0
}

/// A node is subdivided exactly if it has the room, has a child that weighs
/// something, and is no bundle while bundles are drawn as one block. How deep
/// it stands, what it is called and how much it weighs have no part in it.
pub proof fn lemma_room_is_used(
    nodes: Seq<Node>,
    node: int,
    physical: bool,
    collapse_packages: bool,
    roomy: bool,
    plan: Option<Plan>,
)
    requires
        0 <= node < nodes.len(),
        plans(nodes, node, physical, collapse_packages, roomy, plan),
    ensures
        ({
            let n = nodes[node];
            plan is Some <==> {
                &&& roomy
                &&& n.child_len > 0
                &&& !(collapse_packages && n.flags & flags::PACKAGE != 0)
                &&& exists|c: int| #[trigger] is_weighty_child(nodes, n, physical, c)
            }
        }),
{
    let n = nodes[node];
    if let Some(p) = plan {
        let c = p.items@[0].0 as int;
        assert(in_child_range(nodes, node, c));
        assert(is_weighty_child(nodes, n, physical, c));
    } else if exists|c: int| #[trigger] is_weighty_child(nodes, n, physical, c) {
        let c = choose|c: int| #[trigger] is_weighty_child(nodes, n, physical, c);
        assert(in_child_range(nodes, node, c));
    }
}

/// A subdivided node shows each of its children that weighs something, once, by
/// its own size, and nothing else; the largest come first, and together they
/// weigh what the node does.
pub proof fn lemma_every_child_is_drawn(
    nodes: Seq<Node>,
    node: int,
    physical: bool,
    collapse_packages: bool,
    roomy: bool,
    plan: Plan,
)
    requires
        0 <= node < nodes.len(),
        plans(nodes, node, physical, collapse_packages, roomy, Some(plan)),
    ensures
        ({
            let n = nodes[node];
            let items = plan.items@;
            &&& forall|c: int|
                #[trigger] is_weighty_child(nodes, n, physical, c) ==> exists|j: int|
                    0 <= j < items.len() && (#[trigger] items[j]).0 == c && items[j].1 == measured(
                        nodes[c],
                        physical,
                    )
            &&& forall|j: int|
                0 <= j < items.len() ==> is_weighty_child(
                    nodes,
                    n,
                    physical,
                    (#[trigger] items[j]).0 as int,
                ) && items[j].1 == measured(nodes[items[j].0 as int], physical)
            &&& forall|i: int, j: int|
                0 <= i < j < items.len() ==> (#[trigger] items[i]).0 != (#[trigger] items[j]).0
                    && items[i].1 >= items[j].1
            &&& plan.total == measured(n, physical)
            &&& plan.total == sum(0, items.len() as int, |j: int| items[j].1 as int)
        }),
{
    let n = nodes[node];
    let items = plan.items@;
    assert forall|c: int| #[trigger] is_weighty_child(nodes, n, physical, c) implies exists|j: int|
        0 <= j < items.len() && (#[trigger] items[j]).0 == c && items[j].1 == measured(
            nodes[c],
            physical,
        ) by {
        assert(in_child_range(nodes, node, c));
        assert(planned(items, c));
        let j = choose|j: int| 0 <= j < items.len() && (#[trigger] items[j]).0 == c;
        assert(items[j].1 == measured(nodes[c], physical));
    }
    assert forall|j: int| 0 <= j < items.len() implies is_weighty_child(
        nodes,
        n,
        physical,
        (#[trigger] items[j]).0 as int,
    ) by {
        assert(in_child_range(nodes, node, items[j].0 as int));
    }
    crate::sums::lemma_sum_same(
        0,
        items.len() as int,
        item_size(items),
        |j: int| items[j].1 as int,
    );
}

/// The map stops at what is no directory, at what has no children or could not
/// be read, and at bundles while they are drawn as one block; nowhere else.
pub proof fn lemma_where_the_map_stops(n: Node, collapse_packages: bool)
    ensures
        n.spec_is_leaf(collapse_packages) <==> n.flags & flags::DIR == 0 || n.child_len == 0
            || n.flags & flags::UNREADABLE != 0 || (collapse_packages && n.flags & flags::PACKAGE
            != 0),
        n.spec_is_leaf(false) ==> n.spec_is_leaf(true),
{
}

/// Whether a block covers a pixel: its left and upper edges are part of it, its
/// right and lower ones are not.
pub open spec fn lies_on(b: Bounds, x: int, y: int) -> bool {
    b.x0 <= x && x < b.x1 && b.y0 <= y && y < b.y1
}

/// A pixel names the last block that covers it, and none where there is none.
pub proof fn lemma_pixel_names_its_block(
    bounds: Seq<Bounds>,
    nodes: Seq<NodeId>,
    n: int,
    x: int,
    y: int,
)
    requires
        0 <= n <= bounds.len(),
        bounds.len() == nodes.len(),
    ensures
        forall|i: int|
            0 <= i < n && lies_on(#[trigger] bounds[i], x, y) && (forall|j: int|
                i < j < n ==> !lies_on(#[trigger] bounds[j], x, y)) ==> owner(
                bounds,
                nodes,
                n,
                x,
                y,
            ) == nodes[i],
        (forall|i: int| 0 <= i < n ==> !lies_on(#[trigger] bounds[i], x, y)) ==> owner(
            bounds,
            nodes,
            n,
            x,
            y,
        ) == NO_NODE,
    decreases n,
{
    if n > 0 {
        lemma_pixel_names_its_block(bounds, nodes, n - 1, x, y);
        assert(bounds[n - 1].covers(x, y) == lies_on(bounds[n - 1], x, y));
    }
}

/// A block has the colour of its kind, unless it could not be read or lies on
/// another volume; those two look the same whatever kind they are of, and
/// different from one another.
pub proof fn lemma_colors(n: Node, m: Node, kinds: Seq<Kind>)
    ensures
        n.flags & flags::UNREADABLE == 0 && n.flags & flags::OTHER_FS == 0 ==> color_of(n, kinds)
            == kinds[n.kind as int].color@,
        n.flags & flags::UNREADABLE != 0 && m.flags & flags::UNREADABLE != 0 ==> color_of(n, kinds)
            == color_of(m, kinds),
        n.flags & flags::UNREADABLE != 0 && m.flags & flags::UNREADABLE == 0 && m.flags
            & flags::OTHER_FS != 0 ==> color_of(n, kinds)[0] > color_of(m, kinds)[0],
        n.flags & flags::UNREADABLE != 0 ==> color_of(n, kinds) == seq![92u8, 64u8, 64u8],
        n.flags & flags::UNREADABLE == 0 && n.flags & flags::OTHER_FS != 0 ==> color_of(n, kinds)
            == seq![70u8, 78u8, 92u8],
{
}

/// With a kind picked out, what is of another kind is greyed back and what is of
/// that kind is not; with none picked out, nothing is.
pub proof fn lemma_greyed_back(n: Node, kind: u16)
    ensures
        dims(n, Some(kind)) <==> n.kind != kind,
        !dims(n, None),
{
}

/// Drilling into a folder with something in it shows that folder; into anything
/// else, the folder it stands in.
pub proof fn lemma_where_drilling_leads(nodes: Seq<Node>, id: NodeId)
    requires
        id < nodes.len(),
    ensures
        nodes[id as int].flags & flags::DIR != 0 && nodes[id as int].child_len > 0 ==> drills_into(
            nodes,
            id as int,
        ) == id,
        nodes[id as int].flags & flags::DIR == 0 || nodes[id as int].child_len == 0 ==> drills_into(
            nodes,
            id as int,
        ) == nodes[id as int].parent,
{
}

/// A folder opens in the folder pane if it has something in it, unless it is a
/// bundle.
pub proof fn lemma_which_folders_open(n: Node)
    ensures
        opens(n) <==> n.child_len > 0 && n.flags & flags::PACKAGE == 0,
{
}

/// A node is outlined where its first block is, and where its folder is if it
/// has no block; nowhere if it was not drawn.
pub proof fn lemma_outlines<R: Copy, C: Copy>(
    layout: Layout<R, C>,
    node: NodeId,
    rect: Option<R>,
    i: int,
)
    requires
        placed_at(layout, node, rect),
    ensures
        0 <= i < layout@.leaves.len() && layout@.leaves[i].node == node && (forall|j: int|
            0 <= j < i ==> (#[trigger] layout@.leaves[j]).node != node) ==> rect == Some(
            layout@.leaves[i].rect,
        ),
        (forall|j: int| 0 <= j < layout@.leaves.len() ==> (#[trigger] layout@.leaves[j]).node
            != node) && 0 <= i < layout@.dirs.len() && layout@.dirs[i].node == node && (forall|j: int|
            i < j < layout@.dirs.len() ==> (#[trigger] layout@.dirs[j]).node != node) ==> rect
            == Some(layout@.dirs[i].rect),
        (forall|j: int| 0 <= j < layout@.leaves.len() ==> (#[trigger] layout@.leaves[j]).node
            != node) && (forall|j: int|
            0 <= j < layout@.dirs.len() ==> (#[trigger] layout@.dirs[j]).node != node) ==> rect
            is None,
{
    let leaves = layout@.leaves;
    let dirs = layout@.dirs;
    if rect is Some && !lacks(leaves, node) {
        let k = choose|k: int| #[trigger]
            is_first(leaves, node, k) && rect->0 == leaves[k].rect;
        if 0 <= i < leaves.len() && leaves[i].node == node && (forall|j: int|
            0 <= j < i ==> (#[trigger] leaves[j]).node != node) {
            assert(leaves[k].node == node);
        }
    }
    if rect is Some && lacks(leaves, node) {
        assert forall|k: int| !(#[trigger] is_first(leaves, node, k)) by {}
        let k = choose|k: int| #[trigger] is_last(dirs, node, k) && rect->0 == dirs[k].rect;
        assert(dirs[k].node == node);
    }
}

/// The children of a subdivided node are drawn one level below it, each in the
/// rectangle it was given, in the order they were placed.
pub proof fn lemma_cells<R, C>(placed: Seq<Placed<R, C>>, depth: u16, i: int)
    requires
        depth < u16::MAX,
        0 <= i < placed.len(),
    ensures
        ({
            let cells = children(placed, depth);
            let cell = cells[placed.len() - 1 - i];
            &&& cells.len() == placed.len()
            &&& cell.node == placed[i].node
            &&& cell.rect == placed[i].rect
            &&& cell.cushion == placed[i].cushion
            &&& cell.depth == depth + 1
        }),
{
}

/// A strip takes its first item whatever it looks like, and a further one only
/// if that looks better.
pub proof fn lemma_takes(strip: &Strip, improves: bool, taken: bool)
    requires
        call_ensures(Strip::takes, (strip, improves), taken),
    ensures
        strip.count == 0 ==> taken,
        strip.count > 0 ==> (taken <==> improves),
{
}

/// Every pixel of the id buffer names the last block over it.
pub proof fn lemma_paint_ids(
    bounds: &Vec<Bounds>,
    nodes: &Vec<NodeId>,
    width: usize,
    height: usize,
    ids: Vec<NodeId>,
    p: int,
    i: int,
)
    requires
        bounds@.len() == nodes@.len(),
        call_ensures(paint_ids, (bounds, nodes, width, height), ids),
        0 <= p < ids@.len(),
        0 <= i < bounds@.len(),
        lies_on(bounds@[i], p % width as int, p / width as int),
        forall|j: int|
            i < j < bounds@.len() ==> !lies_on(
                #[trigger] bounds@[j],
                p % width as int,
                p / width as int,
            ),
    ensures
        ids@.len() == width * height,
        ids@[p] == nodes@[i],
{
    lemma_pixel_names_its_block(
        bounds@,
        nodes@,
        bounds@.len() as int,
        p % width as int,
        p / width as int,
    );
}

proof fn lemma_le32(v: int)
    requires
        0 <= v < 0x1_0000_0000,
    ensures
        le32(v).len() == 4,
        le32(v)[0] + 0x100 * le32(v)[1] + 0x1_0000 * le32(v)[2] + 0x100_0000 * le32(v)[3] == v,
{
}

/// The header of a picture says how large it is, that a pixel has 24 bits, and
/// where the pixels start.
pub proof fn lemma_picture_header(width: int, height: int, rgba: Seq<u8>)
    requires
        0 <= width < 0x1_0000_0000,
        0 <= height < 0x1_0000_0000,
    ensures
        ({
            let out = bmp(width, height, rgba);
            &&& out.len() >= 54
            &&& out[0] == 0x42 && out[1] == 0x4d
            &&& spelled(out, 10, 4) == 54
            &&& spelled(out, 14, 4) == 40
            &&& spelled(out, 18, 4) == width
            &&& spelled(out, 22, 4) == height
            &&& out[26] == 1 && out[27] == 0
            &&& out[28] == 24 && out[29] == 0
            &&& spelled(out, 30, 4) == 0
        }),
{
    let out = bmp(width, height, rgba);
    let head = header(width, height);
    assert(head.len() == 54);
    assert forall|i: int| 0 <= i < 54 implies #[trigger] out[i] == head[i] by {}
    lemma_le32(width);
    lemma_le32(height);
    lemma_le32(54);
    lemma_le32(40);
    lemma_le32(0);
    reveal_with_fuel(spelled, 5);
    assert(head[10] == le32(54)[0] && head[11] == le32(54)[1] && head[12] == le32(54)[2] && head[13]
        == le32(54)[3]);
    assert(head[14] == le32(40)[0] && head[15] == le32(40)[1] && head[16] == le32(40)[2] && head[17]
        == le32(40)[3]);
    assert(head[18] == le32(width)[0] && head[19] == le32(width)[1] && head[20] == le32(width)[2]
        && head[21] == le32(width)[3]);
    assert(head[22] == le32(height)[0] && head[23] == le32(height)[1] && head[24] == le32(
        height,
    )[2] && head[25] == le32(height)[3]);
    assert(head[30] == le32(0)[0] && head[31] == le32(0)[1] && head[32] == le32(0)[2] && head[33]
        == le32(0)[3]);
}

/// A picture that is written holds every pixel: blue, green and red, the lowest
/// row first, each row filled up to a multiple of four bytes.
pub proof fn lemma_encode_rgba(
    width: u32,
    height: u32,
    rgba: &[u8],
    out: Vec<u8>,
    x: int,
    y: int,
    c: int,
)
    requires
        call_ensures(encode_rgba, (width, height, rgba), out),
        0 <= x < width,
        0 <= y < height,
        0 <= c < 3,
    ensures
        out@[54 + (height - 1 - y) * ((3 * width + 3) / 4 * 4) + 3 * x + 2 - c] == rgba@[(y * width
            + x) * 4 + c],
{
    lemma_pixel(width as int, height as int, rgba@, x, y, c);
}

/// Drawing a node as one block makes it a block; subdividing one makes it a
/// folder whose children come next.
pub proof fn lemma_placing<R: Copy, C: Copy>()
    ensures
        forall|p: &mut Placer<R, C>| #[trigger]
            call_ensures(Placer::<R, C>::settle, (p,), ()) ==> {
                &&& final(p)@.leaves == p@.leaves.push(p@.pending.last())
                &&& final(p)@.pending == p@.pending.drop_last()
                &&& final(p)@.dirs == p@.dirs
            },
        forall|p: &mut Placer<R, C>, inner: R, placed: &Vec<Placed<R, C>>| #[trigger]
            call_ensures(Placer::<R, C>::split, (p, inner, placed), ()) && p@.pending.len() > 0
                ==> {
                &&& final(p)@.leaves == p@.leaves
                &&& final(p)@.dirs.len() == p@.dirs.len() + 1
                &&& final(p)@.dirs.last().node == p@.pending.last().node
                &&& final(p)@.dirs.last().rect == inner
                &&& final(p)@.pending.len() == p@.pending.len() - 1 + placed@.len()
                &&& placed@.len() > 0 ==> final(p)@.pending.last().node
                    == placed@[0].node && final(p)@.pending.last().rect == placed@[0].rect
            },
{
}

/// The node to decide next is the one on top, and the finished layout has the
/// blocks and folders there are.
pub proof fn lemma_finishing<R: Copy, C: Copy>(
    p: Placer<R, C>,
    root: NodeId,
    view: R,
    physical: bool,
    layout: Layout<R, C>,
    next: Option<Cell<R, C>>,
)
    requires
        call_ensures(Placer::<R, C>::finish, (p, root, view, physical), layout),
        call_ensures(Placer::<R, C>::next, (&p,), next),
    ensures
        layout@.leaves == p@.leaves,
        layout@.dirs == p@.dirs,
        layout@.root == root,
        layout@.physical == physical,
        p@.pending.len() > 0 ==> next == Some(p@.pending.last()),
        p@.pending.len() == 0 ==> next is None,
{
}

/// The rectangle of a folder is the one its children were placed into.
pub proof fn lemma_dir_rect<R: Copy, C: Copy>(
    layout: &Layout<R, C>,
    node: NodeId,
    rect: Option<R>,
    i: int,
)
    requires
        call_ensures(Layout::<R, C>::dir_rect, (layout, node), rect),
    ensures
        0 <= i < layout@.dirs.len() && layout@.dirs[i].node == node && (forall|j: int|
            i < j < layout@.dirs.len() ==> (#[trigger] layout@.dirs[j]).node != node) ==> rect
            == Some(layout@.dirs[i].rect),
        (forall|j: int| 0 <= j < layout@.dirs.len() ==> (#[trigger] layout@.dirs[j]).node != node)
            ==> rect is None,
{
    let dirs = layout@.dirs;
    if rect is Some {
        let k = choose|k: int| #[trigger] is_last(dirs, node, k) && rect->0 == dirs[k].rect;
        assert(dirs[k].node == node);
    }
}

/// The folder around what is pointed at is outlined where its children were
/// placed, and not at all where it was not opened.
pub proof fn lemma_folder_outline<R: Copy, C: Copy>(
    layout: Layout<R, C>,
    node: NodeId,
    rect: Option<R>,
    i: int,
)
    requires
        folder_at(layout, node, rect),
    ensures
        0 <= i < layout@.dirs.len() && layout@.dirs[i].node == node && (forall|j: int|
            i < j < layout@.dirs.len() ==> (#[trigger] layout@.dirs[j]).node != node) ==> rect
            == Some(layout@.dirs[i].rect),
        (forall|j: int| 0 <= j < layout@.dirs.len() ==> (#[trigger] layout@.dirs[j]).node != node)
            ==> rect is None,
{
    let dirs = layout@.dirs;
    if rect is Some {
        let k = choose|k: int| #[trigger] is_last(dirs, node, k) && rect->0 == dirs[k].rect;
        assert(dirs[k].node == node);
    }
}

} // verus!
