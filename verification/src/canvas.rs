//! The map as it was last drawn: when it has to be drawn again, what is where
//! on it, and what the pointer does over it.
//!
//! The map is drawn into a picture and drawn again only when something it
//! depends on changes: the folder in view, the size of the window, the size
//! metric, the kind picked out. A steady window means a steady picture.

use vstd::prelude::*;

use crate::raster::{Raster, NO_NODE};
use crate::tree::{Node, NodeId, Tree};
use crate::treemap::{is_first, is_last, lacks, Layout};

verus! {

/// Everything the drawn map depends on. When this is unchanged, so is the
/// picture.
#[derive(Clone, Copy, Debug, PartialEq, Eq, Structural)]
pub struct CacheKey {
    pub root: NodeId,
    pub width: u32,
    pub height: u32,
    pub physical: bool,
    pub collapse_packages: bool,
    pub highlight: Option<u16>,
    /// Changes when a new tree is loaded, since node ids mean something else.
    pub generation: u64,
}

/// What has been drawn, and for what.
pub struct Canvas<R, C> {
    pub raster: Option<Raster>,
    pub layout: Option<Layout<R, C>>,
    pub key: Option<CacheKey>,
}

/// What the pointer did over the map in a frame.
#[derive(Clone, Copy, Debug, PartialEq, Eq, Structural)]
pub struct CanvasOutput {
    pub hovered: Option<NodeId>,
    pub clicked: Option<NodeId>,
    pub double_clicked: Option<NodeId>,
    pub context_target: Option<NodeId>,
}

/// What is outlined on the map.
#[derive(Clone, Copy, Debug)]
pub struct Marks<R> {
    /// The folder the pointer is inside.
    pub folder: Option<R>,
    /// What the pointer is over.
    pub hovered: Option<R>,
    pub selected: Option<R>,
}

/// Where drilling into a node leads. Drilling into a file would leave nothing to
/// draw, so a file drills into its folder instead; so does an empty folder.
pub open spec fn drills_into(nodes: Seq<Node>, id: int) -> NodeId {
    if nodes[id].spec_is_dir() && nodes[id].child_len > 0 {
        id as NodeId
    } else {
        nodes[id].parent
    }
}

/// Where drilling into a node leads.
pub fn drill_target(tree: &Tree, id: NodeId) -> (target: NodeId)
    requires
        tree@.has(id as int),
    ensures
        target == drills_into(tree@.nodes, id as int),
{
    let node = tree.node(id);
    if node.is_dir() && node.child_len > 0 {
        id
    } else {
        node.parent
    }
}

/// Whether what the pointer is over opens into another folder than the one in
/// view: where the pointer is a hand.
pub fn is_clickable(tree: &Tree, view_root: NodeId, hovered: Option<NodeId>) -> (hand: bool)
    requires
        hovered matches Some(id) ==> tree@.has(id as int),
    ensures
        hand == (hovered matches Some(id) && drills_into(tree@.nodes, id as int) != view_root),
{
    match hovered {
        Some(id) => drill_target(tree, id) != view_root,
        None => false,
    }
}

/// `node` if `done`.
pub open spec fn node_if(done: bool, node: Option<NodeId>) -> Option<NodeId> {
    if done {
        node
    } else {
        None
    }
}

/// Whether a layout places `node` at `rect`: as its first block, or, if it was
/// not drawn as a block, as a folder.
pub open spec fn placed_at<R: Copy, C: Copy>(
    layout: Layout<R, C>,
    node: NodeId,
    rect: Option<R>,
) -> bool {
    match rect {
        Some(rect) => {
            ||| exists|i: int| #[trigger]
                is_first(layout@.leaves, node, i) && rect == layout@.leaves[i].rect
            ||| lacks(layout@.leaves, node) && exists|i: int| #[trigger]
                is_last(layout@.dirs, node, i) && rect == layout@.dirs[i].rect
        },
        None => lacks(layout@.dirs, node) && lacks(layout@.leaves, node),
    }
}

/// Whether a layout has `node` as a folder at `rect`.
pub open spec fn folder_at<R: Copy, C: Copy>(
    layout: Layout<R, C>,
    node: NodeId,
    rect: Option<R>,
) -> bool {
    match rect {
        Some(rect) => exists|i: int| #[trigger]
            is_last(layout@.dirs, node, i) && rect == layout@.dirs[i].rect,
        None => lacks(layout@.dirs, node),
    }
}

/// Rectangle of a node whether it was drawn as one block or subdivided; the
/// block counts first.
pub fn find_rect<R: Copy, C: Copy>(layout: &Layout<R, C>, node: NodeId) -> (rect: Option<R>)
    requires
        layout.wf(),
    ensures
        placed_at(*layout, node, rect),
{
    if let Some(rect) = layout.leaf_rect(node) {
        return Some(rect);
    }
    layout.dir_rect(node)
}

impl<R: Copy, C: Copy> Canvas<R, C> {
    /// What is at hand is sound.
    pub open spec fn wf(&self) -> bool {
        &&& self.raster matches Some(raster) ==> raster.wf()
        &&& self.layout matches Some(layout) ==> layout.wf()
    }

    /// Nothing drawn yet.
    pub fn new() -> (canvas: Canvas<R, C>)
        ensures
            canvas.wf(),
            canvas.raster is None,
            canvas.layout is None,
            canvas.key is None,
    {
        Canvas { raster: None, layout: None, key: None }
    }

    /// Drops cached state so the next frame draws from scratch.
    pub fn invalidate(&mut self)
        ensures
            final(self).key is None,
            final(self).raster == old(self).raster,
            final(self).layout == old(self).layout,
    {
        self.key = None;
    }

    /// Whether the map has to be drawn for `key`.
    pub fn needs_render(&self, key: CacheKey) -> (render: bool)
        ensures
            render == (self.key != Some(key)),
    {
        match self.key {
            Some(drawn) => drawn != key,
            None => true,
        }
    }

    /// Takes the map that was drawn for `key`.
    pub fn render(&mut self, key: CacheKey, layout: Layout<R, C>, raster: Raster)
        requires
            layout.wf(),
            raster.wf(),
        ensures
            final(self).wf(),
            final(self).key == Some(key),
            final(self).layout == Some(layout),
            final(self).raster == Some(raster),
    {
        self.key = Some(key);
        self.layout = Some(layout);
        self.raster = Some(raster);
    }

    pub fn block_count(&self) -> (n: usize)
        ensures
            n == match self.layout {
                Some(layout) => layout@.leaves.len() as int,
                None => 0,
            },
    {
        match &self.layout {
            Some(layout) => layout.block_count(),
            None => 0,
        }
    }

    /// What the pointer does over the map. `at` is the pixel it is over, if it
    /// is over the map.
    pub fn output(&self, at: Option<(i32, i32)>, clicked: bool, double: bool, secondary: bool) -> (
        out: CanvasOutput)
        requires
            self.wf(),
        ensures
            out.hovered == match (at, self.raster) {
                (Some((x, y)), Some(raster)) => if 0 <= x < raster.width && 0 <= y < raster.height
                    && raster.ids@[y * raster.width + x] != NO_NODE {
                    Some(raster.ids@[y * raster.width + x])
                } else {
                    None
                },
                _ => None,
            },
            out.clicked == node_if(clicked, out.hovered),
            out.double_clicked == node_if(double, out.hovered),
            out.context_target == node_if(secondary, out.hovered),
    {
        let hovered = match (at, &self.raster) {
            (Some((x, y)), Some(raster)) => raster.node_at(x, y),
            _ => None,
        };
        CanvasOutput {
            hovered,
            clicked: if clicked {
                hovered
            } else {
                None
            },
            double_clicked: if double {
                hovered
            } else {
                None
            },
            context_target: if secondary {
                hovered
            } else {
                None
            },
        }
    }

    /// What to outline. The folder the pointer is inside answers which
    /// directory one is looking at, without a click.
    pub fn marks(&self, tree: &Tree, hovered: Option<NodeId>, selected: Option<NodeId>) -> (marks:
        Option<Marks<R>>)
        requires
            self.wf(),
            hovered matches Some(id) ==> tree@.has(id as int),
        ensures
            match self.layout {
                None => marks is None,
                Some(layout) => {
                    &&& marks is Some
                    &&& match hovered {
                        Some(id) => placed_at(layout, id, marks->0.hovered) && folder_at(
                            layout,
                            tree@.nodes[id as int].parent,
                            marks->0.folder,
                        ),
                        None => marks->0.hovered is None && marks->0.folder is None,
                    }
                    &&& match selected {
                        Some(id) => placed_at(layout, id, marks->0.selected),
                        None => marks->0.selected is None,
                    }
                },
            },
    {
        match &self.layout {
            None => None,
            Some(layout) => {
                let mut marks: Marks<R> = Marks { folder: None, hovered: None, selected: None };
                if let Some(id) = hovered {
                    marks.folder = layout.dir_rect(tree.node(id).parent);
                    marks.hovered = find_rect(layout, id);
                }
                if let Some(id) = selected {
                    marks.selected = find_rect(layout, id);
                }
                Some(marks)
            },
        }
    }
}

} // verus!
