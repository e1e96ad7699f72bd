//! The scanned filesystem as a flat arena.
//!
//! Nodes are stored in **breadth-first order**, which buys two things:
//!
//! * the children of any node are one contiguous index range, so a node only
//!   needs `child_start` + `child_len` and there is no child-pointer array;
//! * a child always has a higher index than its parent, so bottom-up size
//!   aggregation is a single backwards pass over the vector.
//!
//! [`arena_wf`] states both, together with the size and depth rules, and every
//! constructor of a [`Tree`] establishes it.

use std::ops::Range;

use vstd::layout::size_of;
use vstd::prelude::*;
use vstd::slice::slice_subrange;
use vstd::utf8::{decode_utf8, encode_utf8, is_ascii_chars_encode_utf8, valid_utf8};

pub mod arena;
pub mod flags;
pub mod free;

use crate::paths::{
    copied, join, joined, lemma_join_stays_under, lemma_under_is_an_order, lies_under, same_bytes,
    split, texts, SEPARATOR,
};
use crate::sums::lemma_sum_point;
use crate::text::{lossy, lossy_text};
use arena::{arena_wf, child_end, in_child_range, name_len_at, name_total, names_wf};
use free::{lemma_free_space, shifted, with_free_space};

verus! {

/// Index into [`Tree`]'s node vector.
pub type NodeId = u32;

/// The scan root is always node 0.
pub const ROOT: NodeId = 0;

#[derive(Clone, Copy, Debug, PartialEq, Eq, Structural)]
pub struct Node {
    pub parent: NodeId,
    /// First child's `NodeId`; meaningless when `child_len == 0`.
    pub child_start: NodeId,
    pub child_len: u32,
    /// Where the name starts in the tree's name buffer.
    pub name_off: u32,
    pub name_len: u16,
    /// Index into the kind table.
    pub kind: u16,
    pub flags: u8,
    /// Depth below the scan root, saturating at 255.
    pub depth: u8,
    /// Apparent size: sum of all forks, uncompressed. Subtree total for dirs.
    pub logical: u64,
    /// Blocks actually allocated on disk. Subtree total for dirs.
    pub physical: u64,
}

/// Whether `flags` has any of the bits of `flag`.
pub open spec fn has_flag(flags: u8, flag: u8) -> bool {
    flags & flag != 0
}

impl Node {
    pub open spec fn spec_is_dir(&self) -> bool {
        has_flag(self.flags, flags::DIR)
    }

    /// The size the caller asked for: blocks on disk, or apparent length.
    pub open spec fn spec_size(&self, physical: bool) -> u64 {
        if physical {
            self.physical
        } else {
            self.logical
        }
    }

    pub fn is_dir(&self) -> (dir: bool)
        ensures
            dir == self.spec_is_dir(),
    {
        self.flags & flags::DIR != 0
    }

    pub fn has(&self, flag: u8) -> (set: bool)
        ensures
            set == has_flag(self.flags, flag),
    {
        self.flags & flag != 0
    }

    /// Whether the treemap stops here.
    pub open spec fn spec_is_leaf(&self, collapse_packages: bool) -> bool {
        !self.spec_is_dir() || self.child_len == 0 || has_flag(self.flags, flags::UNREADABLE) || (
        collapse_packages && has_flag(self.flags, flags::PACKAGE))
    }

    /// True when the treemap should stop here: a file, an empty or unreadable
    /// directory, or a bundle while `collapse_packages` is on.
    pub fn is_leaf(&self, collapse_packages: bool) -> (leaf: bool)
        ensures
            leaf == self.spec_is_leaf(collapse_packages),
    {
        !self.is_dir() || self.child_len == 0 || self.has(flags::UNREADABLE) || (collapse_packages
            && self.has(flags::PACKAGE))
    }
}

/// What one scan produced, alongside the tree itself.
#[derive(Clone, Debug)]
pub struct ScanStats {
    pub files: u64,
    pub dirs: u64,
    pub symlinks: u64,
    /// Entries skipped as duplicate hard links.
    pub hardlink_dups: u64,
    pub errors: u64,
    /// First few errors, for the UI. Capped so a permission-denied sweep of
    /// `/System` cannot grow without bound.
    pub error_samples: Vec<(Vec<u8>, String)>,
    /// The bulk read was unavailable and the POSIX walker was used instead.
    pub used_fallback: bool,
    /// How long the scan took, in nanoseconds.
    pub elapsed: u128,
    /// Free bytes on the volume holding the scan root, if it could be read.
    pub free_space: Option<u64>,
    /// Total bytes on that volume.
    pub volume_total: Option<u64>,
}

impl Default for ScanStats {
    fn default() -> (stats: ScanStats)
        ensures
            stats.files == 0,
            stats.dirs == 0,
            stats.symlinks == 0,
            stats.hardlink_dups == 0,
            stats.errors == 0,
            stats.error_samples@.len() == 0,
            !stats.used_fallback,
            stats.elapsed == 0,
            stats.free_space is None,
            stats.volume_total is None,
    {
        ScanStats {
            files: 0,
            dirs: 0,
            symlinks: 0,
            hardlink_dups: 0,
            errors: 0,
            error_samples: Vec::new(),
            used_fallback: false,
            elapsed: 0,
            free_space: None,
            volume_total: None,
        }
    }
}

/// No per-node allocation, no reference counts, no path per entry: a node is a
/// few words and its name lives as raw bytes in one shared buffer.
pub struct Tree {
    pub root_path: Vec<u8>,
    pub stats: ScanStats,
    nodes: Vec<Node>,
    names: Vec<u8>,
}

/// A tree as mathematics.
#[verifier::ext_equal]
pub struct TreeView {
    pub root_path: Seq<u8>,
    pub stats: ScanStats,
    pub nodes: Seq<Node>,
    pub names: Seq<u8>,
}

impl View for Tree {
    type V = TreeView;

    closed spec fn view(&self) -> TreeView {
        TreeView {
            root_path: self.root_path@,
            stats: self.stats,
            nodes: self.nodes@,
            names: self.names@,
        }
    }
}

impl TreeView {
    pub open spec fn wf(&self) -> bool {
        arena_wf(self.nodes, self.names)
    }

    /// Whether `id` is a node of this tree.
    pub open spec fn has(&self, id: int) -> bool {
        0 <= id < self.nodes.len()
    }

    /// The bytes of a node's name.
    pub open spec fn name(&self, id: int) -> Seq<u8> {
        let n = self.nodes[id];
        self.names.subrange(n.name_off as int, n.name_off + n.name_len)
    }

    /// A node's path: the root's, then one name per level.
    pub open spec fn path(&self, id: int) -> Seq<u8>
        decreases id,
    {
        let up = self.nodes[id].parent as int;
        if id <= 0 || up >= id {
            self.root_path
        } else {
            joined(self.path(up), self.name(id))
        }
    }

    /// `start` grown by the names from below the root down to `id`.
    pub open spec fn onto(&self, start: Seq<u8>, id: int) -> Seq<u8>
        decreases id,
    {
        let up = self.nodes[id].parent as int;
        if id <= 0 || up >= id {
            start
        } else {
            joined(self.onto(start, up), self.name(id))
        }
    }

    /// A node's path relative to the root: empty for the root itself.
    pub open spec fn relative(&self, id: int) -> Seq<u8> {
        self.onto(Seq::empty(), id)
    }

    /// The nodes from the root down to `id`, inclusive.
    pub open spec fn ancestry(&self, id: int) -> Seq<NodeId>
        decreases id,
    {
        let up = self.nodes[id].parent as int;
        if id <= 0 || up >= id {
            seq![id as NodeId]
        } else {
            self.ancestry(up).push(id as NodeId)
        }
    }
}

/// Calls `Vec::capacity`. How much room the allocator gave is not said, only
/// that it holds the elements and that, as `Vec` documents, no allocation is
/// larger than `isize::MAX` bytes.
#[verifier::external_body]
fn room<T>(v: &Vec<T>) -> (n: usize)
    ensures
        v@.len() <= n,
        n * size_of::<T>() <= isize::MAX,
{
    v.capacity()
}

impl Tree {
    pub fn new(
        root_path: Vec<u8>,
        nodes: Vec<Node>,
        names: Vec<u8>,
        stats: ScanStats,
    ) -> (tree: Tree)
        requires
            arena_wf(nodes@, names@),
        ensures
            tree@.wf(),
            tree@ == (TreeView { root_path: root_path@, stats, nodes: nodes@, names: names@ }),
    {
        Tree { root_path, stats, nodes, names }
    }

    pub fn len(&self) -> (n: usize)
        ensures
            n == self@.nodes.len(),
    {
        self.nodes.len()
    }

    pub fn is_empty(&self) -> (empty: bool)
        ensures
            empty == (self@.nodes.len() == 0),
            self@.wf() ==> !empty,
    {
        self.nodes.len() == 0
    }

    pub fn node(&self, id: NodeId) -> (node: &Node)
        requires
            self@.has(id as int),
        ensures
            *node == self@.nodes[id as int],
    {
        &self.nodes[id as usize]
    }

    pub fn nodes(&self) -> (nodes: &[Node])
        ensures
            nodes@ == self@.nodes,
    {
        self.nodes.as_slice()
    }

    /// The ids of the children of `id`.
    pub fn children(&self, id: NodeId) -> (ids: Range<NodeId>)
        requires
            self@.wf(),
            self@.has(id as int),
        ensures
            ids.start == self@.nodes[id as int].child_start,
            ids.end == child_end(self@.nodes, id as int),
            forall|c: NodeId|
                1 <= c < self@.nodes.len() ==> (ids.start <= c < ids.end
                    <==> #[trigger] self@.nodes[c as int].parent == id),
    {
        let n = self.node(id);
        proof {
            assert(n.child_len > 0 ==> child_end(self@.nodes, id as int) <= self@.nodes.len());
            assert forall|c: NodeId| 1 <= c < self@.nodes.len() implies (n.child_start <= c
                < n.child_start + n.child_len <==> #[trigger] self@.nodes[c as int].parent == id) by {
                assert(in_child_range(self@.nodes, id as int, c as int)
                    <==> self@.nodes[c as int].parent == id);
            }
        }
        n.child_start..n.child_start + n.child_len
    }

    /// Raw name bytes. Filesystem names are not guaranteed to be UTF-8, so the
    /// bytes are what is stored and lossy conversion happens only for display.
    pub fn name_bytes(&self, id: NodeId) -> (name: &[u8])
        requires
            self@.wf(),
            self@.has(id as int),
        ensures
            name@ == self@.name(id as int),
    {
        let n = self.node(id);
        let off: usize = n.name_off as usize;
        slice_subrange(self.names.as_slice(), off, off + n.name_len as usize)
    }

    /// The name as text, for display.
    pub fn name(&self, id: NodeId) -> (name: String)
        requires
            self@.wf(),
            self@.has(id as int),
        ensures
            name@ == lossy_text(self@.name(id as int)),
            valid_utf8(self@.name(id as int)) ==> name@ == decode_utf8(self@.name(id as int)),
    {
        lossy(self.name_bytes(id))
    }

    /// Rebuilds a node's absolute path by walking to the root. O(depth), no
    /// path strings are stored per node.
    pub fn path(&self, id: NodeId) -> (path: Vec<u8>)
        requires
            self@.wf(),
            self@.has(id as int),
        ensures
            path@ == self@.path(id as int),
    {
        proof {
            lemma_path_is_onto(self@, id as int);
        }
        self.grown(copied(self.root_path.as_slice()), id)
    }

    /// Appends the names from below the root down to `id`.
    fn grown(&self, start: Vec<u8>, id: NodeId) -> (path: Vec<u8>)
        requires
            self@.wf(),
            self@.has(id as int),
        ensures
            path@ == self@.onto(start@, id as int),
    {
        let line = self.ancestry(id);
        let ghost from = start@;
        let mut path = start;
        proof {
            lemma_ancestry(self@, id as int);
        }
        for i in 1..line.len()
            invariant
                self@.wf(),
                self@.has(id as int),
                line@ == self@.ancestry(id as int),
                1 <= line@.len(),
                forall|k: int| 0 <= k < line@.len() ==> self@.has(#[trigger] line@[k] as int),
                line@[0] == ROOT,
                forall|k: int|
                    0 < k < line@.len() ==> self@.nodes[#[trigger] line@[k] as int].parent
                        == line@[k - 1] && line@[k] > 0,
                path@ == self@.onto(from, line@[i - 1] as int),
        {
            assert(self@.nodes[line@[i as int] as int].parent == line@[i - 1]);
            join(&mut path, self.name_bytes(line[i]));
        }
        path
    }

    /// Path relative to the scan root, for compact display.
    pub fn display_path(&self, id: NodeId) -> (path: String)
        requires
            self@.wf(),
            self@.has(id as int),
        ensures
            path@ == lossy_text(self@.relative(id as int)),
            valid_utf8(self@.relative(id as int)) ==> path@ == decode_utf8(
                self@.relative(id as int),
            ),
    {
        lossy(self.grown(Vec::new(), id).as_slice())
    }

    /// The absolute path as text.
    pub fn path_text(&self, id: NodeId) -> (path: String)
        requires
            self@.wf(),
            self@.has(id as int),
        ensures
            path@ == lossy_text(self@.path(id as int)),
            valid_utf8(self@.path(id as int)) ==> path@ == decode_utf8(self@.path(id as int)),
    {
        lossy(self.path(id).as_slice())
    }

    /// The root's path as text.
    pub fn root_text(&self) -> (path: String)
        ensures
            path@ == lossy_text(self@.root_path),
            valid_utf8(self@.root_path) ==> path@ == decode_utf8(self@.root_path),
    {
        lossy(self.root_path.as_slice())
    }

    /// The counts of the scan.
    pub fn stats_of(&self) -> (stats: &ScanStats)
        ensures
            *stats == self@.stats,
    {
        &self.stats
    }

    /// How many errors the scan met.
    pub fn error_count(&self) -> (n: u64)
        ensures
            n == self@.stats.errors,
    {
        self.stats.errors
    }

    pub fn size(&self, id: NodeId, physical: bool) -> (size: u64)
        requires
            self@.has(id as int),
        ensures
            size == self@.nodes[id as int].spec_size(physical),
    {
        let n = self.node(id);
        if physical {
            n.physical
        } else {
            n.logical
        }
    }

    /// Ancestors from the root down to `id`, inclusive. Drives the breadcrumb.
    pub fn ancestry(&self, id: NodeId) -> (line: Vec<NodeId>)
        requires
            self@.wf(),
            self@.has(id as int),
        ensures
            line@ == self@.ancestry(id as int),
    {
        let mut up: Vec<NodeId> = Vec::new();
        up.push(id);
        let mut cur: NodeId = id;
        assert(up@.drop_last().reverse() == Seq::<NodeId>::empty());
        assert(self@.ancestry(id as int) == self@.ancestry(cur as int)
            + up@.drop_last().reverse());
        while cur != ROOT
            invariant
                self@.wf(),
                self@.has(cur as int),
                up@.len() > 0,
                up@.last() == cur,
                self@.ancestry(id as int) == self@.ancestry(cur as int) + up@.drop_last().reverse(),
            decreases cur,
        {
            let ghost before = up@;
            let ghost below = cur as int;
            cur = self.node(cur).parent;
            up.push(cur);
            proof {
                assert(up@.drop_last() == before);
                assert(self@.ancestry(below) == self@.ancestry(cur as int).push(below as NodeId));
                assert(before == before.drop_last().push(below as NodeId));
                assert(self@.ancestry(cur as int).push(below as NodeId)
                    + before.drop_last().reverse() == self@.ancestry(cur as int)
                    + before.reverse());
            }
        }
        let line = reversed(&up);
        assert(line@ == seq![ROOT] + up@.drop_last().reverse());
        line
    }

    /// Adds the synthetic free-space node the UI can show as part of the
    /// volume, as the last child of the root. Only meaningful on a tree rooted
    /// at a volume mount point. The children of the root are contiguous, so the
    /// nodes below them move up by one.
    pub fn push_free_space(&mut self, bytes: u64, kind: u16)
        requires
            old(self)@.wf(),
            old(self)@.nodes[0].spec_is_dir(),
            old(self)@.nodes.len() < u32::MAX,
            old(self)@.names.len() + 12 <= u32::MAX,
            old(self)@.nodes[0].logical + bytes <= u64::MAX,
            old(self)@.nodes[0].physical + bytes <= u64::MAX,
        ensures
            final(self)@.wf(),
            final(self)@.root_path == old(self)@.root_path,
            final(self)@.stats == old(self)@.stats,
            final(self)@.names == old(self)@.names + encode_utf8("(free space)"@),
            final(self)@.nodes == with_free_space(
                old(self)@.nodes,
                bytes,
                kind,
                old(self)@.names.len() as u32,
            ),
    {
        let ghost before = self@;
        let name_off: u32 = self.names.len() as u32;
        proof {
            reveal_strlit("(free space)");
            is_ascii_chars_encode_utf8("(free space)"@);
        }
        self.names.extend_from_slice("(free space)".as_bytes());
        self.nodes = free::insert_free_space(&self.nodes, bytes, kind, name_off);
        proof {
            lemma_free_space(before.nodes, bytes, kind, name_off);
            free::lemma_free_space_names(before.nodes, bytes, kind, name_off);
            assert forall|i: int| 0 <= i < self.nodes@.len() implies (
            #[trigger] self.nodes@[i]).name_off + self.nodes@[i].name_len <= self.names@.len() by {
                let e = 1 + before.nodes[0].child_len;
                if i < e {
                    assert(before.nodes[i].name_off + before.nodes[i].name_len
                        <= before.names.len());
                } else if i > e {
                    assert(before.nodes[i - 1].name_off + before.nodes[i - 1].name_len
                        <= before.names.len());
                }
            }
        }
    }

    /// Gives node `id` another name; what is beyond 65535 bytes of it is not
    /// part of the name.
    pub fn set_name(&mut self, id: NodeId, name: &[u8])
        requires
            old(self)@.wf(),
            old(self)@.has(id as int),
            old(self)@.names.len() + name@.len() <= u32::MAX,
        ensures
            final(self)@.wf(),
            final(self)@.root_path == old(self)@.root_path,
            final(self)@.stats == old(self)@.stats,
            final(self)@.names == old(self)@.names + name@,
            final(self)@.nodes == old(self)@.nodes.update(
                id as int,
                Node {
                    name_off: old(self)@.names.len() as u32,
                    name_len: if name@.len() <= u16::MAX {
                        name@.len() as u16
                    } else {
                        u16::MAX
                    },
                    ..old(self)@.nodes[id as int]
                },
            ),
            name@.len() <= u16::MAX ==> final(self)@.name(id as int) == name@,
    {
        let ghost before = self@;
        let off: u32 = self.names.len() as u32;
        self.names.extend_from_slice(name);
        let mut n = self.nodes[id as usize];
        n.name_off = off;
        n.name_len = if name.len() <= u16::MAX as usize {
            name.len() as u16
        } else {
            u16::MAX
        };
        self.nodes.set(id as usize, n);
        proof {
            arena::lemma_rename(before.nodes, self.nodes@, id as int);
            assert(names_wf(self.nodes@, self.names@)) by {
                reveal(name_total);
                lemma_sum_point(
                    0,
                    before.nodes.len() as int,
                    id as int,
                    name_len_at(before.nodes),
                    name_len_at(self.nodes@),
                );
                assert forall|i: int| 0 <= i < self.nodes@.len() implies (
                #[trigger] self.nodes@[i]).name_off + self.nodes@[i].name_len
                    <= self.names@.len() by {
                    assert(before.nodes[i].name_off + before.nodes[i].name_len
                        <= before.names.len());
                }
            }
            if name@.len() <= u16::MAX {
                assert(self@.name(id as int) == name@);
            }
        }
    }

    /// Bytes held by the arena itself, for the "how much did this cost" readout:
    /// a node's size for every node there is room for, and the name buffer. How
    /// large a node is depends on how the compiler lays it out.
    pub fn memory_bytes(&self) -> (bytes: usize)
        ensures
            self@.nodes.len() * size_of::<Node>() + self@.names.len() <= bytes <= 2 * isize::MAX,
            self@.wf() ==> self@.nodes.len() * size_of::<Node>() + name_total(self@.nodes) <= bytes,
    {
        let n: usize = room(&self.nodes);
        let m: usize = room(&self.names);
        proof {
            assert(size_of::<u8>() == 1);
            assert(n * size_of::<Node>() >= self@.nodes.len() * size_of::<Node>())
                by (nonlinear_arith)
                requires
                    n >= self@.nodes.len(),
            ;
        }
        arena_bytes(n, m)
    }
}

/// Bytes of a node vector with room for `nodes_room` nodes and a name buffer
/// with room for `names_room` bytes.
pub fn arena_bytes(nodes_room: usize, names_room: usize) -> (bytes: usize)
    requires
        nodes_room * size_of::<Node>() <= isize::MAX,
        names_room <= isize::MAX,
    ensures
        bytes == nodes_room * size_of::<Node>() + names_room,
{
    nodes_room * std::mem::size_of::<Node>() + names_room
}

/// `v` from the back to the front.
fn reversed(v: &Vec<NodeId>) -> (r: Vec<NodeId>)
    ensures
        r@ == v@.reverse(),
{
    let mut r: Vec<NodeId> = Vec::new();
    let mut i: usize = v.len();
    while i > 0
        invariant
            i <= v@.len(),
            r@ == v@.skip(i as int).reverse(),
        decreases i,
    {
        i -= 1;
        r.push(v[i]);
        assert(v@.skip(i as int).reverse() == v@.skip(i + 1).reverse().push(v@[i as int]));
    }
    assert(v@.skip(0) == v@);
    r
}

/// The line from the root down to a node starts at the root, ends at the node,
/// and each step goes from a parent to one of its children.
pub proof fn lemma_ancestry(tree: TreeView, id: int)
    requires
        tree.wf(),
        tree.has(id),
    ensures
        ({
            let line = tree.ancestry(id);
            &&& line.len() > 0
            &&& line[0] == ROOT
            &&& line.last() == id
            &&& forall|k: int| 0 <= k < line.len() ==> tree.has(#[trigger] line[k] as int)
            &&& forall|k: int|
                0 < k < line.len() ==> tree.nodes[#[trigger] line[k] as int].parent == line[k - 1]
                    && line[k] > 0
        }),
    decreases id,
{
    if id > 0 {
        let up = tree.nodes[id].parent as int;
        lemma_ancestry(tree, up);
    }
}

/// Growing the root's path by the names down to a node gives its path.
proof fn lemma_path_is_onto(tree: TreeView, id: int)
    ensures
        tree.path(id) == tree.onto(tree.root_path, id),
    decreases id,
{
    let up = tree.nodes[id].parent as int;
    if id > 0 && up < id {
        lemma_path_is_onto(tree, up);
    }
}

/// Whether a name can stand between two separators.
pub open spec fn plain_name(name: Seq<u8>) -> bool {
    name.len() > 0 && name[0] != SEPARATOR && name.last() != SEPARATOR
}

/// The path of a node below the root is the root's path with the relative path
/// appended, as long as names are not empty and neither start nor end with a
/// separator.
pub proof fn lemma_relative_completes_root(tree: TreeView, id: int)
    requires
        tree.wf(),
        tree.has(id),
        id > 0,
        forall|i: int| tree.has(i) && i > 0 ==> plain_name(#[trigger] tree.name(i)),
    ensures
        tree.path(id) == joined(tree.root_path, tree.relative(id)),
        plain_name(tree.relative(id)),
    decreases id,
{
    let up = tree.nodes[id].parent as int;
    let name = tree.name(id);
    assert(plain_name(name));
    if up == 0 {
        assert(tree.onto(Seq::empty(), 0) == Seq::<u8>::empty());
        assert(tree.path(0) == tree.root_path);
        assert(Seq::<u8>::empty() + name == name);
    } else {
        lemma_relative_completes_root(tree, up);
        let before = tree.relative(up);
        let all = before.push(SEPARATOR) + name;
        assert(tree.relative(id) == all);
        assert(all[0] == before[0]);
        assert(all.last() == name.last());
        let root = tree.root_path;
        let start = if root.len() == 0 || root.last() == SEPARATOR {
            root
        } else {
            root.push(SEPARATOR)
        };
        assert(tree.path(up) == start + before);
        assert(tree.path(up).last() == before.last());
        assert((start + before).push(SEPARATOR) + name == start + all);
    }
}

/// Every node's path lies under the path of the scan root, as long as no name
/// starts with a separator.
pub proof fn lemma_paths_lie_under_root(tree: TreeView, id: int)
    requires
        tree.wf(),
        tree.has(id),
        forall|i: int|
            tree.has(i) ==> (#[trigger] tree.name(i)).len() == 0 || tree.name(i)[0] != SEPARATOR,
    ensures
        lies_under(tree.root_path, tree.path(id)),
    decreases id,
{
    lemma_under_is_an_order(tree.root_path, tree.root_path, tree.root_path);
    if id > 0 {
        let up = tree.nodes[id].parent as int;
        lemma_paths_lie_under_root(tree, up);
        assert(tree.name(id).len() == 0 || tree.name(id)[0] != SEPARATOR);
        lemma_join_stays_under(tree.root_path, tree.path(up), tree.name(id));
    }
}

/// Adding free space leaves every node its name and its path, and its sizes
/// unless it is the root, which grows by the free bytes.
pub proof fn lemma_free_space_keeps_nodes(
    before: TreeView,
    after: TreeView,
    bytes: u64,
    kind: u16,
    id: int,
)
    requires
        before.wf(),
        before.has(id),
        before.nodes.len() < u32::MAX,
        before.nodes[0].logical + bytes <= u64::MAX,
        before.nodes[0].physical + bytes <= u64::MAX,
        after.root_path == before.root_path,
        after.names == before.names + encode_utf8("(free space)"@),
        after.nodes == with_free_space(before.nodes, bytes, kind, before.names.len() as u32),
    ensures
        ({
            let at = 1 + before.nodes[0].child_len;
            let to = shifted(id, at);
            &&& after.name(to) == before.name(id)
            &&& after.path(to) == before.path(id)
            &&& id > 0 ==> after.nodes[to].logical == before.nodes[id].logical
                && after.nodes[to].physical == before.nodes[id].physical
            &&& after.nodes[0].logical == before.nodes[0].logical + bytes
            &&& after.nodes[0].physical == before.nodes[0].physical + bytes
        }),
{
    free::lemma_root_children(before.nodes);
    lemma_moved_path(before, after, bytes, kind, id);
}

proof fn lemma_moved_path(before: TreeView, after: TreeView, bytes: u64, kind: u16, id: int)
    requires
        0 <= id < before.nodes.len() < u32::MAX,
        1 + before.nodes[0].child_len <= before.nodes.len(),
        forall|c: int| 1 <= c < before.nodes.len() ==> (#[trigger] before.nodes[c]).parent < c,
        names_wf(before.nodes, before.names),
        after.root_path == before.root_path,
        after.names == before.names + encode_utf8("(free space)"@),
        after.nodes == with_free_space(before.nodes, bytes, kind, before.names.len() as u32),
    ensures
        ({
            let to = shifted(id, 1 + before.nodes[0].child_len);
            &&& after.name(to) == before.name(id)
            &&& after.path(to) == before.path(id)
            &&& id > 0 ==> after.nodes[to].logical == before.nodes[id].logical
                && after.nodes[to].physical == before.nodes[id].physical
        }),
    decreases id,
{
    let at = 1 + before.nodes[0].child_len;
    let to = shifted(id, at);
    let n = before.nodes[id];
    assert(n.name_off + n.name_len <= before.names.len());
    if id > 0 {
        assert(after.nodes[to] == free::moved(n, at));
    }
    assert(after.name(to) == before.name(id));
    if id > 0 {
        let up = n.parent as int;
        lemma_moved_path(before, after, bytes, kind, up);
        assert(after.nodes[to].parent == shifted(up, at));
    }
}

/// Whether `path` is `root` or lies under it.
pub fn is_under(root: &[u8], path: &[u8]) -> (under: bool)
    ensures
        under == lies_under(root@, path@),
{
    let r = split(root);
    let p = split(path);
    assert(texts(r@).len() == r@.len() && texts(p@).len() == p@.len());
    if r.len() > p.len() {
        return false;
    }
    for i in 0..r.len()
        invariant
            r@.len() <= p@.len(),
            texts(r@) == crate::paths::components(root@),
            texts(p@) == crate::paths::components(path@),
            forall|j: int| 0 <= j < i ==> #[trigger] texts(r@)[j] == texts(p@)[j],
    {
        if !same_bytes(r[i].as_slice(), p[i].as_slice()) {
            proof {
                assert(texts(r@)[i as int] != texts(p@)[i as int]);
                if lies_under(root@, path@) {
                    assert(texts(p@).take(r@.len() as int)[i as int] == texts(p@)[i as int]);
                }
            }
            return false;
        }
        assert(texts(r@)[i as int] == texts(p@)[i as int]);
    }
    assert(texts(r@) == texts(p@).take(r@.len() as int));
    true
}

/// Builder-side constructor: a node without children or kind.
pub fn make_node(
    parent: NodeId,
    name_off: u32,
    name_len: u16,
    flags: u8,
    depth: u8,
    logical: u64,
    physical: u64,
) -> (node: Node)
    ensures
        node == (Node {
            parent,
            child_start: 0,
            child_len: 0,
            name_off,
            name_len,
            kind: 0,
            flags,
            depth,
            logical,
            physical,
        }),
{
    Node {
        parent,
        child_start: 0,
        child_len: 0,
        name_off,
        name_len,
        kind: 0,
        flags,
        depth,
        logical,
        physical,
    }
}

} // verus!
