//! From a finished walk to a tree.

use vstd::prelude::*;
use vstd::utf8::encode_utf8;

use crate::kinds::{KindTable, KindTableView, KIND_FREE};
use crate::paths::{shown_name, title};
use crate::scan::chunk::{
    chunks_wf, lemma_slots_hold, slot_entries, slot_names, slot_size, total_entries, total_names,
    total_size, totals, DirChunk, NO_CHUNK,
};
use crate::scan::counts::{all_linked, counted_in};
use crate::scan::flatten::{flatten, flattened, lemma_mark, lemma_slots, marked, node_kind};
use crate::scan::options::{Progress, ScanOptions};
use crate::sums::lemma_sum_bounds;
use crate::scan::place::placed;
use crate::scan::stats::{counts_nodes, lemma_stats_count_nodes, unread};
use crate::scan::walk::{all_owned, lemma_all_met};
use crate::scan::whole::{cut_off, lemma_depths, shallow, Flat};
use crate::tree::arena::{arena_wf, lemma_lone_file};
use crate::tree::flags;
use crate::tree::free::with_free_space;
use crate::tree::{has_flag, make_node, Node, ScanStats, Tree, ROOT};

verus! {

/// What is known once the walk is over, besides the chunks.
#[derive(Debug)]
pub struct Outcome {
    pub progress: Progress,
    pub errors: Vec<(Vec<u8>, String)>,
    pub used_fallback: bool,
    /// In nanoseconds.
    pub elapsed: u128,
    /// Free and total bytes of the volume holding the root.
    pub volume: Option<(u64, u64)>,
    /// Whether the root is itself a mount point.
    pub at_volume_root: bool,
}

/// The free bytes that become a node of their own, if any. Only meaningful
/// when the root *is* the volume: anywhere else the free space is not "inside"
/// the tree and adding it would distort every share.
pub open spec fn free_to_add(opts: ScanOptions, outcome: Outcome) -> Option<u64> {
    match outcome.volume {
        Some((free, total)) if opts.include_free_space && outcome.at_volume_root => Some(free),
        _ => None,
    }
}

/// The free bytes added to the root.
pub open spec fn added(opts: ScanOptions, outcome: Outcome) -> int {
    match free_to_add(opts, outcome) {
        Some(free) => free as int,
        None => 0,
    }
}

/// What the tree's statistics say of an outcome.
pub open spec fn reported(stats: ScanStats, outcome: Outcome) -> bool {
    &&& stats.files == outcome.progress.files
    &&& stats.dirs == outcome.progress.dirs
    &&& stats.symlinks == outcome.progress.symlinks
    &&& stats.hardlink_dups == outcome.progress.hardlink_dups
    &&& stats.errors == outcome.progress.errors
    &&& stats.error_samples == outcome.errors
    &&& stats.used_fallback == outcome.used_fallback
    &&& stats.elapsed == outcome.elapsed
    &&& stats.free_space == match outcome.volume {
        Some((free, total)) => Some(free),
        None => None,
    }
    &&& stats.volume_total == match outcome.volume {
        Some((free, total)) => Some(total),
        None => None,
    }
}

/// Where the free space stands in the finished tree, if it was added: it is the
/// last of the root's children, which come right after the root.
pub open spec fn free_node_at(free: Option<u64>, nodes: Seq<Node>) -> Option<int> {
    match free {
        Some(_) => Some(nodes[0].child_len as int),
        None => None,
    }
}

/// The arena with the root called `name`, whose bytes go to `off`.
pub open spec fn with_root_name(nodes: Seq<Node>, off: int, name: Seq<u8>) -> Seq<Node> {
    nodes.update(
        0,
        Node {
            name_off: off as u32,
            name_len: if name.len() <= u16::MAX {
                name.len() as u16
            } else {
                u16::MAX
            },
            ..nodes[0]
        },
    )
}

/// The arena `nodes`, `names` became this one: the root got its name, and the
/// free space a node if there is any to add.
pub open spec fn dressed(
    nodes: Seq<Node>,
    names: Seq<u8>,
    root: Seq<u8>,
    free: Option<u64>,
    out_nodes: Seq<Node>,
    out_names: Seq<u8>,
) -> bool {
    let title = shown_name(root);
    let called = with_root_name(nodes, names.len() as int, title);
    match free {
        None => out_nodes == called && out_names == names + title,
        Some(bytes) => {
            &&& out_nodes == with_free_space(
                called,
                bytes,
                KIND_FREE,
                (names.len() + title.len()) as u32,
            )
            &&& out_names == names + title + encode_utf8("(free space)"@)
        },
    }
}

/// What a walk's chunks become, before the root is named: a sound arena.
pub open spec fn comes_from(
    chunks: Seq<Option<DirChunk>>,
    kinds: KindTableView,
    nodes: Seq<Node>,
    names: Seq<u8>,
) -> bool {
    &&& arena_wf(nodes, names)
    &&& exists|raw: Seq<Node>, slots: Seq<u32>| #[trigger]
        flattened(chunks, kinds, nodes, names, raw, slots)
}

/// The nodes and names of the tree a walk's chunks make.
pub open spec fn assembled(
    chunks: Seq<Option<DirChunk>>,
    kinds: KindTableView,
    root: Seq<u8>,
    free: Option<u64>,
    out_nodes: Seq<Node>,
    out_names: Seq<u8>,
) -> bool {
    exists|nodes: Seq<Node>, names: Seq<u8>| #[trigger]
        comes_from(chunks, kinds, nodes, names) && dressed(
            nodes,
            names,
            root,
            free,
            out_nodes,
            out_names,
        )
}

/// Every node is of one of the first `count` kinds.
pub open spec fn kinds_known(nodes: Seq<Node>, count: int) -> bool {
    forall|i: int| 0 <= i < nodes.len() ==> (#[trigger] nodes[i]).kind < count
}

/// Whether the tree a walk makes can be indexed: its nodes and the names by 32
/// bits, its sizes by 64, with room for the root's name and the free space.
pub open spec fn tree_fits(
    chunks: Seq<Option<DirChunk>>,
    root: Seq<u8>,
    opts: ScanOptions,
    outcome: Outcome,
) -> bool {
    &&& 0 < chunks.len() < NO_CHUNK
    &&& total_entries(chunks) + 2 <= u32::MAX
    &&& total_names(chunks) + shown_name(root).len() + 12 <= u32::MAX
    &&& total_size(chunks, true) + added(opts, outcome) <= u64::MAX
    &&& total_size(chunks, false) + added(opts, outcome) <= u64::MAX
}

/// Whether [`assemble`] can be asked for the tree.
pub fn fits(
    root: &Vec<u8>,
    chunks: &Vec<Option<DirChunk>>,
    opts: &ScanOptions,
    outcome: &Outcome,
) -> (fit: bool)
    ensures
        fit == tree_fits(chunks@, root@, *opts, *outcome),
{
    let mut free: u64 = 0;
    if opts.include_free_space && outcome.at_volume_root {
        if let Some((bytes, total)) = outcome.volume {
            free = bytes;
        }
    }
    let name: u64 = title(root.as_slice()).len() as u64;
    proof {
        lemma_slots_hold(chunks@);
        let n = chunks@.len() as int;
        lemma_sum_bounds(0, n, slot_entries(chunks@));
        lemma_sum_bounds(0, n, slot_names(chunks@));
        lemma_sum_bounds(0, n, slot_size(chunks@, true));
        lemma_sum_bounds(0, n, slot_size(chunks@, false));
    }
    match totals(chunks) {
        None => false,
        Some(t) => {
            let limit: u64 = u32::MAX as u64;
            chunks.len() > 0 && chunks.len() < NO_CHUNK as usize && t.entries <= limit - 2
                && name <= limit - 12 && t.names <= limit - 12 - name && t.physical
                <= u64::MAX - free && t.logical <= u64::MAX - free
        },
    }
}

/// The tree a finished walk makes.
pub fn assemble(
    root: Vec<u8>,
    chunks: Vec<Option<DirChunk>>,
    kinds: &KindTable,
    opts: &ScanOptions,
    outcome: Outcome,
) -> (tree: Tree)
    requires
        chunks_wf(chunks@),
        tree_fits(chunks@, root@, *opts, outcome),
    ensures
        tree@.wf(),
        tree@.root_path == root@,
        reported(tree@.stats, outcome),
        assembled(
            chunks@,
            kinds@,
            root@,
            free_to_add(*opts, outcome),
            tree@.nodes,
            tree@.names,
        ),
        forall|places: Seq<Seq<Seq<u8>>>| #[trigger]
            placed(chunks@, places, opts.max_depth as int) ==> {
                &&& shallow(
                    tree@.nodes,
                    free_node_at(free_to_add(*opts, outcome), tree@.nodes),
                    opts.max_depth as int,
                )
                &&& free_to_add(*opts, outcome) is None ==> cut_off(
                    tree@.nodes,
                    opts.max_depth as int,
                )
            },
        kinds@.wf() ==> kinds_known(tree@.nodes, kinds@.kinds.len() as int),
        all_owned(chunks@) && all_linked(chunks@) ==> forall|read: Seq<bool>| #[trigger]
            counted_in(chunks@, read, outcome.progress) ==> counts_nodes(
                outcome.progress,
                tree@.nodes,
                unread(chunks@, read),
            ),
        all_owned(chunks@) ==> {
            &&& tree@.nodes.len() == 1 + total_entries(chunks@) + if free_to_add(
                *opts,
                outcome,
            ) is Some {
                1int
            } else {
                0int
            }
            &&& tree@.nodes[0].physical == total_size(chunks@, true) + added(*opts, outcome)
            &&& tree@.nodes[0].logical == total_size(chunks@, false) + added(*opts, outcome)
        },
{
    let ghost given = chunks@;
    let (nodes, names) = flatten(chunks, kinds);
    let ghost nodes0 = nodes@;
    let ghost names0 = names@;
    proof {
        assert(comes_from(given, kinds@, nodes0, names0));
        let (raw, slots) = choose|raw: Seq<Node>, slots: Seq<u32>| #[trigger]
            flattened(given, kinds@, nodes0, names0, raw, slots);
        lemma_mark(flags::DIR);
        assert(has_flag(flags::DIR, flags::DIR)) by (bit_vector);
        assert(nodes0[0].flags == marked(given, slots, 0, flags::DIR));
        assert(nodes0[0].spec_is_dir());
        if all_owned(given) {
            lemma_all_met(given, raw, names0, slots);
        }
        lemma_slots(given, raw, names0, slots);
        assert forall|places: Seq<Seq<Seq<u8>>>| #[trigger]
            placed(given, places, opts.max_depth as int) implies shallow(
            nodes0,
            None,
            opts.max_depth as int,
        ) && cut_off(nodes0, opts.max_depth as int) by {
            lemma_depths(
                Flat {
                    chunks: given,
                    places,
                    max_depth: opts.max_depth as int,
                    raw,
                    slots,
                    names: names0,
                    nodes: nodes0,
                    kinds: kinds@,
                },
            );
        }
        if kinds@.wf() {
            assert forall|i: int| 0 <= i < nodes0.len() implies (#[trigger] nodes0[i]).kind
                < kinds@.kinds.len() by {
                assert(nodes0[i].kind == node_kind(raw[i], names0, kinds@));
            }
        }
    }
    let free = match outcome.volume {
        Some((free, total)) => Some(free),
        None => None,
    };
    let volume_total = match outcome.volume {
        Some((free, total)) => Some(total),
        None => None,
    };
    let stats = ScanStats {
        files: outcome.progress.files,
        dirs: outcome.progress.dirs,
        symlinks: outcome.progress.symlinks,
        hardlink_dups: outcome.progress.hardlink_dups,
        errors: outcome.progress.errors,
        error_samples: outcome.errors,
        used_fallback: outcome.used_fallback,
        elapsed: outcome.elapsed,
        free_space: free,
        volume_total,
    };
    let name = title(root.as_slice());
    let mut tree = Tree::new(root, nodes, names, stats);
    tree.set_name(ROOT, name.as_slice());
    if opts.include_free_space && outcome.at_volume_root {
        if let Some(free) = free {
            let ghost called = tree@.nodes;
            tree.push_free_space(free, KIND_FREE);
            proof {
                if shallow(called, None, opts.max_depth as int) {
                    lemma_free_space_shallow(
                        called,
                        tree@.nodes,
                        1 + called[0].child_len,
                        opts.max_depth as int,
                    );
                }
            }
        }
    }
    proof {
        let free = free_to_add(*opts, outcome);
        if all_owned(given) && all_linked(given) {
            assert forall|read: Seq<bool>| #[trigger]
                counted_in(given, read, outcome.progress) implies counts_nodes(
                outcome.progress,
                tree@.nodes,
                unread(given, read),
            ) by {
                lemma_stats_count_nodes(
                    given,
                    read,
                    outcome.progress,
                    kinds@,
                    root@,
                    free,
                    tree@.nodes,
                    tree@.names,
                );
            }
        }
    }
    tree
}

/// Putting in the free space moves nodes about, not deeper.
proof fn lemma_free_space_shallow(nodes: Seq<Node>, after: Seq<Node>, at: int, max_depth: int)
    requires
        shallow(nodes, None, max_depth),
        0 < at <= nodes.len(),
        after.len() == nodes.len() + 1,
        forall|i: int| 0 <= i < at ==> (#[trigger] after[i]).depth == nodes[i].depth,
        forall|i: int|
            at < i < after.len() ==> (#[trigger] after[i]).depth == nodes[i - 1].depth,
    ensures
        shallow(after, Some(at), max_depth),
{
    assert forall|i: int| 0 <= i < after.len() && i != at implies (#[trigger] after[i]).depth
        <= max_depth by {
        if i < at {
            assert(nodes[i].depth <= max_depth);
        } else {
            assert(nodes[i - 1].depth <= max_depth);
        }
    }
}

/// The tree of a scan whose root is a file: one node. The name is what the path
/// is shown by; its length is recorded in 16 bits.
pub fn single_file_tree(
    path: Vec<u8>,
    is_symlink: bool,
    len: u64,
    blocks: u64,
    kinds: &KindTable,
    elapsed: u128,
) -> (tree: Tree)
    requires
        blocks * 512 <= u64::MAX,
        shown_name(path@).len() <= u32::MAX,
    ensures
        tree@.wf(),
        tree@.root_path == path@,
        tree@.names == shown_name(path@),
        tree@.nodes == seq![
            Node {
                parent: ROOT,
                child_start: 0,
                child_len: 0,
                name_off: 0,
                name_len: (shown_name(path@).len() % 0x1_0000) as u16,
                kind: kinds@.kind_of(shown_name(path@)),
                flags: if is_symlink {
                    flags::SYMLINK
                } else {
                    0
                },
                depth: 0,
                logical: len,
                physical: (blocks * 512) as u64,
            },
        ],
        kinds@.wf() ==> kinds_known(tree@.nodes, kinds@.kinds.len() as int),
        tree@.stats.files == 1,
        tree@.stats.elapsed == elapsed,
        tree@.stats.dirs == 0 && tree@.stats.symlinks == 0 && tree@.stats.hardlink_dups == 0
            && tree@.stats.errors == 0 && tree@.stats.error_samples@.len() == 0
            && !tree@.stats.used_fallback && tree@.stats.free_space is None
            && tree@.stats.volume_total is None,
{
    let name = title(path.as_slice());
    let mut node = make_node(
        ROOT,
        0,
        (name.len() % 0x1_0000) as u16,
        if is_symlink {
            flags::SYMLINK
        } else {
            0
        },
        0,
        len,
        blocks * 512,
    );
    node.kind = kinds.classify(name.as_slice());
    let mut nodes: Vec<Node> = Vec::new();
    nodes.push(node);
    let mut stats = ScanStats::default();
    stats.files = 1;
    stats.elapsed = elapsed;
    proof {
        assert(!has_flag(2u8, flags::DIR)) by (bit_vector);
        assert(!has_flag(0u8, flags::DIR)) by (bit_vector);
        lemma_lone_file(nodes@, name@);
    }
    Tree::new(path, nodes, name, stats)
}

/// Free and total bytes of a volume, from its block counts.
pub fn volume_space(block: u64, available: u64, total: u64) -> (space: (u64, u64))
    requires
        available * block <= u64::MAX,
        total * block <= u64::MAX,
    ensures
        space.0 == available * block,
        space.1 == total * block,
{
    (available * block, total * block)
}

/// What the directory above a path is.
#[derive(Clone, Copy, Debug, PartialEq, Eq, Structural)]
pub enum Above {
    /// There is none.
    Nothing,
    Unreadable,
    /// It lives on this device.
    Device(u64),
}

/// Whether a path is itself a mount point.
pub open spec fn is_mount(here: Option<u64>, above: Above) -> bool {
    match here {
        None => false,
        Some(dev) => match above {
            Above::Nothing => true,
            Above::Device(up) => up != dev,
            Above::Unreadable => false,
        },
    }
}

/// True when a path is itself a mount point, which is the only case where
/// adding free space to the tree makes sense. `here` is the device the path
/// lives on, if that could be read.
pub fn is_volume_root(here: Option<u64>, above: Above) -> (mount: bool)
    ensures
        mount == is_mount(here, above),
{
    match here {
        None => false,
        Some(dev) => match above {
            Above::Nothing => true,
            Above::Device(up) => up != dev,
            Above::Unreadable => false,
        },
    }
}

/// How a bulk read of a directory went.
#[derive(Clone, Copy, Debug, PartialEq, Eq, Structural)]
pub enum BulkRead {
    /// The options do not ask for one.
    NotTried,
    Done,
    /// It failed; whether because the filesystem does not support it.
    Failed { unsupported: bool },
}

/// What to do after a bulk read.
#[derive(Clone, Copy, Debug, PartialEq, Eq, Structural)]
pub enum NextRead {
    Finish,
    /// Read the directory entry by entry.
    Posix,
    /// Start over entry by entry, and note that the fallback was used.
    Fallback,
    /// Report the error.
    Fail,
}

/// How the reading of a directory goes on after a bulk read that emitted so many
/// entries.
pub open spec fn next_read(outcome: BulkRead, emitted: usize) -> NextRead {
    match outcome {
        BulkRead::NotTried => NextRead::Posix,
        BulkRead::Done => NextRead::Finish,
        BulkRead::Failed { unsupported } => if emitted == 0 && unsupported {
            NextRead::Fallback
        } else {
            NextRead::Fail
        },
    }
}

/// Reads one directory, preferring the bulk read and falling back per directory
/// when the filesystem does not support it. Only starts over if nothing was
/// emitted yet: a failure part-way through cannot be undone, so it is reported
/// rather than replayed into duplicate entries.
pub fn enumerate(outcome: BulkRead, emitted: usize) -> (next: NextRead)
    ensures
        next == next_read(outcome, emitted),
{
    match outcome {
        BulkRead::NotTried => NextRead::Posix,
        BulkRead::Done => NextRead::Finish,
        BulkRead::Failed { unsupported } => {
            if emitted == 0 && unsupported {
                NextRead::Fallback
            } else {
                NextRead::Fail
            }
        },
    }
}

} // verus!
