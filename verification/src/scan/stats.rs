//! The statistics of a scan are the numbers of its nodes.

use vstd::prelude::*;

use crate::kinds::KindTableView;
use crate::scan::assemble::{assembled, comes_from, dressed, with_root_name};
use crate::scan::chunk::{chunks_wf, DirChunk, NO_CHUNK};
use crate::scan::counts::{
    all_linked, at_most_one, chunk_count, counted_in, duplicates, entry_worth, files, folders,
    leading, passed_by, read_count, slot_count, symlinks, total_count,
};
use crate::scan::flatten::{
    arity, child_ok, expands, first_child, flattened, lemma_slots, range_ok,
};
use crate::scan::options::Progress;
use crate::scan::tally::{
    by_flags, flag_count, flag_count_at, lemma_counters_steady, lemma_flag_count,
    lemma_nodes_are_entries, steady,
};
use crate::scan::walk::{all_owned, lemma_all_met};
use crate::sums::{lemma_sum_add, lemma_sum_same};
use crate::tree::flags;
use crate::tree::free::lemma_put_in;
use crate::tree::{has_flag, Node};

verus! {

/// How many slots were skipped or refused.
pub open spec fn passed_over(read: Seq<bool>) -> int {
    read.len() - read_count(read)
}

/// How many directories were not read: the slots that were skipped or refused,
/// and the directories that got no slot.
pub open spec fn unread(chunks: Seq<Option<DirChunk>>, read: Seq<bool>) -> int {
    passed_over(read) + total_count(chunks, passed_by())
}

/// Whether counters are the numbers of nodes of a tree: its files, its symlinks,
/// its further links to counted inodes, and its directories but for those that
/// were not read.
pub open spec fn counts_nodes(counts: Progress, nodes: Seq<Node>, unread: int) -> bool {
    &&& counts.files == flag_count(nodes, files())
    &&& counts.symlinks == flag_count(nodes, symlinks())
    &&& counts.hardlink_dups == flag_count(nodes, duplicates())
    &&& counts.dirs + unread == flag_count(nodes, folders())
}

/// What the root and the free space count for.
pub open spec fn ends_count(worth: spec_fn(u8, bool) -> int, root: int) -> bool {
    &&& by_flags(worth)
    &&& steady(worth)
    &&& at_most_one(worth)
    &&& worth(flags::DIR, true) == root
    &&& worth(flags::DIR | flags::UNREADABLE, true) == root
    &&& worth(flags::FREE_SPACE, true) == 0
}

proof fn lemma_ends_count()
    ensures
        ends_count(files(), 0),
        ends_count(symlinks(), 0),
        ends_count(duplicates(), 0),
        ends_count(folders(), 1),
{
    lemma_counters_steady();
    assert(1u8 & 1u8 != 0 && 1u8 & 2u8 == 0 && 1u8 & 8u8 == 0) by (bit_vector);
    assert((1u8 | 16u8) & 1u8 != 0 && (1u8 | 16u8) & 2u8 == 0 && (1u8 | 16u8) & 8u8 == 0)
        by (bit_vector);
    assert(64u8 & 64u8 != 0 && 64u8 & 1u8 == 0 && 64u8 & 2u8 == 0 && 64u8 & 8u8 == 0)
        by (bit_vector);
}

/// Nodes count for no more than there are.
proof fn lemma_flag_bounds(nodes: Seq<Node>, worth: spec_fn(u8, bool) -> int)
    requires
        at_most_one(worth),
    ensures
        0 <= flag_count(nodes, worth) <= nodes.len(),
    decreases nodes.len(),
{
    if nodes.len() > 0 {
        let less = nodes.drop_last();
        lemma_flag_bounds(less, worth);
        lemma_sum_same(
            0,
            less.len() as int,
            flag_count_at(less, worth),
            flag_count_at(nodes, worth),
        );
        assert(0 <= worth(nodes[nodes.len() - 1].flags, true) <= 1);
    }
}

/// Nodes with the same flags count for the same.
pub proof fn lemma_same_flag_count(a: Seq<Node>, b: Seq<Node>, worth: spec_fn(u8, bool) -> int)
    requires
        a.len() == b.len(),
        forall|i: int| 0 <= i < a.len() ==> (#[trigger] a[i]).flags == b[i].flags,
    ensures
        flag_count(a, worth) == flag_count(b, worth),
{
    let (x, y) = (flag_count_at(a, worth), flag_count_at(b, worth));
    assert forall|i: int| 0 <= i < a.len() implies #[trigger] x(i) == y(i) by {
        assert(a[i].flags == b[i].flags);
    }
    lemma_sum_same(0, a.len() as int, x, y);
}

/// The free-space node counts for itself.
proof fn lemma_free_counts(
    nodes: Seq<Node>,
    after: Seq<Node>,
    at: int,
    worth: spec_fn(u8, bool) -> int,
)
    requires
        0 <= at <= nodes.len(),
        after.len() == nodes.len() + 1,
        forall|i: int| 0 <= i < at ==> (#[trigger] after[i]).flags == nodes[i].flags,
        forall|i: int|
            at <= i < nodes.len() ==> (#[trigger] nodes[i]).flags == after[i + 1].flags,
    ensures
        flag_count(after, worth) == flag_count(nodes, worth) + worth(after[at].flags, true),
{
    lemma_put_in(
        flag_count_at(nodes, worth),
        flag_count_at(after, worth),
        nodes.len() as int,
        at,
    );
}

/// A directory leads on or is passed by.
proof fn lemma_folders_split(chunks: Seq<Option<DirChunk>>)
    requires
        chunks_wf(chunks),
    ensures
        total_count(chunks, folders()) == total_count(chunks, leading()) + total_count(
            chunks,
            passed_by(),
        ),
{
    reveal(total_count);
    let n = chunks.len() as int;
    let (a, b, c) = (
        slot_count(chunks, leading()),
        slot_count(chunks, passed_by()),
        slot_count(chunks, folders()),
    );
    assert forall|s: int| 0 <= s < n implies #[trigger] c(s) == a(s) + b(s) by {
        if let Some(chunk) = chunks[s] {
            assert(chunk.wf(n));
            reveal(chunk_count);
            let list = chunk.entries@;
            let (x, y, z) = (
                entry_worth(list, leading()),
                entry_worth(list, passed_by()),
                entry_worth(list, folders()),
            );
            assert forall|k: int| 0 <= k < list.len() implies #[trigger] z(k) == x(k) + y(k) by {
                assert(list[k].chunk != NO_CHUNK ==> has_flag(list[k].flags, flags::DIR));
            }
            lemma_sum_add(0, list.len() as int, x, y, z);
        }
    }
    lemma_sum_add(0, n, a, b, c);
}

/// The nodes of the tree count for what the chunks do, and for the root.
proof fn lemma_tree_count(
    chunks: Seq<Option<DirChunk>>,
    kinds: KindTableView,
    root: Seq<u8>,
    free: Option<u64>,
    out_nodes: Seq<Node>,
    out_names: Seq<u8>,
    worth: spec_fn(u8, bool) -> int,
    top: int,
)
    requires
        0 < chunks.len() < NO_CHUNK,
        chunks_wf(chunks),
        all_owned(chunks),
        assembled(chunks, kinds, root, free, out_nodes, out_names),
        ends_count(worth, top),
    ensures
        flag_count(out_nodes, worth) == top + total_count(chunks, worth),
{
    let (nodes, names) = choose|nodes: Seq<Node>, names: Seq<u8>| #[trigger]
        comes_from(chunks, kinds, nodes, names) && dressed(
            nodes,
            names,
            root,
            free,
            out_nodes,
            out_names,
        );
    let (raw, slots) = choose|raw: Seq<Node>, slots: Seq<u32>| #[trigger]
        flattened(chunks, kinds, nodes, names, raw, slots);
    lemma_slots(chunks, raw, names, slots);
    lemma_all_met(chunks, raw, names, slots);
    lemma_nodes_are_entries(chunks, raw, names, slots, worth);
    lemma_flag_count(raw, slots, worth);
    assert forall|i: int| 0 <= i < nodes.len() implies (#[trigger] nodes[i]).flags
        == raw[i].flags by {}
    lemma_same_flag_count(nodes, raw, worth);
    let called = with_root_name(
        nodes,
        names.len() as int,
        crate::paths::shown_name(root),
    );
    lemma_same_flag_count(called, nodes, worth);
    if let Some(bytes) = free {
        let at = 1 + called[0].child_len;
        lemma_first_children(chunks, kinds, nodes, names, raw, slots);
        lemma_free_counts(called, out_nodes, at, worth);
    }
}

/// The root has no more children than there are nodes after it.
pub proof fn lemma_first_children(
    chunks: Seq<Option<DirChunk>>,
    kinds: KindTableView,
    nodes: Seq<Node>,
    names: Seq<u8>,
    raw: Seq<Node>,
    slots: Seq<u32>,
)
    requires
        flattened(chunks, kinds, nodes, names, raw, slots),
    ensures
        1 + nodes[0].child_len <= nodes.len(),
{
    let n = raw.len() as int;
    assert(range_ok(chunks, raw, slots, n, 0));
    assert(nodes[0].child_len == raw[0].child_len);
    let many = arity(chunks, slots)(0);
    assert(first_child(chunks, slots, 0) == 1);
    if expands(chunks, slots, 0) && many > 0 {
        assert(child_ok(chunks, raw, names, slots, n, 0, many - 1));
    }
}

/// The counters of a walk, once its tree is assembled, are the numbers of nodes
/// of the tree.
pub proof fn lemma_stats_count_nodes(
    chunks: Seq<Option<DirChunk>>,
    read: Seq<bool>,
    counts: Progress,
    kinds: KindTableView,
    root: Seq<u8>,
    free: Option<u64>,
    out_nodes: Seq<Node>,
    out_names: Seq<u8>,
)
    requires
        0 < chunks.len() < NO_CHUNK,
        chunks_wf(chunks),
        all_owned(chunks),
        all_linked(chunks),
        counted_in(chunks, read, counts),
        assembled(chunks, kinds, root, free, out_nodes, out_names),
        out_nodes.len() <= u32::MAX,
    ensures
        counts_nodes(counts, out_nodes, unread(chunks, read)),
{
    lemma_ends_count();
    lemma_tree_count(chunks, kinds, root, free, out_nodes, out_names, files(), 0);
    lemma_tree_count(chunks, kinds, root, free, out_nodes, out_names, symlinks(), 0);
    lemma_tree_count(chunks, kinds, root, free, out_nodes, out_names, duplicates(), 0);
    lemma_tree_count(chunks, kinds, root, free, out_nodes, out_names, folders(), 1);
    lemma_flag_bounds(out_nodes, files());
    lemma_flag_bounds(out_nodes, symlinks());
    lemma_flag_bounds(out_nodes, duplicates());
    lemma_folders_split(chunks);
}

} // verus!
