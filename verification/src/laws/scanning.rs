//! What a scan finds.

use vstd::prelude::*;

use crate::kinds::{KindTable, KindTableView};
use crate::scan::agree::{lemma_tree_tells_disk, tree_facts};
use crate::scan::assemble::{
    assemble, assembled, comes_from, dressed, fits, free_to_add, is_mount, next_read, reported, Above,
    BulkRead, NextRead, Outcome,
};
use crate::paths::shown_name;
use crate::scan::chunk::{slot_entries, slot_names, total_size, DirChunk};
use crate::scan::collect::Subdir;
use crate::scan::counts::{duplicates, files, folders, symlinks};
use crate::scan::flatten::{flattened, node_kind};
use crate::scan::listing::Listing;
use crate::scan::options::{Progress, ScanOptions};
use crate::scan::stats::counts_nodes;
use crate::scan::tally::flag_count_at;
use crate::scan::walk::{joined_counts, one_error, sampled, Task, Walk, WalkView};
use crate::scan::whole::{
    disk_facts, goes_on, item_fact, leads_to, listed, node_fact, reached, shows, weight,
    weight_upto,
};
use crate::sums::{lemma_sum_same, sum};
use crate::tree::arena::place_of;
use crate::tree::flags;
use crate::tree::free::with_free_space;
use crate::tree::{Node, ScanStats, Tree, TreeView};

verus! {

/// Whether a listing has a folder of this name below which the scan goes on.
pub open spec fn has_folder(listing: Listing, name: Seq<u8>) -> bool {
    exists|k: int|
        0 <= k < listing.items.len() && (#[trigger] listing.items[k]).name == name
            && listing.items[k].descends
}

/// Whether one gets to a place by such folders, step by step from the root.
pub open spec fn can_be_reached(
    disk: spec_fn(Seq<Seq<u8>>) -> Listing,
    place: Seq<Seq<u8>>,
) -> bool {
    forall|i: int| 0 <= i < place.len() ==> has_folder(disk(#[trigger] place.take(i)), place[i])
}

proof fn lemma_reached(disk: spec_fn(Seq<Seq<u8>>) -> Listing, place: Seq<Seq<u8>>)
    ensures
        reached(disk, place) <==> can_be_reached(disk, place),
    decreases place.len(),
{
    if place.len() > 0 {
        let up = place.drop_last();
        let n = up.len() as int;
        lemma_reached(disk, up);
        assert(place.take(n) == up);
        assert(place.last() == place[n]);
        assert forall|i: int| 0 <= i < n implies #[trigger] place.take(i) == up.take(i) by {}
        if reached(disk, place) {
            assert(leads_to(disk, up, place.last()));
            let k = choose|k: int|
                0 <= k < disk(up).items.len() && goes_on(
                    #[trigger] disk(up).items[k],
                    place.last(),
                );
            assert(has_folder(disk(up), place[n]));
            assert forall|i: int| 0 <= i < place.len() implies has_folder(
                disk(#[trigger] place.take(i)),
                place[i],
            ) by {
                if i < n {
                    assert(has_folder(disk(up.take(i)), up[i]));
                }
            }
        }
        if can_be_reached(disk, place) {
            assert(has_folder(disk(place.take(n)), place[n]));
            let k = choose|k: int|
                0 <= k < disk(up).items.len() && (#[trigger] disk(up).items[k]).name == place[n]
                    && disk(up).items[k].descends;
            assert(goes_on(disk(up).items[k], place.last()));
            assert forall|i: int| 0 <= i < up.len() implies has_folder(
                disk(#[trigger] up.take(i)),
                up[i],
            ) by {
                assert(has_folder(disk(place.take(i)), place[i]));
            }
        }
    }
}

/// Everything that is listed in a folder the scan gets to is in the tree, at its
/// place and with its marks; and what the scan does not go on below weighs there
/// what it is listed with.
pub proof fn lemma_everything_listed_is_in_the_tree(
    walk: WalkView,
    disk: spec_fn(Seq<Seq<u8>>) -> Listing,
    kinds: KindTableView,
    root: Seq<u8>,
    tree: TreeView,
    place: Seq<Seq<u8>>,
    k: int,
)
    requires
        walk.wf(),
        shows(walk.chunks, walk.places, disk),
        assembled(walk.chunks, kinds, root, None, tree.nodes, tree.names),
        can_be_reached(disk, place),
        0 <= k < disk(place).items.len(),
    ensures
        ({
            let item = disk(place).items[k];
            exists|i: int|
                0 <= i < tree.nodes.len() && #[trigger] place_of(tree.nodes, tree.names, i)
                    == place.push(item.name) && tree.nodes[i].flags == (if item.descends && disk(
                    place.push(item.name),
                ).unreadable {
                    item.flags | flags::UNREADABLE
                } else {
                    item.flags
                }) && (item.descends || (tree.nodes[i].logical == item.logical
                    && tree.nodes[i].physical == item.physical))
        }),
{
    lemma_tree_tells_disk(walk, disk, kinds, root, tree);
    lemma_reached(disk, place);
    let item = disk(place).items[k];
    let fact = item_fact(disk, walk.max_depth as int, place, k);
    assert(listed(disk, place, k));
    assert(disk_facts(disk, walk.max_depth as int).contains(fact));
    assert(tree_facts(tree).contains(fact));
    let i = choose|i: int|
        0 <= i < tree.nodes.len() && fact == #[trigger] node_fact(tree.nodes, tree.names, i);
    assert(place_of(tree.nodes, tree.names, i) == place.push(item.name));
}

/// Nothing else is in the tree: a node is the root, or is listed in a folder the
/// scan gets to.
pub proof fn lemma_everything_in_the_tree_is_listed(
    walk: WalkView,
    disk: spec_fn(Seq<Seq<u8>>) -> Listing,
    kinds: KindTableView,
    root: Seq<u8>,
    tree: TreeView,
    i: int,
)
    requires
        walk.wf(),
        shows(walk.chunks, walk.places, disk),
        assembled(walk.chunks, kinds, root, None, tree.nodes, tree.names),
        0 <= i < tree.nodes.len(),
        place_of(tree.nodes, tree.names, i).len() > 0,
    ensures
        ({
            let place = place_of(tree.nodes, tree.names, i);
            let up = place.drop_last();
            &&& can_be_reached(disk, up)
            &&& exists|k: int|
                0 <= k < disk(up).items.len() && (#[trigger] disk(up).items[k]).name
                    == place.last()
        }),
{
    lemma_tree_tells_disk(walk, disk, kinds, root, tree);
    let fact = node_fact(tree.nodes, tree.names, i);
    assert(tree_facts(tree).contains(fact));
    assert(disk_facts(disk, walk.max_depth as int).contains(fact));
    let (up, k) = choose|up: Seq<Seq<u8>>, k: int| #[trigger]
        listed(disk, up, k) && fact == item_fact(disk, walk.max_depth as int, up, k);
    let place = fact.place;
    assert(place == up.push(disk(up).items[k].name));
    assert(place.drop_last() == up);
    lemma_reached(disk, up);
    assert(disk(up).items[k].name == place.last());
}

/// Which bits folders and the free space have.
proof fn lemma_folder_bits(f: u8)
    by (bit_vector)
    ensures
        f & (1u8 | 64u8) != 0 <==> f & 1 != 0 || f & 64 != 0,
{
}

/// Every file of a scanned tree is of the kind that its name says, and every
/// folder of the kind for folders.
pub proof fn lemma_kinds_go_by_name(
    chunks: Seq<Option<DirChunk>>,
    kinds: KindTableView,
    root: Seq<u8>,
    tree: TreeView,
    i: int,
)
    requires
        assembled(chunks, kinds, root, None, tree.nodes, tree.names),
        0 < i < tree.nodes.len(),
    ensures
        tree.nodes[i].flags & flags::DIR != 0 ==> tree.nodes[i].kind == 0,
        tree.nodes[i].flags & flags::DIR == 0 && tree.nodes[i].flags & flags::FREE_SPACE == 0
            ==> tree.nodes[i].kind == kinds.kind_of(tree.name(i)),
{
    let (nodes, names) = choose|nodes: Seq<Node>, names: Seq<u8>| #[trigger]
        comes_from(chunks, kinds, nodes, names) && dressed(
            nodes,
            names,
            root,
            None,
            tree.nodes,
            tree.names,
        );
    let (raw, slots) = choose|raw: Seq<Node>, slots: Seq<u32>| #[trigger]
        flattened(chunks, kinds, nodes, names, raw, slots);
    let n = nodes[i];
    assert(tree.nodes[i] == n);
    assert(n.kind == node_kind(raw[i], names, kinds));
    assert(n.flags == raw[i].flags && n.name_off == raw[i].name_off && n.name_len
        == raw[i].name_len);
    assert(n.name_off + n.name_len <= names.len());
    assert(tree.name(i) == names.subrange(n.name_off as int, n.name_off + n.name_len));
    lemma_folder_bits(n.flags);
}

/// The free space is the last child of the root, of the kind for free space, and
/// weighs all of it either way; the root grows by as much.
pub proof fn lemma_free_space_node(nodes: Seq<Node>, bytes: u64, kind: u16, name_off: u32)
    requires
        0 < nodes.len(),
        1 + nodes[0].child_len <= nodes.len() < u32::MAX,
        nodes[0].logical + bytes <= u64::MAX,
        nodes[0].physical + bytes <= u64::MAX,
    ensures
        ({
            let after = with_free_space(nodes, bytes, kind, name_off);
            let n = after[1 + nodes[0].child_len];
            &&& after.len() == nodes.len() + 1
            &&& n.parent == 0 && n.depth == 1 && n.child_len == 0
            &&& n.logical == bytes && n.physical == bytes
            &&& n.kind == kind
            &&& n.flags == flags::FREE_SPACE
            &&& after[0].child_len == nodes[0].child_len + 1
            &&& after[0].logical == nodes[0].logical + bytes
            &&& after[0].physical == nodes[0].physical + bytes
        }),
{
}

/// What a walk came to is what the tree reports, under the path that was
/// scanned.
pub proof fn lemma_assemble(
    root: Vec<u8>,
    chunks: Vec<Option<DirChunk>>,
    kinds: &KindTable,
    opts: &ScanOptions,
    outcome: Outcome,
    tree: Tree,
)
    requires
        call_ensures(assemble, (root, chunks, kinds, opts, outcome), tree),
    ensures
        tree@.root_path == root@,
        tree@.stats.files == outcome.progress.files,
        tree@.stats.dirs == outcome.progress.dirs,
        tree@.stats.symlinks == outcome.progress.symlinks,
        tree@.stats.hardlink_dups == outcome.progress.hardlink_dups,
        tree@.stats.errors == outcome.progress.errors,
        tree@.stats.error_samples == outcome.errors,
        tree@.stats.used_fallback == outcome.used_fallback,
        tree@.stats.elapsed == outcome.elapsed,
        assembled(
            chunks@,
            kinds@,
            root@,
            if opts.include_free_space && outcome.at_volume_root && outcome.volume is Some {
                Some((outcome.volume->0).0)
            } else {
                None
            },
            tree@.nodes,
            tree@.names,
        ),
{
}

/// Publishing a directory gives one task for each folder in it, by its name, one
/// level down, and stores the entries under their names.
pub proof fn lemma_publish()
    ensures
        forall|
            walk: &mut Walk,
            slot: u32,
            chunk: DirChunk,
            subdirs: Vec<Subdir>,
            depth: u8,
            failure: Option<(Vec<u8>, String)>,
            progress: &mut Progress,
            tasks: Vec<Task>,
        | #[trigger]
            call_ensures(
                Walk::publish,
                (walk, slot, chunk, subdirs, depth, failure, progress),
                tasks,
            ) ==> {
                &&& tasks@.len() == subdirs@.len()
                &&& forall|i: int|
                    0 <= i < tasks@.len() ==> (#[trigger] tasks@[i]).name@ == subdirs@[i].name@
                        && tasks@[i].depth == depth + 1
                &&& final(walk)@.chunks[slot as int] is Some
                &&& final(walk)@.chunks[slot as int]->0.names == chunk.names
                &&& final(walk)@.chunks[slot as int]->0.entries@.len() == chunk.entries@.len()
                &&& failure is Some ==> final(walk)@.chunks[slot as int]->0.unreadable
                &&& failure is None ==> final(walk)@.chunks[slot as int]->0.unreadable
                    == chunk.unreadable
                &&& final(progress).dirs == progress.dirs.wrapping_add(1)
            },
{
}

/// A directory that cannot be opened is kept, empty and marked, and its error is
/// counted; one that is skipped is kept, empty and unmarked.
pub proof fn lemma_refuse_and_skip()
    ensures
        forall|walk: &mut Walk, slot: u32, path: Vec<u8>, message: String, progress: &mut Progress| #[trigger]
            call_ensures(Walk::refuse, (walk, slot, path, message, progress), ()) ==> {
                &&& final(walk)@.chunks[slot as int] is Some
                &&& final(walk)@.chunks[slot as int]->0.unreadable
                &&& final(walk)@.chunks[slot as int]->0.entries@.len() == 0
                &&& final(progress).errors == progress.errors.wrapping_add(1)
            },
        forall|walk: &mut Walk, slot: u32| #[trigger]
            call_ensures(Walk::skip, (walk, slot), ()) ==> {
                &&& final(walk)@.chunks[slot as int] is Some
                &&& !final(walk)@.chunks[slot as int]->0.unreadable
                &&& final(walk)@.chunks[slot as int]->0.entries@.len() == 0
                &&& final(walk)@.errors == walk@.errors
            },
{
}

/// How many entries a slot holds.
pub open spec fn entries_in(chunks: Seq<Option<DirChunk>>) -> spec_fn(int) -> int {
    |s: int|
        if chunks[s] is Some {
            chunks[s]->0.entries@.len() as int
        } else {
            0
        }
}

/// How many bytes of names a slot holds.
pub open spec fn name_bytes_in(chunks: Seq<Option<DirChunk>>) -> spec_fn(int) -> int {
    |s: int|
        if chunks[s] is Some {
            chunks[s]->0.names@.len() as int
        } else {
            0
        }
}

/// A walk makes a tree as long as its entries and names can be numbered by 32
/// bits and its sizes by 64: no smaller tree is turned away.
pub proof fn lemma_fits(
    root: &Vec<u8>,
    chunks: &Vec<Option<DirChunk>>,
    opts: &ScanOptions,
    outcome: &Outcome,
    fit: bool,
)
    requires
        call_ensures(fits, (root, chunks, opts, outcome), fit),
        0 < chunks@.len() < u32::MAX,
        sum(0, chunks@.len() as int, entries_in(chunks@)) + 2 <= u32::MAX,
        sum(0, chunks@.len() as int, name_bytes_in(chunks@)) + shown_name(root@).len() + 12
            <= u32::MAX,
        total_size(chunks@, true) + u64::MAX / 2 <= u64::MAX,
        total_size(chunks@, false) + u64::MAX / 2 <= u64::MAX,
        outcome.volume matches Some((free, total)) ==> free <= u64::MAX / 2,
    ensures
        fit,
{
    let n = chunks@.len() as int;
    lemma_sum_same(0, n, entries_in(chunks@), slot_entries(chunks@));
    lemma_sum_same(0, n, name_bytes_in(chunks@), slot_names(chunks@));
}

/// One for each node with a mark, or without any of some.
pub open spec fn with_mark(nodes: Seq<Node>, mark: u8) -> spec_fn(int) -> int {
    |i: int|
        if nodes[i].flags & mark != 0 {
            1
        } else {
            0
        }
}

/// One for each node that is a file: no directory, not unreadable, and not the
/// free space.
pub open spec fn plain_files(nodes: Seq<Node>) -> spec_fn(int) -> int {
    |i: int|
        if nodes[i].flags & flags::DIR == 0 && nodes[i].flags & flags::UNREADABLE == 0
            && nodes[i].flags & flags::FREE_SPACE == 0 {
            1
        } else {
            0
        }
}

/// The counts of a scan are the numbers of nodes with the marks they are for.
pub proof fn lemma_counts_are_of_nodes(counts: Progress, nodes: Seq<Node>, missed: int)
    requires
        counts_nodes(counts, nodes, missed),
    ensures
        counts.files == sum(0, nodes.len() as int, plain_files(nodes)),
        counts.symlinks == sum(0, nodes.len() as int, with_mark(nodes, flags::SYMLINK)),
        counts.hardlink_dups == sum(0, nodes.len() as int, with_mark(nodes, flags::HARDLINK_DUP)),
        counts.dirs + missed == sum(0, nodes.len() as int, with_mark(nodes, flags::DIR)),
{
    let n = nodes.len() as int;
    lemma_sum_same(0, n, flag_count_at(nodes, files()), plain_files(nodes));
    lemma_sum_same(0, n, flag_count_at(nodes, symlinks()), with_mark(nodes, flags::SYMLINK));
    lemma_sum_same(0, n, flag_count_at(nodes, duplicates()), with_mark(nodes, flags::HARDLINK_DUP));
    lemma_sum_same(0, n, flag_count_at(nodes, folders()), with_mark(nodes, flags::DIR));
}

/// An error is counted by the walk and by the task, and nothing else changes but
/// the samples.
pub proof fn lemma_record_error()
    ensures
        forall|walk: &mut Walk, path: Vec<u8>, message: String, progress: &mut Progress| #[trigger]
            call_ensures(Walk::record_error, (walk, path, message, progress), ()) ==> {
                &&& final(progress).errors == progress.errors.wrapping_add(1)
                &&& final(walk)@.counts.errors == walk@.counts.errors.wrapping_add(1)
                &&& final(walk)@.chunks == walk@.chunks
                &&& final(walk)@.counts.files == walk@.counts.files
                &&& walk@.errors.len() < 64 ==> final(walk)@.errors.len() == walk@.errors.len() + 1
            },
{
}

/// A walk ends with the slots, the samples and the counts it has.
pub proof fn lemma_into_parts(
    walk: Walk,
    parts: (Vec<Option<DirChunk>>, Vec<(Vec<u8>, String)>, Progress),
)
    requires
        call_ensures(Walk::into_parts, (walk,), parts),
    ensures
        parts.0@ == walk@.chunks,
        parts.1@ == walk@.errors,
        parts.2 == walk@.counts,
{
}

/// What one item of a folder adds to it: its own size, or what is below it.
pub open spec fn adds(
    disk: spec_fn(Seq<Seq<u8>>) -> Listing,
    max_depth: int,
    place: Seq<Seq<u8>>,
    physical: bool,
) -> spec_fn(int) -> int {
    |k: int|
        {
            let item = disk(place).items[k];
            if item.descends {
                weight(disk, max_depth, place.push(item.name), physical)
            } else if physical {
                item.physical as int
            } else {
                item.logical as int
            }
        }
}

/// A folder that is read weighs what the items in it do, all of them, and what
/// is below them.
pub proof fn lemma_folders_add_up(
    disk: spec_fn(Seq<Seq<u8>>) -> Listing,
    max_depth: int,
    place: Seq<Seq<u8>>,
    physical: bool,
)
    requires
        place.len() < max_depth,
    ensures
        weight(disk, max_depth, place, physical) == sum(
            0,
            disk(place).items.len() as int,
            adds(disk, max_depth, place, physical),
        ),
{
    lemma_folders_add_up_to(disk, max_depth, place, disk(place).items.len() as int, physical);
}

proof fn lemma_folders_add_up_to(
    disk: spec_fn(Seq<Seq<u8>>) -> Listing,
    max_depth: int,
    place: Seq<Seq<u8>>,
    n: int,
    physical: bool,
)
    requires
        place.len() < max_depth,
        0 <= n,
    ensures
        weight_upto(disk, max_depth, place, n, physical) == sum(
            0,
            n,
            adds(disk, max_depth, place, physical),
        ),
    decreases n,
{
    if n > 0 {
        lemma_folders_add_up_to(disk, max_depth, place, n - 1, physical);
    }
}

/// The root of the tree weighs what everything on the disk that the scan gets to
/// adds up to.
pub proof fn lemma_root_weighs_everything(
    walk: WalkView,
    disk: spec_fn(Seq<Seq<u8>>) -> Listing,
    kinds: KindTableView,
    root: Seq<u8>,
    tree: TreeView,
)
    requires
        walk.wf(),
        walk.max_depth > 0,
        shows(walk.chunks, walk.places, disk),
        assembled(walk.chunks, kinds, root, None, tree.nodes, tree.names),
    ensures
        ({
            let top = Seq::<Seq<u8>>::empty();
            let n = disk(top).items.len() as int;
            &&& tree.nodes[0].logical == sum(0, n, adds(disk, walk.max_depth as int, top, false))
            &&& tree.nodes[0].physical == sum(0, n, adds(disk, walk.max_depth as int, top, true))
        }),
{
    lemma_tree_tells_disk(walk, disk, kinds, root, tree);
    let top = Seq::<Seq<u8>>::empty();
    lemma_folders_add_up(disk, walk.max_depth as int, top, false);
    lemma_folders_add_up(disk, walk.max_depth as int, top, true);
    assert(node_fact(tree.nodes, tree.names, 0).logical == weight(
        disk,
        walk.max_depth as int,
        top,
        false,
    ));
}

/// The free space is shown exactly if it is asked for, the root is the volume
/// itself, and it is known how much there is; then all of it is.
pub proof fn lemma_when_free_space_is_shown(opts: ScanOptions, outcome: Outcome)
    ensures
        free_to_add(opts, outcome) is Some <==> opts.include_free_space && outcome.at_volume_root
            && outcome.volume is Some,
        free_to_add(opts, outcome) matches Some(bytes) ==> bytes == (outcome.volume->0).0,
{
}

/// The statistics of a tree say what the scan counted.
pub proof fn lemma_stats_say_what_was_counted(stats: ScanStats, outcome: Outcome)
    requires
        reported(stats, outcome),
    ensures
        stats.files == outcome.progress.files,
        stats.dirs == outcome.progress.dirs,
        stats.symlinks == outcome.progress.symlinks,
        stats.hardlink_dups == outcome.progress.hardlink_dups,
        stats.errors == outcome.progress.errors,
        stats.error_samples == outcome.errors,
        stats.used_fallback == outcome.used_fallback,
        stats.elapsed == outcome.elapsed,
        outcome.volume is Some ==> stats.free_space == Some((outcome.volume->0).0)
            && stats.volume_total == Some((outcome.volume->0).1),
        outcome.volume is None ==> stats.free_space is None && stats.volume_total is None,
{
}

/// A path is a volume of its own if nothing is above it or what is above it lies
/// on another device; not if either cannot be told.
pub proof fn lemma_which_paths_are_volumes(dev: u64, up: u64, above: Above)
    ensures
        is_mount(Some(dev), Above::Nothing),
        is_mount(Some(dev), Above::Device(up)) <==> up != dev,
        !is_mount(Some(dev), Above::Unreadable),
        !is_mount(None, above),
{
}

/// A directory is read once: what a bulk read finished is not read again, what
/// it has begun to emit is never started over, and only a file system that does
/// not know the call is read the other way. An error is otherwise reported.
pub proof fn lemma_no_directory_is_read_twice(outcome: BulkRead, emitted: usize)
    ensures
        next_read(outcome, emitted) == NextRead::Finish <==> outcome == BulkRead::Done,
        next_read(outcome, emitted) == NextRead::Posix <==> outcome == BulkRead::NotTried,
        next_read(outcome, emitted) == NextRead::Fallback <==> outcome == (BulkRead::Failed {
            unsupported: true,
        }) && emitted == 0,
        outcome is Failed && emitted > 0 ==> next_read(outcome, emitted) == NextRead::Fail,
        outcome == (BulkRead::Failed { unsupported: false }) ==> next_read(outcome, emitted)
            == NextRead::Fail,
{
}

/// A directory is read if it stands above the depth to stop at.
pub proof fn lemma_which_directories_are_read(walk: WalkView, s: int)
    ensures
        walk.reads(s) <==> walk.places[s].len() < walk.max_depth as int,
{
}

/// One more directory adds what its task counted, and itself; a failure adds one
/// error, and nothing is ever taken away.
pub proof fn lemma_counts_only_grow(counts: Progress, task: Progress, failed: bool)
    requires
        counts.files + task.files <= u64::MAX,
        counts.dirs < u64::MAX,
        counts.symlinks + task.symlinks <= u64::MAX,
        counts.hardlink_dups + task.hardlink_dups <= u64::MAX,
        counts.bytes + task.bytes <= u64::MAX,
        counts.errors < u64::MAX,
    ensures
        ({
            let after = joined_counts(counts, task, failed);
            &&& after.files == counts.files + task.files
            &&& after.dirs == counts.dirs + 1
            &&& after.symlinks == counts.symlinks + task.symlinks
            &&& after.hardlink_dups == counts.hardlink_dups + task.hardlink_dups
            &&& after.bytes == counts.bytes + task.bytes
            &&& after.errors == if failed {
                counts.errors + 1
            } else {
                counts.errors as int
            }
            &&& one_error(counts).errors == counts.errors + 1
            &&& one_error(counts).files == counts.files
        }),
{
}

/// The first sixty-four errors are kept in full, in the order they came; further
/// ones change nothing.
pub proof fn lemma_first_errors_are_kept(
    before: Seq<(Vec<u8>, String)>,
    after: Seq<(Vec<u8>, String)>,
    path: Seq<u8>,
    message: Seq<char>,
)
    requires
        sampled(before, after, path, message),
    ensures
        before.len() < 64 ==> after.len() == before.len() + 1 && after[before.len() as int].0@
            == path && after[before.len() as int].1@ == message,
        before.len() >= 64 ==> after == before,
        forall|i: int| 0 <= i < before.len() ==> #[trigger] after[i] == before[i],
{
    if before.len() < 64 {
        assert forall|i: int| 0 <= i < before.len() implies #[trigger] after[i] == before[i] by {
            assert(after.take(before.len() as int)[i] == after[i]);
        }
    }
}

} // verus!
