//! The two ways of reading a directory lead to the same scan.
//!
//! A bulk reply and a list of `stat`s that tell the same facts of the same
//! entries come to the same items, counts and subdirectories; and two scans
//! whose directories list the same items make trees that say the same of every
//! entry.

use vstd::prelude::*;

use crate::kinds::{KindTableView, KIND_FREE};
use crate::scan::assemble::{assembled, comes_from, dressed, with_root_name};
use crate::scan::bulk::{
    batch, lemma_batch_in_order, lemma_directory_record, lemma_errored_record, lemma_file_record,
    long, name_at, name_inside, parsed, signed, size_of_signed, word, MIN_RECORD,
    REQUESTED_COMMON, REQUESTED_FILE, VDIR, VLNK, VREG,
};
use crate::scan::chunk::DirChunk;
use crate::scan::collect::{counted, shares_inode};
use crate::scan::counts::{duplicates, entries, files, leading, lemma_all_read, symlinks};
use crate::scan::entry::{undescribed, EntView};
use crate::scan::flatten::{child_ok, first_child, flattened, lemma_origin, lemma_slots};
use crate::scan::links::{claim_of, seen_with};
use crate::scan::listing::{claims_of, counted_all, item_of, items_of, seen_after, Listing};
use crate::scan::options::{Progress, ScanOptions};
use crate::scan::posix::{at_least_zero, described, Stat, S_IFDIR, S_IFLNK, S_IFMT, S_IFREG};
use crate::scan::spare::{facts_with_free, lemma_free_space_facts, root_with_free};
use crate::scan::stats::{lemma_same_flag_count, lemma_stats_count_nodes, passed_over};
use crate::scan::tally::{
    by_flags, count_at, flag_count, flag_count_at, lemma_arena_counts, lemma_counters_steady,
    lemma_flag_count, lemma_nodes_are_entries, node_count, tally,
};
use crate::scan::walk::{lemma_all_met, WalkView};
use crate::scan::whole::{
    arena_facts, disk_facts, lemma_arena_tells_disk, lemma_root_fact, node_fact, root_fact,
    shows, Fact, Flat,
};
use crate::sums::lemma_sum_same;
use crate::tree::arena::lemma_rename;
use crate::tree::{Node, TreeView};

verus! {

/// Whether a bulk object type and a `stat` mode speak of the same type.
pub open spec fn same_type(objtype: u32, mode: u32) -> bool {
    &&& objtype == VDIR <==> mode & S_IFMT == S_IFDIR
    &&& objtype == VLNK <==> mode & S_IFMT == S_IFLNK
    &&& objtype == VREG <==> mode & S_IFMT == S_IFREG
}

/// Whether a file's bulk record tells what `st` does: the type, the device, the
/// inode, the links, the length and what is allocated.
pub open spec fn same_file(rec: Seq<u8>, st: Stat) -> bool {
    &&& same_type(word(rec, 40), st.mode)
    &&& signed(word(rec, 36)) == st.dev
    &&& long(rec, 44) == st.ino
    &&& word(rec, 52) == st.nlink
    &&& size_of_signed(long(rec, 56)) == at_least_zero(st.size)
    &&& size_of_signed(long(rec, 64)) == at_least_zero(st.blocks) * 512
}

/// What asking for the `stat` of an entry gives: an error leaves the inode that
/// the listing gave.
pub enum Told {
    Stat(Stat),
    Fault { ino: u64, error: i32 },
}

/// The entry reported for a name and its `stat`.
pub open spec fn told_entry(name: Seq<u8>, told: Told) -> EntView {
    match told {
        Told::Stat(st) => described(name, st),
        Told::Fault { ino, error } => undescribed(name, ino, error),
    }
}

/// Whether a record of a bulk reply tells of the entry `name` what `told` does.
/// Of a directory a record has neither links nor sizes.
pub open spec fn same_facts(rec: Seq<u8>, name: Seq<u8>, told: Told) -> bool {
    &&& MIN_RECORD <= rec.len()
    &&& word(rec, 0) == rec.len()
    &&& word(rec, 4) == REQUESTED_COMMON
    &&& name_inside(rec, 28)
    &&& name_at(rec, 28) == name
    &&& match told {
        Told::Stat(st) => {
            &&& word(rec, 24) == 0
            &&& if st.mode & S_IFMT == S_IFDIR {
                &&& 52 <= rec.len()
                &&& word(rec, 16) == 0
                &&& word(rec, 40) == VDIR
                &&& signed(word(rec, 36)) == st.dev
            } else {
                &&& 72 <= rec.len()
                &&& word(rec, 16) == REQUESTED_FILE
                &&& same_file(rec, st)
            }
        },
        Told::Fault { error, .. } => 36 <= rec.len() && word(rec, 24) != 0 && error != 0,
    }
}

/// Whether two entries are the same as far as anything is kept of them: of
/// what could not be described only the name, of a directory only the name and
/// the device.
pub open spec fn alike(a: EntView, b: EntView) -> bool {
    &&& a.name == b.name
    &&& a.error == 0 <==> b.error == 0
    &&& a.error == 0 ==> {
        &&& a.is_dir == b.is_dir
        &&& a.is_dir ==> a.dev == b.dev
        &&& !a.is_dir ==> a == b
    }
}

/// A record and a `stat` that tell the same facts give entries that are alike.
pub proof fn lemma_entries_agree(rec: Seq<u8>, name: Seq<u8>, told: Told)
    requires
        same_facts(rec, name, told),
    ensures
        parsed(rec) is Ok,
        alike(parsed(rec)->Ok_0, told_entry(name, told)),
{
    match told {
        Told::Stat(st) => {
            if st.mode & S_IFMT == S_IFDIR {
                lemma_directories_agree(rec, name, st);
            } else {
                lemma_files_agree(rec, name, st);
            }
        },
        Told::Fault { ino, error } => {
            lemma_errored_record(rec);
            assert(signed(word(rec, 24)) as i32 != 0);
        },
    }
}

proof fn lemma_files_agree(rec: Seq<u8>, name: Seq<u8>, st: Stat)
    requires
        same_facts(rec, name, Told::Stat(st)),
        st.mode & S_IFMT != S_IFDIR,
    ensures
        parsed(rec) is Ok,
        alike(parsed(rec)->Ok_0, described(name, st)),
{
    lemma_file_record(rec);
}

proof fn lemma_directories_agree(rec: Seq<u8>, name: Seq<u8>, st: Stat)
    requires
        same_facts(rec, name, Told::Stat(st)),
        st.mode & S_IFMT == S_IFDIR,
    ensures
        parsed(rec) is Ok,
        alike(parsed(rec)->Ok_0, described(name, st)),
{
    lemma_directory_record(rec);
}

/// Entries that are alike are treated alike.
proof fn lemma_alike(
    opts: ScanOptions,
    kinds: KindTableView,
    root_dev: i64,
    a: EntView,
    b: EntView,
    claimed: Option<bool>,
    depth: u8,
    progress: Progress,
    seen: Set<(i64, u64)>,
)
    requires
        alike(a, b),
    ensures
        item_of(opts, kinds, root_dev, a, claimed, depth) == item_of(
            opts,
            kinds,
            root_dev,
            b,
            claimed,
            depth,
        ),
        counted(progress, opts, a, claimed) == counted(progress, opts, b, claimed),
        claim_of(opts, a, seen) == claim_of(opts, b, seen),
        seen_with(opts, a, seen) == seen_with(opts, b, seen),
{
    if a.error == 0 && !a.is_dir {
        assert(a == b);
    } else {
        assert(!shares_inode(opts, a) && !shares_inode(opts, b));
    }
}

/// Whether two lists hold entries that are alike, in the same order.
pub open spec fn all_alike(a: Seq<EntView>, b: Seq<EntView>) -> bool {
    a.len() == b.len() && forall|k: int| 0 <= k < a.len() ==> alike(#[trigger] a[k], b[k])
}

proof fn lemma_seen_alike(
    opts: ScanOptions,
    a: Seq<EntView>,
    b: Seq<EntView>,
    seen: Set<(i64, u64)>,
)
    requires
        all_alike(a, b),
    ensures
        seen_after(opts, a, seen) == seen_after(opts, b, seen),
    decreases a.len(),
{
    if a.len() > 0 {
        let last = a.len() - 1;
        let (c, d) = (a.drop_last(), b.drop_last());
        assert forall|k: int| 0 <= k < c.len() implies alike(#[trigger] c[k], d[k]) by {
            assert(alike(a[k], b[k]));
        }
        lemma_seen_alike(opts, c, d, seen);
        assert(alike(a[last], b[last]));
        if a[last].error == 0 && !a[last].is_dir {
            assert(a[last] == b[last]);
        }
    }
}

proof fn lemma_counts_alike(
    progress: Progress,
    opts: ScanOptions,
    a: Seq<EntView>,
    b: Seq<EntView>,
    claims: Seq<Option<bool>>,
)
    requires
        all_alike(a, b),
        claims.len() == a.len(),
    ensures
        counted_all(progress, opts, a, claims) == counted_all(progress, opts, b, claims),
    decreases a.len(),
{
    if a.len() > 0 {
        let last = a.len() - 1;
        let (c, d) = (a.drop_last(), b.drop_last());
        assert forall|k: int| 0 <= k < c.len() implies alike(#[trigger] c[k], d[k]) by {
            assert(alike(a[k], b[k]));
        }
        lemma_counts_alike(progress, opts, c, d, claims.drop_last());
        assert(alike(a[last], b[last]));
        if a[last].error == 0 && !a[last].is_dir {
            assert(a[last] == b[last]);
        }
    }
}

/// Lists of entries that are alike come to the same items, the same counts and
/// the same claimed inodes.
pub proof fn lemma_listings_agree(
    opts: ScanOptions,
    kinds: KindTableView,
    root_dev: i64,
    a: Seq<EntView>,
    b: Seq<EntView>,
    depth: u8,
    progress: Progress,
    seen: Set<(i64, u64)>,
)
    requires
        all_alike(a, b),
    ensures
        claims_of(opts, a, seen) == claims_of(opts, b, seen),
        seen_after(opts, a, seen) == seen_after(opts, b, seen),
        ({
            let claims = claims_of(opts, a, seen);
            &&& items_of(opts, kinds, root_dev, a, claims, depth) == items_of(
                opts,
                kinds,
                root_dev,
                b,
                claims,
                depth,
            )
            &&& counted_all(progress, opts, a, claims) == counted_all(progress, opts, b, claims)
        }),
{
    let claims = claims_of(opts, a, seen);
    assert forall|k: int| 0 <= k < a.len() implies #[trigger] claims[k] == claims_of(
        opts,
        b,
        seen,
    )[k] && item_of(opts, kinds, root_dev, a[k], claims[k], depth) == item_of(
        opts,
        kinds,
        root_dev,
        b[k],
        claims[k],
        depth,
    ) by {
        assert(alike(a[k], b[k]));
        let (c, d) = (a.take(k), b.take(k));
        assert forall|h: int| 0 <= h < c.len() implies alike(#[trigger] c[h], d[h]) by {
            assert(alike(a[h], b[h]));
        }
        lemma_seen_alike(opts, c, d, seen);
        let before = seen_after(opts, c, seen);
        lemma_alike(opts, kinds, root_dev, a[k], b[k], claims[k], depth, progress, before);
    }
    assert(claims =~= claims_of(opts, b, seen));
    assert forall|k: int| 0 <= k < a.len() implies #[trigger] items_of(
        opts,
        kinds,
        root_dev,
        a,
        claims,
        depth,
    )[k] == items_of(opts, kinds, root_dev, b, claims, depth)[k] by {
        assert(claims[k] == claims_of(opts, b, seen)[k]);
    }
    assert(items_of(opts, kinds, root_dev, a, claims, depth) =~= items_of(
        opts,
        kinds,
        root_dev,
        b,
        claims,
        depth,
    ));
    lemma_seen_alike(opts, a, b, seen);
    lemma_counts_alike(progress, opts, a, b, claims);
}

/// The bytes of a bulk reply: its records one after another.
pub open spec fn reply(recs: Seq<Seq<u8>>) -> Seq<u8>
    decreases recs.len(),
{
    if recs.len() == 0 {
        Seq::empty()
    } else {
        recs[0] + reply(recs.drop_first())
    }
}

/// The entries reported for a list of names and their `stat`s.
pub open spec fn told_entries(names: Seq<Seq<u8>>, told: Seq<Told>) -> Seq<EntView> {
    Seq::new(names.len(), |k: int| told_entry(names[k], told[k]))
}

/// Whether a bulk reply tells of the entries `names` what `told` does.
pub open spec fn same_reply(recs: Seq<Seq<u8>>, names: Seq<Seq<u8>>, told: Seq<Told>) -> bool {
    &&& recs.len() == names.len()
    &&& recs.len() == told.len()
    &&& forall|k: int| 0 <= k < recs.len() ==> same_facts(#[trigger] recs[k], names[k], told[k])
}

proof fn lemma_reply_entries(recs: Seq<Seq<u8>>, names: Seq<Seq<u8>>, told: Seq<Told>)
    requires
        same_reply(recs, names, told),
    ensures
        batch(reply(recs), 0, recs.len()).1 is None,
        all_alike(batch(reply(recs), 0, recs.len()).0, told_entries(names, told)),
    decreases recs.len(),
{
    if recs.len() > 0 {
        let rest = recs.drop_first();
        let (n, t) = (names.drop_first(), told.drop_first());
        assert forall|k: int| 0 <= k < rest.len() implies same_facts(
            #[trigger] rest[k],
            n[k],
            t[k],
        ) by {
            assert(same_facts(recs[k + 1], names[k + 1], told[k + 1]));
        }
        lemma_reply_entries(rest, n, t);
        assert(same_facts(recs[0], names[0], told[0]));
        lemma_entries_agree(recs[0], names[0], told[0]);
        let first = parsed(recs[0])->Ok_0;
        lemma_batch_in_order(recs[0], reply(rest), first, rest.len());
        let bulk = batch(reply(recs), 0, recs.len()).0;
        let below = batch(reply(rest), 0, rest.len()).0;
        let all = told_entries(names, told);
        assert(bulk == seq![first] + below);
        assert forall|k: int| 0 <= k < bulk.len() implies alike(#[trigger] bulk[k], all[k]) by {
            if k > 0 {
                assert(alike(below[k - 1], told_entries(n, t)[k - 1]));
            }
        }
    }
}

/// A whole bulk reply and a list of `stat`s that tell the same facts are read
/// without a fault and come to the same items (so to the same subdirectories),
/// the same counts and the same claimed inodes.
pub proof fn lemma_readers_agree(
    opts: ScanOptions,
    kinds: KindTableView,
    root_dev: i64,
    recs: Seq<Seq<u8>>,
    names: Seq<Seq<u8>>,
    told: Seq<Told>,
    depth: u8,
    progress: Progress,
    seen: Set<(i64, u64)>,
)
    requires
        same_reply(recs, names, told),
    ensures
        ({
            let (bulk, fault) = batch(reply(recs), 0, recs.len());
            let posix = told_entries(names, told);
            let claims = claims_of(opts, bulk, seen);
            &&& fault is None
            &&& claims == claims_of(opts, posix, seen)
            &&& seen_after(opts, bulk, seen) == seen_after(opts, posix, seen)
            &&& items_of(opts, kinds, root_dev, bulk, claims, depth) == items_of(
                opts,
                kinds,
                root_dev,
                posix,
                claims,
                depth,
            )
            &&& counted_all(progress, opts, bulk, claims) == counted_all(
                progress,
                opts,
                posix,
                claims,
            )
        }),
{
    lemma_reply_entries(recs, names, told);
    let bulk = batch(reply(recs), 0, recs.len()).0;
    lemma_listings_agree(
        opts,
        kinds,
        root_dev,
        bulk,
        told_entries(names, told),
        depth,
        progress,
        seen,
    );
}

/// Everything a tree says of its entries.
pub open spec fn tree_facts(tree: TreeView) -> Set<Fact> {
    arena_facts(tree.nodes, tree.names)
}

/// Naming the root changes nothing that is said of any node.
proof fn lemma_named_facts(
    nodes: Seq<Node>,
    names: Seq<u8>,
    title: Seq<u8>,
    named: Seq<Node>,
    i: int,
)
    requires
        0 <= i < nodes.len(),
        forall|c: int|
            0 < c < nodes.len() ==> (#[trigger] nodes[c]).name_off + nodes[c].name_len
                <= names.len(),
        named == with_root_name(nodes, names.len() as int, title),
    ensures
        node_fact(named, names + title, i) == node_fact(nodes, names, i),
    decreases i,
{
    let all = names + title;
    if i > 0 {
        let n = nodes[i];
        assert(named[i] == n);
        assert(n.name_off + n.name_len <= names.len());
        assert(all.subrange(n.name_off as int, n.name_off + n.name_len) == names.subrange(
            n.name_off as int,
            n.name_off + n.name_len,
        ));
        if n.parent < i {
            lemma_named_facts(nodes, names, title, named, n.parent as int);
        }
    }
}

/// The tree of a scan, without a free-space node, says of its entries
/// what the listings of the directories do, no more and no less, in whatever
/// order they were read.
pub proof fn lemma_tree_tells_disk(
    walk: WalkView,
    disk: spec_fn(Seq<Seq<u8>>) -> Listing,
    kinds: KindTableView,
    root: Seq<u8>,
    tree: TreeView,
)
    requires
        walk.wf(),
        shows(walk.chunks, walk.places, disk),
        assembled(walk.chunks, kinds, root, None, tree.nodes, tree.names),
    ensures
        tree_facts(tree) == disk_facts(disk, walk.max_depth as int),
        node_fact(tree.nodes, tree.names, 0) == root_fact(disk, walk.max_depth as int),
{
    let chunks = walk.chunks;
    let (nodes, names) = choose|nodes: Seq<Node>, names: Seq<u8>| #[trigger]
        comes_from(chunks, kinds, nodes, names) && dressed(
            nodes,
            names,
            root,
            None,
            tree.nodes,
            tree.names,
        );
    let (raw, slots) = choose|raw: Seq<Node>, slots: Seq<u32>| #[trigger]
        flattened(chunks, kinds, nodes, names, raw, slots);
    lemma_slots(chunks, raw, names, slots);
    let f = Flat {
        chunks,
        places: walk.places,
        max_depth: walk.max_depth as int,
        raw,
        slots,
        names,
        nodes,
        kinds,
    };
    lemma_arena_tells_disk(f, disk);
    lemma_root_fact(f, disk);
    let title = crate::paths::shown_name(root);
    let n = raw.len() as int;
    assert forall|c: int| 0 < c < nodes.len() implies (#[trigger] nodes[c]).name_off
        + nodes[c].name_len <= names.len() by {
        let p = lemma_origin(chunks, slots, n, c);
        assert(child_ok(chunks, raw, names, slots, n, p, c - first_child(chunks, slots, p)));
        assert(nodes[c].name_off == raw[c].name_off && nodes[c].name_len == raw[c].name_len);
    }
    assert forall|i: int| 0 <= i < nodes.len() implies #[trigger] node_fact(
        tree.nodes,
        tree.names,
        i,
    ) == node_fact(nodes, names, i) by {
        lemma_named_facts(nodes, names, title, tree.nodes, i);
    }
    assert forall|fact: Fact| tree_facts(tree).contains(fact) <==> arena_facts(
        nodes,
        names,
    ).contains(fact) by {
        if tree_facts(tree).contains(fact) {
            let i = choose|i: int|
                0 <= i < tree.nodes.len() && fact == #[trigger] node_fact(
                    tree.nodes,
                    tree.names,
                    i,
                );
            assert(fact == node_fact(nodes, names, i));
        }
        if arena_facts(nodes, names).contains(fact) {
            let i = choose|i: int|
                0 <= i < nodes.len() && fact == #[trigger] node_fact(nodes, names, i);
            assert(fact == node_fact(tree.nodes, tree.names, i));
        }
    }
    assert(tree_facts(tree) =~= arena_facts(nodes, names));
    assert(node_fact(tree.nodes, tree.names, 0) == node_fact(nodes, names, 0));
}

/// The tree of a scan, without a free-space node, holds as many entries
/// of each sort as the listings of the directories call for, and the walk as
/// many slots.
pub proof fn lemma_tree_counts_disk(
    walk: WalkView,
    disk: spec_fn(Seq<Seq<u8>>) -> Listing,
    kinds: KindTableView,
    root: Seq<u8>,
    tree: TreeView,
    worth: spec_fn(u8, bool) -> int,
)
    requires
        walk.wf(),
        shows(walk.chunks, walk.places, disk),
        assembled(walk.chunks, kinds, root, None, tree.nodes, tree.names),
        by_flags(worth),
    ensures
        flag_count(tree.nodes, worth) == worth(root_fact(disk, walk.max_depth as int).flags, true)
            + tally(disk, walk.max_depth as int, Seq::empty(), worth),
        walk.chunks.len() == 1 + tally(disk, walk.max_depth as int, Seq::empty(), leading()),
{
    let chunks = walk.chunks;
    let (nodes, names) = choose|nodes: Seq<Node>, names: Seq<u8>| #[trigger]
        comes_from(chunks, kinds, nodes, names) && dressed(
            nodes,
            names,
            root,
            None,
            tree.nodes,
            tree.names,
        );
    let (raw, slots) = choose|raw: Seq<Node>, slots: Seq<u32>| #[trigger]
        flattened(chunks, kinds, nodes, names, raw, slots);
    lemma_slots(chunks, raw, names, slots);
    let f = Flat {
        chunks,
        places: walk.places,
        max_depth: walk.max_depth as int,
        raw,
        slots,
        names,
        nodes,
        kinds,
    };
    lemma_arena_counts(f, disk, worth);
    lemma_same_flag_count(tree.nodes, nodes, worth);
    lemma_flag_count(nodes, slots, worth);
    lemma_arena_counts(f, disk, leading());
    lemma_counters_steady();
    lemma_all_met(chunks, raw, names, slots);
    lemma_nodes_are_entries(chunks, raw, names, slots, leading());
    assert(node_count(nodes, slots, leading()) == node_count(raw, slots, leading())) by {
        lemma_sum_same(
            0,
            nodes.len() as int,
            count_at(nodes, slots, leading()),
            count_at(raw, slots, leading()),
        );
    }
}

/// Whether the statistics of a tree are the counts of a walk.
pub open spec fn reports(tree: TreeView, walk: WalkView) -> bool {
    &&& tree.stats.files == walk.counts.files
    &&& tree.stats.dirs == walk.counts.dirs
    &&& tree.stats.symlinks == walk.counts.symlinks
    &&& tree.stats.hardlink_dups == walk.counts.hardlink_dups
}

/// Whether every directory that a walk queued was read.
pub open spec fn all_read(walk: WalkView) -> bool {
    forall|s: int| 0 <= s < walk.read.len() ==> #[trigger] walk.read[s]
}

/// Two scans whose directories list the same items, however they were read and
/// in whatever order, make trees that say the same of every entry and hold as
/// many, with roots that weigh the same; and the counts they report agree, of
/// the directories but for those that were skipped or refused.
pub proof fn lemma_scans_agree(
    a: WalkView,
    b: WalkView,
    disk: spec_fn(Seq<Seq<u8>>) -> Listing,
    kinds: KindTableView,
    root: Seq<u8>,
    free: Option<u64>,
    tree_a: TreeView,
    tree_b: TreeView,
)
    requires
        a.wf(),
        b.wf(),
        shows(a.chunks, a.places, disk),
        shows(b.chunks, b.places, disk),
        a.max_depth == b.max_depth,
        assembled(a.chunks, kinds, root, free, tree_a.nodes, tree_a.names),
        assembled(b.chunks, kinds, root, free, tree_b.nodes, tree_b.names),
        indexed(tree_a),
        indexed(tree_b),
        reports(tree_a, a),
        reports(tree_b, b),
    ensures
        tree_facts(tree_a) == tree_facts(tree_b),
        tree_a.nodes.len() == tree_b.nodes.len(),
        tree_a.nodes[0].physical == tree_b.nodes[0].physical,
        tree_a.nodes[0].logical == tree_b.nodes[0].logical,
        tree_a.stats.files == tree_b.stats.files,
        tree_a.stats.dirs + passed_over(a.read) == tree_b.stats.dirs + passed_over(b.read),
        all_read(a) && all_read(b) ==> tree_a.stats.dirs == tree_b.stats.dirs,
        tree_a.stats.symlinks == tree_b.stats.symlinks,
        tree_a.stats.hardlink_dups == tree_b.stats.hardlink_dups,
{
    let bare_a = lemma_bare(a.chunks, kinds, root, free, tree_a);
    let bare_b = lemma_bare(b.chunks, kinds, root, free, tree_b);
    lemma_tree_tells_disk(a, disk, kinds, root, bare_a);
    lemma_tree_tells_disk(b, disk, kinds, root, bare_b);
    lemma_counts_of_disk(a, disk, kinds, root, bare_a);
    lemma_counts_of_disk(b, disk, kinds, root, bare_b);
    assert(node_fact(tree_a.nodes, tree_a.names, 0) == node_fact(tree_b.nodes, tree_b.names, 0));
    if all_read(a) && all_read(b) {
        lemma_all_read(a.read);
        lemma_all_read(b.read);
    }
}

/// Whether the nodes and names of a tree can be indexed by 32 bits.
pub open spec fn indexed(tree: TreeView) -> bool {
    tree.nodes.len() <= u32::MAX && tree.names.len() <= u32::MAX
}

/// A tree before the free space was put in, and what it says then.
proof fn lemma_bare(
    chunks: Seq<Option<DirChunk>>,
    kinds: KindTableView,
    root: Seq<u8>,
    free: Option<u64>,
    tree: TreeView,
) -> (bare: TreeView)
    requires
        assembled(chunks, kinds, root, free, tree.nodes, tree.names),
        indexed(tree),
    ensures
        assembled(chunks, kinds, root, None, bare.nodes, bare.names),
        bare.nodes.len() <= u32::MAX,
        match free {
            None => bare == tree,
            Some(bytes) => {
                let top = node_fact(bare.nodes, bare.names, 0);
                &&& tree.nodes.len() == bare.nodes.len() + 1
                &&& node_fact(tree.nodes, tree.names, 0) == root_with_free(top, bytes)
                &&& tree_facts(tree) == facts_with_free(top, tree_facts(bare), bytes)
            },
        },
{
    let (nodes, names) = choose|nodes: Seq<Node>, names: Seq<u8>| #[trigger]
        comes_from(chunks, kinds, nodes, names) && dressed(
            nodes,
            names,
            root,
            free,
            tree.nodes,
            tree.names,
        );
    let title = crate::paths::shown_name(root);
    let called = with_root_name(nodes, names.len() as int, title);
    let bare = TreeView { nodes: called, names: names + title, ..tree };
    assert(dressed(nodes, names, root, None, bare.nodes, bare.names));
    if let Some(bytes) = free {
        lemma_rename(nodes, called, 0);
        assert forall|c: int| 0 < c < called.len() implies (#[trigger] called[c]).name_off
            + called[c].name_len <= bare.names.len() by {
            assert(called[c] == nodes[c]);
        }
        lemma_free_space_facts(
            bare.nodes,
            bare.names,
            bytes,
            KIND_FREE,
            tree.nodes,
            tree.names,
        );
        bare
    } else {
        tree
    }
}

/// What a scan counts, by what the directories list.
proof fn lemma_counts_of_disk(
    walk: WalkView,
    disk: spec_fn(Seq<Seq<u8>>) -> Listing,
    kinds: KindTableView,
    root: Seq<u8>,
    tree: TreeView,
)
    requires
        walk.wf(),
        shows(walk.chunks, walk.places, disk),
        assembled(walk.chunks, kinds, root, None, tree.nodes, tree.names),
        tree.nodes.len() <= u32::MAX,
    ensures
        ({
            let max = walk.max_depth as int;
            let top = root_fact(disk, max).flags;
            let none = Seq::<Seq<u8>>::empty();
            &&& tree.nodes.len() == 1 + tally(disk, max, none, entries())
            &&& walk.counts.files == files()(top, true) + tally(disk, max, none, files())
            &&& walk.counts.symlinks == symlinks()(top, true) + tally(disk, max, none, symlinks())
            &&& walk.counts.hardlink_dups == duplicates()(top, true) + tally(
                disk,
                max,
                none,
                duplicates(),
            )
            &&& walk.counts.dirs + passed_over(walk.read) == 1 + tally(disk, max, none, leading())
        }),
{
    lemma_tree_counts_disk(walk, disk, kinds, root, tree, entries());
    lemma_tree_counts_disk(walk, disk, kinds, root, tree, files());
    lemma_tree_counts_disk(walk, disk, kinds, root, tree, symlinks());
    lemma_tree_counts_disk(walk, disk, kinds, root, tree, duplicates());
    lemma_stats_count_nodes(
        walk.chunks,
        walk.read,
        walk.counts,
        kinds,
        root,
        None,
        tree.nodes,
        tree.names,
    );
    lemma_ones(tree.nodes);
}

/// Counting every node gives how many there are.
proof fn lemma_ones(nodes: Seq<Node>)
    ensures
        flag_count(nodes, entries()) == nodes.len(),
{
    let n = nodes.len() as int;
    let each = crate::summary::subtree::each();
    lemma_sum_same(0, n, flag_count_at(nodes, entries()), each);
    crate::summary::subtree::lemma_sum_ones(n);
}

} // verus!
