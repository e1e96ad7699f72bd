//! What the calls of the scan give back.
//!
//! Each law speaks of any call of a function and of what the call returned or
//! left behind.

use vstd::prelude::*;

use crate::fmt::{bytes, bytes_text, count, count_text, files, percent, percent_text, rate};
use crate::kinds::{ext_key, extension, KindTable};
use crate::paths::joined;
use crate::scan::assemble::{
    enumerate, is_volume_root, single_file_tree, volume_space, Above, BulkRead, NextRead,
};
use crate::scan::bulk::{is_unsupported, reply, BulkError, NotSupported, Reply};
use crate::scan::chunk::DirChunk;
use crate::scan::collect::{collect, needs_claim, shard_to_ask, Subdir};
use crate::scan::entry::{entry_from_error, Ent};
use crate::scan::links::{shard_of, LinkSet};
use crate::scan::options::{Progress, ScanOptions};
use crate::scan::posix::{ended_badly, entry_from_stat, is_dot_entry, Stat};
use crate::scan::walk::{root_task, Task};
use crate::tree::flags;
use crate::tree::{make_node, Node, NodeId, Tree};

verus! {

/// Collecting an entry appends one entry with its name, weight and marks, queues
/// it if it is a folder to go on below, and counts it.
pub proof fn lemma_collect()
    ensures
        forall|
            opts: &ScanOptions,
            kinds: &KindTable,
            root_dev: i64,
            chunk: &mut DirChunk,
            subdirs: &mut Vec<Subdir>,
            progress: &mut Progress,
            ent: &Ent,
            depth: u8,
            claimed: Option<bool>,
        | #[trigger]
            call_ensures(
                collect,
                (opts, kinds, root_dev, chunk, subdirs, progress, ent, depth, claimed),
                (),
            ) ==> {
                let enters = ent.error == 0 && ent.is_dir && (ent.dev == root_dev || ent.dev == 0
                    || opts.cross_mounts) && depth + 1 < opts.max_depth;
                let again = opts.dedupe_hardlinks && ent.is_regular && ent.nlink > 1 && claimed
                    == Some(false);
                let weighs = ent.error == 0 && !ent.is_dir && !again;
                let n = chunk.entries@.len() as int;
                let e = final(chunk).entries@[n];
                &&& final(chunk).entries@.len() == n + 1
                &&& e.logical == if weighs {
                    ent.logical
                } else {
                    0
                }
                &&& e.physical == if weighs {
                    ent.physical
                } else {
                    0
                }
                &&& ent.name@.len() <= 65535 ==> final(chunk).names@ == chunk.names@ + ent.name@
                    && e.name_len == ent.name@.len()
                &&& enters ==> final(subdirs)@.len() == subdirs@.len() + 1
                    && final(subdirs)@.last().index == n
                &&& enters && ent.name@.len() <= 65535 ==> final(subdirs)@.last().name@ == ent.name@
                &&& !enters ==> final(subdirs)@ == subdirs@
                &&& (ent.error != 0 || ent.is_dir) ==> *final(progress) == *progress
                &&& ent.error == 0 && !ent.is_dir ==> final(progress).files
                    == progress.files.wrapping_add(1)
            },
{
}

/// Only a link to an inode that has others is claimed, in the shard of its
/// number.
pub proof fn lemma_claims(opts: &ScanOptions, ent: &Ent, shard: Option<usize>, needed: bool)
    requires
        call_ensures(shard_to_ask, (opts, ent), shard),
        call_ensures(needs_claim, (opts, ent), needed),
    ensures
        needed <==> ent.error == 0 && !ent.is_dir && opts.dedupe_hardlinks && ent.nlink > 1
            && ent.is_regular,
        needed ==> shard == Some((ent.ino % 64) as usize),
        !needed ==> shard is None,
{
}

/// The first claim of an inode of a device is the first, and every further one
/// is not; claims of others change nothing about it.
pub proof fn lemma_claim_inode()
    ensures
        forall|set: &mut LinkSet, dev: i64, ino: u64, first: bool| #[trigger]
            call_ensures(LinkSet::claim_inode, (set, dev, ino), first) ==> {
                &&& first <==> !set@.contains((dev, ino))
                &&& final(set)@.contains((dev, ino))
                &&& forall|link: (i64, u64)|
                    link != (dev, ino) ==> (#[trigger] final(set)@.contains(link)
                        <==> set@.contains(link))
            },
{
}

/// An inode belongs to the shard of its last six bits.
pub proof fn lemma_shard(ino: u64, shard: usize)
    requires
        call_ensures(shard_of, (ino,), shard),
    ensures
        shard == ino % 64,
{
}

/// A `stat` becomes an entry that says the same.
pub proof fn lemma_entry_from_stat(name: &[u8], st: &Stat, ent: Ent)
    requires
        call_ensures(entry_from_stat, (name, st), ent),
        0 <= st.size,
        0 <= st.blocks * 512 <= u64::MAX,
        st.nlink < 0x1_0000_0000,
    ensures
        ent.name@ == name@,
        ent.logical == st.size,
        ent.physical == st.blocks * 512,
        ent.dev == st.dev,
        ent.ino == st.ino,
        ent.nlink == st.nlink,
        ent.error == 0,
        ent.is_dir <==> st.mode & 0o170000 == 0o040000,
        ent.is_symlink <==> st.mode & 0o170000 == 0o120000,
        ent.is_regular <==> st.mode & 0o170000 == 0o100000,
{
    assert(ent@.name == name@);
    assert(ent@.error == 0);
}

/// An entry that could not be described keeps its name, its inode and the error,
/// and is nothing in particular.
pub proof fn lemma_entry_from_error(name: &[u8], ino: u64, error: i32, ent: Ent)
    requires
        call_ensures(entry_from_error, (name, ino, error), ent),
    ensures
        ent.name@ == name@,
        ent.ino == ino,
        ent.error == error,
        !ent.is_dir && !ent.is_symlink && !ent.is_regular,
        ent.logical == 0 && ent.physical == 0,
{
    assert(ent@.name == name@);
    assert(ent@.error == error);
}

/// `.` and `..` are skipped, and no other name is: not even one that starts with
/// a dot.
pub proof fn lemma_dot_entries(name: &[u8], dots: bool)
    requires
        call_ensures(is_dot_entry, (name,), dots),
    ensures
        dots <==> (name@.len() == 1 && name@[0] == 0x2e) || (name@.len() == 2 && name@[0] == 0x2e
            && name@[1] == 0x2e),
{
    if name@.len() == 1 && name@[0] == 0x2e {
        assert(name@ == seq![0x2eu8]);
    }
    if name@.len() == 2 && name@[0] == 0x2e && name@[1] == 0x2e {
        assert(name@ == seq![0x2eu8, 0x2eu8]);
    }
}

/// A listing ends well if there is no error, or one of number zero.
pub proof fn lemma_ended_badly(code: Option<i32>, bad: bool)
    requires
        call_ensures(ended_badly, (code,), bad),
    ensures
        bad <==> code is Some && code != Some(0i32),
{
}

/// A negative count is a failure, zero the end, and any other as many records.
pub proof fn lemma_reply(n: i32, said: Reply)
    requires
        call_ensures(reply, (n,), said),
    ensures
        n < 0 <==> said == Reply::Failed,
        n == 0 <==> said == Reply::End,
        n > 0 ==> said == Reply::Records(n as usize),
{
}

/// A reply that makes no sense, and the four codes for what is not there, send
/// the scan to the other reader; every other error is an error.
pub proof fn lemma_unsupported(e: &BulkError, codes: &NotSupported, unsupported: bool)
    requires
        call_ensures(is_unsupported, (e, codes), unsupported),
    ensures
        e is Reply ==> unsupported,
        e matches BulkError::Os(code) ==> (unsupported <==> code == codes.einval || code
            == codes.enotsup || code == codes.eopnotsupp || code == codes.enosys),
{
}

/// After a bulk read that worked nothing is read again; after one that was not
/// tried, or that the file system does not know, the entries are read one by
/// one; after any other failure, or once anything was emitted, it is reported.
pub proof fn lemma_enumerate(outcome: BulkRead, emitted: usize, next: NextRead)
    requires
        call_ensures(enumerate, (outcome, emitted), next),
    ensures
        outcome is Done ==> next == NextRead::Finish,
        outcome is NotTried ==> next == NextRead::Posix,
        outcome == (BulkRead::Failed { unsupported: true }) && emitted == 0 ==> next
            == NextRead::Fallback,
        outcome == (BulkRead::Failed { unsupported: true }) && emitted > 0 ==> next
            == NextRead::Fail,
        outcome == (BulkRead::Failed { unsupported: false }) ==> next == NextRead::Fail,
{
}

/// Whether a path is a volume is told by the devices of it and of what is above
/// it.
pub proof fn lemma_is_volume_root(dev: u64, up: u64, mount: bool)
    requires
        call_ensures(is_volume_root, (Some(dev), Above::Device(up)), mount),
    ensures
        mount <==> dev != up,
{
}

/// A volume has as many bytes as its blocks hold.
pub proof fn lemma_volume_space(block: u64, available: u64, total: u64, space: (u64, u64))
    requires
        call_ensures(volume_space, (block, available, total), space),
    ensures
        space.0 == available * block,
        space.1 == total * block,
{
}

/// A scan of a file is that one file: its length, its blocks and its kind.
pub proof fn lemma_single_file(
    path: Vec<u8>,
    is_symlink: bool,
    len: u64,
    blocks: u64,
    kinds: &KindTable,
    elapsed: u128,
    tree: Tree,
)
    requires
        blocks * 512 <= u64::MAX,
        call_ensures(single_file_tree, (path, is_symlink, len, blocks, kinds, elapsed), tree),
    ensures
        tree@.nodes.len() == 1,
        tree@.nodes[0].logical == len,
        tree@.nodes[0].physical == blocks * 512,
        tree@.nodes[0].child_len == 0,
        tree@.nodes[0].flags == if is_symlink {
            2u8
        } else {
            0
        },
        tree@.root_path == path@,
        tree@.stats.files == 1,
        tree@.stats.dirs == 0,
        tree@.stats.errors == 0,
        tree@.stats.elapsed == elapsed,
{
}

/// A scan starts at the root, at depth zero.
pub proof fn lemma_root_task(path: Vec<u8>, task: Task)
    requires
        call_ensures(root_task, (path,), task),
    ensures
        task.name == path,
        task.slot == 0,
        task.depth == 0,
{
}

/// By default a scan stays on its volume, counts links once, knows bundles, goes
/// as deep as it gets, and shows the free space.
pub proof fn lemma_default_options(opts: ScanOptions)
    requires
        call_ensures(<ScanOptions as Default>::default, (), opts),
    ensures
        !opts.cross_mounts,
        opts.dedupe_hardlinks,
        opts.detect_packages,
        opts.max_depth == 255,
        opts.prefer_bulk,
        opts.include_free_space,
{
}

/// Entries are files and directories.
pub proof fn lemma_entries(progress: &Progress, n: u64)
    requires
        call_ensures(Progress::entries, (progress,), n),
    ensures
        n == progress.files + progress.dirs,
{
}

/// Cancelling is noticed and changes no count.
pub proof fn lemma_cancel()
    ensures
        forall|progress: &mut Progress| #[trigger]
            call_ensures(Progress::cancel, (progress,), ()) ==> {
                &&& final(progress).cancel
                &&& final(progress).files == progress.files
                &&& final(progress).bytes == progress.bytes
            },
        forall|progress: &Progress, cancelled: bool| #[trigger]
            call_ensures(Progress::is_cancelled, (progress,), cancelled) ==> cancelled
                == progress.cancel,
{
}

/// The size of a node is its blocks on disk or its length, as asked for.
pub proof fn lemma_tree_size(tree: &Tree, id: NodeId, on_disk: u64, apparent: u64)
    requires
        call_ensures(Tree::size, (tree, id, true), on_disk),
        call_ensures(Tree::size, (tree, id, false), apparent),
    ensures
        on_disk == tree@.nodes[id as int].physical,
        apparent == tree@.nodes[id as int].logical,
{
}

/// A node is what its flags say.
pub proof fn lemma_flags(node: &Node, flag: u8, set: bool, dir: bool)
    requires
        call_ensures(Node::has, (node, flag), set),
        call_ensures(Node::is_dir, (node,), dir),
    ensures
        set <==> node.flags & flag != 0,
        dir <==> node.flags & flags::DIR != 0,
{
}

/// A node's name is the bytes it points at.
pub proof fn lemma_names(tree: &Tree, id: NodeId, name: &[u8], path: Vec<u8>)
    requires
        tree@.wf(),
        tree@.has(id as int),
        call_ensures(Tree::name_bytes, (tree, id), name),
        call_ensures(Tree::path, (tree, id), path),
    ensures
        name@.len() == tree@.nodes[id as int].name_len,
        forall|i: int|
            0 <= i < name@.len() ==> #[trigger] name@[i]
                == tree@.names[tree@.nodes[id as int].name_off + i],
        id == 0 ==> path@ == tree@.root_path,
        id > 0 ==> path@ == joined(tree@.path(tree@.nodes[id as int].parent as int), name@),
{
    if id > 0 {
        assert(tree@.nodes[id as int].parent < id);
    }
}

/// A new node has no children and no kind, and is otherwise as it is told.
pub proof fn lemma_make_node(
    parent: NodeId,
    name_off: u32,
    name_len: u16,
    f: u8,
    depth: u8,
    logical: u64,
    physical: u64,
    node: Node,
)
    requires
        call_ensures(make_node, (parent, name_off, name_len, f, depth, logical, physical), node),
    ensures
        node.parent == parent,
        node.logical == logical,
        node.physical == physical,
        node.flags == f,
        node.depth == depth,
        node.child_len == 0,
        node.name_off == name_off && node.name_len == name_len,
{
}

/// The extension of a name, and its key, are decided by the name alone; so is
/// the kind by the table and the name.
pub proof fn lemma_classify(
    table: &KindTable,
    name: &[u8],
    kind: u16,
    package: bool,
    ext: &[u8],
    key: Option<u128>,
)
    requires
        call_ensures(KindTable::classify, (table, name), kind),
        call_ensures(KindTable::is_package, (table, name), package),
        call_ensures(extension, (name,), ext),
        call_ensures(ext_key, (ext,), key),
    ensures
        package <==> key is Some && table@.packages.contains(key->0),
        key is Some && !package && table@.by_ext.contains_key(key->0) ==> kind
            == table@.by_ext[key->0],
        key is None || package || !table@.by_ext.contains_key(key->0) ==> kind == 1,
        ext@.len() <= name@.len(),
        key is Some <==> 0 < ext@.len() <= 16,
{
}

/// Where the user's own kinds are looked for: below the home directory.
pub proof fn lemma_user_path(home: &[u8], path: Option<Vec<u8>>, nowhere: Option<Vec<u8>>)
    requires
        call_ensures(KindTable::user_path, (Some(home),), path),
        call_ensures(KindTable::user_path, (None,), nowhere),
    ensures
        nowhere is None,
        path is Some,
        path->0@ == joined(
            home@,
            vstd::utf8::encode_utf8(".config/diskscope/kinds.json"@),
        ),
{
}

/// What is shown of a size, a count or a share is decided by the number alone,
/// and a rate is a size per second.
pub proof fn lemma_numbers(n: u64, m: u64, a: String, b: String, c: String, d: String)
    requires
        call_ensures(bytes, (n,), a),
        call_ensures(count, (n,), b),
        call_ensures(percent, (n, m), c),
        call_ensures(rate, (Some(n),), d),
    ensures
        a@ == bytes_text(n),
        b@ == count_text(n),
        c@ == percent_text(n, m),
        d@ == bytes_text(n) + "/s"@,
{
}

} // verus!
