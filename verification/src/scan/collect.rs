//! From directory records to chunk entries.

use vstd::prelude::*;
use vstd::slice::slice_subrange;

use crate::kinds::{KindTable, KindTableView};
use crate::paths::copied;
use crate::scan::chunk::{DirChunk, RawEntry, NO_CHUNK};
use crate::scan::counts::{lemma_collect_tallied, tallied};
use crate::scan::entry::{Ent, EntView};
use crate::scan::links::{shard_of, HARDLINK_SHARDS};
use crate::scan::listing::{gathered, item_of, lemma_gather, Item};
use crate::scan::options::{Progress, ScanOptions};
use crate::tree::flags;
use crate::tree::has_flag;

verus! {

/// What a name is cut to: its first 65535 bytes.
pub open spec fn cut(name: Seq<u8>) -> Seq<u8> {
    if name.len() <= u16::MAX {
        name
    } else {
        name.take(u16::MAX as int)
    }
}

/// Whether `ent` counts as a directory: what could not be described does not.
pub open spec fn counts_as_dir(ent: EntView) -> bool {
    ent.error == 0 && ent.is_dir
}

/// Whether `ent` lies on a device the scan stays off.
pub open spec fn off_limits(opts: ScanOptions, root_dev: i64, ent: EntView) -> bool {
    ent.dev != root_dev && ent.dev != 0 && !opts.cross_mounts
}

/// Whether the scan descends into `ent`, found in a directory at `depth`. The
/// entry sits one level deeper; `max_depth` caps the depth of nodes that are
/// descended *into*, not the depth that is recorded.
pub open spec fn descends(opts: ScanOptions, root_dev: i64, ent: EntView, depth: u8) -> bool {
    &&& counts_as_dir(ent)
    &&& !off_limits(opts, root_dev, ent)
    &&& depth + 1 < opts.max_depth
}

/// Whether the size of `ent` depends on its inode not having been met before.
pub open spec fn shares_inode(opts: ScanOptions, ent: EntView) -> bool {
    &&& ent.error == 0
    &&& !ent.is_dir
    &&& opts.dedupe_hardlinks
    &&& ent.nlink > 1
    &&& ent.is_regular
}

/// Whether `ent` is a link to an inode that has been counted.
pub open spec fn is_duplicate(opts: ScanOptions, ent: EntView, claimed: Option<bool>) -> bool {
    shares_inode(opts, ent) && claimed == Some(false)
}

/// `flag` if `set`, nothing otherwise.
pub open spec fn flag_if(set: bool, flag: u8) -> u8 {
    if set {
        flag
    } else {
        0
    }
}

/// The flags of the entry `ent` becomes.
pub open spec fn entry_flags(
    opts: ScanOptions,
    kinds: KindTableView,
    root_dev: i64,
    ent: EntView,
    claimed: Option<bool>,
) -> u8 {
    if ent.error != 0 {
        flags::UNREADABLE
    } else if ent.is_dir {
        flags::DIR | flag_if(
            opts.detect_packages && kinds.is_package(ent.name),
            flags::PACKAGE,
        ) | flag_if(off_limits(opts, root_dev, ent), flags::OTHER_FS)
    } else {
        flag_if(ent.is_symlink, flags::SYMLINK) | flag_if(
            is_duplicate(opts, ent, claimed),
            flags::HARDLINK_DUP,
        )
    }
}

/// Whether `ent` weighs anything: not what could not be described, not a
/// directory (it weighs what its children add up to), not a further link to a
/// counted inode.
pub open spec fn weighs(opts: ScanOptions, ent: EntView, claimed: Option<bool>) -> bool {
    ent.error == 0 && !ent.is_dir && !is_duplicate(opts, ent, claimed)
}

/// The entry `ent` becomes in a chunk whose names end at `name_off`.
pub open spec fn entry_for(
    opts: ScanOptions,
    kinds: KindTableView,
    root_dev: i64,
    ent: EntView,
    claimed: Option<bool>,
    name_off: int,
) -> RawEntry {
    RawEntry {
        name_off: name_off as u32,
        name_len: cut(ent.name).len() as u16,
        flags: entry_flags(opts, kinds, root_dev, ent, claimed),
        chunk: NO_CHUNK,
        logical: if weighs(opts, ent, claimed) {
            ent.logical
        } else {
            0
        },
        physical: if weighs(opts, ent, claimed) {
            ent.physical
        } else {
            0
        },
    }
}

/// The counters after `ent`. They wrap, as atomic counters do.
pub open spec fn counted(
    progress: Progress,
    opts: ScanOptions,
    ent: EntView,
    claimed: Option<bool>,
) -> Progress {
    if ent.error != 0 || ent.is_dir {
        progress
    } else {
        Progress {
            files: progress.files.wrapping_add(1),
            symlinks: if ent.is_symlink {
                progress.symlinks.wrapping_add(1)
            } else {
                progress.symlinks
            },
            hardlink_dups: if is_duplicate(opts, ent, claimed) {
                progress.hardlink_dups.wrapping_add(1)
            } else {
                progress.hardlink_dups
            },
            bytes: if is_duplicate(opts, ent, claimed) {
                progress.bytes
            } else {
                progress.bytes.wrapping_add(ent.physical)
            },
            ..progress
        }
    }
}

/// A subdirectory to descend into: its place in the chunk and its name.
#[derive(Debug)]
pub struct Subdir {
    pub index: usize,
    pub name: Vec<u8>,
}

/// The subdirectories stand in the order of their entries, and each entry is a
/// directory of that name without a slot yet.
pub open spec fn subdirs_ok(chunk: DirChunk, subdirs: Seq<Subdir>) -> bool {
    &&& forall|i: int|
        0 <= i < subdirs.len() ==> {
            let d = #[trigger] subdirs[i];
            &&& d.index < chunk.entries@.len()
            &&& has_flag(chunk.entries@[d.index as int].flags, flags::DIR)
            &&& chunk.entry_name(d.index as int) == d.name@
        }
    &&& forall|i: int, j: int|
        0 <= i < j < subdirs.len() ==> (#[trigger] subdirs[i]).index < (
        #[trigger] subdirs[j]).index
}

/// A chunk as it is filled: well formed, with no slot given out yet.
pub open spec fn fresh(chunk: DirChunk) -> bool {
    chunk.wf(0)
}

/// Whether the inode of `ent` has to be claimed for the size to count.
pub fn needs_claim(opts: &ScanOptions, ent: &Ent) -> (needed: bool)
    ensures
        needed == shares_inode(*opts, ent@),
{
    ent.error == 0 && !ent.is_dir && opts.dedupe_hardlinks && ent.nlink > 1 && ent.is_regular
}

/// The shard to claim the inode of `ent` in before it is collected, if it has
/// to be claimed at all.
pub fn shard_to_ask(opts: &ScanOptions, ent: &Ent) -> (shard: Option<usize>)
    ensures
        shares_inode(*opts, ent@) ==> shard == Some((ent.ino % 64) as usize),
        !shares_inode(*opts, ent@) ==> shard is None,
        shard matches Some(s) ==> s < HARDLINK_SHARDS,
{
    if needs_claim(opts, ent) {
        Some(shard_of(ent.ino))
    } else {
        None
    }
}

/// Which flags an entry gets do not clash: an entry is a directory exactly if
/// it counts as one.
pub proof fn lemma_flags(
    opts: ScanOptions,
    kinds: KindTableView,
    root_dev: i64,
    ent: EntView,
    claimed: Option<bool>,
)
    ensures
        has_flag(entry_flags(opts, kinds, root_dev, ent, claimed), flags::DIR) == counts_as_dir(
            ent,
        ),
{
    assert(16u8 & 1u8 == 0) by (bit_vector);
    let a = flag_if(opts.detect_packages && kinds.is_package(ent.name), flags::PACKAGE);
    let b = flag_if(off_limits(opts, root_dev, ent), flags::OTHER_FS);
    assert((1u8 | a | b) & 1u8 != 0) by (bit_vector);
    let c = flag_if(ent.is_symlink, flags::SYMLINK);
    let d = flag_if(is_duplicate(opts, ent, claimed), flags::HARDLINK_DUP);
    assert((c | d) & 1u8 == 0) by (bit_vector)
        requires
            c == 0u8 || c == 2u8,
            d == 0u8 || d == 8u8,
    ;
}

/// Turns one `Ent` into a chunk entry, queuing subdirectories for descent.
/// `claimed` is what claiming the inode gave, where [`shard_to_ask`] names a
/// shard: whether this is the first link to it.
pub fn collect(
    opts: &ScanOptions,
    kinds: &KindTable,
    root_dev: i64,
    chunk: &mut DirChunk,
    subdirs: &mut Vec<Subdir>,
    progress: &mut Progress,
    ent: &Ent,
    depth: u8,
    claimed: Option<bool>,
)
    requires
        old(chunk).names@.len() + cut(ent.name@).len() <= u32::MAX,
    ensures
        final(chunk).names@ == old(chunk).names@ + cut(ent.name@),
        final(chunk).entries@ == old(chunk).entries@.push(
            entry_for(*opts, kinds@, root_dev, ent@, claimed, old(chunk).names@.len() as int),
        ),
        final(chunk).unreadable == old(chunk).unreadable,
        final(subdirs)@.len() == old(subdirs)@.len() + if descends(*opts, root_dev, ent@, depth) {
            1int
        } else {
            0int
        },
        final(subdirs)@.take(old(subdirs)@.len() as int) == old(subdirs)@,
        ent.error == 0 && ent.is_dir && (ent.dev == root_dev || ent.dev == 0 || opts.cross_mounts)
            && depth + 1 < opts.max_depth ==> final(subdirs)@.len() == old(subdirs)@.len() + 1,
        ent.error != 0 || !ent.is_dir || (ent.dev != root_dev && ent.dev != 0 && !opts.cross_mounts)
            || depth + 1 >= opts.max_depth ==> final(subdirs)@ == old(subdirs)@,
        descends(*opts, root_dev, ent@, depth) ==> final(subdirs)@.last().index
            == old(chunk).entries@.len() && final(subdirs)@.last().name@ == cut(ent.name@),
        *final(progress) == counted(*old(progress), *opts, ent@, claimed),
        tallied(*old(chunk), *old(progress)) ==> tallied(*final(chunk), *final(progress)),
        fresh(*old(chunk)) ==> fresh(*final(chunk)),
        fresh(*old(chunk)) && subdirs_ok(*old(chunk), old(subdirs)@) ==> forall|
            items: Seq<Item>,
        | #[trigger]
            gathered(*old(chunk), old(subdirs)@, items) ==> gathered(
                *final(chunk),
                final(subdirs)@,
                items.push(item_of(*opts, kinds@, root_dev, ent@, claimed, depth)),
            ),
        fresh(*old(chunk)) && subdirs_ok(*old(chunk), old(subdirs)@) ==> subdirs_ok(
            *final(chunk),
            final(subdirs)@,
        ),
{
    let ghost chunk0 = *chunk;
    let ghost subdirs0 = subdirs@;
    let name_off: u32 = chunk.names.len() as u32;
    let name_len: usize = if ent.name.len() <= u16::MAX as usize {
        ent.name.len()
    } else {
        u16::MAX as usize
    };
    let name = slice_subrange(ent.name, 0, name_len);
    assert(name@ == cut(ent.name@));
    chunk.names.extend_from_slice(name);

    let mut bits: u8 = 0;
    let mut logical: u64 = ent.logical;
    let mut physical: u64 = ent.physical;

    if ent.error != 0 {
        bits = flags::UNREADABLE;
        logical = 0;
        physical = 0;
    } else if ent.is_dir {
        // A directory's own size is whatever its children add up to; APFS
        // reports no allocation for the directory record itself.
        logical = 0;
        physical = 0;
        let package: u8 = if opts.detect_packages && kinds.is_package(ent.name) {
            flags::PACKAGE
        } else {
            0
        };
        let crossing = ent.dev != root_dev && ent.dev != 0;
        let mut other_fs: u8 = 0;
        if crossing && !opts.cross_mounts {
            other_fs = flags::OTHER_FS;
        } else if (depth as u16) + 1 < opts.max_depth as u16 {
            subdirs.push(Subdir { index: chunk.entries.len(), name: copied(name) });
        }
        bits = flags::DIR | package | other_fs;
    } else {
        let mut link: u8 = 0;
        if ent.is_symlink {
            link = flags::SYMLINK;
            progress.symlinks = progress.symlinks.wrapping_add(1);
        }
        let mut dup: u8 = 0;
        let known = match claimed {
            Some(first) => !first,
            None => false,
        };
        if needs_claim(opts, ent) && known {
            dup = flags::HARDLINK_DUP;
            logical = 0;
            physical = 0;
            progress.hardlink_dups = progress.hardlink_dups.wrapping_add(1);
        } else {
            progress.bytes = progress.bytes.wrapping_add(physical);
        }
        bits = link | dup;
        progress.files = progress.files.wrapping_add(1);
    }

    chunk.entries.push(
        RawEntry {
            name_off,
            name_len: name_len as u16,
            flags: bits,
            // Filled in by `publish` once a slot has been reserved.
            chunk: NO_CHUNK,
            logical,
            physical,
        },
    );
    proof {
        lemma_flags(*opts, kinds@, root_dev, ent@, claimed);
        if tallied(chunk0, *old(progress)) {
            assert(chunk.entries.len() <= usize::MAX);
            lemma_collect_tallied(
                chunk0,
                *chunk,
                chunk.entries@.last(),
                *old(progress),
                *opts,
                kinds@,
                root_dev,
                ent@,
                claimed,
            );
        }
        assert(subdirs@.take(subdirs0.len() as int) == subdirs0);
        if fresh(chunk0) {
            assert forall|k: int| 0 <= k < chunk.entries@.len() implies {
                let e = #[trigger] chunk.entries@[k];
                &&& e.name_off + e.name_len <= chunk.names@.len()
                &&& e.chunk != NO_CHUNK ==> e.chunk < 0 && has_flag(e.flags, flags::DIR)
                &&& has_flag(e.flags, flags::DIR) ==> e.logical == 0 && e.physical == 0
            } by {
                if k < chunk0.entries@.len() {
                    assert(chunk.entries@[k] == chunk0.entries@[k]);
                }
            }
            assert(chunk.entries@.drop_last() == chunk0.entries@);
            chunk0.lemma_names_grow(*chunk);
            if subdirs_ok(chunk0, subdirs0) {
                let item = item_of(*opts, kinds@, root_dev, ent@, claimed, depth);
                let last = chunk0.entries@.len() as int;
                assert(chunk.entry_name(last) == item.name);
                assert(chunk.names@.take(chunk0.names@.len() as int) == chunk0.names@);
                assert forall|items: Seq<Item>| #[trigger]
                    gathered(chunk0, subdirs0, items) implies gathered(
                    *chunk,
                    subdirs@,
                    items.push(item),
                ) by {
                    lemma_gather(chunk0, *chunk, subdirs0, subdirs@, items, item);
                }
                assert forall|i: int| 0 <= i < subdirs@.len() implies {
                    let d = #[trigger] subdirs@[i];
                    &&& d.index < chunk.entries@.len()
                    &&& has_flag(chunk.entries@[d.index as int].flags, flags::DIR)
                    &&& chunk.entry_name(d.index as int) == d.name@
                } by {
                    let d = subdirs@[i];
                    if i < subdirs0.len() {
                        assert(d == subdirs0[i]);
                        let e = chunk0.entries@[d.index as int];
                        assert(chunk.entries@[d.index as int] == e);
                        assert(chunk.entry_name(d.index as int) == chunk0.entry_name(
                            d.index as int,
                        ));
                    } else {
                        assert(chunk.entry_name(d.index as int) == cut(ent.name@));
                    }
                }
                assert forall|i: int, j: int| 0 <= i < j < subdirs@.len() implies (
                #[trigger] subdirs@[i]).index < (#[trigger] subdirs@[j]).index by {
                    assert(subdirs@[i] == subdirs0[i]);
                    if j < subdirs0.len() {
                        assert(subdirs@[j] == subdirs0[j]);
                    }
                }
            }
        }
    }
}

} // verus!
