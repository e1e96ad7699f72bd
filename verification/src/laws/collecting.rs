//! What becomes of an entry of a directory.

use vstd::prelude::*;

use crate::kinds::KindTableView;
use crate::scan::chunk::NO_CHUNK;
use crate::scan::collect::{counted, entry_flags, entry_for, flag_if};
use crate::scan::entry::EntView;
use crate::scan::links::{claim_of, seen_with};
use crate::scan::listing::item_of;
use crate::scan::options::{Progress, ScanOptions};
use crate::tree::flags;

verus! {

/// The scan goes on below every folder that could be described, that lies on
/// the root's device (or on none that is known, or on any if mounts are
/// crossed) and above the depth to stop at; and below nothing else. What the
/// folder is called has no part in it.
pub proof fn lemma_every_folder_is_entered(
    opts: ScanOptions,
    kinds: KindTableView,
    root_dev: i64,
    ent: EntView,
    claimed: Option<bool>,
    depth: u8,
)
    ensures
        item_of(opts, kinds, root_dev, ent, claimed, depth).descends <==> ent.error == 0
            && ent.is_dir && (ent.dev == root_dev || ent.dev == 0 || opts.cross_mounts) && depth
            as int + 1 < opts.max_depth as int,
{
}

/// Two folders on one device fare alike, whatever they are called, whatever
/// else is said of them, and whether or not they are bundles.
pub proof fn lemma_folders_fare_alike(
    opts: ScanOptions,
    kinds: KindTableView,
    other_kinds: KindTableView,
    root_dev: i64,
    a: EntView,
    b: EntView,
    depth: u8,
)
    requires
        a.error == 0 && b.error == 0,
        a.is_dir && b.is_dir,
        a.dev == b.dev,
    ensures
        item_of(opts, kinds, root_dev, a, None, depth).descends == item_of(
            opts,
            other_kinds,
            root_dev,
            b,
            None,
            depth,
        ).descends,
{
}

/// A file weighs what the file system says, both ways, unless it is a further
/// link to an inode that has been counted; a folder weighs nothing of its own,
/// and neither does what could not be described.
pub proof fn lemma_weight_is_what_is_reported(
    opts: ScanOptions,
    kinds: KindTableView,
    root_dev: i64,
    ent: EntView,
    claimed: Option<bool>,
    depth: u8,
)
    ensures
        ({
            let item = item_of(opts, kinds, root_dev, ent, claimed, depth);
            let again = opts.dedupe_hardlinks && ent.is_regular && ent.nlink > 1 && claimed == Some(
                false,
            );
            &&& ent.error == 0 && !ent.is_dir && !again ==> item.logical == ent.logical
                && item.physical == ent.physical
            &&& ent.error != 0 || ent.is_dir || again ==> item.logical == 0 && item.physical == 0
        }),
{
}

/// An entry keeps its name, but for what is beyond 65535 bytes of it.
pub proof fn lemma_name_is_kept(
    opts: ScanOptions,
    kinds: KindTableView,
    root_dev: i64,
    ent: EntView,
    claimed: Option<bool>,
    depth: u8,
)
    ensures
        ({
            let name = item_of(opts, kinds, root_dev, ent, claimed, depth).name;
            &&& ent.name.len() <= 65535 ==> name == ent.name
            &&& ent.name.len() > 65535 ==> name.len() == 65535
            &&& forall|i: int| 0 <= i < name.len() ==> #[trigger] name[i] == ent.name[i]
        }),
{
}

/// Each mark is set exactly on what it is for.
pub proof fn lemma_marks(
    opts: ScanOptions,
    kinds: KindTableView,
    root_dev: i64,
    ent: EntView,
    claimed: Option<bool>,
    depth: u8,
)
    ensures
        ({
            let f = item_of(opts, kinds, root_dev, ent, claimed, depth).flags;
            let fine = ent.error == 0;
            &&& f & flags::UNREADABLE != 0 <==> !fine
            &&& f & flags::DIR != 0 <==> fine && ent.is_dir
            &&& f & flags::PACKAGE != 0 <==> fine && ent.is_dir && opts.detect_packages
                && kinds.is_package(ent.name)
            &&& f & flags::OTHER_FS != 0 <==> fine && ent.is_dir && !opts.cross_mounts && ent.dev
                != root_dev && ent.dev != 0
            &&& f & flags::SYMLINK != 0 <==> fine && !ent.is_dir && ent.is_symlink
            &&& f & flags::HARDLINK_DUP != 0 <==> fine && !ent.is_dir && opts.dedupe_hardlinks
                && ent.is_regular && ent.nlink > 1 && claimed == Some(false)
            &&& f & flags::FREE_SPACE == 0
        }),
{
    let f = entry_flags(opts, kinds, root_dev, ent, claimed);
    let package = opts.detect_packages && kinds.is_package(ent.name);
    let away = !opts.cross_mounts && ent.dev != root_dev && ent.dev != 0;
    let again = opts.dedupe_hardlinks && ent.is_regular && ent.nlink > 1 && claimed == Some(false);
    let a = flag_if(package, flags::PACKAGE);
    let b = flag_if(away, flags::OTHER_FS);
    let c = flag_if(ent.is_symlink, flags::SYMLINK);
    let d = flag_if(again, flags::HARDLINK_DUP);
    if ent.error != 0 {
        lemma_no_marks_but(16, 0, 0, f);
    } else if ent.is_dir {
        lemma_no_marks_but(1, a, b, f);
    } else {
        lemma_no_marks_but(0, c, d, f);
    }
}

/// Which bits a union of marks has.
proof fn lemma_no_marks_but(x: u8, y: u8, z: u8, f: u8)
    by (bit_vector)
    requires
        (x == 16 && y == 0 && z == 0 && f == x) || (x == 1 && (y == 0 || y == 4) && (z == 0 || z
            == 32) && f == x | y | z) || (x == 0 && (y == 0 || y == 2) && (z == 0 || z == 8) && f
            == y | z),
    ensures
        f & 16 != 0 <==> x == 16,
        f & 1 != 0 <==> x == 1,
        f & 4 != 0 <==> x == 1 && y == 4,
        f & 32 != 0 <==> x == 1 && z == 32,
        f & 2 != 0 <==> x == 0 && y == 2,
        f & 8 != 0 <==> x == 0 && z == 8,
        f & 64 == 0,
{
}

/// What is stored of an entry says what the item does: the same flags and
/// sizes, and as much of the name; its children have no slot yet.
pub proof fn lemma_stored_as_said(
    opts: ScanOptions,
    kinds: KindTableView,
    root_dev: i64,
    ent: EntView,
    claimed: Option<bool>,
    depth: u8,
    name_off: u32,
)
    ensures
        ({
            let item = item_of(opts, kinds, root_dev, ent, claimed, depth);
            let entry = entry_for(opts, kinds, root_dev, ent, claimed, name_off as int);
            &&& entry.flags == item.flags
            &&& entry.logical == item.logical
            &&& entry.physical == item.physical
            &&& entry.name_off == name_off
            &&& entry.name_len == item.name.len()
            &&& entry.chunk == NO_CHUNK
        }),
{
}

/// Everything that could be described and is no folder is counted as a file, a
/// symlink as one too, and a further link to a counted inode as one of those;
/// the bytes are those of what weighs something. Nothing else is counted.
pub proof fn lemma_counts_what_it_meets(
    progress: Progress,
    opts: ScanOptions,
    ent: EntView,
    claimed: Option<bool>,
)
    requires
        progress.files < u64::MAX,
        progress.symlinks < u64::MAX,
        progress.hardlink_dups < u64::MAX,
        progress.bytes + ent.physical <= u64::MAX,
    ensures
        ({
            let after = counted(progress, opts, ent, claimed);
            let file = ent.error == 0 && !ent.is_dir;
            let again = opts.dedupe_hardlinks && ent.is_regular && ent.nlink > 1 && claimed == Some(
                false,
            );
            &&& after.files == progress.files + if file {
                1int
            } else {
                0
            }
            &&& after.symlinks == progress.symlinks + if file && ent.is_symlink {
                1int
            } else {
                0
            }
            &&& after.hardlink_dups == progress.hardlink_dups + if file && again {
                1int
            } else {
                0
            }
            &&& after.bytes == progress.bytes + if file && !again {
                ent.physical as int
            } else {
                0
            }
            &&& after.dirs == progress.dirs
            &&& after.errors == progress.errors
            &&& after.cancel == progress.cancel
            &&& after.finished == progress.finished
        }),
{
}

/// Of two links to one inode of one device the first is new and the second is
/// not, whatever their names and sizes; inodes of other devices, other inodes
/// and single links have no part in it.
pub proof fn lemma_second_link_is_not_new(
    opts: ScanOptions,
    a: EntView,
    b: EntView,
    seen: Set<(i64, u64)>,
)
    requires
        opts.dedupe_hardlinks,
        a.error == 0 && !a.is_dir && a.is_regular && a.nlink > 1,
    ensures
        claim_of(opts, a, seen) == Some(!seen.contains((a.dev, a.ino))),
        b.error == 0 && !b.is_dir && b.is_regular && b.nlink > 1 && b.dev == a.dev && b.ino == a.ino
            ==> claim_of(opts, b, seen_with(opts, a, seen)) == Some(false),
        b.dev != a.dev || b.ino != a.ino ==> claim_of(opts, b, seen_with(opts, a, seen))
            == claim_of(opts, b, seen),
        b.nlink <= 1 || !b.is_regular || b.is_dir || b.error != 0 ==> claim_of(opts, b, seen)
            is None,
{
}

/// Where links are not told apart, nothing is claimed and every link weighs.
pub proof fn lemma_without_dedupe(
    opts: ScanOptions,
    kinds: KindTableView,
    root_dev: i64,
    ent: EntView,
    seen: Set<(i64, u64)>,
    depth: u8,
)
    requires
        !opts.dedupe_hardlinks,
        ent.error == 0 && !ent.is_dir,
    ensures
        claim_of(opts, ent, seen) is None,
        seen_with(opts, ent, seen) == seen,
        item_of(opts, kinds, root_dev, ent, claim_of(opts, ent, seen), depth).logical
            == ent.logical,
        item_of(opts, kinds, root_dev, ent, claim_of(opts, ent, seen), depth).physical
            == ent.physical,
{
}

} // verus!
