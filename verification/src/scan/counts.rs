//! What the counters of a scan count.
//!
//! An entry counts by its flags and by whether its children have a slot. The
//! counters of a walk are what the chunks published so far hold, and those of
//! the finished tree are its nodes.

use vstd::prelude::*;

use crate::kinds::KindTableView;
use crate::scan::chunk::{DirChunk, RawEntry, NO_CHUNK};
use crate::scan::collect::{counted, entry_flags, flag_if, is_duplicate, off_limits};
use crate::scan::entry::EntView;
use crate::scan::options::{Progress, ScanOptions};
use crate::sums::{lemma_sum_point, lemma_sum_same, lemma_sum_split, lemma_sum_zero, sum};
use crate::tree::flags;
use crate::tree::has_flag;

verus! {

/// One past the largest count; counters wrap there, as atomic counters do.
pub open spec fn wrap() -> int {
    0x1_0000_0000_0000_0000
}

/// One if `is` holds.
pub open spec fn one_if(is: bool) -> int {
    if is {
        1
    } else {
        0
    }
}

/// Whether flags are those of a file: what is no directory and could be
/// described.
pub open spec fn file_flags(f: u8) -> bool {
    !has_flag(f, flags::DIR) && !has_flag(f, flags::UNREADABLE) && !has_flag(f, flags::FREE_SPACE)
}

/// One for every entry.
pub open spec fn entries() -> spec_fn(u8, bool) -> int {
    |f: u8, leads: bool| 1int
}

/// One for a file.
pub open spec fn files() -> spec_fn(u8, bool) -> int {
    |f: u8, leads: bool| one_if(file_flags(f))
}

/// One for a symlink.
pub open spec fn symlinks() -> spec_fn(u8, bool) -> int {
    |f: u8, leads: bool| one_if(has_flag(f, flags::SYMLINK))
}

/// One for a further link to a counted inode.
pub open spec fn duplicates() -> spec_fn(u8, bool) -> int {
    |f: u8, leads: bool| one_if(has_flag(f, flags::HARDLINK_DUP))
}

/// One for a directory.
pub open spec fn folders() -> spec_fn(u8, bool) -> int {
    |f: u8, leads: bool| one_if(has_flag(f, flags::DIR))
}

/// One for an entry whose children have a slot.
pub open spec fn leading() -> spec_fn(u8, bool) -> int {
    |f: u8, leads: bool| one_if(leads)
}

/// One for a directory whose children have no slot.
pub open spec fn passed_by() -> spec_fn(u8, bool) -> int {
    |f: u8, leads: bool| one_if(has_flag(f, flags::DIR) && !leads)
}

/// What each entry counts for.
pub open spec fn entry_worth(
    list: Seq<RawEntry>,
    worth: spec_fn(u8, bool) -> int,
) -> spec_fn(int) -> int {
    |k: int| worth(list[k].flags, list[k].chunk != NO_CHUNK)
}

/// What the entries of a chunk count for.
#[verifier::opaque]
pub open spec fn chunk_count(list: Seq<RawEntry>, worth: spec_fn(u8, bool) -> int) -> int {
    sum(0, list.len() as int, entry_worth(list, worth))
}

/// What the entries in slot `s` count for.
pub open spec fn slot_count(
    chunks: Seq<Option<DirChunk>>,
    worth: spec_fn(u8, bool) -> int,
) -> spec_fn(int) -> int {
    |s: int|
        match chunks[s] {
            Some(c) => chunk_count(c.entries@, worth),
            None => 0,
        }
}

/// What the entries in all slots count for.
#[verifier::opaque]
pub open spec fn total_count(
    chunks: Seq<Option<DirChunk>>,
    worth: spec_fn(u8, bool) -> int,
) -> int {
    sum(0, chunks.len() as int, slot_count(chunks, worth))
}

/// One for each slot that has been read.
pub open spec fn read_at(read: Seq<bool>) -> spec_fn(int) -> int {
    |s: int| one_if(read[s])
}

/// How many slots have been read.
#[verifier::opaque]
pub open spec fn read_count(read: Seq<bool>) -> int {
    sum(0, read.len() as int, read_at(read))
}

/// Whether the counters of a task are those of the chunk it fills.
pub open spec fn tallied(chunk: DirChunk, progress: Progress) -> bool {
    &&& progress.files == chunk_count(chunk.entries@, files())
    &&& progress.symlinks == chunk_count(chunk.entries@, symlinks())
    &&& progress.hardlink_dups == chunk_count(chunk.entries@, duplicates())
}

/// Whether the counters of a walk are those of all chunks in its slots, and
/// count the slots that were read.
pub open spec fn counted_in(
    chunks: Seq<Option<DirChunk>>,
    read: Seq<bool>,
    progress: Progress,
) -> bool {
    &&& read.len() == chunks.len()
    &&& progress.files == total_count(chunks, files()) % wrap()
    &&& progress.symlinks == total_count(chunks, symlinks()) % wrap()
    &&& progress.hardlink_dups == total_count(chunks, duplicates()) % wrap()
    &&& progress.dirs == read_count(read)
}

/// Whether every slot but the root's was given to one entry.
pub open spec fn all_linked(chunks: Seq<Option<DirChunk>>) -> bool {
    total_count(chunks, leading()) == chunks.len() - 1
}

/// No entries count for nothing.
pub proof fn lemma_none_count(list: Seq<RawEntry>, worth: spec_fn(u8, bool) -> int)
    requires
        list.len() == 0,
    ensures
        chunk_count(list, worth) == 0,
{
    reveal(chunk_count);
}

/// One more entry counts for itself.
pub proof fn lemma_count_push(
    list: Seq<RawEntry>,
    e: RawEntry,
    worth: spec_fn(u8, bool) -> int,
)
    ensures
        chunk_count(list.push(e), worth) == chunk_count(list, worth) + worth(
            e.flags,
            e.chunk != NO_CHUNK,
        ),
{
    reveal(chunk_count);
    let n = list.len() as int;
    lemma_sum_same(0, n, entry_worth(list, worth), entry_worth(list.push(e), worth));
}

/// Changing one entry changes the count by as much.
pub proof fn lemma_count_update(
    list: Seq<RawEntry>,
    at: int,
    e: RawEntry,
    worth: spec_fn(u8, bool) -> int,
)
    requires
        0 <= at < list.len(),
    ensures
        chunk_count(list.update(at, e), worth) == chunk_count(list, worth) - worth(
            list[at].flags,
            list[at].chunk != NO_CHUNK,
        ) + worth(e.flags, e.chunk != NO_CHUNK),
{
    reveal(chunk_count);
    lemma_sum_point(
        0,
        list.len() as int,
        at,
        entry_worth(list, worth),
        entry_worth(list.update(at, e), worth),
    );
}

/// Whether an entry counts for nothing or one.
pub open spec fn at_most_one(worth: spec_fn(u8, bool) -> int) -> bool {
    forall|f: u8, leads: bool| 0 <= #[trigger] worth(f, leads) <= 1
}

/// A chunk counts for no more than its entries are.
pub proof fn lemma_count_bounds(list: Seq<RawEntry>, worth: spec_fn(u8, bool) -> int)
    requires
        at_most_one(worth),
    ensures
        0 <= chunk_count(list, worth) <= list.len(),
    decreases list.len(),
{
    if list.len() == 0 {
        lemma_none_count(list, worth);
    } else {
        let less = list.drop_last();
        lemma_count_bounds(less, worth);
        lemma_count_push(less, list.last(), worth);
        assert(less.push(list.last()) == list);
        assert(0 <= worth(list.last().flags, list.last().chunk != NO_CHUNK) <= 1);
    }
}

/// What the flags of an entry say it counts for.
pub proof fn lemma_flag_counts(
    opts: ScanOptions,
    kinds: KindTableView,
    root_dev: i64,
    ent: EntView,
    claimed: Option<bool>,
)
    ensures
        ({
            let f = entry_flags(opts, kinds, root_dev, ent, claimed);
            let plain = ent.error == 0 && !ent.is_dir;
            &&& file_flags(f) <==> plain
            &&& has_flag(f, flags::SYMLINK) <==> plain && ent.is_symlink
            &&& has_flag(f, flags::HARDLINK_DUP) <==> is_duplicate(opts, ent, claimed)
        }),
{
    assert(16u8 & 16u8 != 0 && 16u8 & 2u8 == 0 && 16u8 & 8u8 == 0) by (bit_vector);
    let a = flag_if(opts.detect_packages && kinds.is_package(ent.name), flags::PACKAGE);
    let b = flag_if(off_limits(opts, root_dev, ent), flags::OTHER_FS);
    assert((1u8 | a | b) & 1u8 != 0 && (1u8 | a | b) & 2u8 == 0 && (1u8 | a | b) & 8u8 == 0)
        by (bit_vector)
        requires
            a == 0u8 || a == 4u8,
            b == 0u8 || b == 32u8,
    ;
    let c = flag_if(ent.is_symlink, flags::SYMLINK);
    let d = flag_if(is_duplicate(opts, ent, claimed), flags::HARDLINK_DUP);
    assert((c | d) & 1u8 == 0 && (c | d) & 16u8 == 0 && (c | d) & 64u8 == 0 && ((c | d) & 2u8 != 0
        <==> c == 2u8) && ((c | d) & 8u8 != 0 <==> d == 8u8)) by (bit_vector)
        requires
            c == 0u8 || c == 2u8,
            d == 0u8 || d == 8u8,
    ;
}

/// Collecting an entry keeps a task's counters those of its chunk.
pub proof fn lemma_collect_tallied(
    before: DirChunk,
    after: DirChunk,
    e: RawEntry,
    progress: Progress,
    opts: ScanOptions,
    kinds: KindTableView,
    root_dev: i64,
    ent: EntView,
    claimed: Option<bool>,
)
    requires
        tallied(before, progress),
        after.entries@ == before.entries@.push(e),
        after.entries@.len() <= u64::MAX,
        e.flags == entry_flags(opts, kinds, root_dev, ent, claimed),
    ensures
        tallied(after, counted(progress, opts, ent, claimed)),
{
    lemma_count_push(before.entries@, e, files());
    lemma_count_push(before.entries@, e, symlinks());
    lemma_count_push(before.entries@, e, duplicates());
    lemma_count_bounds(before.entries@, files());
    lemma_count_bounds(before.entries@, symlinks());
    lemma_count_bounds(before.entries@, duplicates());
    lemma_flag_counts(opts, kinds, root_dev, ent, claimed);
}

/// Nothing in a chunk but the slots of the children changes when they are
/// given out.
pub proof fn lemma_same_flags(
    a: Seq<RawEntry>,
    b: Seq<RawEntry>,
    worth: spec_fn(u8, bool) -> int,
)
    requires
        a.len() == b.len(),
        forall|k: int| 0 <= k < a.len() ==> (#[trigger] b[k]).flags == a[k].flags,
        forall|f: u8| #[trigger] worth(f, true) == worth(f, false),
    ensures
        chunk_count(a, worth) == chunk_count(b, worth),
{
    reveal(chunk_count);
    let n = a.len() as int;
    let (x, y) = (entry_worth(a, worth), entry_worth(b, worth));
    assert forall|k: int| 0 <= k < n implies #[trigger] x(k) == y(k) by {
        assert(b[k].flags == a[k].flags);
        assert(worth(a[k].flags, true) == worth(a[k].flags, false));
    }
    lemma_sum_same(0, n, x, y);
}

/// Filling a slot adds what its chunk counts for; new slots add nothing.
pub proof fn lemma_fill_slot(
    before: Seq<Option<DirChunk>>,
    after: Seq<Option<DirChunk>>,
    slot: int,
    worth: spec_fn(u8, bool) -> int,
)
    requires
        0 <= slot < before.len() <= after.len(),
        before[slot] is None,
        after[slot] is Some,
        forall|s: int|
            0 <= s < before.len() && s != slot ==> #[trigger] after[s] == before[s],
        forall|s: int| before.len() <= s < after.len() ==> #[trigger] after[s] is None,
    ensures
        total_count(after, worth) == total_count(before, worth) + chunk_count(
            after[slot]->0.entries@,
            worth,
        ),
{
    reveal(total_count);
    let (n, m) = (before.len() as int, after.len() as int);
    let (f, g) = (slot_count(before, worth), slot_count(after, worth));
    lemma_sum_split(0, n, m, g);
    assert forall|s: int| n <= s < m implies #[trigger] g(s) == 0 by {
        assert(after[s] is None);
    }
    lemma_sum_zero(n, m, g);
    assert forall|s: int| 0 <= s < n && s != slot implies #[trigger] f(s) == g(s) by {
        assert(after[s] == before[s]);
    }
    lemma_sum_point(0, n, slot, f, g);
}

/// Reading one more slot counts one more; slots that wait count for nothing.
pub proof fn lemma_read_one(read: Seq<bool>, slot: int, more: nat)
    requires
        0 <= slot < read.len(),
        !read[slot],
    ensures
        read_count(read.update(slot, true) + Seq::new(more, |i: int| false)) == read_count(read)
            + 1,
{
    reveal(read_count);
    let after = read.update(slot, true) + Seq::new(more, |i: int| false);
    let (n, m) = (read.len() as int, after.len() as int);
    let (f, g) = (read_at(read), read_at(after));
    lemma_sum_split(0, n, m, g);
    lemma_sum_zero(n, m, g);
    lemma_sum_point(0, n, slot, f, g);
}

/// No more slots are read than there are.
pub proof fn lemma_read_bounds(read: Seq<bool>)
    ensures
        0 <= read_count(read) <= read.len(),
    decreases read.len(),
{
    reveal(read_count);
    if read.len() > 0 {
        let less = read.drop_last();
        lemma_read_bounds(less);
        lemma_sum_same(0, less.len() as int, read_at(less), read_at(read));
    }
}

/// Where every slot was read, all are counted.
pub proof fn lemma_all_read(read: Seq<bool>)
    requires
        forall|s: int| 0 <= s < read.len() ==> #[trigger] read[s],
    ensures
        read_count(read) == read.len(),
    decreases read.len(),
{
    reveal(read_count);
    if read.len() > 0 {
        let less = read.drop_last();
        assert forall|s: int| 0 <= s < less.len() implies #[trigger] less[s] by {
            assert(read[s]);
        }
        lemma_all_read(less);
        lemma_sum_same(0, less.len() as int, read_at(less), read_at(read));
        assert(read[read.len() - 1]);
    }
}

} // verus!
