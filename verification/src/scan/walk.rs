//! The shared state of a walk: slots, tasks and errors.

use vstd::prelude::*;

use crate::paths::copied;
use crate::scan::chunk::{chunks_wf, DirChunk, RawEntry, NO_CHUNK};
use crate::scan::collect::{fresh, subdirs_ok, Subdir};
use crate::scan::counts::{
    all_linked, chunk_count, counted_in, duplicates, entry_worth, files, leading, lemma_count_update,
    lemma_fill_slot, lemma_none_count, lemma_read_bounds, lemma_read_one, lemma_same_flags,
    read_at, read_count, slot_count, symlinks, tallied, total_count,
};
use crate::scan::flatten::{all_met, arity, child_ok, expands, first_child, unrolled};
use crate::scan::listing::{gathered, holds, lemma_gathered_holds, Item, Listing};
use crate::scan::options::Progress;
use crate::scan::place::{lemma_empty_placed, lemma_publish_placed, placed, places_below};
use crate::sums::{lemma_sum_zero, sum};
use crate::tree::flags;
use crate::tree::{has_flag, Node};

verus! {

/// How many errors the text is kept of. A scan of `/` without full access
/// produces tens of thousands of identical denials; a handful is enough to
/// explain what happened.
pub const MAX_ERROR_SAMPLES: usize = 64;

/// A directory to be read into a slot.
#[derive(Debug)]
pub struct Task {
    /// Relative to the directory it was found in; the whole path for the root.
    pub name: Vec<u8>,
    pub slot: u32,
    pub depth: u8,
}

/// Slots and error samples of a walk.
pub struct Walk {
    chunks: Vec<Option<DirChunk>>,
    errors: Vec<(Vec<u8>, String)>,
    max_depth: u8,
    counts: Progress,
    places: Ghost<Seq<Seq<Seq<u8>>>>,
    read: Ghost<Seq<bool>>,
}

pub struct WalkView {
    pub chunks: Seq<Option<DirChunk>>,
    pub errors: Seq<(Vec<u8>, String)>,
    /// Depth below the root at which to stop.
    pub max_depth: u8,
    /// What has been counted so far.
    pub counts: Progress,
    /// For each slot, the names that lead to its directory.
    pub places: Seq<Seq<Seq<u8>>>,
    /// For each slot, whether its directory was read.
    pub read: Seq<bool>,
}

impl View for Walk {
    type V = WalkView;

    closed spec fn view(&self) -> WalkView {
        WalkView {
            chunks: self.chunks@,
            errors: self.errors@,
            max_depth: self.max_depth,
            counts: self.counts,
            places: self.places@,
            read: self.read@,
        }
    }
}

/// Whether some filled slot before `s` has an entry whose children go to `s`.
pub open spec fn has_owner(chunks: Seq<Option<DirChunk>>, s: int) -> bool {
    exists|o: int, k: int| #[trigger] owns(chunks, s, o, k)
}

/// Whether entry `k` in slot `o` is the one whose children go to slot `s`.
pub open spec fn owns(chunks: Seq<Option<DirChunk>>, s: int, o: int, k: int) -> bool {
    &&& 0 <= o < s
    &&& chunks[o] is Some
    &&& 0 <= k < chunks[o]->0.entries@.len()
    &&& chunks[o]->0.entries@[k].chunk == s
}

/// Every slot but the root's has been given out by an entry.
pub open spec fn all_owned(chunks: Seq<Option<DirChunk>>) -> bool {
    forall|s: int| 1 <= s < chunks.len() ==> #[trigger] has_owner(chunks, s)
}

impl WalkView {
    pub open spec fn wf(&self) -> bool {
        &&& 0 < self.chunks.len() < NO_CHUNK
        &&& chunks_wf(self.chunks)
        &&& all_owned(self.chunks)
        &&& placed(self.chunks, self.places, self.max_depth as int)
        &&& counted_in(self.chunks, self.read, self.counts)
        &&& all_linked(self.chunks)
        &&& forall|s: int|
            0 <= s < self.chunks.len() && #[trigger] self.chunks[s] is None ==> !self.read[s]
        &&& self.errors.len() <= MAX_ERROR_SAMPLES
    }

    /// Whether slot `s` has been given out and not filled.
    pub open spec fn waits(&self, s: int) -> bool {
        0 <= s < self.chunks.len() && self.chunks[s] is None
    }

    /// Whether the directory of slot `s` is to be read: those at the depth to
    /// stop at are kept, unread.
    pub open spec fn reads(&self, s: int) -> bool {
        self.places[s].len() < self.max_depth
    }

    /// Whether `task` is to fill a slot that waits for it.
    pub open spec fn awaits(&self, task: Task) -> bool {
        self.waits(task.slot as int) && task.depth == self.places[task.slot as int].len()
    }
}

/// The samples after one more error: the first ones stay.
pub open spec fn sampled(
    before: Seq<(Vec<u8>, String)>,
    after: Seq<(Vec<u8>, String)>,
    path: Seq<u8>,
    message: Seq<char>,
) -> bool {
    if before.len() < MAX_ERROR_SAMPLES {
        &&& after.len() == before.len() + 1
        &&& after.take(before.len() as int) == before
        &&& after.last().0@ == path
        &&& after.last().1@ == message
    } else {
        after == before
    }
}

/// `after` is `before` with the slots `base`, `base + 1`, ... given to the
/// entries of the subdirectories, in order.
pub open spec fn linked(
    before: Seq<RawEntry>,
    after: Seq<RawEntry>,
    subdirs: Seq<Subdir>,
    base: int,
) -> bool {
    &&& after.len() == before.len()
    &&& forall|i: int|
        0 <= i < subdirs.len() ==> after[(#[trigger] subdirs[i]).index as int] == (RawEntry {
            chunk: (base + i) as u32,
            ..before[subdirs[i].index as int]
        })
    &&& forall|k: int|
        0 <= k < before.len() && (forall|i: int|
            0 <= i < subdirs.len() ==> (#[trigger] subdirs[i]).index != k)
            ==> #[trigger] after[k] == before[k]
}

/// Counters that have counted nothing.
pub open spec fn no_counts() -> Progress {
    Progress {
        files: 0,
        dirs: 0,
        symlinks: 0,
        hardlink_dups: 0,
        bytes: 0,
        errors: 0,
        cancel: false,
        finished: false,
    }
}

/// The counters after one more error.
pub open spec fn one_error(counts: Progress) -> Progress {
    Progress { errors: counts.errors.wrapping_add(1), ..counts }
}

/// The counters of a walk after one more directory, given what the task that
/// read it counted and whether the reading failed.
pub open spec fn joined_counts(counts: Progress, task: Progress, failed: bool) -> Progress {
    Progress {
        files: counts.files.wrapping_add(task.files),
        dirs: counts.dirs.wrapping_add(1),
        symlinks: counts.symlinks.wrapping_add(task.symlinks),
        hardlink_dups: counts.hardlink_dups.wrapping_add(task.hardlink_dups),
        bytes: counts.bytes.wrapping_add(task.bytes),
        errors: if failed {
            counts.errors.wrapping_add(1)
        } else {
            counts.errors
        },
        ..counts
    }
}

/// The task for the scan root itself.
pub fn root_task(path: Vec<u8>) -> (task: Task)
    ensures
        task.name == path,
        task.slot == 0,
        task.depth == 0,
{
    Task { name: path, slot: 0, depth: 0 }
}

impl Walk {
    /// A walk that has the root's slot and nothing else.
    pub fn new(max_depth: u8) -> (walk: Walk)
        ensures
            walk@.wf(),
            walk@.max_depth == max_depth,
            walk@.places == seq![Seq::<Seq<u8>>::empty()],
            walk@.chunks == seq![None::<DirChunk>],
            walk@.errors == Seq::<(Vec<u8>, String)>::empty(),
            walk@.counts == no_counts(),
            walk@.read == seq![false],
    {
        let mut chunks: Vec<Option<DirChunk>> = Vec::new();
        chunks.push(None);
        let ghost top: Seq<Seq<Seq<u8>>> = seq![Seq::<Seq<u8>>::empty()];
        let ghost unread: Seq<bool> = seq![false];
        proof {
            reveal(total_count);
            reveal(read_count);
            assert(read_at(unread)(0) == 0);
            assert(sum(0, 1, read_at(unread)) == sum(0, 0, read_at(unread)) + read_at(unread)(0));
            lemma_sum_zero(0, 1, slot_count(chunks@, files()));
            lemma_sum_zero(0, 1, slot_count(chunks@, symlinks()));
            lemma_sum_zero(0, 1, slot_count(chunks@, duplicates()));
            lemma_sum_zero(0, 1, slot_count(chunks@, leading()));
        }
        Walk {
            chunks,
            errors: Vec::new(),
            max_depth,
            counts: Progress::default(),
            places: Ghost(top),
            read: Ghost(unread),
        }
    }

    /// Whether the directory of a task is to be read. One at the depth to stop
    /// at is not, and that can only be the root: nothing deeper is queued.
    pub fn reads(&self, task: &Task) -> (read: bool)
        requires
            self@.wf(),
            self@.awaits(*task),
        ensures
            read == self@.reads(task.slot as int),
            !read ==> task.slot == 0 && self@.max_depth == 0,
    {
        assert(task.slot > 0 ==> self@.places[task.slot as int].len() < self@.max_depth);
        task.depth < self.max_depth
    }

    /// How many slots have been given out.
    pub fn slots(&self) -> (n: usize)
        ensures
            n == self@.chunks.len(),
    {
        self.chunks.len()
    }

    /// Adds a slot and says which it is.
    fn reserve_slot(&mut self) -> (slot: u32)
        requires
            old(self)@.chunks.len() < NO_CHUNK,
        ensures
            slot == old(self)@.chunks.len(),
            final(self)@ == (WalkView {
                chunks: old(self)@.chunks.push(None),
                ..old(self)@
            }),
    {
        self.chunks.push(None);
        (self.chunks.len() - 1) as u32
    }

    /// Fills a slot.
    fn store(&mut self, slot: u32, chunk: DirChunk)
        requires
            slot < old(self)@.chunks.len(),
        ensures
            final(self)@ == (WalkView {
                chunks: old(self)@.chunks.update(slot as int, Some(chunk)),
                ..old(self)@
            }),
    {
        self.chunks.set(slot as usize, Some(chunk));
    }

    /// Counts an error and keeps its text if it is among the first.
    pub fn record_error(&mut self, path: Vec<u8>, message: String, progress: &mut Progress)
        ensures
            final(self)@ == (WalkView {
                errors: final(self)@.errors,
                counts: one_error(old(self)@.counts),
                ..old(self)@
            }),
            sampled(old(self)@.errors, final(self)@.errors, path@, message@),
            old(self)@.wf() ==> final(self)@.wf(),
            *final(progress) == one_error(*old(progress)),
    {
        progress.errors = progress.errors.wrapping_add(1);
        self.counts.errors = self.counts.errors.wrapping_add(1);
        if self.errors.len() < MAX_ERROR_SAMPLES {
            self.errors.push((path, message));
            assert(self.errors@.take(old(self)@.errors.len() as int) == old(self)@.errors);
        }
    }

    /// Fills the slot of a directory that is not read, because the scan was
    /// cancelled or is to stop there: it stays empty.
    pub fn skip(&mut self, slot: u32)
        requires
            old(self)@.wf(),
            old(self)@.waits(slot as int),
        ensures
            final(self)@.wf(),
            final(self)@.errors == old(self)@.errors,
            final(self)@.counts == old(self)@.counts,
            empty_in(old(self)@, final(self)@, slot as int, false),
    {
        let ghost before = self@;
        let chunk = DirChunk { entries: Vec::new(), names: Vec::new(), unreadable: false };
        self.store(slot, chunk);
        proof {
            lemma_stored(before.chunks, self@.chunks, slot as int);
            lemma_empty_placed(
                before.chunks,
                self@.chunks,
                before.places,
                before.max_depth as int,
                slot as int,
            );
            lemma_stored_counts(
                before.chunks,
                self@.chunks,
                before.read,
                before.counts,
                slot as int,
            );
        }
    }

    /// Fills the slot of a directory that could not be opened.
    pub fn refuse(&mut self, slot: u32, path: Vec<u8>, message: String, progress: &mut Progress)
        requires
            old(self)@.wf(),
            old(self)@.waits(slot as int),
        ensures
            final(self)@.wf(),
            sampled(old(self)@.errors, final(self)@.errors, path@, message@),
            empty_in(old(self)@, final(self)@, slot as int, true),
            final(self)@.counts == one_error(old(self)@.counts),
            *final(progress) == one_error(*old(progress)),
    {
        self.record_error(path, message, progress);
        let ghost before = self@;
        let chunk = DirChunk { entries: Vec::new(), names: Vec::new(), unreadable: true };
        self.store(slot, chunk);
        proof {
            lemma_stored(before.chunks, self@.chunks, slot as int);
            lemma_empty_placed(
                before.chunks,
                self@.chunks,
                before.places,
                before.max_depth as int,
                slot as int,
            );
            lemma_stored_counts(
                before.chunks,
                self@.chunks,
                before.read,
                before.counts,
                slot as int,
            );
        }
    }

    /// Publishes what was read of a directory and queues its subdirectories.
    /// `failure` is the error the reading stopped at, if it did; what was read
    /// up to there is kept. `progress` holds what the task counted while it read
    /// and joins the counts of the walk. Slots are reserved before the chunk is stored, so
    /// that no entry ever points at a slot that does not exist.
    pub fn publish(
        &mut self,
        slot: u32,
        chunk: DirChunk,
        subdirs: Vec<Subdir>,
        depth: u8,
        failure: Option<(Vec<u8>, String)>,
        progress: &mut Progress,
    ) -> (tasks: Vec<Task>)
        requires
            old(self)@.wf(),
            old(self)@.waits(slot as int),
            old(self)@.reads(slot as int),
            depth == old(self)@.places[slot as int].len(),
            fresh(chunk),
            tallied(chunk, *old(progress)),
            subdirs_ok(chunk, subdirs@),
            subdirs@.len() > 0 ==> depth + 1 < old(self)@.max_depth,
            old(self)@.chunks.len() + subdirs@.len() < NO_CHUNK,
        ensures
            final(self)@.wf(),
            final(self)@.max_depth == old(self)@.max_depth,
            final(self)@.places == old(self)@.places + places_below(
                old(self)@.places[slot as int],
                subdirs@,
            ),
            final(self)@.read == old(self)@.read.update(slot as int, true) + Seq::new(
                subdirs@.len(),
                |i: int| false,
            ),
            final(self)@.counts == joined_counts(old(self)@.counts, *old(progress), failure is Some),
            final(self)@.chunks.len() == old(self)@.chunks.len() + subdirs@.len(),
            forall|s: int|
                0 <= s < old(self)@.chunks.len() && s != slot ==> #[trigger] final(self)@.chunks[s]
                    == old(self)@.chunks[s],
            forall|s: int|
                old(self)@.chunks.len() <= s < final(self)@.chunks.len()
                    ==> #[trigger] final(self)@.chunks[s] is None,
            final(self)@.chunks[slot as int] matches Some(stored) && stored.names == chunk.names
                && linked(
                chunk.entries@,
                stored.entries@,
                subdirs@,
                old(self)@.chunks.len() as int,
            ) && stored.unreadable == (chunk.unreadable || failure is Some) && forall|
                items: Seq<Item>,
            | #[trigger]
                gathered(chunk, subdirs@, items) ==> holds(
                    stored,
                    Listing { items, unreadable: stored.unreadable },
                ),
            match failure {
                Some((path, message)) => sampled(
                    old(self)@.errors,
                    final(self)@.errors,
                    path@,
                    message@,
                ),
                None => final(self)@.errors == old(self)@.errors,
            },
            tasks@.len() == subdirs@.len(),
            forall|i: int|
                0 <= i < tasks@.len() ==> (#[trigger] tasks@[i]).name@ == subdirs@[i].name@
                    && tasks@[i].slot == old(self)@.chunks.len() + i && tasks@[i].depth == depth + 1
                    && final(self)@.awaits(tasks@[i]) && final(self)@.reads(tasks@[i].slot as int),
            *final(progress) == (Progress {
                dirs: old(progress).dirs.wrapping_add(1),
                errors: if failure is Some {
                    old(progress).errors.wrapping_add(1)
                } else {
                    old(progress).errors
                },
                ..*old(progress)
            }),
    {
        let ghost chunk0 = chunk;
        let ghost walk0 = self@;
        let mut chunk = chunk;
        if let Some((path, message)) = failure {
            self.record_error(path, message, progress);
            chunk.unreadable = true;
        }
        progress.dirs = progress.dirs.wrapping_add(1);
        self.counts.dirs = self.counts.dirs.wrapping_add(1);
        self.counts.files = self.counts.files.wrapping_add(progress.files);
        self.counts.symlinks = self.counts.symlinks.wrapping_add(progress.symlinks);
        self.counts.hardlink_dups = self.counts.hardlink_dups.wrapping_add(progress.hardlink_dups);
        self.counts.bytes = self.counts.bytes.wrapping_add(progress.bytes);
        let ghost counts1 = self@.counts;
        let ghost errors1 = self@.errors;

        let below: u8 = depth + 1;
        let ghost given = subdirs@;
        let ghost base = walk0.chunks.len() as int;
        let mut tasks: Vec<Task> = Vec::new();
        proof {
            lemma_fresh_leads_nowhere(chunk0);
        }
        for i in 0..subdirs.len()
            invariant
                given == subdirs@,
                subdirs_ok(chunk0, given),
                base == walk0.chunks.len(),
                base + given.len() < NO_CHUNK,
                tasks@.len() == i,
                self@.errors == errors1,
                self@.counts == counts1,
                self@.read == walk0.read,
                self@.max_depth == walk0.max_depth,
                self@.places == walk0.places,
                self@.chunks.len() == base + i,
                self@.chunks.take(base) == walk0.chunks,
                forall|s: int| base <= s < self@.chunks.len() ==> self@.chunks[s] is None,
                linked(chunk0.entries@, chunk.entries@, given.take(i as int), base),
                fresh(chunk0),
                chunk_count(chunk.entries@, leading()) == i,
                chunk.names == chunk0.names,
                chunk.unreadable == (chunk0.unreadable || failure is Some),
                below == depth + 1,
                forall|j: int|
                    0 <= j < i ==> (#[trigger] tasks@[j]).name@ == given[j].name@ && tasks@[j].slot
                        == base + j && tasks@[j].depth == below,
        {
            let ghost entries1 = chunk.entries@;
            let ghost chunks1 = self@.chunks;
            let subdir = &subdirs[i];
            let slot: u32 = self.reserve_slot();
            let mut e = chunk.entries[subdir.index];
            e.chunk = slot;
            chunk.entries.set(subdir.index, e);
            proof {
                lemma_link(chunk0.entries@, entries1, chunk.entries@, given, i as int, base);
                lemma_link_counts(chunk0.entries@, entries1, given, i as int, base, e);
                assert(self@.chunks.take(base) == chunks1.take(base));
            }
            tasks.push(Task { name: copied(subdir.name.as_slice()), slot, depth: below });
        }
        assert(given.take(tasks@.len() as int) == given);
        let ghost open = self@.chunks;
        self.store(slot, chunk);
        proof {
            assert forall|s: int| 0 <= s < base && s != slot implies #[trigger] self@.chunks[s]
                == walk0.chunks[s] by {
                assert(open.take(base)[s] == open[s]);
            }
            lemma_published(walk0.chunks, self@.chunks, slot as int, chunk0, chunk, given);
            lemma_publish_placed(
                walk0.chunks,
                self@.chunks,
                walk0.places,
                walk0.max_depth as int,
                slot as int,
                chunk0,
                chunk,
                given,
            );
        }
        proof {
            assert forall|items: Seq<Item>| #[trigger]
                gathered(chunk0, given, items) implies holds(
                chunk,
                Listing { items, unreadable: chunk.unreadable },
            ) by {
                lemma_gathered_holds(chunk0, given, items, chunk, base);
            }
        }
        proof {
            lemma_published_counts(
                walk0.chunks,
                self@.chunks,
                walk0.read,
                walk0.counts,
                slot as int,
                chunk0,
                chunk,
                given,
                *old(progress),
                failure is Some,
            );
        }
        self.read = Ghost(
            walk0.read.update(slot as int, true) + Seq::new(given.len(), |i: int| false),
        );
        self.places = Ghost(walk0.places + places_below(walk0.places[slot as int], given));
        proof {
            assert forall|i: int| 0 <= i < tasks@.len() implies self@.places[(
            #[trigger] tasks@[i]).slot as int] == walk0.places[slot as int].push(
                given[i].name@,
            ) by {
                assert(tasks@[i].slot == base + i);
            }
        }
        tasks
    }

    /// The slots, the error samples and the counts, once the walk is over.
    pub fn into_parts(self) -> (parts: (Vec<Option<DirChunk>>, Vec<(Vec<u8>, String)>, Progress))
        ensures
            parts.0@ == self@.chunks,
            parts.1@ == self@.errors,
            parts.2 == self@.counts,
    {
        (self.chunks, self.errors, self.counts)
    }
}

/// Slot `slot` was filled with no entries; nothing else changed.
pub open spec fn empty_in(
    before: WalkView,
    after: WalkView,
    slot: int,
    unreadable: bool,
) -> bool {
    &&& after.chunks.len() == before.chunks.len()
    &&& after.max_depth == before.max_depth
    &&& after.places == before.places
    &&& after.read == before.read
    &&& forall|s: int|
        0 <= s < before.chunks.len() && s != slot ==> #[trigger] after.chunks[s]
            == before.chunks[s]
    &&& after.chunks[slot] matches Some(c) && c.entries@.len() == 0 && c.names@.len() == 0
        && c.unreadable == unreadable
}

/// Filling a waiting slot with an empty chunk keeps every slot owned.
proof fn lemma_stored(before: Seq<Option<DirChunk>>, after: Seq<Option<DirChunk>>, slot: int)
    requires
        chunks_wf(before),
        all_owned(before),
        0 <= slot < before.len(),
        before[slot] is None,
        after == before.update(slot, after[slot]),
        after[slot] is Some,
        after[slot]->0.entries@.len() == 0,
    ensures
        chunks_wf(after),
        all_owned(after),
{
    assert forall|s: int| 0 <= s < after.len() implies (#[trigger] after[s] matches Some(c) ==> c.wf(
        after.len() as int,
    )) by {
        if s == slot {
            after[slot]->0.lemma_empty(after.len() as int);
        }
        assert(before[s] is Some || before[s] is None);
    }
    assert forall|s: int| 1 <= s < after.len() implies #[trigger] has_owner(after, s) by {
        assert(has_owner(before, s));
        let (o, k) = choose|o: int, k: int| #[trigger] owns(before, s, o, k);
        assert(owns(after, s, o, k));
    }
}

/// Giving the next subdirectory its slot.
proof fn lemma_link(
    entries0: Seq<RawEntry>,
    before: Seq<RawEntry>,
    after: Seq<RawEntry>,
    subdirs: Seq<Subdir>,
    n: int,
    base: int,
)
    requires
        0 <= n < subdirs.len(),
        linked(entries0, before, subdirs.take(n), base),
        subdirs[n].index < entries0.len(),
        forall|i: int, j: int|
            0 <= i < j < subdirs.len() ==> (#[trigger] subdirs[i]).index < (
            #[trigger] subdirs[j]).index,
        after == before.update(
            subdirs[n].index as int,
            RawEntry { chunk: (base + n) as u32, ..before[subdirs[n].index as int] },
        ),
    ensures
        linked(entries0, after, subdirs.take(n + 1), base),
{
    let less = subdirs.take(n);
    let more = subdirs.take(n + 1);
    let at = subdirs[n].index as int;
    assert forall|i: int| 0 <= i < less.len() implies (#[trigger] less[i]).index != at by {
        assert(less[i] == subdirs[i]);
        assert(subdirs[i].index < subdirs[n].index);
    }
    assert(before[at] == entries0[at]);
    assert forall|i: int| 0 <= i < more.len() implies after[(#[trigger] more[i]).index as int] == (
    RawEntry { chunk: (base + i) as u32, ..entries0[more[i].index as int] }) by {
        assert(more[i] == subdirs[i]);
        if i < n {
            assert(less[i] == subdirs[i]);
            assert(subdirs[i].index < subdirs[n].index);
        }
    }
    assert forall|k: int|
        0 <= k < entries0.len() && (forall|i: int|
            0 <= i < more.len() ==> (#[trigger] more[i]).index != k) implies #[trigger] after[k]
        == entries0[k] by {
        assert(more[n].index != k);
        assert forall|i: int| 0 <= i < less.len() implies (#[trigger] less[i]).index != k by {
            assert(more[i] == less[i]);
        }
        assert(before[k] == entries0[k]);
    }
}

/// Publishing keeps the slots well formed and owned.
proof fn lemma_published(
    before: Seq<Option<DirChunk>>,
    after: Seq<Option<DirChunk>>,
    slot: int,
    chunk0: DirChunk,
    chunk: DirChunk,
    subdirs: Seq<Subdir>,
)
    requires
        chunks_wf(before),
        all_owned(before),
        0 <= slot < before.len(),
        before[slot] is None,
        fresh(chunk0),
        subdirs_ok(chunk0, subdirs),
        after.len() == before.len() + subdirs.len(),
        after.len() < NO_CHUNK,
        after[slot] == Some(chunk),
        linked(chunk0.entries@, chunk.entries@, subdirs, before.len() as int),
        chunk.names == chunk0.names,
        forall|s: int|
            0 <= s < before.len() && s != slot ==> #[trigger] after[s] == before[s],
        forall|s: int| before.len() <= s < after.len() ==> #[trigger] after[s] is None,
    ensures
        chunks_wf(after),
        all_owned(after),
{
    assert(chunk.wf(after.len() as int)) by {
        assert forall|k: int| 0 <= k < chunk0.entries@.len() implies (
        #[trigger] chunk.entries@[k]).name_len == chunk0.entries@[k].name_len by {
            if exists|i: int| 0 <= i < subdirs.len() && (#[trigger] subdirs[i]).index == k {
                let i = choose|i: int| 0 <= i < subdirs.len() && (#[trigger] subdirs[i]).index == k;
                assert(chunk.entries@[subdirs[i].index as int].name_len
                    == chunk0.entries@[k].name_len);
            } else {
                assert(chunk.entries@[k] == chunk0.entries@[k]);
            }
        }
        chunk0.lemma_same_names(chunk);
        assert forall|k: int| 0 <= k < chunk.entries@.len() implies {
            let e = #[trigger] chunk.entries@[k];
            &&& e.name_off + e.name_len <= chunk.names@.len()
            &&& e.chunk != NO_CHUNK ==> e.chunk < after.len() && has_flag(e.flags, flags::DIR)
            &&& has_flag(e.flags, flags::DIR) ==> e.logical == 0 && e.physical == 0
        } by {
            let e0 = chunk0.entries@[k];
            assert(e0.name_off + e0.name_len <= chunk0.names@.len());
            if exists|i: int| 0 <= i < subdirs.len() && (#[trigger] subdirs[i]).index == k {
                let i = choose|i: int| 0 <= i < subdirs.len() && (#[trigger] subdirs[i]).index == k;
                assert(chunk.entries@[subdirs[i].index as int] == (RawEntry {
                    chunk: (before.len() + i) as u32,
                    ..e0
                }));
            } else {
                assert(chunk.entries@[k] == e0);
            }
        }
    }
    assert forall|s: int| 0 <= s < after.len() implies (#[trigger] after[s] matches Some(c) ==> c.wf(
        after.len() as int,
    )) by {
        if s < before.len() && s != slot {
            if let Some(c) = before[s] {
                assert(c.wf(before.len() as int));
            }
        }
    }
    assert forall|s: int| 1 <= s < after.len() implies #[trigger] has_owner(after, s) by {
        if s < before.len() {
            assert(has_owner(before, s));
            let (o, k) = choose|o: int, k: int| #[trigger] owns(before, s, o, k);
            assert(owns(after, s, o, k));
        } else {
            let i = s - before.len();
            let d = subdirs[i];
            assert(chunk.entries@[d.index as int].chunk == s);
            assert(owns(after, s, slot, d.index as int));
        }
    }
}

/// A chunk that is being filled has given out no slot.
proof fn lemma_fresh_leads_nowhere(chunk: DirChunk)
    requires
        fresh(chunk),
    ensures
        chunk_count(chunk.entries@, leading()) == 0,
{
    reveal(chunk_count);
    let f = entry_worth(chunk.entries@, leading());
    assert forall|k: int| 0 <= k < chunk.entries@.len() implies #[trigger] f(k) == 0 by {
        assert(chunk.entries@[k].chunk == NO_CHUNK);
    }
    lemma_sum_zero(0, chunk.entries@.len() as int, f);
}

/// Giving an entry its slot counts it as leading on.
proof fn lemma_link_counts(
    entries0: Seq<RawEntry>,
    before: Seq<RawEntry>,
    subdirs: Seq<Subdir>,
    n: int,
    base: int,
    e: RawEntry,
)
    requires
        0 <= n < subdirs.len(),
        0 <= base,
        base + subdirs.len() < NO_CHUNK,
        linked(entries0, before, subdirs.take(n), base),
        subdirs[n].index < entries0.len(),
        forall|k: int| 0 <= k < entries0.len() ==> (#[trigger] entries0[k]).chunk == NO_CHUNK,
        forall|i: int, j: int|
            0 <= i < j < subdirs.len() ==> (#[trigger] subdirs[i]).index < (
            #[trigger] subdirs[j]).index,
        e == (RawEntry { chunk: (base + n) as u32, ..before[subdirs[n].index as int] }),
    ensures
        chunk_count(before.update(subdirs[n].index as int, e), leading()) == chunk_count(
            before,
            leading(),
        ) + 1,
{
    let at = subdirs[n].index as int;
    let less = subdirs.take(n);
    assert forall|i: int| 0 <= i < less.len() implies (#[trigger] less[i]).index != at by {
        assert(less[i] == subdirs[i]);
        assert(subdirs[i].index < subdirs[n].index);
    }
    assert(before[at] == entries0[at]);
    lemma_count_update(before, at, e, leading());
}

/// Publishing keeps the counts those of the chunks.
proof fn lemma_published_counts(
    before: Seq<Option<DirChunk>>,
    after: Seq<Option<DirChunk>>,
    read: Seq<bool>,
    counts: Progress,
    slot: int,
    chunk0: DirChunk,
    chunk: DirChunk,
    subdirs: Seq<Subdir>,
    task: Progress,
    failed: bool,
)
    requires
        counted_in(before, read, counts),
        all_linked(before),
        0 <= slot < before.len(),
        before[slot] is None,
        !read[slot],
        after.len() == before.len() + subdirs.len(),
        after.len() < NO_CHUNK,
        after[slot] == Some(chunk),
        forall|s: int|
            0 <= s < before.len() && s != slot ==> #[trigger] after[s] == before[s],
        forall|s: int| before.len() <= s < after.len() ==> #[trigger] after[s] is None,
        tallied(chunk0, task),
        linked(chunk0.entries@, chunk.entries@, subdirs, before.len() as int),
        chunk_count(chunk.entries@, leading()) == subdirs.len(),
    ensures
        counted_in(
            after,
            read.update(slot, true) + Seq::new(subdirs.len(), |i: int| false),
            joined_counts(counts, task, failed),
        ),
        all_linked(after),
{
    let (a, b) = (chunk0.entries@, chunk.entries@);
    assert forall|k: int| 0 <= k < a.len() implies (#[trigger] b[k]).flags == a[k].flags by {
        if exists|i: int| 0 <= i < subdirs.len() && (#[trigger] subdirs[i]).index == k {
            let i = choose|i: int| 0 <= i < subdirs.len() && (#[trigger] subdirs[i]).index == k;
            assert(b[subdirs[i].index as int].flags == a[k].flags);
        } else {
            assert(b[k] == a[k]);
        }
    }
    lemma_same_flags(a, b, files());
    lemma_same_flags(a, b, symlinks());
    lemma_same_flags(a, b, duplicates());
    lemma_fill_slot(before, after, slot, files());
    lemma_fill_slot(before, after, slot, symlinks());
    lemma_fill_slot(before, after, slot, duplicates());
    lemma_fill_slot(before, after, slot, leading());
    lemma_read_one(read, slot, subdirs.len());
    lemma_read_bounds(read);
}

/// Filling a waiting slot with no entries changes no count.
proof fn lemma_stored_counts(
    before: Seq<Option<DirChunk>>,
    after: Seq<Option<DirChunk>>,
    read: Seq<bool>,
    counts: Progress,
    slot: int,
)
    requires
        counted_in(before, read, counts),
        all_linked(before),
        0 <= slot < before.len(),
        before[slot] is None,
        after == before.update(slot, after[slot]),
        after[slot] is Some,
        after[slot]->0.entries@.len() == 0,
    ensures
        counted_in(after, read, counts),
        all_linked(after),
{
    let none = after[slot]->0.entries@;
    lemma_none_count(none, files());
    lemma_none_count(none, symlinks());
    lemma_none_count(none, duplicates());
    lemma_none_count(none, leading());
    lemma_fill_slot(before, after, slot, files());
    lemma_fill_slot(before, after, slot, symlinks());
    lemma_fill_slot(before, after, slot, duplicates());
    lemma_fill_slot(before, after, slot, leading());
}

/// A flattened walk leaves nothing out: every filled slot is met.
pub proof fn lemma_all_met(
    chunks: Seq<Option<DirChunk>>,
    nodes: Seq<Node>,
    names: Seq<u8>,
    slots: Seq<u32>,
)
    requires
        0 < chunks.len() < NO_CHUNK,
        all_owned(chunks),
        unrolled(chunks, nodes, names, slots, nodes.len() as int),
    ensures
        all_met(chunks, slots),
{
    assert forall|s: int| 0 <= s < chunks.len() && (#[trigger] chunks[s]) is Some implies exists|
        k: int,
    |
        0 <= k < slots.len() && #[trigger] slots[k] == s by {
        let k = lemma_met(chunks, nodes, names, slots, s);
        assert(slots[k] == s);
    }
}

proof fn lemma_met(
    chunks: Seq<Option<DirChunk>>,
    nodes: Seq<Node>,
    names: Seq<u8>,
    slots: Seq<u32>,
    s: int,
) -> (k: int)
    requires
        0 < chunks.len() < NO_CHUNK,
        all_owned(chunks),
        unrolled(chunks, nodes, names, slots, nodes.len() as int),
        0 <= s < chunks.len(),
    ensures
        0 <= k < slots.len(),
        slots[k] == s,
    decreases s,
{
    if s == 0 {
        0
    } else {
        assert(has_owner(chunks, s));
        let (o, j) = choose|o: int, j: int| #[trigger] owns(chunks, s, o, j);
        let some = lemma_met(chunks, nodes, names, slots, o);
        let first = lemma_first_met(slots, some);
        assert(expands(chunks, slots, first));
        assert(arity(chunks, slots)(first) == chunks[o]->0.entries@.len());
        assert(child_ok(chunks, nodes, names, slots, nodes.len() as int, first, j));
        first_child(chunks, slots, first) + j
    }
}

/// The first node that names the slot node `k` names.
proof fn lemma_first_met(slots: Seq<u32>, k: int) -> (first: int)
    requires
        0 <= k < slots.len(),
    ensures
        0 <= first <= k,
        slots[first] == slots[k],
        forall|j: int| 0 <= j < first ==> #[trigger] slots[j] != slots[first],
    decreases k,
{
    if exists|j: int| 0 <= j < k && #[trigger] slots[j] == slots[k] {
        let j = choose|j: int| 0 <= j < k && #[trigger] slots[j] == slots[k];
        lemma_first_met(slots, j)
    } else {
        k
    }
}

} // verus!
