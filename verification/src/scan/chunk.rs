//! One directory's entries, as collected before the tree is assembled.

use vstd::prelude::*;

use crate::sums::{lemma_sum_bounds, lemma_sum_same, lemma_sum_split, sum};
use crate::tree::flags;
use crate::tree::has_flag;

verus! {

/// Marks an entry whose children were not read.
pub const NO_CHUNK: u32 = u32::MAX;

/// Entry as stored in a chunk, before flattening: the name is an offset into
/// the chunk's shared name buffer.
#[derive(Clone, Copy, Debug, PartialEq, Eq, Structural)]
pub struct RawEntry {
    pub name_off: u32,
    pub name_len: u16,
    pub flags: u8,
    /// Slot holding this entry's children, or [`NO_CHUNK`].
    pub chunk: u32,
    pub logical: u64,
    pub physical: u64,
}

/// The entries of one directory and the bytes of their names.
#[derive(Debug)]
pub struct DirChunk {
    pub entries: Vec<RawEntry>,
    pub names: Vec<u8>,
    /// The directory itself could not be read.
    pub unreadable: bool,
}

impl RawEntry {
    /// The entry's own size: blocks on disk, or apparent length.
    pub open spec fn spec_size(&self, physical: bool) -> u64 {
        if physical {
            self.physical
        } else {
            self.logical
        }
    }
}

impl DirChunk {
    /// The bytes of the name of entry `k`.
    pub open spec fn entry_name(&self, k: int) -> Seq<u8> {
        let e = self.entries@[k];
        self.names@.subrange(e.name_off as int, e.name_off + e.name_len)
    }

    /// The buffer has room for all names side by side and every name lies
    /// inside it, only a directory has children, a directory weighs nothing of
    /// its own, and every slot exists.
    pub open spec fn wf(&self, slots: int) -> bool {
        &&& self.own_names() <= self.names@.len()
        &&& forall|k: int| 0 <= k < self.entries@.len() ==> {
            let e = #[trigger] self.entries@[k];
            &&& e.name_off + e.name_len <= self.names@.len()
            &&& e.chunk != NO_CHUNK ==> e.chunk < slots && has_flag(e.flags, flags::DIR)
            &&& has_flag(e.flags, flags::DIR) ==> e.logical == 0 && e.physical == 0
        }
    }

    /// Bytes of the names of all entries together.
    #[verifier::opaque]
    pub open spec fn own_names(&self) -> int {
        sum(0, self.entries@.len() as int, |k: int| self.entries@[k].name_len as int)
    }

    /// One more entry brings its own name.
    pub proof fn lemma_names_grow(&self, after: DirChunk)
        requires
            after.entries@.len() == self.entries@.len() + 1,
            after.entries@.drop_last() == self.entries@,
        ensures
            after.own_names() == self.own_names() + after.entries@.last().name_len,
    {
        reveal(DirChunk::own_names);
        let n = self.entries@.len() as int;
        let f = |k: int| self.entries@[k].name_len as int;
        let g = |k: int| after.entries@[k].name_len as int;
        assert forall|k: int| 0 <= k < n implies #[trigger] f(k) == g(k) by {
            assert(after.entries@.drop_last()[k] == after.entries@[k]);
        }
        lemma_sum_same(0, n, f, g);
    }

    /// Only the lengths of the names count.
    pub proof fn lemma_same_names(&self, after: DirChunk)
        requires
            after.entries@.len() == self.entries@.len(),
            forall|k: int|
                0 <= k < self.entries@.len() ==> (#[trigger] after.entries@[k]).name_len
                    == self.entries@[k].name_len,
        ensures
            after.own_names() == self.own_names(),
    {
        reveal(DirChunk::own_names);
        let n = self.entries@.len() as int;
        let f = |k: int| self.entries@[k].name_len as int;
        let g = |k: int| after.entries@[k].name_len as int;
        assert forall|k: int| 0 <= k < n implies #[trigger] f(k) == g(k) by {
            assert(after.entries@[k].name_len == self.entries@[k].name_len);
        }
        lemma_sum_same(0, n, f, g);
    }

    /// A chunk without entries is well formed.
    pub proof fn lemma_empty(&self, slots: int)
        requires
            self.entries@.len() == 0,
        ensures
            self.wf(slots),
    {
        reveal(DirChunk::own_names);
    }

    /// Total of the entries' own sizes.
    pub open spec fn own_size(&self, physical: bool) -> int {
        sum(0, self.entries@.len() as int, |k: int| self.entries@[k].spec_size(physical) as int)
    }
}

/// How many entries slot `s` holds.
pub open spec fn slot_entries(chunks: Seq<Option<DirChunk>>) -> spec_fn(int) -> int {
    |s: int|
        match chunks[s] {
            Some(c) => c.entries@.len() as int,
            None => 0,
        }
}

/// How many bytes of names slot `s` holds.
pub open spec fn slot_names(chunks: Seq<Option<DirChunk>>) -> spec_fn(int) -> int {
    |s: int|
        match chunks[s] {
            Some(c) => c.names@.len() as int,
            None => 0,
        }
}

/// What the entries in slot `s` weigh.
pub open spec fn slot_size(chunks: Seq<Option<DirChunk>>, physical: bool) -> spec_fn(int) -> int {
    |s: int|
        match chunks[s] {
            Some(c) => c.own_size(physical),
            None => 0,
        }
}

/// Entries in all slots together.
pub open spec fn total_entries(chunks: Seq<Option<DirChunk>>) -> int {
    sum(0, chunks.len() as int, slot_entries(chunks))
}

/// Bytes of names in all slots together.
pub open spec fn total_names(chunks: Seq<Option<DirChunk>>) -> int {
    sum(0, chunks.len() as int, slot_names(chunks))
}

/// What all slots weigh together.
pub open spec fn total_size(chunks: Seq<Option<DirChunk>>, physical: bool) -> int {
    sum(0, chunks.len() as int, slot_size(chunks, physical))
}

/// Every filled slot is well formed.
pub open spec fn chunks_wf(chunks: Seq<Option<DirChunk>>) -> bool {
    forall|s: int|
        0 <= s < chunks.len() ==> (#[trigger] chunks[s] matches Some(c) ==> c.wf(
            chunks.len() as int,
        ))
}

/// The tree the chunks make can be indexed: its nodes by 32 bits with room for
/// one more, its names by 32-bit offsets, its sizes by 64 bits.
pub open spec fn chunks_fit(chunks: Seq<Option<DirChunk>>) -> bool {
    &&& total_entries(chunks) + 1 <= u32::MAX
    &&& total_names(chunks) <= u32::MAX
    &&& total_size(chunks, true) <= u64::MAX
    &&& total_size(chunks, false) <= u64::MAX
}

/// What all slots hold together: entries, bytes of names, and both sizes.
#[derive(Clone, Copy, Debug, PartialEq, Eq, Structural)]
pub struct Totals {
    pub entries: u64,
    pub names: u64,
    pub physical: u64,
    pub logical: u64,
}

/// What one chunk weighs, or none if that does not fit 64 bits.
fn weigh(chunk: &DirChunk) -> (sizes: Option<(u64, u64)>)
    ensures
        match sizes {
            Some((physical, logical)) => physical == chunk.own_size(true) && logical
                == chunk.own_size(false),
            None => chunk.own_size(true) > u64::MAX || chunk.own_size(false) > u64::MAX,
        },
{
    let ghost n = chunk.entries@.len() as int;
    let ghost p = |k: int| chunk.entries@[k].spec_size(true) as int;
    let ghost l = |k: int| chunk.entries@[k].spec_size(false) as int;
    let mut physical: u64 = 0;
    let mut logical: u64 = 0;
    for k in 0..chunk.entries.len()
        invariant
            n == chunk.entries@.len(),
            p == (|k: int| chunk.entries@[k].spec_size(true) as int),
            l == (|k: int| chunk.entries@[k].spec_size(false) as int),
            physical == sum(0, k as int, p),
            logical == sum(0, k as int, l),
    {
        let e = chunk.entries[k];
        proof {
            lemma_sum_split(0, k + 1, n, p);
            lemma_sum_split(0, k + 1, n, l);
            lemma_sum_bounds(k + 1, n, p);
            lemma_sum_bounds(k + 1, n, l);
            assert(sum(0, k + 1, p) == sum(0, k as int, p) + p(k as int));
            assert(sum(0, k + 1, l) == sum(0, k as int, l) + l(k as int));
        }
        match (physical.checked_add(e.physical), logical.checked_add(e.logical)) {
            (Some(a), Some(b)) => {
                physical = a;
                logical = b;
            },
            _ => return None,
        }
    }
    Some((physical, logical))
}

/// No slot holds less than nothing.
pub proof fn lemma_slots_hold(chunks: Seq<Option<DirChunk>>)
    ensures
        forall|s: int| 0 <= #[trigger] slot_entries(chunks)(s),
        forall|s: int| 0 <= #[trigger] slot_names(chunks)(s),
        forall|s: int, physical: bool| 0 <= #[trigger] slot_size(chunks, physical)(s),
{
    assert forall|s: int, physical: bool| 0 <= #[trigger] slot_size(chunks, physical)(s) by {
        if let Some(c) = chunks[s] {
            lemma_sum_bounds(
                0,
                c.entries@.len() as int,
                |k: int| c.entries@[k].spec_size(physical) as int,
            );
        }
    }
}

/// Adds the slots up, or says that the totals do not fit 64 bits.
pub fn totals(chunks: &Vec<Option<DirChunk>>) -> (sums: Option<Totals>)
    ensures
        match sums {
            Some(t) => t.entries == total_entries(chunks@) && t.names == total_names(chunks@)
                && t.physical == total_size(chunks@, true) && t.logical == total_size(
                chunks@,
                false,
            ),
            None => total_entries(chunks@) > u64::MAX || total_names(chunks@) > u64::MAX
                || total_size(chunks@, true) > u64::MAX || total_size(chunks@, false) > u64::MAX,
        },
{
    let ghost n = chunks@.len() as int;
    let mut t = Totals { entries: 0, names: 0, physical: 0, logical: 0 };
    for s in 0..chunks.len()
        invariant
            n == chunks@.len(),
            t.entries == sum(0, s as int, slot_entries(chunks@)),
            t.names == sum(0, s as int, slot_names(chunks@)),
            t.physical == sum(0, s as int, slot_size(chunks@, true)),
            t.logical == sum(0, s as int, slot_size(chunks@, false)),
    {
        proof {
            lemma_slots_hold(chunks@);
            lemma_sum_split(0, s + 1, n, slot_entries(chunks@));
            lemma_sum_split(0, s + 1, n, slot_names(chunks@));
            lemma_sum_split(0, s + 1, n, slot_size(chunks@, true));
            lemma_sum_split(0, s + 1, n, slot_size(chunks@, false));
            lemma_sum_bounds(s + 1, n, slot_entries(chunks@));
            lemma_sum_bounds(s + 1, n, slot_names(chunks@));
            lemma_sum_bounds(s + 1, n, slot_size(chunks@, true));
            lemma_sum_bounds(s + 1, n, slot_size(chunks@, false));
            lemma_sum_bounds(0, s as int, slot_entries(chunks@));
            lemma_sum_bounds(0, s as int, slot_names(chunks@));
            lemma_sum_bounds(0, s as int, slot_size(chunks@, true));
            lemma_sum_bounds(0, s as int, slot_size(chunks@, false));
        }
        if let Some(chunk) = &chunks[s] {
            match weigh(chunk) {
                None => return None,
                Some((physical, logical)) => {
                    let entries = t.entries.checked_add(chunk.entries.len() as u64);
                    let names = t.names.checked_add(chunk.names.len() as u64);
                    let physical = t.physical.checked_add(physical);
                    let logical = t.logical.checked_add(logical);
                    match (entries, names, physical, logical) {
                        (Some(entries), Some(names), Some(physical), Some(logical)) => {
                            t = Totals { entries, names, physical, logical };
                        },
                        _ => return None,
                    }
                },
            }
        }
    }
    Some(t)
}

} // verus!
