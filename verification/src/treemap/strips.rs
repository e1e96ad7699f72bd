//! Cutting a list of items into strips.
//!
//! Each pass picks the longest prefix whose worst aspect ratio still improves
//! and lays it as a strip across the shorter side. Which prefix that is depends
//! on the geometry and is decided by the caller; what is kept here is which
//! items the strip holds and how much is left. Keeping that in size units
//! rather than pixels is what makes the area budget exact.

use vstd::prelude::*;

use crate::sums::{lemma_sum_bounds, lemma_sum_first, lemma_sum_split, sum};
use crate::tree::NodeId;
use crate::treemap::item_size;

verus! {

/// The strip being filled and what remains to be placed, itself included.
#[derive(Clone, Copy, Debug, PartialEq, Eq, Structural)]
pub struct Strip {
    /// First item of the strip.
    pub start: usize,
    /// How many items it holds.
    pub count: usize,
    /// What they weigh together.
    pub size: u64,
    /// What this strip's items and all later ones weigh.
    pub remaining: u64,
}

impl Strip {
    pub open spec fn wf(&self, items: Seq<(NodeId, u64)>) -> bool {
        &&& self.start + self.count <= items.len()
        &&& self.size == sum(self.start as int, self.start + self.count, item_size(items))
        &&& self.remaining == sum(self.start as int, items.len() as int, item_size(items))
    }

    /// The first strip, still empty.
    pub fn new(items: &Vec<(NodeId, u64)>, total: u64) -> (strip: Strip)
        requires
            total == sum(0, items@.len() as int, item_size(items@)),
        ensures
            strip.wf(items@),
            strip == (Strip { start: 0, count: 0, size: 0, remaining: total }),
    {
        Strip { start: 0, count: 0, size: 0, remaining: total }
    }

    /// The next item on offer, and what the strip would weigh with it.
    pub fn offer(&self, items: &Vec<(NodeId, u64)>) -> (next: Option<(u64, u64)>)
        requires
            self.wf(items@),
        ensures
            match next {
                Some((item, candidate)) => self.start + self.count < items@.len() && item
                    == items@[self.start + self.count].1 && candidate == self.size + item,
                None => self.start + self.count == items@.len(),
            },
    {
        assert(items@.len() == items.len());
        if self.start + self.count >= items.len() {
            return None;
        }
        let at: usize = self.start + self.count;
        proof {
            let f = item_size(items@);
            let n = items@.len() as int;
            lemma_sum_split(self.start as int, at as int, n, f);
            lemma_sum_first(at as int, n, f);
            lemma_sum_bounds(at + 1, n, f);
        }
        let item: u64 = items[at].1;
        Some((item, self.size + item))
    }

    /// Whether the item on offer is taken: the first one always is, a further
    /// one while the worst aspect ratio improves.
    pub fn takes(&self, improves: bool) -> (taken: bool)
        ensures
            taken == (self.count == 0 || improves),
    {
        self.count == 0 || improves
    }

    /// Takes the item on offer into the strip.
    pub fn take(&mut self, items: &Vec<(NodeId, u64)>)
        requires
            old(self).wf(items@),
            old(self).start + old(self).count < items@.len(),
        ensures
            final(self).wf(items@),
            *final(self) == (Strip {
                count: (old(self).count + 1) as usize,
                size: (old(self).size + items@[old(self).start + old(self).count].1) as u64,
                ..*old(self)
            }),
    {
        assert(items@.len() == items.len());
        let at: usize = self.start + self.count;
        proof {
            let f = item_size(items@);
            let n = items@.len() as int;
            lemma_sum_split(self.start as int, at as int, n, f);
            lemma_sum_first(at as int, n, f);
            lemma_sum_bounds(at + 1, n, f);
            assert(sum(self.start as int, at + 1, f) == sum(self.start as int, at as int, f) + f(
                at as int,
            ));
        }
        self.size = self.size + items[at].1;
        self.count = self.count + 1;
    }

    /// Closes the strip and opens the next one.
    pub fn close(&mut self, items: &Vec<(NodeId, u64)>)
        requires
            old(self).wf(items@),
        ensures
            final(self).wf(items@),
            *final(self) == (Strip {
                start: (old(self).start + old(self).count) as usize,
                count: 0,
                size: 0,
                remaining: (old(self).remaining - old(self).size) as u64,
            }),
            old(self).size <= old(self).remaining,
    {
        proof {
            assert(items@.len() == items.len());
            let f = item_size(items@);
            let n = items@.len() as int;
            let at = self.start + self.count;
            lemma_sum_split(self.start as int, at, n, f);
            lemma_sum_bounds(at, n, f);
        }
        self.start = self.start + self.count;
        self.remaining = self.remaining - self.size;
        self.count = 0;
        self.size = 0;
    }
}

/// When all items have been placed, nothing remains.
pub proof fn lemma_nothing_remains(strip: Strip, items: Seq<(NodeId, u64)>)
    requires
        strip.wf(items),
        strip.start == items.len(),
    ensures
        strip.remaining == 0,
        strip.count == 0,
{
}

} // verus!
