//! Sums over an index range, and the few facts about them the proofs use.

use vstd::prelude::*;

verus! {

/// `f(lo) + f(lo + 1) + ... + f(hi - 1)`.
pub open spec fn sum(lo: int, hi: int, f: spec_fn(int) -> int) -> int
    decreases hi - lo,
{
    if lo >= hi {
        0
    } else {
        sum(lo, hi - 1, f) + f(hi - 1)
    }
}

/// Terms that agree on the range give the same sum.
pub proof fn lemma_sum_same(lo: int, hi: int, f: spec_fn(int) -> int, g: spec_fn(int) -> int)
    requires
        forall|i: int| lo <= i < hi ==> #[trigger] f(i) == g(i),
    ensures
        sum(lo, hi, f) == sum(lo, hi, g),
    decreases hi - lo,
{
    if lo < hi {
        lemma_sum_same(lo, hi - 1, f, g);
        assert(f(hi - 1) == g(hi - 1));
    }
}

/// A range splits at any point inside it.
pub proof fn lemma_sum_split(lo: int, mid: int, hi: int, f: spec_fn(int) -> int)
    requires
        lo <= mid <= hi,
    ensures
        sum(lo, hi, f) == sum(lo, mid, f) + sum(mid, hi, f),
    decreases hi - mid,
{
    if mid < hi {
        lemma_sum_split(lo, mid, hi - 1, f);
    }
}

/// The first term can be taken off the front.
pub proof fn lemma_sum_first(lo: int, hi: int, f: spec_fn(int) -> int)
    requires
        lo < hi,
    ensures
        sum(lo, hi, f) == f(lo) + sum(lo + 1, hi, f),
{
    lemma_sum_split(lo, lo + 1, hi, f);
    assert(sum(lo, lo + 1, f) == sum(lo, lo, f) + f(lo));
}

/// Changing one term changes the sum by as much.
pub proof fn lemma_sum_point(
    lo: int,
    hi: int,
    at: int,
    f: spec_fn(int) -> int,
    g: spec_fn(int) -> int,
)
    requires
        lo <= at < hi,
        forall|i: int| lo <= i < hi && i != at ==> #[trigger] f(i) == g(i),
    ensures
        sum(lo, hi, g) == sum(lo, hi, f) - f(at) + g(at),
{
    lemma_sum_split(lo, at, hi, f);
    lemma_sum_split(lo, at, hi, g);
    lemma_sum_first(at, hi, f);
    lemma_sum_first(at, hi, g);
    lemma_sum_same(lo, at, f, g);
    lemma_sum_same(at + 1, hi, f, g);
}

/// Terms that are never negative add up to at least any one of them.
pub proof fn lemma_sum_bounds(lo: int, hi: int, f: spec_fn(int) -> int)
    requires
        forall|i: int| lo <= i < hi ==> 0 <= #[trigger] f(i),
    ensures
        0 <= sum(lo, hi, f),
        forall|i: int| lo <= i < hi ==> #[trigger] f(i) <= sum(lo, hi, f),
    decreases hi - lo,
{
    if lo < hi {
        lemma_sum_bounds(lo, hi - 1, f);
        assert(0 <= f(hi - 1));
    }
}

/// Smaller terms give a smaller sum.
pub proof fn lemma_sum_le(lo: int, hi: int, f: spec_fn(int) -> int, g: spec_fn(int) -> int)
    requires
        forall|i: int| lo <= i < hi ==> #[trigger] f(i) <= g(i),
    ensures
        sum(lo, hi, f) <= sum(lo, hi, g),
    decreases hi - lo,
{
    if lo < hi {
        lemma_sum_le(lo, hi - 1, f, g);
        assert(f(hi - 1) <= g(hi - 1));
    }
}

/// Sums add up term by term.
pub proof fn lemma_sum_add(
    lo: int,
    hi: int,
    f: spec_fn(int) -> int,
    g: spec_fn(int) -> int,
    h: spec_fn(int) -> int,
)
    requires
        forall|i: int| lo <= i < hi ==> #[trigger] h(i) == f(i) + g(i),
    ensures
        sum(lo, hi, h) == sum(lo, hi, f) + sum(lo, hi, g),
    decreases hi - lo,
{
    if lo < hi {
        lemma_sum_add(lo, hi - 1, f, g, h);
        assert(h(hi - 1) == f(hi - 1) + g(hi - 1));
    }
}

/// A sum of zeros is zero.
pub proof fn lemma_sum_zero(lo: int, hi: int, f: spec_fn(int) -> int)
    requires
        forall|i: int| lo <= i < hi ==> #[trigger] f(i) == 0,
    ensures
        sum(lo, hi, f) == 0,
    decreases hi - lo,
{
    if lo < hi {
        lemma_sum_zero(lo, hi - 1, f);
        assert(f(hi - 1) == 0);
    }
}

/// Shifting the index range of a sum.
pub proof fn lemma_sum_shift(
    lo: int,
    hi: int,
    by: int,
    f: spec_fn(int) -> int,
    g: spec_fn(int) -> int,
)
    requires
        forall|i: int| lo <= i < hi ==> #[trigger] f(i) == g(i + by),
    ensures
        sum(lo, hi, f) == sum(lo + by, hi + by, g),
    decreases hi - lo,
{
    if lo < hi {
        lemma_sum_shift(lo, hi - 1, by, f, g);
        assert(f(hi - 1) == g(hi - 1 + by));
    }
}

} // verus!
