//! What a list of totals adds up to.

use vstd::prelude::*;

use crate::summary::subtree::{each, lemma_sum_ones, only_under, subtree_sum};
use crate::summary::totals::{
    kind_files, kind_size, kinds_in_range, lemma_kinds_add_up, lists_kinds, KindTotal,
};
use crate::sums::{
    lemma_sum_add, lemma_sum_bounds, lemma_sum_le, lemma_sum_point, lemma_sum_same, lemma_sum_zero,
    sum,
};
use crate::tree::arena::{shape_wf, sizes_wf};
use crate::tree::Node;

verus! {

/// The sizes of a list of totals, added up.
pub open spec fn listed_size(totals: Seq<KindTotal>, physical: bool) -> int
    decreases totals.len(),
{
    if totals.len() == 0 {
        0
    } else {
        listed_size(totals.drop_last(), physical) + totals.last().spec_size(physical)
    }
}

/// The files of a list of totals, added up.
pub open spec fn listed_files(totals: Seq<KindTotal>) -> int
    decreases totals.len(),
{
    if totals.len() == 0 {
        0
    } else {
        listed_files(totals.drop_last()) + totals.last().files
    }
}

/// One for each file.
pub open spec fn each_file(nodes: Seq<Node>) -> spec_fn(int) -> int {
    |i: int|
        if nodes[i].spec_is_dir() {
            0
        } else {
            1
        }
}

/// One for each file of the first `count` kinds.
spec fn first_files(nodes: Seq<Node>, count: int) -> spec_fn(int) -> int {
    |i: int|
        if !nodes[i].spec_is_dir() && nodes[i].kind < count {
            1
        } else {
            0
        }
}

proof fn lemma_first_files(nodes: Seq<Node>, root: int, count: int)
    requires
        0 <= count,
    ensures
        subtree_sum(nodes, root, first_files(nodes, count)) == sum(
            0,
            count,
            |k: int| subtree_sum(nodes, root, kind_files(nodes, k)),
        ),
    decreases count,
{
    let n = nodes.len() as int;
    if count == 0 {
        lemma_sum_zero(0, n, only_under(nodes, root, first_files(nodes, 0)));
    } else {
        lemma_first_files(nodes, root, count - 1);
        lemma_sum_add(
            0,
            n,
            only_under(nodes, root, first_files(nodes, count - 1)),
            only_under(nodes, root, kind_files(nodes, count - 1)),
            only_under(nodes, root, first_files(nodes, count)),
        );
        let g = |k: int| subtree_sum(nodes, root, kind_files(nodes, k));
        assert(sum(0, count, g) == sum(0, count - 1, g) + g(count - 1));
    }
}

/// `f` of every kind in a list, added up.
spec fn over_kinds(totals: Seq<KindTotal>, f: spec_fn(int) -> int) -> int
    decreases totals.len(),
{
    if totals.len() == 0 {
        0
    } else {
        over_kinds(totals.drop_last(), f) + f(totals.last().kind as int)
    }
}

/// Whether no kind stands in a list twice and all are below `count`.
spec fn each_once(totals: Seq<KindTotal>, count: int) -> bool {
    &&& forall|i: int| 0 <= i < totals.len() ==> (#[trigger] totals[i]).kind < count
    &&& forall|i: int, j: int|
        0 <= i < j < totals.len() ==> (#[trigger] totals[i]).kind != (#[trigger] totals[j]).kind
}

spec fn has_kind(totals: Seq<KindTotal>, k: int) -> bool {
    exists|j: int| 0 <= j < totals.len() && (#[trigger] totals[j]).kind == k
}

proof fn lemma_over_kinds_same(
    totals: Seq<KindTotal>,
    f: spec_fn(int) -> int,
    g: spec_fn(int) -> int,
)
    requires
        forall|i: int|
            0 <= i < totals.len() ==> f((#[trigger] totals[i]).kind as int) == g(
                totals[i].kind as int,
            ),
    ensures
        over_kinds(totals, f) == over_kinds(totals, g),
    decreases totals.len(),
{
    if totals.len() > 0 {
        let less = totals.drop_last();
        assert forall|i: int| 0 <= i < less.len() implies f((#[trigger] less[i]).kind as int) == g(
            less[i].kind as int,
        ) by {
            assert(less[i] == totals[i]);
        }
        lemma_over_kinds_same(less, f, g);
        assert(totals[totals.len() - 1] == totals.last());
    }
}

/// Adding up a list of kinds is adding up all kinds, if those that are missing
/// have nothing.
proof fn lemma_over_kinds(totals: Seq<KindTotal>, count: int, f: spec_fn(int) -> int)
    requires
        each_once(totals, count),
        forall|k: int| 0 <= k < count && !has_kind(totals, k) ==> #[trigger] f(k) == 0,
    ensures
        over_kinds(totals, f) == sum(0, count, f),
    decreases totals.len(),
{
    if totals.len() == 0 {
        assert forall|k: int| 0 <= k < count implies #[trigger] f(k) == 0 by {
            assert(!has_kind(totals, k));
        }
        lemma_sum_zero(0, count, f);
    } else {
        let less = totals.drop_last();
        let last = totals.last().kind as int;
        let g = |k: int|
            if k == last {
                0
            } else {
                f(k)
            };
        assert(totals[totals.len() - 1].kind == last);
        assert(each_once(less, count));
        assert forall|i: int| 0 <= i < less.len() implies f((#[trigger] less[i]).kind as int) == g(
            less[i].kind as int,
        ) by {
            assert(less[i] == totals[i]);
        }
        lemma_over_kinds_same(less, f, g);
        assert forall|k: int| 0 <= k < count && !has_kind(less, k) implies #[trigger] g(k) == 0 by {
            if k != last {
                assert(!has_kind(totals, k)) by {
                    if has_kind(totals, k) {
                        let j = choose|j: int|
                            0 <= j < totals.len() && (#[trigger] totals[j]).kind == k;
                        assert(less[j].kind == k);
                    }
                }
                assert(f(k) == 0);
            }
        }
        lemma_over_kinds(less, count, g);
        lemma_sum_point(0, count, last, f, g);
    }
}

proof fn lemma_part(nodes: Seq<Node>, root: int, totals: Seq<KindTotal>, j: int, physical: bool)
    requires
        0 <= j < totals.len(),
        crate::summary::totals::totals_of(nodes, root, totals[j].kind as int, totals[j]),
    ensures
        totals[j].spec_size(physical) == subtree_sum(
            nodes,
            root,
            kind_size(nodes, totals[j].kind as int, physical),
        ),
        totals[j].files == subtree_sum(nodes, root, kind_files(nodes, totals[j].kind as int)),
{
}

proof fn lemma_listed_part(
    nodes: Seq<Node>,
    root: int,
    kind_count: int,
    totals: Seq<KindTotal>,
    n: int,
    physical: bool,
)
    requires
        lists_kinds(nodes, root, kind_count, totals),
        0 <= n <= totals.len(),
    ensures
        listed_size(totals.take(n), physical) == over_kinds(
            totals.take(n),
            |k: int| subtree_sum(nodes, root, kind_size(nodes, k, physical)),
        ),
        listed_files(totals.take(n)) == over_kinds(
            totals.take(n),
            |k: int| subtree_sum(nodes, root, kind_files(nodes, k)),
        ),
    decreases n,
{
    if n > 0 {
        lemma_listed_part(nodes, root, kind_count, totals, n - 1, physical);
        assert(totals.take(n).drop_last() == totals.take(n - 1));
        assert(totals.take(n).last() == totals[n - 1]);
        lemma_part(nodes, root, totals, n - 1, physical);
    }
}

/// A kind without files weighs nothing.
proof fn lemma_no_files_no_size(nodes: Seq<Node>, root: int, k: int, physical: bool)
    requires
        subtree_sum(nodes, root, kind_files(nodes, k)) <= 0,
    ensures
        subtree_sum(nodes, root, kind_files(nodes, k)) == 0,
        subtree_sum(nodes, root, kind_size(nodes, k, physical)) == 0,
{
    let n = nodes.len() as int;
    let files = only_under(nodes, root, kind_files(nodes, k));
    let size = only_under(nodes, root, kind_size(nodes, k, physical));
    lemma_sum_bounds(0, n, files);
    assert forall|i: int| 0 <= i < n implies #[trigger] size(i) == 0 by {
        assert(files(i) <= 0);
    }
    lemma_sum_zero(0, n, size);
}

/// The totals of a subtree add up: their sizes to the size of the subtree, their
/// files to how many files are in it.
pub proof fn lemma_listed_totals(
    nodes: Seq<Node>,
    root: int,
    kind_count: int,
    totals: Seq<KindTotal>,
    physical: bool,
)
    requires
        shape_wf(nodes),
        sizes_wf(nodes),
        0 <= root < nodes.len(),
        0 <= kind_count,
        kinds_in_range(nodes, root, kind_count),
        lists_kinds(nodes, root, kind_count, totals),
    ensures
        listed_size(totals, physical) == nodes[root].spec_size(physical),
        listed_files(totals) == subtree_sum(nodes, root, each_file(nodes)),
        listed_files(totals) <= nodes.len(),
{
    let n = nodes.len() as int;
    let size = |k: int| subtree_sum(nodes, root, kind_size(nodes, k, physical));
    let files = |k: int| subtree_sum(nodes, root, kind_files(nodes, k));
    lemma_listed_part(nodes, root, kind_count, totals, totals.len() as int, physical);
    assert(totals.take(totals.len() as int) == totals);
    assert(each_once(totals, kind_count));
    assert forall|k: int| 0 <= k < kind_count && !has_kind(totals, k) implies #[trigger] size(k)
        == 0 && files(k) == 0 by {
        if subtree_sum(nodes, root, kind_files(nodes, k)) > 0 {
            assert(has_kind(totals, k));
        }
        lemma_no_files_no_size(nodes, root, k, physical);
    }
    assert forall|k: int| 0 <= k < kind_count && !has_kind(totals, k) implies #[trigger] files(k)
        == 0 by {
        assert(size(k) == 0 && files(k) == 0);
    }
    lemma_over_kinds(totals, kind_count, size);
    lemma_over_kinds(totals, kind_count, files);
    lemma_kinds_add_up(nodes, root, kind_count, physical);
    lemma_first_files(nodes, root, kind_count);
    lemma_sum_same(
        0,
        n,
        only_under(nodes, root, first_files(nodes, kind_count)),
        only_under(nodes, root, each_file(nodes)),
    );
    lemma_sum_le(0, n, only_under(nodes, root, each_file(nodes)), each());
    lemma_sum_ones(n);
}

} // verus!
