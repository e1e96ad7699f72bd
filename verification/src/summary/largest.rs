//! The largest files.

use vstd::prelude::*;

use crate::laws::listing::{lemma_no_large_file_is_missing, lists_largest};
use crate::summary::subtree::{visit, visiting_order, visits};
use crate::tree::flags;
use crate::tree::{has_flag, Node, NodeId, Tree};

verus! {

/// Whether a node can be among the largest files: a file that is not the free
/// space and weighs something.
pub open spec fn eligible(nodes: Seq<Node>, id: int, physical: bool) -> bool {
    &&& !nodes[id].spec_is_dir()
    &&& !has_flag(nodes[id].flags, flags::FREE_SPACE)
    &&& nodes[id].spec_size(physical) > 0
}

/// Where a size goes in a list sorted largest first: before the first entry
/// that is not larger.
pub open spec fn place(top: Seq<(u64, NodeId)>, size: u64) -> int
    decreases top.len(),
{
    if top.len() == 0 {
        0
    } else if top.last().0 > size {
        top.len() as int
    } else {
        place(top.drop_last(), size)
    }
}

/// The list after one more file: nothing changes if the list is full of files
/// at least as large.
pub open spec fn considered(
    top: Seq<(u64, NodeId)>,
    n: int,
    size: u64,
    id: NodeId,
) -> Seq<(u64, NodeId)> {
    if top.len() == n && size <= top.last().0 {
        top
    } else {
        let longer = top.insert(place(top, size), (size, id));
        if longer.len() > n {
            longer.take(n)
        } else {
            longer
        }
    }
}

/// The list after the files `ids`, in that order.
pub open spec fn best(
    nodes: Seq<Node>,
    ids: Seq<NodeId>,
    n: int,
    physical: bool,
) -> Seq<(u64, NodeId)>
    decreases ids.len(),
{
    if ids.len() == 0 {
        Seq::empty()
    } else {
        let top = best(nodes, ids.drop_last(), n, physical);
        let id = ids.last();
        if eligible(nodes, id as int, physical) {
            considered(top, n, nodes[id as int].spec_size(physical), id)
        } else {
            top
        }
    }
}

/// The ids of a list.
pub open spec fn ids_of(top: Seq<(u64, NodeId)>) -> Seq<NodeId> {
    top.map(|i: int, entry: (u64, NodeId)| entry.1)
}

/// How many of `ids` are eligible.
pub open spec fn eligible_count(nodes: Seq<Node>, ids: Seq<NodeId>, physical: bool) -> nat
    decreases ids.len(),
{
    if ids.len() == 0 {
        0
    } else {
        eligible_count(nodes, ids.drop_last(), physical) + if eligible(
            nodes,
            ids.last() as int,
            physical,
        ) {
            1nat
        } else {
            0
        }
    }
}

/// Largest first.
pub open spec fn descending(top: Seq<(u64, NodeId)>) -> bool {
    forall|i: int, j: int| 0 <= i < j < top.len() ==> (#[trigger] top[i]).0 >= (#[trigger] top[j]).0
}

proof fn lemma_place(top: Seq<(u64, NodeId)>, size: u64)
    requires
        descending(top),
    ensures
        0 <= place(top, size) <= top.len(),
        forall|i: int| 0 <= i < place(top, size) ==> (#[trigger] top[i]).0 > size,
        forall|i: int| place(top, size) <= i < top.len() ==> (#[trigger] top[i]).0 <= size,
    decreases top.len(),
{
    if top.len() > 0 && top.last().0 <= size {
        let less = top.drop_last();
        lemma_place(less, size);
        assert forall|i: int| place(top, size) <= i < top.len() implies (#[trigger] top[i]).0
            <= size by {
            if i < less.len() {
                assert(top[i] == less[i]);
            }
        }
        assert forall|i: int| 0 <= i < place(top, size) implies (#[trigger] top[i]).0 > size by {
            assert(top[i] == less[i]);
        }
    }
}

/// What the list after `ids` is: the `n` largest eligible files among them (all
/// of them if there are fewer), largest first.
pub open spec fn holds_largest(
    nodes: Seq<Node>,
    ids: Seq<NodeId>,
    n: int,
    physical: bool,
    top: Seq<(u64, NodeId)>,
) -> bool {
    &&& descending(top)
    &&& top.len() == if eligible_count(nodes, ids, physical) < n {
        eligible_count(nodes, ids, physical) as int
    } else {
        n
    }
    &&& forall|j: int|
        0 <= j < top.len() ==> ids.contains((#[trigger] top[j]).1) && eligible(
            nodes,
            top[j].1 as int,
            physical,
        ) && top[j].0 == nodes[top[j].1 as int].spec_size(physical)
    &&& forall|k: int|
        0 <= k < ids.len() && eligible(nodes, #[trigger] ids[k] as int, physical) ==> listed(
            top,
            ids[k],
        ) || (top.len() == n && nodes[ids[k] as int].spec_size(physical) <= top.last().0)
}

/// Whether `id` is in the list.
pub open spec fn listed(top: Seq<(u64, NodeId)>, id: NodeId) -> bool {
    exists|j: int| 0 <= j < top.len() && (#[trigger] top[j]).1 == id
}

/// The list holds the largest files, largest first.
pub proof fn lemma_best(nodes: Seq<Node>, ids: Seq<NodeId>, n: int, physical: bool)
    requires
        n > 0,
    ensures
        holds_largest(nodes, ids, n, physical, best(nodes, ids, n, physical)),
    decreases ids.len(),
{
    if ids.len() > 0 {
        let less = ids.drop_last();
        let id = ids.last();
        let before = best(nodes, less, n, physical);
        let after = best(nodes, ids, n, physical);
        lemma_best(nodes, less, n, physical);
        assert forall|x: NodeId| #[trigger] less.contains(x) implies ids.contains(x) by {
            let k = choose|k: int| 0 <= k < less.len() && less[k] == x;
            assert(ids[k] == x);
        }
        assert(ids[ids.len() - 1] == id);
        if eligible(nodes, id as int, physical) {
            lemma_consider(before, n, nodes[id as int].spec_size(physical), id);
            assert forall|j: int| 0 <= j < after.len() implies ids.contains(
                (#[trigger] after[j]).1,
            ) && eligible(nodes, after[j].1 as int, physical) && after[j].0
                == nodes[after[j].1 as int].spec_size(physical) by {
                if after[j] != (nodes[id as int].spec_size(physical), id) {
                    assert(before.contains(after[j]));
                    let h = choose|h: int| 0 <= h < before.len() && before[h] == after[j];
                    assert(less.contains(before[h].1));
                }
            }
            assert forall|k: int|
                0 <= k < ids.len() && eligible(
                    nodes,
                    #[trigger] ids[k] as int,
                    physical,
                ) implies listed(after, ids[k]) || (after.len() == n
                && nodes[ids[k] as int].spec_size(physical) <= after.last().0) by {
                if k < less.len() {
                    assert(ids[k] == less[k]);
                    if listed(before, ids[k]) {
                        let h = choose|h: int| 0 <= h < before.len() && (#[trigger] before[h]).1 == ids[k];
                        assert(before[h].0 == nodes[ids[k] as int].spec_size(physical));
                        if after.contains(before[h]) {
                            let j = choose|j: int| 0 <= j < after.len() && after[j] == before[h];
                            assert(after[j].1 == ids[k]);
                        }
                    }
                } else {
                    let entry = (nodes[id as int].spec_size(physical), id);
                    if after.contains(entry) {
                        let j = choose|j: int| 0 <= j < after.len() && after[j] == entry;
                        assert(after[j].1 == ids[k]);
                    }
                }
            }
        } else {
            assert forall|j: int| 0 <= j < after.len() implies ids.contains(
                (#[trigger] after[j]).1,
            ) by {
                assert(less.contains(before[j].1));
            }
            assert forall|k: int|
                0 <= k < ids.len() && eligible(
                    nodes,
                    #[trigger] ids[k] as int,
                    physical,
                ) implies listed(after, ids[k]) || (after.len() == n
                && nodes[ids[k] as int].spec_size(physical) <= after.last().0) by {
                assert(ids[k] == less[k]);
            }
        }
    }
}

/// What considering one more file does to a sorted list.
proof fn lemma_consider(top: Seq<(u64, NodeId)>, n: int, size: u64, id: NodeId)
    requires
        n > 0,
        descending(top),
        top.len() <= n,
    ensures
        ({
            let after = considered(top, n, size, id);
            &&& descending(after)
            &&& after.len() == if top.len() < n {
                (top.len() + 1) as int
            } else {
                n
            }
            &&& forall|j: int|
                0 <= j < after.len() ==> (#[trigger] after[j]) == (size, id) || top.contains(
                    after[j],
                )
            &&& after.contains((size, id)) || (after.len() == n && size <= after.last().0)
            &&& forall|h: int|
                0 <= h < top.len() ==> after.contains(#[trigger] top[h]) || (after.len() == n
                    && top[h].0 <= after.last().0)
            &&& top.len() == n ==> top.last().0 <= after.last().0
        }),
{
    lemma_place(top, size);
    let after = considered(top, n, size, id);
    if top.len() == n && size <= top.last().0 {
        assert forall|h: int| 0 <= h < top.len() implies after.contains(#[trigger] top[h]) by {}
    } else {
        let at = place(top, size);
        let longer = top.insert(at, (size, id));
        assert forall|j: int| 0 <= j < longer.len() implies #[trigger] longer[j] == if j < at {
            top[j]
        } else if j == at {
            (size, id)
        } else {
            top[j - 1]
        } by {}
        assert(descending(longer));
        assert(longer.len() == top.len() + 1);
        assert forall|j: int| 0 <= j < after.len() implies (#[trigger] after[j]) == (size, id)
            || top.contains(after[j]) by {
            assert(after[j] == longer[j]);
        }
        if longer.len() > n {
            assert(at < n);
        }
        assert(after[at] == (size, id));
        assert forall|h: int| 0 <= h < top.len() implies after.contains(#[trigger] top[h]) || (
        after.len() == n && top[h].0 <= after.last().0) by {
            if h < at {
                assert(after[h] == top[h]);
            } else if h + 1 < after.len() {
                assert(after[h + 1] == top[h]);
            } else {
                assert(longer[h + 1] == top[h]);
                assert(after.last() == longer[n - 1]);
            }
        }
        if top.len() == n {
            assert(after.last() == longer[n - 1]);
            assert(longer[n] == top[n - 1]);
        }
    }
}

/// Puts a file into the list, if it belongs there.
fn consider(top: &mut Vec<(u64, NodeId)>, n: usize, size: u64, id: NodeId)
    requires
        n > 0,
        old(top)@.len() <= n,
        descending(old(top)@),
    ensures
        final(top)@ == considered(old(top)@, n as int, size, id),
{
    if top.len() == n && size <= top[n - 1].0 {
        return;
    }
    proof {
        lemma_place(top@, size);
    }
    let mut at: usize = 0;
    while at < top.len() && top[at].0 > size
        invariant
            at <= top@.len(),
            top@ == old(top)@,
            forall|i: int| 0 <= i < at ==> (#[trigger] top@[i]).0 > size,
        decreases top@.len() - at,
    {
        at += 1;
    }
    proof {
        let p = place(top@, size);
        if at < p {
            assert(top@[at as int].0 > size);
        }
        if p < at {
            assert(top@[p].0 > size);
        }
    }
    top.insert(at, (size, id));
    if top.len() > n {
        top.truncate(n);
    }
}

/// The `n` largest files under `root`, largest first.
///
/// Keeps a bounded sorted list rather than sorting the subtree: for the `n`
/// that matter (tens) that is a couple of comparisons per file.
pub fn largest_files(tree: &Tree, root: NodeId, n: usize, physical: bool) -> (files: Vec<NodeId>)
    requires
        tree@.wf(),
        tree@.has(root as int),
    ensures
        n == 0 ==> files@.len() == 0,
        n > 0 ==> files@ == ids_of(
            best(
                tree@.nodes,
                visiting_order(tree@.nodes, root as int),
                n as int,
                physical,
            ),
        ),
        files@.no_duplicates(),
        lists_largest(tree@.nodes, root as int, n as int, physical, files@),
        n > 0 ==> holds_largest(
            tree@.nodes,
            visiting_order(tree@.nodes, root as int),
            n as int,
            physical,
            best(tree@.nodes, visiting_order(tree@.nodes, root as int), n as int, physical),
        ),
{
    if n == 0 {
        return Vec::new();
    }
    let ids = visit(tree, root);
    let ghost nodes = tree@.nodes;
    let mut top: Vec<(u64, NodeId)> = Vec::new();
    for j in 0..ids.len()
        invariant
            n > 0,
            nodes == tree@.nodes,
            visits(nodes, root as int, ids@),
            top@ == best(nodes, ids@.take(j as int), n as int, physical),
    {
        let id: NodeId = ids[j];
        let ghost seen = ids@.take(j as int);
        proof {
            assert(ids@[j as int] < nodes.len());
            lemma_best(nodes, seen, n as int, physical);
            assert(ids@.take(j + 1).drop_last() == seen);
            assert(ids@.take(j + 1).last() == id);
        }
        let node = tree.node(id);
        let size: u64 = tree.size(id, physical);
        if !node.is_dir() && !node.has(flags::FREE_SPACE) && size != 0 {
            consider(&mut top, n, size, id);
        }
    }
    assert(ids@.take(ids@.len() as int) == ids@);
    proof {
        lemma_best(nodes, ids@, n as int, physical);
        crate::summary::subtree::lemma_no_repeats(nodes, root as int, ids@);
        lemma_best_distinct(nodes, ids@, n as int, physical);
        lemma_no_large_file_is_missing(nodes, root as int, n as int, physical);
    }
    let mut files: Vec<NodeId> = Vec::new();
    for j in 0..top.len()
        invariant
            files@ == ids_of(top@.take(j as int)),
    {
        files.push(top[j].1);
        assert(files@ == ids_of(top@.take(j + 1)));
    }
    assert(top@.take(top@.len() as int) == top@);
    files
}

/// No file is listed twice.
pub proof fn lemma_best_distinct(nodes: Seq<Node>, ids: Seq<NodeId>, n: int, physical: bool)
    requires
        n > 0,
        ids.no_duplicates(),
    ensures
        ids_of(best(nodes, ids, n, physical)).no_duplicates(),
    decreases ids.len(),
{
    let top = best(nodes, ids, n, physical);
    if ids.len() > 0 {
        let less = ids.drop_last();
        let id = ids.last();
        let before = best(nodes, less, n, physical);
        lemma_best_distinct(nodes, less, n, physical);
        lemma_best(nodes, less, n, physical);
        assert(ids[ids.len() - 1] == id);
        assert(!less.contains(id));
        if eligible(nodes, id as int, physical) {
            let size = nodes[id as int].spec_size(physical);
            let at = place(before, size);
            lemma_place(before, size);
            let longer = before.insert(at, (size, id));
            assert forall|i: int, j: int| 0 <= i < j < longer.len() implies longer[i].1
                != longer[j].1 by {
                let x = if i < at {
                    i
                } else {
                    i - 1
                };
                let y = if j < at {
                    j
                } else {
                    j - 1
                };
                if i == at {
                    assert(longer[j] == before[y]);
                    assert(less.contains(before[y].1));
                } else if j == at {
                    assert(longer[i] == before[x]);
                    assert(less.contains(before[x].1));
                } else {
                    assert(longer[i] == before[x] && longer[j] == before[y]);
                    assert(ids_of(before)[x] != ids_of(before)[y]);
                }
            }
            assert forall|i: int, j: int|
                0 <= i < top.len() && 0 <= j < top.len() && i != j implies ids_of(top)[i] != ids_of(
                top,
            )[j] by {
                if top != before {
                    assert(top[i] == longer[i] && top[j] == longer[j]);
                    if i < j {
                        assert(longer[i].1 != longer[j].1);
                    } else {
                        assert(longer[j].1 != longer[i].1);
                    }
                } else {
                    assert(ids_of(before)[i] != ids_of(before)[j]);
                }
            }
        }
    }
}

} // verus!
