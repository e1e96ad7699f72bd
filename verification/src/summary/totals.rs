//! Totals per file kind.

use rayon::iter::{IntoParallelRefIterator, ParallelIterator};
use vstd::prelude::*;

use crate::sort::{not_after, sort, Ranked};
use crate::summary::subtree::{
    lemma_list_sum_part, list_sum, only_under, only_under_any, subtree_sum, under, visits,
};
use crate::sums::{lemma_sum_add, lemma_sum_le, lemma_sum_same, lemma_sum_zero, sum};
use crate::tree::arena::{child_end, in_child_range, shape_wf, sizes_wf, span_size};
use crate::tree::{Node, NodeId, Tree};

verus! {

#[derive(Clone, Copy, Debug, PartialEq, Eq, Structural)]
pub struct KindTotal {
    pub kind: u16,
    pub logical: u64,
    pub physical: u64,
    pub files: u64,
}

impl Default for KindTotal {
    fn default() -> (total: KindTotal)
        ensures
            total == (KindTotal { kind: 0, logical: 0, physical: 0, files: 0 }),
    {
        KindTotal { kind: 0, logical: 0, physical: 0, files: 0 }
    }
}

impl KindTotal {
    pub open spec fn spec_size(&self, physical: bool) -> u64 {
        if physical {
            self.physical
        } else {
            self.logical
        }
    }
}

/// What each node weighs besides its children: files their size, directories
/// nothing.
pub open spec fn file_size(nodes: Seq<Node>, physical: bool) -> spec_fn(int) -> int {
    |i: int|
        if nodes[i].spec_is_dir() {
            0
        } else {
            nodes[i].spec_size(physical) as int
        }
}

/// What each file of kind `k` weighs.
pub open spec fn kind_size(nodes: Seq<Node>, k: int, physical: bool) -> spec_fn(int) -> int {
    |i: int|
        if !nodes[i].spec_is_dir() && nodes[i].kind == k {
            nodes[i].spec_size(physical) as int
        } else {
            0
        }
}

/// One for each file of kind `k`.
pub open spec fn kind_files(nodes: Seq<Node>, k: int) -> spec_fn(int) -> int {
    |i: int|
        if !nodes[i].spec_is_dir() && nodes[i].kind == k {
            1
        } else {
            0
        }
}

/// A directory weighs what the files below it add up to; a file what it weighs.
/// Nothing is counted twice.
pub proof fn lemma_sizes_add_up(nodes: Seq<Node>, root: int, physical: bool)
    requires
        shape_wf(nodes),
        sizes_wf(nodes),
        0 <= root < nodes.len(),
    ensures
        nodes[root].spec_size(physical) == subtree_sum(nodes, root, file_size(nodes, physical)),
    decreases nodes.len() - root, 0int,
{
    let f = file_size(nodes, physical);
    let lo = nodes[root].child_start as int;
    let hi = child_end(nodes, root);
    crate::summary::subtree::lemma_subtree_sum(nodes, root, f);
    if nodes[root].child_len > 0 {
        assert(nodes[root].spec_is_dir());
        lemma_span_adds_up(nodes, root, lo, hi, physical);
    } else {
        let rest = only_under_any(nodes, lo, hi, f);
        assert forall|i: int| 0 <= i < nodes.len() implies #[trigger] rest(i) == 0 by {}
        lemma_sum_zero(0, nodes.len() as int, rest);
    }
    if nodes[root].spec_is_dir() {
        assert(nodes[root].spec_size(physical) == span_size(nodes, lo, hi, physical));
    }
}

/// Children together weigh what the files below them do.
proof fn lemma_span_adds_up(nodes: Seq<Node>, p: int, lo: int, hi: int, physical: bool)
    requires
        shape_wf(nodes),
        sizes_wf(nodes),
        0 <= p < nodes.len(),
        p < nodes[p].child_start <= lo <= hi <= child_end(nodes, p) <= nodes.len(),
    ensures
        span_size(nodes, lo, hi, physical) == sum(
            0,
            nodes.len() as int,
            only_under_any(nodes, lo, hi, file_size(nodes, physical)),
        ),
    decreases nodes.len() - lo, hi - lo + 1,
{
    let f = file_size(nodes, physical);
    if lo == hi {
        let rest = only_under_any(nodes, lo, hi, f);
        assert forall|i: int| 0 <= i < nodes.len() implies #[trigger] rest(i) == 0 by {}
        lemma_sum_zero(0, nodes.len() as int, rest);
    } else {
        assert forall|d: int| lo <= d < hi implies (#[trigger] nodes[d]).parent == p by {
            assert(in_child_range(nodes, p, d) <==> nodes[d].parent == p);
        }
        crate::summary::subtree::lemma_split_siblings(nodes, p, lo, hi, f);
        lemma_sizes_add_up(nodes, hi - 1, physical);
        lemma_span_adds_up(nodes, p, lo, hi - 1, physical);
    }
}

/// Every file under `root` is of one of the first `kind_count` kinds.
pub open spec fn kinds_in_range(nodes: Seq<Node>, root: int, kind_count: int) -> bool {
    forall|i: int|
        0 <= i < nodes.len() && under(nodes, i, root) && !(#[trigger] nodes[i]).spec_is_dir()
            ==> nodes[i].kind < kind_count
}

/// The totals of all kinds add up to the size of the subtree.
pub proof fn lemma_kinds_add_up(nodes: Seq<Node>, root: int, kind_count: int, physical: bool)
    requires
        shape_wf(nodes),
        sizes_wf(nodes),
        0 <= root < nodes.len(),
        0 <= kind_count,
        kinds_in_range(nodes, root, kind_count),
    ensures
        nodes[root].spec_size(physical) == sum(
            0,
            kind_count,
            |k: int| subtree_sum(nodes, root, kind_size(nodes, k, physical)),
        ),
{
    lemma_sizes_add_up(nodes, root, physical);
    lemma_first_kinds(nodes, root, kind_count, physical);
    let n = nodes.len() as int;
    lemma_sum_same(
        0,
        n,
        only_under(nodes, root, first_kinds(nodes, kind_count, physical)),
        only_under(nodes, root, file_size(nodes, physical)),
    );
}

/// What each file of the first `count` kinds weighs.
spec fn first_kinds(nodes: Seq<Node>, count: int, physical: bool) -> spec_fn(int) -> int {
    |i: int|
        if !nodes[i].spec_is_dir() && nodes[i].kind < count {
            nodes[i].spec_size(physical) as int
        } else {
            0
        }
}

proof fn lemma_first_kinds(nodes: Seq<Node>, root: int, count: int, physical: bool)
    requires
        0 <= count,
    ensures
        subtree_sum(nodes, root, first_kinds(nodes, count, physical)) == sum(
            0,
            count,
            |k: int| subtree_sum(nodes, root, kind_size(nodes, k, physical)),
        ),
    decreases count,
{
    let n = nodes.len() as int;
    if count == 0 {
        lemma_sum_zero(0, n, only_under(nodes, root, first_kinds(nodes, 0, physical)));
    } else {
        lemma_first_kinds(nodes, root, count - 1, physical);
        lemma_sum_add(
            0,
            n,
            only_under(nodes, root, first_kinds(nodes, count - 1, physical)),
            only_under(nodes, root, kind_size(nodes, count - 1, physical)),
            only_under(nodes, root, first_kinds(nodes, count, physical)),
        );
        let g = |k: int| subtree_sum(nodes, root, kind_size(nodes, k, physical));
        assert(sum(0, count, g) == sum(0, count - 1, g) + g(count - 1));
    }
}

/// What a slot of the accumulator holds once the nodes `ids` have been added.
spec fn tallied(nodes: Seq<Node>, ids: Seq<NodeId>, k: int, t: KindTotal) -> bool {
    &&& t.kind == k
    &&& t.logical == list_sum(ids, kind_size(nodes, k, false))
    &&& t.physical == list_sum(ids, kind_size(nodes, k, true))
    &&& t.files == list_sum(ids, kind_files(nodes, k))
}

/// Adding one node's file to its kind.
pub open spec fn plus(t: KindTotal, n: Node) -> KindTotal {
    if n.spec_is_dir() {
        t
    } else {
        KindTotal {
            kind: t.kind,
            logical: (t.logical + n.logical) as u64,
            physical: (t.physical + n.physical) as u64,
            files: (t.files + 1) as u64,
        }
    }
}

/// Adds a node to the total of its kind. Directories contribute nothing of
/// their own, only the files inside them.
fn add_node(totals: &mut Vec<KindTotal>, n: &Node)
    requires
        !n.spec_is_dir() ==> n.kind < old(totals)@.len() && old(totals)@[n.kind as int].logical
            + n.logical <= u64::MAX && old(totals)@[n.kind as int].physical + n.physical
            <= u64::MAX && old(totals)@[n.kind as int].files < u64::MAX,
    ensures
        final(totals)@ == if n.spec_is_dir() {
            old(totals)@
        } else {
            old(totals)@.update(n.kind as int, plus(old(totals)@[n.kind as int], *n))
        },
{
    if n.is_dir() {
        return;
    }
    let mut t = totals[n.kind as usize];
    t.logical = t.logical + n.logical;
    t.physical = t.physical + n.physical;
    t.files = t.files + 1;
    totals.set(n.kind as usize, t);
}

/// A zero for every kind.
fn blank(kind_count: usize) -> (totals: Vec<KindTotal>)
    requires
        kind_count <= 0x1_0000,
    ensures
        totals@ == Seq::new(
            kind_count as nat,
            |k: int| KindTotal { kind: k as u16, logical: 0, physical: 0, files: 0 },
        ),
{
    let mut totals: Vec<KindTotal> = Vec::new();
    let ghost goal = Seq::new(
        kind_count as nat,
        |k: int| KindTotal { kind: k as u16, logical: 0, physical: 0, files: 0 },
    );
    for k in 0..kind_count
        invariant
            kind_count <= 0x1_0000,
            goal == Seq::new(
                kind_count as nat,
                |k: int| KindTotal { kind: k as u16, logical: 0, physical: 0, files: 0 },
            ),
            totals@ == goal.take(k as int),
    {
        totals.push(KindTotal { kind: k as u16, logical: 0, physical: 0, files: 0 });
        assert(totals@ == goal.take(k + 1));
    }
    assert(goal.take(goal.len() as int) == goal);
    totals
}

/// No kind outweighs the subtree, and none has more files than it has nodes.
proof fn lemma_kind_bounds(nodes: Seq<Node>, root: int, k: int)
    requires
        shape_wf(nodes),
        sizes_wf(nodes),
        0 <= root < nodes.len(),
    ensures
        subtree_sum(nodes, root, kind_size(nodes, k, true)) <= nodes[root].physical,
        subtree_sum(nodes, root, kind_size(nodes, k, false)) <= nodes[root].logical,
        subtree_sum(nodes, root, kind_files(nodes, k)) <= nodes.len(),
{
    let n = nodes.len() as int;
    lemma_sizes_add_up(nodes, root, true);
    lemma_sizes_add_up(nodes, root, false);
    lemma_sum_le(
        0,
        n,
        only_under(nodes, root, kind_size(nodes, k, true)),
        only_under(nodes, root, file_size(nodes, true)),
    );
    lemma_sum_le(
        0,
        n,
        only_under(nodes, root, kind_size(nodes, k, false)),
        only_under(nodes, root, file_size(nodes, false)),
    );
    let each = crate::summary::subtree::each();
    lemma_sum_le(0, n, only_under(nodes, root, kind_files(nodes, k)), each);
    crate::summary::subtree::lemma_sum_ones(n);
}

/// Totals of all kinds over the nodes of a subtree, in kind order, empty kinds
/// included.
fn tally(tree: &Tree, root: NodeId, kind_count: usize) -> (totals: Vec<KindTotal>)
    requires
        tree@.wf(),
        tree@.has(root as int),
        kind_count <= 0x1_0000,
        kinds_in_range(tree@.nodes, root as int, kind_count as int),
    ensures
        totals@.len() == kind_count,
        forall|k: int|
            0 <= k < kind_count ==> totals_of(tree@.nodes, root as int, k, #[trigger] totals@[k]),
{
    let ids = crate::summary::subtree::visit(tree, root);
    let mut totals = blank(kind_count);
    let ghost nodes = tree@.nodes;
    for j in 0..ids.len()
        invariant
            tree@.wf(),
            nodes == tree@.nodes,
            tree@.has(root as int),
            kinds_in_range(nodes, root as int, kind_count as int),
            visits(nodes, root as int, ids@),
            totals@.len() == kind_count,
            forall|k: int|
                0 <= k < kind_count ==> tallied(nodes, ids@.take(j as int), k, #[trigger] totals@[k]),
    {
        let id: NodeId = ids[j];
        let n = tree.node(id);
        let ghost before = totals@;
        proof {
            assert(ids@[j as int] < nodes.len());
            let k = n.kind as int;
            if !n.spec_is_dir() {
                assert(under(nodes, id as int, root as int));
                assert(tallied(nodes, ids@.take(j as int), k, totals@[k]));
                lemma_kind_bounds(nodes, root as int, k);
                lemma_list_sum_part(ids@, j as int, kind_size(nodes, k, true));
                lemma_list_sum_part(ids@, j as int, kind_size(nodes, k, false));
                lemma_list_sum_part(ids@, j as int, kind_files(nodes, k));
                assert(list_sum(ids@, kind_size(nodes, k, true)) == subtree_sum(
                    nodes,
                    root as int,
                    kind_size(nodes, k, true),
                ));
                assert(list_sum(ids@, kind_size(nodes, k, false)) == subtree_sum(
                    nodes,
                    root as int,
                    kind_size(nodes, k, false),
                ));
                assert(list_sum(ids@, kind_files(nodes, k)) == subtree_sum(
                    nodes,
                    root as int,
                    kind_files(nodes, k),
                ));
            }
        }
        add_node(&mut totals, n);
        proof {
            assert forall|k: int| 0 <= k < kind_count implies tallied(
                nodes,
                ids@.take(j + 1),
                k,
                #[trigger] totals@[k],
            ) by {
                assert(tallied(nodes, ids@.take(j as int), k, before[k]));
                lemma_list_sum_part(ids@, j as int, kind_size(nodes, k, true));
                lemma_list_sum_part(ids@, j as int, kind_size(nodes, k, false));
                lemma_list_sum_part(ids@, j as int, kind_files(nodes, k));
            }
        }
    }
    proof {
        assert(ids@.take(ids@.len() as int) == ids@);
        assert forall|k: int| 0 <= k < kind_count implies totals_of(
            nodes,
            root as int,
            k,
            #[trigger] totals@[k],
        ) by {
            assert(tallied(nodes, ids@, k, totals@[k]));
            assert(list_sum(ids@, kind_size(nodes, k, true)) == subtree_sum(
                nodes,
                root as int,
                kind_size(nodes, k, true),
            ));
            assert(list_sum(ids@, kind_size(nodes, k, false)) == subtree_sum(
                nodes,
                root as int,
                kind_size(nodes, k, false),
            ));
            assert(list_sum(ids@, kind_files(nodes, k)) == subtree_sum(
                nodes,
                root as int,
                kind_files(nodes, k),
            ));
        }
    }
    totals
}

/// `t` is the total of kind `k` under `root`.
pub open spec fn totals_of(nodes: Seq<Node>, root: int, k: int, t: KindTotal) -> bool {
    &&& t.kind == k
    &&& t.logical == subtree_sum(nodes, root, kind_size(nodes, k, false))
    &&& t.physical == subtree_sum(nodes, root, kind_size(nodes, k, true))
    &&& t.files == subtree_sum(nodes, root, kind_files(nodes, k))
}

/// `out` lists the total of every kind that has files, each kind once.
pub open spec fn lists_kinds(
    nodes: Seq<Node>,
    root: int,
    kind_count: int,
    out: Seq<KindTotal>,
) -> bool {
    &&& forall|j: int|
        0 <= j < out.len() ==> {
            let t = #[trigger] out[j];
            t.kind < kind_count && t.files > 0 && totals_of(nodes, root, t.kind as int, t)
        }
    &&& forall|i: int, j: int|
        0 <= i < j < out.len() ==> (#[trigger] out[i]).kind != (#[trigger] out[j]).kind
    &&& forall|k: int|
        0 <= k < kind_count && #[trigger] subtree_sum(nodes, root, kind_files(nodes, k)) > 0
            ==> exists|j: int| 0 <= j < out.len() && (#[trigger] out[j]).kind == k
}

/// Largest size first, among equal sizes the most files.
pub open spec fn largest_first(out: Seq<KindTotal>, physical: bool) -> bool {
    forall|i: int, j: int|
        0 <= i < j < out.len() ==> {
            let a = #[trigger] out[i];
            let b = #[trigger] out[j];
            a.spec_size(physical) > b.spec_size(physical) || (a.spec_size(physical)
                == b.spec_size(physical) && a.files >= b.files)
        }
}

/// The rank of a kind's total.
spec fn rank(t: KindTotal, physical: bool) -> Ranked {
    Ranked { key: t.spec_size(physical), tie: t.files, id: t.kind as u32 }
}

/// The ranks of the first `n` totals that have files, in order.
spec fn ranks(totals: Seq<KindTotal>, n: int, physical: bool) -> Seq<Ranked>
    decreases n,
{
    if n <= 0 {
        Seq::empty()
    } else if totals[n - 1].files > 0 {
        ranks(totals, n - 1, physical).push(rank(totals[n - 1], physical))
    } else {
        ranks(totals, n - 1, physical)
    }
}

proof fn lemma_ranks(totals: Seq<KindTotal>, n: int, physical: bool)
    requires
        0 <= n <= totals.len() <= 0x1_0000,
        forall|k: int| 0 <= k < totals.len() ==> (#[trigger] totals[k]).kind == k,
    ensures
        ({
            let r = ranks(totals, n, physical);
            &&& r.no_duplicates()
            &&& forall|j: int|
                0 <= j < r.len() ==> {
                    let k = (#[trigger] r[j]).id as int;
                    k < n && totals[k].files > 0 && r[j] == rank(totals[k], physical)
                }
            &&& forall|k: int|
                0 <= k < n && (#[trigger] totals[k]).files > 0 ==> r.contains(
                    rank(totals[k], physical),
                )
        }),
    decreases n,
{
    if n > 0 {
        lemma_ranks(totals, n - 1, physical);
        let less = ranks(totals, n - 1, physical);
        let r = ranks(totals, n, physical);
        assert forall|k: int| 0 <= k < n && (#[trigger] totals[k]).files > 0 implies r.contains(
            rank(totals[k], physical),
        ) by {
            if k == n - 1 {
                assert(r[less.len() as int] == rank(totals[k], physical));
            } else {
                let j = choose|j: int| 0 <= j < less.len() && less[j] == rank(totals[k], physical);
                assert(r[j] == rank(totals[k], physical));
            }
        }
    }
}

/// How many kinds a node can be of at most.
const MOST_KINDS: usize = 0x1_0000;

/// As many kinds as were asked for, as far as a node can tell them apart.
fn known_kinds(kind_count: usize) -> (count: usize)
    ensures
        count == if kind_count < MOST_KINDS {
            kind_count
        } else {
            MOST_KINDS
        },
{
    if kind_count < MOST_KINDS {
        kind_count
    } else {
        MOST_KINDS
    }
}

/// No node is of a kind beyond the last that it can be of, so a list of those
/// kinds is a list of all.
proof fn lemma_all_kinds(
    nodes: Seq<Node>,
    root: int,
    count: int,
    kind_count: int,
    out: Seq<KindTotal>,
)
    requires
        count == if kind_count < MOST_KINDS {
            kind_count
        } else {
            MOST_KINDS as int
        },
        lists_kinds(nodes, root, count, out),
    ensures
        lists_kinds(nodes, root, kind_count, out),
{
    assert forall|k: int|
        0 <= k < kind_count && #[trigger] subtree_sum(nodes, root, kind_files(nodes, k))
            > 0 implies exists|j: int| 0 <= j < out.len() && (#[trigger] out[j]).kind == k by {
        if k >= count {
            let n = nodes.len() as int;
            let none = only_under(nodes, root, kind_files(nodes, k));
            assert forall|i: int| 0 <= i < n implies #[trigger] none(i) == 0 by {}
            lemma_sum_zero(0, n, none);
        }
    }
}

/// Totals per file kind within `root`'s subtree, largest first.
///
/// Directories contribute nothing of their own, only the files inside them, so
/// the totals add up to the subtree size without double counting.
pub fn kind_totals(tree: &Tree, root: NodeId, kind_count: usize, physical: bool) -> (out: Vec<
    KindTotal,
>)
    requires
        tree@.wf(),
        tree@.has(root as int),
        kinds_in_range(tree@.nodes, root as int, kind_count as int),
    ensures
        lists_kinds(tree@.nodes, root as int, kind_count as int, out@),
        largest_first(out@, physical),
{
    let count: usize = known_kinds(kind_count);
    let out = ranked_totals(tree, root, count, physical);
    proof {
        lemma_all_kinds(tree@.nodes, root as int, count as int, kind_count as int, out@);
    }
    out
}

/// The totals of the first `kind_count` kinds that have files, largest first.
fn ranked_totals(tree: &Tree, root: NodeId, kind_count: usize, physical: bool) -> (out: Vec<
    KindTotal,
>)
    requires
        tree@.wf(),
        tree@.has(root as int),
        kind_count <= 0x1_0000,
        kinds_in_range(tree@.nodes, root as int, kind_count as int),
    ensures
        lists_kinds(tree@.nodes, root as int, kind_count as int, out@),
        largest_first(out@, physical),
{
    broadcast use vstd::seq_lib::group_to_multiset_ensures;

    let totals = tally(tree, root, kind_count);
    let mut list: Vec<Ranked> = Vec::new();
    for k in 0..totals.len()
        invariant
            totals@.len() <= 0x1_0000,
            forall|k: int| 0 <= k < totals@.len() ==> (#[trigger] totals@[k]).kind == k,
            list@ == ranks(totals@, k as int, physical),
    {
        let t = totals[k];
        assert(t.kind == k);
        if t.files > 0 {
            let key: u64 = if physical {
                t.physical
            } else {
                t.logical
            };
            list.push(Ranked { key, tie: t.files, id: t.kind as u32 });
        }
    }
    let ghost unsorted = list@;
    let order = sort(list);
    proof {
        lemma_ranks(totals@, totals@.len() as int, physical);
        unsorted.lemma_multiset_has_no_duplicates();
        order@.lemma_multiset_has_no_duplicates_conv();
        assert forall|j: int| 0 <= j < order@.len() implies unsorted.contains(
            #[trigger] order@[j],
        ) by {
            assert(order@.contains(order@[j]));
            assert(order@.to_multiset().count(order@[j]) > 0);
        }
        assert forall|j: int| 0 <= j < unsorted.len() implies order@.contains(
            #[trigger] unsorted[j],
        ) by {
            assert(unsorted.contains(unsorted[j]));
            assert(unsorted.to_multiset().count(unsorted[j]) > 0);
        }
    }
    let mut out: Vec<KindTotal> = Vec::new();
    for j in 0..order.len()
        invariant
            totals@.len() == kind_count,
            forall|k: int| 0 <= k < totals@.len() ==> (#[trigger] totals@[k]).kind == k,
            forall|j: int| 0 <= j < order@.len() ==> unsorted.contains(#[trigger] order@[j]),
            forall|j: int|
                0 <= j < unsorted.len() ==> {
                    let k = (#[trigger] unsorted[j]).id as int;
                    k < totals@.len() && totals@[k].files > 0 && unsorted[j] == rank(
                        totals@[k],
                        physical,
                    )
                },
            out@.len() == j,
            forall|i: int|
                0 <= i < j ==> (#[trigger] out@[i]).kind == order@[i].id && out@[i].kind
                    < kind_count && out@[i].files > 0 && out@[i] == totals@[out@[i].kind as int]
                    && order@[i] == rank(out@[i], physical),
    {
        let r = order[j];
        assert(unsorted.contains(order@[j as int]));
        out.push(totals[r.id as usize]);
    }
    proof {
        let nodes = tree@.nodes;
        assert forall|i: int, j: int| 0 <= i < j < out@.len() implies (#[trigger] out@[i]).kind
            != (#[trigger] out@[j]).kind by {
            assert(order@[i] != order@[j]);
        }
        assert forall|k: int|
            0 <= k < kind_count && #[trigger] subtree_sum(nodes, root as int, kind_files(nodes, k))
                > 0 implies exists|j: int| 0 <= j < out@.len() && (#[trigger] out@[j]).kind
            == k by {
            assert(totals_of(nodes, root as int, k, totals@[k]));
            let r = rank(totals@[k], physical);
            assert(unsorted.contains(r));
            let h = choose|h: int| 0 <= h < unsorted.len() && unsorted[h] == r;
            assert(order@.contains(unsorted[h]));
            let j = choose|j: int| 0 <= j < order@.len() && order@[j] == r;
            assert(out@[j].kind == k);
        }
        assert forall|i: int, j: int| 0 <= i < j < out@.len() implies {
            let a = #[trigger] out@[i];
            let b = #[trigger] out@[j];
            a.spec_size(physical) > b.spec_size(physical) || (a.spec_size(physical)
                == b.spec_size(physical) && a.files >= b.files)
        } by {
            assert(not_after(order@[i], order@[j]));
        }
    }
    out
}

/// The total of kind `k` over all of `nodes`.
pub open spec fn sum_of(nodes: Seq<Node>, k: int) -> KindTotal {
    KindTotal {
        kind: k as u16,
        logical: sum(0, nodes.len() as int, kind_size(nodes, k, false)) as u64,
        physical: sum(0, nodes.len() as int, kind_size(nodes, k, true)) as u64,
        files: sum(0, nodes.len() as int, kind_files(nodes, k)) as u64,
    }
}

/// Adds a node to an accumulator and hands it on.
fn add_to(totals: Vec<KindTotal>, n: &Node) -> (out: Vec<KindTotal>)
    requires
        !n.spec_is_dir() ==> n.kind < totals@.len() && totals@[n.kind as int].logical + n.logical
            <= u64::MAX && totals@[n.kind as int].physical + n.physical <= u64::MAX
            && totals@[n.kind as int].files < u64::MAX,
    ensures
        out@ == if n.spec_is_dir() {
            totals@
        } else {
            totals@.update(n.kind as int, plus(totals@[n.kind as int], *n))
        },
{
    let mut totals = totals;
    add_node(&mut totals, n);
    totals
}

/// Adds one accumulator to another, kind by kind.
fn add_totals(a: Vec<KindTotal>, b: Vec<KindTotal>) -> (out: Vec<KindTotal>)
    requires
        a@.len() == b@.len(),
        forall|k: int|
            0 <= k < a@.len() ==> (#[trigger] a@[k]).logical + b@[k].logical <= u64::MAX
                && a@[k].physical + b@[k].physical <= u64::MAX && a@[k].files + b@[k].files
                <= u64::MAX,
    ensures
        out@ == Seq::new(
            a@.len(),
            |k: int|
                KindTotal {
                    kind: a@[k].kind,
                    logical: (a@[k].logical + b@[k].logical) as u64,
                    physical: (a@[k].physical + b@[k].physical) as u64,
                    files: (a@[k].files + b@[k].files) as u64,
                },
        ),
{
    let mut out: Vec<KindTotal> = Vec::new();
    let ghost goal = Seq::new(
        a@.len(),
        |k: int|
            KindTotal {
                kind: a@[k].kind,
                logical: (a@[k].logical + b@[k].logical) as u64,
                physical: (a@[k].physical + b@[k].physical) as u64,
                files: (a@[k].files + b@[k].files) as u64,
            },
    );
    for k in 0..a.len()
        invariant
            a@.len() == b@.len(),
            goal.len() == a@.len(),
            forall|k: int|
                0 <= k < a@.len() ==> (#[trigger] a@[k]).logical + b@[k].logical <= u64::MAX
                    && a@[k].physical + b@[k].physical <= u64::MAX && a@[k].files + b@[k].files
                    <= u64::MAX,
            forall|k: int|
                0 <= k < a@.len() ==> #[trigger] goal[k] == (KindTotal {
                    kind: a@[k].kind,
                    logical: (a@[k].logical + b@[k].logical) as u64,
                    physical: (a@[k].physical + b@[k].physical) as u64,
                    files: (a@[k].files + b@[k].files) as u64,
                }),
            out@ == goal.take(k as int),
    {
        let x = a[k];
        let y = b[k];
        out.push(
            KindTotal {
                kind: x.kind,
                logical: x.logical + y.logical,
                physical: x.physical + y.physical,
                files: x.files + y.files,
            },
        );
        assert(out@ == goal.take(k + 1));
    }
    assert(goal.take(goal.len() as int) == goal);
    out
}

/// The totals of all kinds over `nodes`.
///
/// Calls rayon's `par_iter`, `ParallelIterator::fold` and
/// `ParallelIterator::reduce`: the nodes are split into stretches, each stretch
/// is added up from [`blank`] by [`add_to`], and the results are put together
/// by [`add_totals`]. Addition does not mind the order, so the contract says
/// what the sums are, however the nodes were split.
#[verifier::external_body]
fn fold_totals(nodes: &[Node], kind_count: usize) -> (totals: Vec<KindTotal>)
    requires
        kind_count <= 0x1_0000,
        forall|i: int|
            0 <= i < nodes@.len() && !(#[trigger] nodes@[i]).spec_is_dir() ==> nodes@[i].kind
                < kind_count,
        sum(0, nodes@.len() as int, file_size(nodes@, true)) <= u64::MAX,
        sum(0, nodes@.len() as int, file_size(nodes@, false)) <= u64::MAX,
    ensures
        totals@ == Seq::new(kind_count as nat, |k: int| sum_of(nodes@, k)),
{
    nodes.par_iter().fold(|| blank(kind_count), |acc, n| add_to(acc, n)).reduce(
        || blank(kind_count),
        |a, b| add_totals(a, b),
    )
}

/// Total bytes accounted for by each kind across the whole tree, in parallel,
/// in kind order. Used for the one-shot summary the CLI prints.
pub fn kind_totals_parallel(tree: &Tree, kind_count: usize) -> (out: Vec<KindTotal>)
    requires
        tree@.wf(),
        kinds_in_range(tree@.nodes, 0, kind_count as int),
    ensures
        lists_kinds(tree@.nodes, 0, kind_count as int, out@),
        in_kind_order(out@),
{
    let count: usize = known_kinds(kind_count);
    let out = folded_totals(tree, count);
    proof {
        lemma_all_kinds(tree@.nodes, 0, count as int, kind_count as int, out@);
    }
    out
}

/// Each kind comes before those of a higher number.
pub open spec fn in_kind_order(out: Seq<KindTotal>) -> bool {
    forall|i: int, j: int|
        0 <= i < j < out.len() ==> (#[trigger] out[i]).kind < (#[trigger] out[j]).kind
}

/// Whatever lists the totals of a subtree lists the same ones: two lists differ
/// in their order alone. So the totals added up in parallel are those added up
/// in one go, whichever of the sizes these are sorted by.
pub proof fn lemma_same_totals(
    nodes: Seq<Node>,
    root: int,
    kind_count: int,
    a: Seq<KindTotal>,
    b: Seq<KindTotal>,
)
    requires
        lists_kinds(nodes, root, kind_count, a),
        lists_kinds(nodes, root, kind_count, b),
    ensures
        a.to_multiset() == b.to_multiset(),
        a.len() == b.len(),
        in_kind_order(a) && in_kind_order(b) ==> a == b,
{
    broadcast use vstd::seq_lib::group_to_multiset_ensures;

    lemma_listed_once(nodes, root, kind_count, a);
    lemma_listed_once(nodes, root, kind_count, b);
    a.lemma_multiset_has_no_duplicates();
    b.lemma_multiset_has_no_duplicates();
    assert forall|t: KindTotal| a.to_multiset().count(t) == b.to_multiset().count(t) by {
        lemma_listed_in_both(nodes, root, kind_count, a, b, t);
        lemma_listed_in_both(nodes, root, kind_count, b, a, t);
        assert(a.to_multiset().count(t) > 0 <==> a.contains(t));
        assert(b.to_multiset().count(t) > 0 <==> b.contains(t));
    }
    assert(a.to_multiset() =~= b.to_multiset());
    assert(a.to_multiset().len() == a.len() && b.to_multiset().len() == b.len());
    if in_kind_order(a) && in_kind_order(b) {
        lemma_one_order(a, b);
    }
}

proof fn lemma_listed_once(nodes: Seq<Node>, root: int, kind_count: int, a: Seq<KindTotal>)
    requires
        lists_kinds(nodes, root, kind_count, a),
    ensures
        a.no_duplicates(),
{
    assert forall|i: int, j: int|
        0 <= i < a.len() && 0 <= j < a.len() && i != j implies a[i] != a[j] by {
        if i < j {
            assert(a[i].kind != a[j].kind);
        } else {
            assert(a[j].kind != a[i].kind);
        }
    }
}

proof fn lemma_listed_in_both(
    nodes: Seq<Node>,
    root: int,
    kind_count: int,
    a: Seq<KindTotal>,
    b: Seq<KindTotal>,
    t: KindTotal,
)
    requires
        lists_kinds(nodes, root, kind_count, a),
        lists_kinds(nodes, root, kind_count, b),
    ensures
        a.contains(t) ==> b.contains(t),
{
    if a.contains(t) {
        let i = choose|i: int| 0 <= i < a.len() && a[i] == t;
        let k = a[i].kind as int;
        assert(subtree_sum(nodes, root, kind_files(nodes, k)) > 0);
        let j = choose|j: int| 0 <= j < b.len() && (#[trigger] b[j]).kind == k;
        assert(b[j] == t);
    }
}

/// The same totals in kind order are the same list.
proof fn lemma_one_order(a: Seq<KindTotal>, b: Seq<KindTotal>)
    requires
        in_kind_order(a),
        in_kind_order(b),
        a.to_multiset() == b.to_multiset(),
    ensures
        a == b,
    decreases a.len(),
{
    broadcast use vstd::seq_lib::group_to_multiset_ensures;

    assert(a.to_multiset().len() == a.len() && b.to_multiset().len() == b.len());
    if a.len() > 0 {
        let last = a.len() - 1;
        let (x, y) = (a[last], b[last]);
        assert(a.contains(x) && b.contains(y));
        assert(b.to_multiset().count(x) > 0 && a.to_multiset().count(y) > 0);
        assert(b.contains(x) && a.contains(y));
        let i = choose|i: int| 0 <= i < a.len() && a[i] == y;
        let j = choose|j: int| 0 <= j < b.len() && b[j] == x;
        assert(i < last ==> a[i].kind < a[last].kind);
        assert(j < last ==> b[j].kind < b[last].kind);
        assert(x == y);
        let (c, d) = (a.drop_last(), b.drop_last());
        assert(a == c.push(x) && b == d.push(y));
        assert(c.to_multiset() =~= d.to_multiset()) by {
            assert(a.to_multiset() =~= c.to_multiset().insert(x));
            assert(b.to_multiset() =~= d.to_multiset().insert(y));
            assert(c.to_multiset() =~= a.to_multiset().remove(x));
            assert(d.to_multiset() =~= b.to_multiset().remove(y));
        }
        lemma_one_order(c, d);
    }
}

/// The totals of the first `kind_count` kinds that have files, in kind order.
fn folded_totals(tree: &Tree, kind_count: usize) -> (out: Vec<KindTotal>)
    requires
        tree@.wf(),
        kind_count <= 0x1_0000,
        kinds_in_range(tree@.nodes, 0, kind_count as int),
    ensures
        lists_kinds(tree@.nodes, 0, kind_count as int, out@),
        forall|i: int, j: int|
            0 <= i < j < out@.len() ==> (#[trigger] out@[i]).kind < (#[trigger] out@[j]).kind,
{
    let ghost nodes = tree@.nodes;
    proof {
        assert forall|i: int|
            0 <= i < nodes.len() && !(#[trigger] nodes[i]).spec_is_dir() implies nodes[i].kind
            < kind_count by {
            crate::summary::subtree::lemma_under_root(nodes, i);
        }
        lemma_sizes_add_up(nodes, 0, true);
        lemma_sizes_add_up(nodes, 0, false);
        lemma_root_sum(nodes, file_size(nodes, true));
        lemma_root_sum(nodes, file_size(nodes, false));
    }
    let totals = fold_totals(tree.nodes(), kind_count);
    proof {
        assert forall|k: int| 0 <= k < kind_count implies totals_of(
            nodes,
            0,
            k,
            #[trigger] totals@[k],
        ) by {
            lemma_kind_bounds(nodes, 0, k);
            lemma_root_sum(nodes, kind_size(nodes, k, true));
            lemma_root_sum(nodes, kind_size(nodes, k, false));
            lemma_root_sum(nodes, kind_files(nodes, k));
            crate::sums::lemma_sum_bounds(0, nodes.len() as int, kind_size(nodes, k, true));
            crate::sums::lemma_sum_bounds(0, nodes.len() as int, kind_size(nodes, k, false));
            crate::sums::lemma_sum_bounds(0, nodes.len() as int, kind_files(nodes, k));
        }
    }
    let mut out: Vec<KindTotal> = Vec::new();
    for k in 0..totals.len()
        invariant
            totals@.len() == kind_count,
            forall|k: int|
                0 <= k < kind_count ==> totals_of(nodes, 0, k, #[trigger] totals@[k]),
            forall|j: int|
                0 <= j < out@.len() ==> {
                    let t = #[trigger] out@[j];
                    t.kind < k && t.files > 0 && totals_of(nodes, 0, t.kind as int, t)
                },
            forall|i: int, j: int|
                0 <= i < j < out@.len() ==> (#[trigger] out@[i]).kind < (#[trigger] out@[j]).kind,
            forall|h: int|
                0 <= h < k && (#[trigger] totals@[h]).files > 0 ==> exists|j: int|
                    0 <= j < out@.len() && (#[trigger] out@[j]).kind == h,
    {
        let t = totals[k];
        let ghost before = out@;
        assert(totals_of(nodes, 0, k as int, t));
        if t.files > 0 {
            out.push(t);
        }
        proof {
            assert forall|h: int|
                0 <= h < k + 1 && (#[trigger] totals@[h]).files > 0 implies exists|j: int|
                0 <= j < out@.len() && (#[trigger] out@[j]).kind == h by {
                if h < k {
                    let j = choose|j: int|
                        0 <= j < before.len() && (#[trigger] before[j]).kind == h;
                    assert(out@[j].kind == h);
                } else {
                    assert(out@[before.len() as int].kind == h);
                }
            }
        }
    }
    proof {
        assert forall|k: int|
            0 <= k < kind_count && #[trigger] subtree_sum(nodes, 0, kind_files(nodes, k))
                > 0 implies exists|j: int| 0 <= j < out@.len() && (#[trigger] out@[j]).kind
            == k by {
            assert(totals_of(nodes, 0, k, totals@[k]));
        }
    }
    out
}

/// Summing under the scan root is summing over all nodes.
proof fn lemma_root_sum(nodes: Seq<Node>, f: spec_fn(int) -> int)
    requires
        shape_wf(nodes),
    ensures
        subtree_sum(nodes, 0, f) == sum(0, nodes.len() as int, f),
{
    let n = nodes.len() as int;
    assert forall|i: int| 0 <= i < n implies #[trigger] only_under(nodes, 0, f)(i) == f(i) by {
        crate::summary::subtree::lemma_under_root(nodes, i);
    }
    lemma_sum_same(0, n, only_under(nodes, 0, f), f);
}

} // verus!
