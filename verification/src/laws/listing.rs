//! What the lists of files, folders and kinds hold.

use vstd::prelude::*;

use crate::laws::drawing::{is_child, measured};
use crate::laws::reporting::lemma_added_up;
use crate::sidebar::{whole_files, whole_size};
use crate::sort::{sort, Ranked};
use crate::summary::folders::folders_of;
use crate::summary::largest::{
    best, considered, eligible, holds_largest, ids_of, lemma_best, lemma_best_distinct, listed,
    place,
};
use crate::summary::subtree::{
    each, for_each_in_subtree, lemma_no_repeats, lemma_preorder_from_above, lemma_preorder_visits,
    lemma_visiting_order, only_under, subtree_sum, under, visiting_order,
};
use crate::summary::totals::{
    kind_files, kind_size, kind_totals_parallel, largest_first, lists_kinds, totals_of, KindTotal,
};
use crate::sums::{lemma_sum_bounds, lemma_sum_same, sum};
use crate::tree::arena::{in_child_range, shape_wf};
use crate::tree::flags;
use crate::tree::{Node, NodeId, Tree, TreeView};

verus! {

/// Whether a node is a file that weighs something in the metric asked for: no
/// directory and not the free space. There is no size that is too large.
pub open spec fn is_file(n: Node, physical: bool) -> bool {
    &&& n.flags & flags::DIR == 0
    &&& n.flags & flags::FREE_SPACE == 0
    &&& measured(n, physical) > 0
}

/// The largest files under a node, as far as `n` goes: each file under it is in
/// the list, or the list is full of files that are at least as large. Nothing
/// else is in the list, nothing twice, and the largest come first.
pub open spec fn lists_largest(
    nodes: Seq<Node>,
    root: int,
    n: int,
    physical: bool,
    files: Seq<NodeId>,
) -> bool {
    &&& files.len() <= n
    &&& files.no_duplicates()
    &&& forall|j: int|
        0 <= j < files.len() ==> (#[trigger] files[j]) < nodes.len() && under(
            nodes,
            files[j] as int,
            root,
        ) && is_file(nodes[files[j] as int], physical)
    &&& forall|i: int, j: int|
        0 <= i < j < files.len() ==> measured(nodes[#[trigger] files[i] as int], physical)
            >= measured(nodes[#[trigger] files[j] as int], physical)
    &&& forall|id: NodeId|
        id < nodes.len() && #[trigger] under(nodes, id as int, root) && is_file(
            nodes[id as int],
            physical,
        ) ==> files.contains(id) || (files.len() == n && forall|j: int|
            0 <= j < files.len() ==> measured(nodes[#[trigger] files[j] as int], physical)
                >= measured(nodes[id as int], physical))
}

/// Whether a list of ids names the nodes under `root` and no others.
spec fn names_all_under(nodes: Seq<Node>, root: int, ids: Seq<NodeId>) -> bool {
    &&& forall|k: int|
        0 <= k < ids.len() ==> (#[trigger] ids[k]) < nodes.len() && under(
            nodes,
            ids[k] as int,
            root,
        )
    &&& forall|x: NodeId|
        x < nodes.len() && #[trigger] under(nodes, x as int, root) ==> ids.contains(x)
}

/// What is in the list is a file under the root.
proof fn lemma_listed_is_a_file(
    nodes: Seq<Node>,
    root: int,
    ids: Seq<NodeId>,
    n: int,
    physical: bool,
    top: Seq<(u64, NodeId)>,
    j: int,
)
    requires
        names_all_under(nodes, root, ids),
        holds_largest(nodes, ids, n, physical, top),
        0 <= j < top.len(),
    ensures
        top[j].1 < nodes.len(),
        under(nodes, top[j].1 as int, root),
        is_file(nodes[top[j].1 as int], physical),
        top[j].0 == measured(nodes[top[j].1 as int], physical),
{
    assert(ids.contains(top[j].1));
    let k = choose|k: int| 0 <= k < ids.len() && ids[k] == top[j].1;
    assert(ids[k] < nodes.len());
}

/// What is not in the list is no larger than anything in it.
proof fn lemma_left_out_is_no_larger(
    nodes: Seq<Node>,
    root: int,
    ids: Seq<NodeId>,
    n: int,
    physical: bool,
    top: Seq<(u64, NodeId)>,
    id: NodeId,
)
    requires
        names_all_under(nodes, root, ids),
        holds_largest(nodes, ids, n, physical, top),
        id < nodes.len(),
        under(nodes, id as int, root),
        is_file(nodes[id as int], physical),
    ensures
        ids_of(top).contains(id) || (top.len() == n && forall|j: int|
            0 <= j < top.len() ==> (#[trigger] top[j]).0 >= measured(nodes[id as int], physical)),
{
    assert(ids.contains(id));
    let k = choose|k: int| 0 <= k < ids.len() && ids[k] == id;
    assert(eligible(nodes, ids[k] as int, physical));
    if listed(top, id) {
        let j = choose|j: int| 0 <= j < top.len() && (#[trigger] top[j]).1 == id;
        assert(ids_of(top)[j] == id);
    } else {
        assert forall|j: int| 0 <= j < top.len() implies (#[trigger] top[j]).0 >= measured(
            nodes[id as int],
            physical,
        ) by {
            assert(top[j].0 >= top[top.len() - 1].0);
        }
    }
}

/// The list of the largest files leaves no file out that belongs in it.
pub proof fn lemma_no_large_file_is_missing(
    nodes: Seq<Node>,
    root: int,
    n: int,
    physical: bool,
)
    requires
        shape_wf(nodes),
        0 <= root < nodes.len(),
        n > 0,
    ensures
        lists_largest(
            nodes,
            root,
            n,
            physical,
            ids_of(best(nodes, visiting_order(nodes, root), n, physical)),
        ),
{
    let ids = visiting_order(nodes, root);
    assert(names_all_under(nodes, root, ids) && ids.no_duplicates()) by {
        lemma_visiting_order(nodes, root);
        lemma_no_repeats(nodes, root, ids);
    }
    lemma_best_lists_largest(nodes, root, ids, n, physical);
}

proof fn lemma_best_lists_largest(
    nodes: Seq<Node>,
    root: int,
    ids: Seq<NodeId>,
    n: int,
    physical: bool,
)
    requires
        n > 0,
        ids.no_duplicates(),
        names_all_under(nodes, root, ids),
    ensures
        lists_largest(nodes, root, n, physical, ids_of(best(nodes, ids, n, physical))),
{
    let top = best(nodes, ids, n, physical);
    let files = ids_of(top);
    lemma_best(nodes, ids, n, physical);
    lemma_best_distinct(nodes, ids, n, physical);
    assert forall|j: int| 0 <= j < files.len() implies (#[trigger] files[j]) < nodes.len() && under(
        nodes,
        files[j] as int,
        root,
    ) && is_file(nodes[files[j] as int], physical) && top[j].0 == measured(
        nodes[files[j] as int],
        physical,
    ) by {
        lemma_listed_is_a_file(nodes, root, ids, n, physical, top, j);
    }
    assert forall|i: int, j: int| 0 <= i < j < files.len() implies measured(
        nodes[#[trigger] files[i] as int],
        physical,
    ) >= measured(nodes[#[trigger] files[j] as int], physical) by {
        assert(top[i].0 >= top[j].0);
    }
    assert forall|id: NodeId|
        id < nodes.len() && #[trigger] under(nodes, id as int, root) && is_file(
            nodes[id as int],
            physical,
        ) implies files.contains(id) || (files.len() == n && forall|j: int|
        0 <= j < files.len() ==> measured(nodes[#[trigger] files[j] as int], physical) >= measured(
            nodes[id as int],
            physical,
        )) by {
        lemma_left_out_is_no_larger(nodes, root, ids, n, physical, top, id);
        if !files.contains(id) {
            assert forall|j: int| 0 <= j < files.len() implies measured(
                nodes[#[trigger] files[j] as int],
                physical,
            ) >= measured(nodes[id as int], physical) by {
                assert(top[j].0 >= measured(nodes[id as int], physical));
            }
        }
    }
}

/// A node lies under another exactly if the other stands on the way from the
/// scan root down to it.
pub proof fn lemma_under_is_on_the_way(tree: TreeView, id: int, root: NodeId)
    requires
        shape_wf(tree.nodes),
        0 <= id < tree.nodes.len(),
    ensures
        under(tree.nodes, id, root as int) <==> tree.ancestry(id).contains(root),
    decreases id,
{
    let line = tree.ancestry(id);
    if id > 0 {
        let up = tree.nodes[id].parent as int;
        lemma_under_is_on_the_way(tree, up, root);
        let above = tree.ancestry(up);
        assert(line == above.push(id as NodeId));
        if above.contains(root) {
            let k = choose|k: int| 0 <= k < above.len() && above[k] == root;
            assert(line[k] == root);
        }
        if id == root {
            assert(line[line.len() - 1] == root);
        }
        if line.contains(root) && id != root {
            let k = choose|k: int| 0 <= k < line.len() && line[k] == root;
            assert(above[k] == root);
        }
    } else {
        assert(line == seq![0u32]);
        assert(line[0] == 0);
    }
}

/// Whether node `i` is a file of this kind under `root`.
pub open spec fn is_of_kind(nodes: Seq<Node>, root: int, kind: u16, i: int) -> bool {
    under(nodes, i, root) && nodes[i].flags & flags::DIR == 0 && nodes[i].kind == kind
}

/// What the files of a kind under `root` take up on disk.
pub open spec fn on_disk(nodes: Seq<Node>, root: int, kind: u16) -> spec_fn(int) -> int {
    |i: int|
        if is_of_kind(nodes, root, kind, i) {
            nodes[i].physical as int
        } else {
            0
        }
}

/// How long the files of a kind under `root` are.
pub open spec fn apparent(nodes: Seq<Node>, root: int, kind: u16) -> spec_fn(int) -> int {
    |i: int|
        if is_of_kind(nodes, root, kind, i) {
            nodes[i].logical as int
        } else {
            0
        }
}

/// One for each file of a kind under `root`.
pub open spec fn one_each(nodes: Seq<Node>, root: int, kind: u16) -> spec_fn(int) -> int {
    |i: int|
        if is_of_kind(nodes, root, kind, i) {
            1
        } else {
            0
        }
}

/// The totals list every kind that has a file under the root, empty or not,
/// once, and no other; each with the number of its files and what they add up
/// to, both ways.
pub proof fn lemma_totals_are_of_their_files(
    nodes: Seq<Node>,
    root: int,
    kind_count: int,
    totals: Seq<KindTotal>,
)
    requires
        lists_kinds(nodes, root, kind_count, totals),
    ensures
        forall|j: int|
            0 <= j < totals.len() ==> {
                let t = #[trigger] totals[j];
                let n = nodes.len() as int;
                &&& t.physical == sum(0, n, on_disk(nodes, root, t.kind))
                &&& t.logical == sum(0, n, apparent(nodes, root, t.kind))
                &&& t.files == sum(0, n, one_each(nodes, root, t.kind))
                &&& t.files > 0
            },
        forall|i: int, j: int|
            0 <= i < j < totals.len() ==> (#[trigger] totals[i]).kind != (#[trigger] totals[j]).kind,
        forall|i: int|
            0 <= i < nodes.len() && #[trigger] is_of_kind(nodes, root, nodes[i].kind, i)
                && nodes[i].kind < kind_count ==> exists|j: int|
                0 <= j < totals.len() && (#[trigger] totals[j]).kind == nodes[i].kind,
{
    let n = nodes.len() as int;
    assert forall|j: int| 0 <= j < totals.len() implies {
        let t = #[trigger] totals[j];
        &&& t.physical == sum(0, n, on_disk(nodes, root, t.kind))
        &&& t.logical == sum(0, n, apparent(nodes, root, t.kind))
        &&& t.files == sum(0, n, one_each(nodes, root, t.kind))
        &&& t.files > 0
    } by {
        let t = totals[j];
        assert(totals_of(nodes, root, t.kind as int, t));
        lemma_same_terms(nodes, root, t.kind);
    }
    assert forall|i: int|
        0 <= i < nodes.len() && #[trigger] is_of_kind(nodes, root, nodes[i].kind, i)
            && nodes[i].kind < kind_count implies exists|j: int|
        0 <= j < totals.len() && (#[trigger] totals[j]).kind == nodes[i].kind by {
        let k = nodes[i].kind;
        lemma_same_terms(nodes, root, k);
        let f = one_each(nodes, root, k);
        lemma_sum_bounds(0, n, f);
        assert(f(i) == 1);
        assert(subtree_sum(nodes, root, kind_files(nodes, k as int)) > 0);
    }
}

proof fn lemma_same_terms(nodes: Seq<Node>, root: int, kind: u16)
    ensures
        ({
            let n = nodes.len() as int;
            let k = kind as int;
            &&& subtree_sum(nodes, root, kind_size(nodes, k, true)) == sum(
                0,
                n,
                on_disk(nodes, root, kind),
            )
            &&& subtree_sum(nodes, root, kind_size(nodes, k, false)) == sum(
                0,
                n,
                apparent(nodes, root, kind),
            )
            &&& subtree_sum(nodes, root, kind_files(nodes, k)) == sum(
                0,
                n,
                one_each(nodes, root, kind),
            )
        }),
{
    let n = nodes.len() as int;
    let k = kind as int;
    lemma_sum_same(
        0,
        n,
        only_under(nodes, root, kind_size(nodes, k, true)),
        on_disk(nodes, root, kind),
    );
    lemma_sum_same(
        0,
        n,
        only_under(nodes, root, kind_size(nodes, k, false)),
        apparent(nodes, root, kind),
    );
    lemma_sum_same(
        0,
        n,
        only_under(nodes, root, kind_files(nodes, k)),
        one_each(nodes, root, kind),
    );
}

/// Totals sorted by blocks on disk have the most blocks first, sorted by length
/// the longest; of equals the one with the most files comes first.
pub proof fn lemma_totals_in_order(totals: Seq<KindTotal>)
    ensures
        largest_first(totals, true) ==> forall|i: int, j: int|
            0 <= i < j < totals.len() ==> (#[trigger] totals[i]).physical > (
            #[trigger] totals[j]).physical || (totals[i].physical == totals[j].physical
                && totals[i].files >= totals[j].files),
        largest_first(totals, false) ==> forall|i: int, j: int|
            0 <= i < j < totals.len() ==> (#[trigger] totals[i]).logical > (
            #[trigger] totals[j]).logical || (totals[i].logical == totals[j].logical
                && totals[i].files >= totals[j].files),
{
}

/// The folder pane lists every directory right below a node, whatever it weighs
/// and whether or not it is a bundle, once, and nothing else; the largest come
/// first.
pub proof fn lemma_folder_pane(nodes: Seq<Node>, parent: int, physical: bool, list: Seq<NodeId>)
    requires
        nodes.len() <= u32::MAX,
        0 <= parent < nodes.len(),
        folders_of(nodes, parent, physical, list),
    ensures
        list.no_duplicates(),
        forall|c: NodeId|
            is_child(nodes[parent], c as int) && (#[trigger] nodes[c as int]).flags & flags::DIR
                != 0 <==> list.contains(c),
        forall|i: int, j: int|
            0 <= i < j < list.len() ==> measured(nodes[#[trigger] list[i] as int], physical)
                >= measured(nodes[#[trigger] list[j] as int], physical),
{
    assert forall|c: NodeId|
        is_child(nodes[parent], c as int) && (#[trigger] nodes[c as int]).flags & flags::DIR
            != 0 <==> list.contains(c) by {
        assert(in_child_range(nodes, parent, c as int) == is_child(nodes[parent], c as int));
        if list.contains(c) {
            let j = choose|j: int| 0 <= j < list.len() && list[j] == c;
            assert(in_child_range(nodes, parent, list[j] as int));
        }
    }
    assert forall|i: int, j: int| 0 <= i < j < list.len() implies measured(
        nodes[#[trigger] list[i] as int],
        physical,
    ) >= measured(nodes[#[trigger] list[j] as int], physical) by {
        assert(nodes[list[i] as int].spec_size(physical) >= nodes[list[j] as int].spec_size(
            physical,
        ));
    }
}

/// A walk comes to every node under the one it starts at, that one first, to
/// none twice and to no other, and to a directory before what is in it.
pub proof fn lemma_walk(tree: &Tree, root: NodeId, visited: Vec<NodeId>)
    requires
        tree@.wf(),
        tree@.has(root as int),
        call_ensures(for_each_in_subtree, (tree, root), visited),
    ensures
        visited@.len() > 0,
        visited@[0] == root,
        visited@.no_duplicates(),
        forall|id: NodeId|
            visited@.contains(id) <==> id < tree@.nodes.len() && #[trigger] under(
                tree@.nodes,
                id as int,
                root as int,
            ),
        forall|k: int|
            0 < k < visited@.len() ==> visited@.take(k).contains(
                tree@.nodes[#[trigger] visited@[k] as int].parent,
            ),
{
    let nodes = tree@.nodes;
    lemma_preorder_visits(nodes, root as int);
    lemma_no_repeats(nodes, root as int, visited@);
    assert forall|k: int| 0 < k < visited@.len() implies visited@.take(k).contains(
        nodes[#[trigger] visited@[k] as int].parent,
    ) by {
        lemma_preorder_from_above(nodes, root as int, k);
    }
}

/// As many entries are under a node as there are nodes it is on the way to, the
/// node itself among them.
pub proof fn lemma_entries_under(nodes: Seq<Node>, root: int)
    ensures
        subtree_sum(nodes, root, each()) == sum(
            0,
            nodes.len() as int,
            |i: int|
                if under(nodes, i, root) {
                    1int
                } else {
                    0
                },
        ),
{
    lemma_sum_same(
        0,
        nodes.len() as int,
        only_under(nodes, root, each()),
        |i: int|
            if under(nodes, i, root) {
                1int
            } else {
                0
            },
    );
}

/// The totals added up in parallel are those of the whole tree, in the order of
/// the kinds.
pub proof fn lemma_parallel_totals(tree: &Tree, kind_count: usize, totals: Vec<KindTotal>)
    requires
        call_ensures(kind_totals_parallel, (tree, kind_count), totals),
    ensures
        lists_kinds(tree@.nodes, 0, kind_count as int, totals@),
        forall|i: int, j: int|
            0 <= i < j < totals@.len() ==> (#[trigger] totals@[i]).kind < (
            #[trigger] totals@[j]).kind,
{
}

/// A file goes into the list behind all that are larger and before all that are
/// not, as long as there is room.
pub proof fn lemma_where_a_file_goes(top: Seq<(u64, NodeId)>, n: int, size: u64, id: NodeId, k: int)
    requires
        0 <= k <= top.len() < n,
        forall|i: int| 0 <= i < k ==> (#[trigger] top[i]).0 > size,
        forall|i: int| k <= i < top.len() ==> (#[trigger] top[i]).0 <= size,
    ensures
        considered(top, n, size, id) == top.take(k) + seq![(size, id)] + top.skip(k),
{
    lemma_place_found(top, size, k);
    assert(top.insert(k, (size, id)) == top.take(k) + seq![(size, id)] + top.skip(k));
}

proof fn lemma_place_found(top: Seq<(u64, NodeId)>, size: u64, k: int)
    requires
        0 <= k <= top.len(),
        forall|i: int| 0 <= i < k ==> (#[trigger] top[i]).0 > size,
        forall|i: int| k <= i < top.len() ==> (#[trigger] top[i]).0 <= size,
    ensures
        place(top, size) == k,
    decreases top.len(),
{
    if top.len() > 0 {
        assert(top.last() == top[top.len() - 1]);
        if k < top.len() {
            lemma_place_found(top.drop_last(), size, k);
        }
    }
}

/// What a list of totals adds up to is the sum over it, in the metric asked for.
pub proof fn lemma_whole(totals: &Vec<KindTotal>, on_disk: u64, apparent: u64, files: u64)
    requires
        call_ensures(whole_size, (totals, true), on_disk),
        call_ensures(whole_size, (totals, false), apparent),
        call_ensures(whole_files, (totals,), files),
    ensures
        on_disk == sum(0, totals@.len() as int, |i: int| totals@[i].physical as int),
        apparent == sum(0, totals@.len() as int, |i: int| totals@[i].logical as int),
        files == sum(0, totals@.len() as int, |i: int| totals@[i].files as int),
{
    lemma_added_up(totals@);
}

/// Sorting loses nothing, adds nothing, and puts the largest first.
pub proof fn lemma_sort(list: Vec<Ranked>, out: Vec<Ranked>)
    requires
        call_ensures(sort, (list,), out),
    ensures
        out@.to_multiset() == list@.to_multiset(),
        forall|i: int, j: int|
            0 <= i < j < out@.len() ==> (#[trigger] out@[i]).key > (#[trigger] out@[j]).key || (
            out@[i].key == out@[j].key && out@[i].tie >= out@[j].tie),
{
}

} // verus!
