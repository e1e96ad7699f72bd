//! The folders right below a node, for the folder pane.

use vstd::prelude::*;

use crate::sort::{not_after, sort, Ranked};
use crate::tree::arena::in_child_range;
use crate::tree::{Node, NodeId, Tree};

verus! {

/// Whether a list is all directories below `parent`, each once, largest first.
pub open spec fn folders_of(
    nodes: Seq<Node>,
    parent: int,
    physical: bool,
    list: Seq<NodeId>,
) -> bool {
    &&& list.no_duplicates()
    &&& forall|j: int|
        0 <= j < list.len() ==> in_child_range(nodes, parent, #[trigger] list[j] as int)
            && nodes[list[j] as int].spec_is_dir()
    &&& forall|c: NodeId| #[trigger]
        in_child_range(nodes, parent, c as int) && nodes[c as int].spec_is_dir() ==> list.contains(
            c,
        )
    &&& forall|i: int, j: int|
        0 <= i < j < list.len() ==> nodes[#[trigger] list[i] as int].spec_size(physical)
            >= nodes[#[trigger] list[j] as int].spec_size(physical)
}

/// As many different numbers as a range has are all of it.
proof fn lemma_fills(list: Seq<NodeId>, lo: int, len: nat, c: NodeId)
    requires
        list.no_duplicates(),
        list.len() == len,
        forall|j: int| 0 <= j < list.len() ==> lo <= #[trigger] list[j] < lo + len,
        lo <= c < lo + len,
    ensures
        list.contains(c),
{
    let ints = list.map(|i: int, v: NodeId| v as int);
    assert(ints.no_duplicates()) by {
        assert forall|i: int, j: int|
            0 <= i < ints.len() && 0 <= j < ints.len() && i != j implies ints[i] != ints[j] by {
            assert(list[i] != list[j]);
        }
    }
    ints.unique_seq_to_set();
    let range = vstd::set_lib::set_int_range(lo, lo + len);
    vstd::set_lib::lemma_int_range(lo, lo + len);
    assert(ints.to_set().subset_of(range)) by {
        assert forall|v: int| ints.to_set().contains(v) implies range.contains(v) by {
            let i = choose|i: int| 0 <= i < ints.len() && ints[i] == v;
            assert(ints[i] == list[i]);
        }
    }
    vstd::set_lib::lemma_subset_equality(ints.to_set(), range);
    assert(range.contains(c as int));
    assert(ints.to_set().contains(c as int));
    let i = choose|i: int| 0 <= i < ints.len() && ints[i] == c as int;
    assert(list[i] == c);
}

/// The ranks of the nodes `lo..hi` by size.
spec fn size_ranks(nodes: Seq<Node>, lo: int, hi: int, physical: bool) -> Seq<Ranked> {
    Seq::new(
        (if lo <= hi {
            hi - lo
        } else {
            0
        }) as nat,
        |i: int|
            Ranked { key: nodes[lo + i].spec_size(physical), tie: 0, id: (lo + i) as u32 },
    )
}

/// All children of a node, largest first.
fn ranked_children(tree: &Tree, parent: NodeId, physical: bool) -> (kids: Vec<NodeId>)
    requires
        tree@.wf(),
        tree@.has(parent as int),
    ensures
        kids@.len() == tree@.nodes[parent as int].child_len,
        kids@.no_duplicates(),
        forall|j: int|
            0 <= j < kids@.len() ==> in_child_range(
                tree@.nodes,
                parent as int,
                #[trigger] kids@[j] as int,
            ),
        forall|i: int, j: int|
            0 <= i < j < kids@.len() ==> tree@.nodes[#[trigger] kids@[i] as int].spec_size(physical)
                >= tree@.nodes[#[trigger] kids@[j] as int].spec_size(physical),
{
    broadcast use vstd::seq_lib::group_to_multiset_ensures;

    let ghost nodes = tree@.nodes;
    let range = tree.children(parent);
    let lo: NodeId = range.start;
    let hi: NodeId = range.end;
    let mut list: Vec<Ranked> = Vec::new();
    assert(hi > lo ==> nodes[parent as int].child_len > 0);
    for c in lo..hi
        invariant
            tree@.wf(),
            nodes == tree@.nodes,
            hi > lo ==> hi <= nodes.len(),
            list@ == size_ranks(nodes, lo as int, c as int, physical),
    {
        list.push(Ranked { key: tree.size(c, physical), tie: 0, id: c });
        assert(list@ == size_ranks(nodes, lo as int, c + 1, physical));
    }
    let ghost unsorted = list@;
    assert(unsorted == size_ranks(nodes, lo as int, hi as int, physical));
    let order = sort(list);
    proof {
        assert(unsorted.no_duplicates()) by {
            assert forall|i: int, j: int|
                0 <= i < unsorted.len() && 0 <= j < unsorted.len() && i != j implies unsorted[i]
                != unsorted[j] by {
                assert(unsorted[i].id == lo + i && unsorted[j].id == lo + j);
            }
        }
        unsorted.lemma_multiset_has_no_duplicates();
        order@.lemma_multiset_has_no_duplicates_conv();
        assert forall|j: int| 0 <= j < order@.len() implies unsorted.contains(
            #[trigger] order@[j],
        ) by {
            assert(order@.contains(order@[j]));
            assert(order@.to_multiset().count(order@[j]) > 0);
        }
    }
    let mut kids: Vec<NodeId> = Vec::new();
    for j in 0..order.len()
        invariant
            kids@.len() == j,
            forall|i: int| 0 <= i < j ==> #[trigger] kids@[i] == order@[i].id,
    {
        kids.push(order[j].id);
    }
    proof {
        assert forall|j: int| 0 <= j < kids@.len() implies in_child_range(
            nodes,
            parent as int,
            #[trigger] kids@[j] as int,
        ) && order@[j].key == nodes[kids@[j] as int].spec_size(physical) by {
            assert(unsorted.contains(order@[j]));
            let h = choose|h: int| 0 <= h < unsorted.len() && unsorted[h] == order@[j];
            assert(unsorted[h].id == lo + h);
        }
        assert forall|i: int, j: int| 0 <= i < j < kids@.len() implies nodes[
            #[trigger] kids@[i] as int
        ].spec_size(physical) >= nodes[#[trigger] kids@[j] as int].spec_size(physical) by {
            assert(not_after(order@[i], order@[j]));
        }
        assert forall|i: int, j: int|
            0 <= i < kids@.len() && 0 <= j < kids@.len() && i != j implies kids@[i] != kids@[j] by {
            assert(order@[i] != order@[j]);
            assert(unsorted.contains(order@[i]) && unsorted.contains(order@[j]));
            let g = choose|g: int| 0 <= g < unsorted.len() && unsorted[g] == order@[i];
            let h = choose|h: int| 0 <= h < unsorted.len() && unsorted[h] == order@[j];
            assert(unsorted[g].id == lo + g && unsorted[h].id == lo + h);
        }
    }
    kids
}

/// The directories right below `parent` sorted by size, for the folder pane.
/// Only the immediate children, since the pane expands lazily; files are the
/// business of the list of largest files and would bury the structure here.
pub fn children_by_size(tree: &Tree, parent: NodeId, physical: bool) -> (list: Vec<NodeId>)
    requires
        tree@.wf(),
        tree@.has(parent as int),
    ensures
        folders_of(tree@.nodes, parent as int, physical, list@),
{
    let kids = ranked_children(tree, parent, physical);
    let ghost nodes = tree@.nodes;
    let mut list: Vec<NodeId> = Vec::new();
    let ghost mut from: Seq<int> = Seq::empty();
    for i in 0..kids.len()
        invariant
            tree@.wf(),
            tree@.has(parent as int),
            nodes == tree@.nodes,
            kids@.no_duplicates(),
            forall|j: int|
                0 <= j < kids@.len() ==> in_child_range(
                    nodes,
                    parent as int,
                    #[trigger] kids@[j] as int,
                ),
            from.len() == list@.len(),
            forall|j: int|
                0 <= j < from.len() ==> 0 <= #[trigger] from[j] < i && kids@[from[j]] == list@[j],
            forall|a: int, b: int| 0 <= a < b < from.len() ==> #[trigger] from[a] < #[trigger] from[b],
            forall|j: int| 0 <= j < list@.len() ==> nodes[#[trigger] list@[j] as int].spec_is_dir(),
            forall|j: int|
                0 <= j < i && nodes[#[trigger] kids@[j] as int].spec_is_dir() ==> list@.contains(
                    kids@[j],
                ),
    {
        let child: NodeId = kids[i];
        assert(in_child_range(nodes, parent as int, kids@[i as int] as int));
        assert(nodes[parent as int].child_len > 0);
        let ghost was = list@;
        if tree.node(child).is_dir() {
            list.push(child);
            proof {
                from = from.push(i as int);
                assert(list@[was.len() as int] == child);
                assert forall|j: int|
                    0 <= j <= i && nodes[#[trigger] kids@[j] as int].spec_is_dir() implies list@.contains(
                    kids@[j],
                ) by {
                    if j < i {
                        let k = choose|k: int| 0 <= k < was.len() && was[k] == kids@[j];
                        assert(list@[k] == kids@[j]);
                    }
                }
            }
        }
    }
    proof {
        assert forall|j: int| 0 <= j < list@.len() implies in_child_range(
            nodes,
            parent as int,
            #[trigger] list@[j] as int,
        ) by {
            assert(kids@[from[j]] == list@[j]);
        }
        assert forall|i: int, j: int|
            0 <= i < list@.len() && 0 <= j < list@.len() && i != j implies list@[i] != list@[j] by {
            assert(kids@[from[i]] == list@[i] && kids@[from[j]] == list@[j]);
        }
        assert forall|i: int, j: int| 0 <= i < j < list@.len() implies nodes[#[trigger] list@[i] as int].spec_size(
            physical,
        ) >= nodes[#[trigger] list@[j] as int].spec_size(physical) by {
            assert(kids@[from[i]] == list@[i] && kids@[from[j]] == list@[j]);
        }
        assert forall|c: NodeId| #[trigger]
            in_child_range(nodes, parent as int, c as int)
                && nodes[c as int].spec_is_dir() implies list@.contains(c) by {
            lemma_fills(
                kids@,
                nodes[parent as int].child_start as int,
                nodes[parent as int].child_len as nat,
                c,
            );
            let k = choose|k: int| 0 <= k < kids@.len() && kids@[k] == c;
            assert(nodes[kids@[k] as int].spec_is_dir());
        }
    }
    list
}

} // verus!
