//! What holds of every tree.

use vstd::prelude::*;
use vstd::utf8::encode_utf8;

use crate::laws::drawing::{is_child, measured};
use crate::laws::naming::{is_name, lemma_a_name_is_one_component};
use crate::paths::{components, file_name, has_parent, joined, lies_under, parent};
use crate::sums::{lemma_sum_same, sum};
use crate::text::lossy_text;
use crate::tree::arena::{child_end, in_child_range, size_at};
use crate::tree::flags;
use crate::tree::{is_under, Node, NodeId, Tree, TreeView};

verus! {

/// What a child adds to its parent.
pub open spec fn weight_of(nodes: Seq<Node>, physical: bool) -> spec_fn(int) -> int {
    |c: int| measured(nodes[c], physical) as int
}

/// A directory weighs exactly what its children do together, both ways; and only
/// directories have children.
pub proof fn lemma_directories_add_up(tree: TreeView, p: int, physical: bool)
    requires
        tree.wf(),
        tree.has(p),
    ensures
        ({
            let n = tree.nodes[p];
            &&& n.flags & flags::DIR != 0 ==> measured(n, physical) == sum(
                n.child_start as int,
                n.child_start + n.child_len,
                weight_of(tree.nodes, physical),
            )
            &&& n.flags & flags::DIR == 0 ==> n.child_len == 0
        }),
{
    let nodes = tree.nodes;
    let n = nodes[p];
    if n.spec_is_dir() {
        assert(n.spec_size(physical) == measured(n, physical));
        assert(nodes[p].spec_size(physical) == crate::tree::arena::span_size(
            nodes,
            n.child_start as int,
            child_end(nodes, p),
            physical,
        ));
        lemma_sum_same(
            n.child_start as int,
            n.child_start + n.child_len,
            size_at(nodes, physical),
            weight_of(nodes, physical),
        );
    }
}

/// Every node but the root comes after its parent, stands one level below it (as
/// far as levels are counted), and is one of the children that the parent
/// records; no other node has it as a child.
pub proof fn lemma_children_and_parents(tree: TreeView, c: int, p: int)
    requires
        tree.wf(),
        tree.has(c),
        tree.has(p),
        c > 0,
    ensures
        tree.nodes[c].parent < c,
        is_child(tree.nodes[p], c) <==> tree.nodes[c].parent == p,
        tree.nodes[tree.nodes[c].parent as int].depth < 255 ==> tree.nodes[c].depth
            == tree.nodes[tree.nodes[c].parent as int].depth + 1,
        tree.nodes[0].parent == 0 && tree.nodes[0].depth == 0,
{
    assert(in_child_range(tree.nodes, p, c) <==> tree.nodes[c].parent == p);
    assert(tree.nodes[c].parent < c);
}

/// A file is never larger than the folder it is in.
pub proof fn lemma_no_child_outweighs_its_parent(tree: TreeView, c: int, physical: bool)
    requires
        tree.wf(),
        tree.has(c),
        c > 0,
    ensures
        measured(tree.nodes[c], physical) <= measured(
            tree.nodes[tree.nodes[c].parent as int],
            physical,
        ),
{
    let p = tree.nodes[c].parent as int;
    assert(p < c);
    lemma_children_and_parents(tree, c, p);
    lemma_directories_add_up(tree, p, physical);
    let n = tree.nodes[p];
    let f = weight_of(tree.nodes, physical);
    assert(n.child_len > 0);
    assert(n.spec_is_dir());
    crate::sums::lemma_sum_bounds(n.child_start as int, n.child_start + n.child_len, f);
    assert(f(c) <= sum(n.child_start as int, n.child_start + n.child_len, f));
}

/// Naming a node changes its name and nothing else of the tree.
pub proof fn lemma_set_name()
    ensures
        forall|tree: &mut Tree, id: NodeId, name: &[u8]| #[trigger]
            call_ensures(Tree::set_name, (tree, id, name), ()) && id < tree@.nodes.len() ==> {
                let (a, b) = (tree@, final(tree)@);
                &&& b.nodes.len() == a.nodes.len()
                &&& name@.len() <= 65535 ==> b.name(id as int) == name@
                &&& b.nodes[id as int].logical == a.nodes[id as int].logical
                &&& b.nodes[id as int].physical == a.nodes[id as int].physical
                &&& b.nodes[id as int].flags == a.nodes[id as int].flags
                &&& forall|i: int|
                    0 <= i < a.nodes.len() && i != id ==> #[trigger] b.nodes[i] == a.nodes[i]
                &&& b.root_path == a.root_path
            },
{
}

/// Adding the free space adds one node, below the root, and as much to the root.
pub proof fn lemma_push_free_space()
    ensures
        forall|tree: &mut Tree, bytes: u64, kind: u16| #[trigger]
            call_ensures(Tree::push_free_space, (tree, bytes, kind), ()) && tree@.nodes[0].logical
                + bytes <= u64::MAX && tree@.nodes[0].physical + bytes <= u64::MAX
                && tree@.nodes.len() > 0 ==> {
                let (a, b) = (tree@, final(tree)@);
                &&& b.nodes.len() == a.nodes.len() + 1
                &&& b.nodes[0].logical == a.nodes[0].logical + bytes
                &&& b.nodes[0].physical == a.nodes[0].physical + bytes
                &&& b.names == a.names + encode_utf8("(free space)"@)
                &&& b.root_path == a.root_path
            },
{
}

/// The texts of a node's path and name are those of its bytes.
pub proof fn lemma_texts(tree: &Tree, id: NodeId, path: String, name: String, root: String)
    requires
        call_ensures(Tree::path_text, (tree, id), path),
        call_ensures(Tree::name, (tree, id), name),
        call_ensures(Tree::root_text, (tree,), root),
    ensures
        path@ == lossy_text(tree@.path(id as int)),
        name@ == lossy_text(tree@.name(id as int)),
        root@ == lossy_text(tree@.root_path),
{
}

/// The path that is shown for short is the one below the scan root.
pub proof fn lemma_display_path(tree: &Tree, id: NodeId, path: String)
    requires
        tree@.wf(),
        tree@.has(id as int),
        call_ensures(Tree::display_path, (tree, id), path),
    ensures
        id == 0 ==> path@ == lossy_text(Seq::empty()),
        id > 0 && tree@.nodes[id as int].parent == 0 ==> path@ == lossy_text(tree@.name(id as int)),
{
    crate::laws::naming::lemma_paths_follow_the_tree(tree@, id as int);
    assert(id == 0 ==> tree@.relative(id as int) =~= Seq::<u8>::empty());
}

/// How many nodes and errors a tree has is what it says.
pub proof fn lemma_lens(tree: &Tree, n: usize, errors: u64)
    requires
        call_ensures(Tree::len, (tree,), n),
        call_ensures(Tree::error_count, (tree,), errors),
    ensures
        n == tree@.nodes.len(),
        errors == tree@.stats.errors,
{
}

/// What is in a folder lies under it, and the folder does not lie under what is
/// in it; what is in it under different names lies apart.
pub proof fn lemma_what_lies_under(base: Seq<u8>, a: Seq<u8>, b: Seq<u8>)
    requires
        base.len() > 0,
        is_name(a),
        is_name(b),
    ensures
        lies_under(base, base),
        lies_under(base, joined(base, a)),
        !lies_under(joined(base, a), base),
        a != b ==> !lies_under(joined(base, a), joined(base, b)),
{
    lemma_a_name_is_one_component(base, a);
    lemma_a_name_is_one_component(base, b);
    let c = components(base);
    assert(c.take(c.len() as int) == c);
    assert(components(joined(base, a)).take(c.len() as int) == c);
    if a != b {
        let x = components(joined(base, a));
        let y = components(joined(base, b));
        assert(x.last() == a && y.last() == b);
        assert(y.take(y.len() as int) == y);
    }
}

/// The calls go by the components.
pub proof fn lemma_is_under(root: &[u8], path: &[u8], under: bool)
    requires
        call_ensures(is_under, (root, path), under),
    ensures
        under ==> components(root@).is_prefix_of(components(path@)),
        components(root@).is_prefix_of(components(path@)) ==> under,
{
    let r = components(root@);
    let p = components(path@);
    if r.is_prefix_of(p) {
        assert(p.take(r.len() as int) == r);
    }
}

/// The folder above what is in a folder is that folder, component by component,
/// and a beginning of the path.
pub proof fn lemma_parent(base: Seq<u8>, name: Seq<u8>, path: &[u8], above: Option<Vec<u8>>)
    requires
        base.len() > 0,
        is_name(name),
        path@ == joined(base, name),
        call_ensures(parent, (path,), above),
    ensures
        above is Some,
        components(above->0@) == components(base),
        above->0@.is_prefix_of(path@),
{
    lemma_a_name_is_one_component(base, name);
    let all = components(path@);
    assert(all.drop_last() == components(base));
    assert(has_parent(path@)) by {
        assert(all.last() == name);
        if all == seq![seq![0x2fu8]] {
            assert(name == seq![0x2fu8]);
            assert(name[0] == 0x2f);
        }
    }
}

/// The last name of a path is what is put behind it last.
pub proof fn lemma_file_name(base: Seq<u8>, name: Seq<u8>, path: &[u8], last: Option<Vec<u8>>)
    requires
        base.len() > 0,
        is_name(name),
        path@ == joined(base, name),
        call_ensures(file_name, (path,), last),
    ensures
        last is Some,
        last->0@ == name,
{
    lemma_a_name_is_one_component(base, name);
}

} // verus!
