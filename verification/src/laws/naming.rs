//! What things are called and where they are.

use vstd::prelude::*;

use crate::paths::{
    anchor, components, joined, last_name, lemma_join_components, named, pieces, shown_name,
    SEPARATOR,
};
use crate::tree::TreeView;

verus! {

/// Whether a name can be that of an entry: it is not empty, is neither `.` nor
/// `..`, and holds no separator.
pub open spec fn is_name(name: Seq<u8>) -> bool {
    &&& name.len() > 0
    &&& name != seq![0x2eu8]
    &&& name != seq![0x2eu8, 0x2eu8]
    &&& forall|i: int| 0 <= i < name.len() ==> #[trigger] name[i] != 0x2f
}

/// A name is put behind a path with one separator between them: none is added
/// where the path ends in one, and nothing of either is lost.
pub proof fn lemma_joining(base: Seq<u8>, name: Seq<u8>)
    requires
        base.len() > 0,
        is_name(name),
    ensures
        base[base.len() - 1] != 0x2f ==> joined(base, name) == base + seq![0x2fu8] + name,
        base[base.len() - 1] == 0x2f ==> joined(base, name) == base + name,
{
    assert(base.push(SEPARATOR) + name == base + seq![0x2fu8] + name);
}

/// A node's path is that of its folder with its name put behind it; the root's
/// is the path that was scanned.
pub proof fn lemma_paths_follow_the_tree(tree: TreeView, id: int)
    requires
        tree.wf(),
        tree.has(id),
    ensures
        id == 0 ==> tree.path(id) == tree.root_path,
        id > 0 ==> tree.path(id) == joined(
            tree.path(tree.nodes[id].parent as int),
            tree.names.subrange(
                tree.nodes[id].name_off as int,
                tree.nodes[id].name_off + tree.nodes[id].name_len,
            ),
        ),
        id == 0 ==> tree.relative(id).len() == 0,
        id > 0 && tree.nodes[id].parent == 0 ==> tree.relative(id) == tree.name(id),
{
    if id > 0 {
        assert(tree.nodes[id].parent < id);
        if tree.nodes[id].parent == 0 {
            assert(tree.onto(Seq::empty(), 0) == Seq::<u8>::empty());
            assert(Seq::<u8>::empty() + tree.name(id) == tree.name(id));
        }
    }
}

/// A name is one piece.
proof fn lemma_one_piece(name: Seq<u8>)
    requires
        forall|i: int| 0 <= i < name.len() ==> #[trigger] name[i] != 0x2f,
    ensures
        pieces(name) == seq![name],
    decreases name.len(),
{
    if name.len() > 0 {
        let less = name.drop_last();
        lemma_one_piece(less);
        assert(less.push(name.last()) == name);
        assert(name.last() == name[name.len() - 1]);
        assert(pieces(name) =~= seq![name]);
    } else {
        assert(name == Seq::<u8>::empty());
    }
}

/// Putting a name behind a path adds that name to its components and leaves the
/// others as they are; it is then what the path is shown by.
pub proof fn lemma_a_name_is_one_component(base: Seq<u8>, name: Seq<u8>)
    requires
        base.len() > 0,
        is_name(name),
    ensures
        components(joined(base, name)) == components(base).push(name),
        shown_name(joined(base, name)) == name,
        last_name(joined(base, name)) == Some(name),
{
    let all = joined(base, name);
    lemma_one_piece(name);
    lemma_join_components(base, name);
    let names = seq![name];
    assert(names.drop_last() == Seq::<Seq<u8>>::empty());
    assert(names.last() == name);
    reveal_with_fuel(named, 2);
    assert(named(names) == seq![name]);
    assert(components(all) == components(base).push(name));
    assert(anchor(all) == anchor(base)) by {
        assert(all[0] == base[0]);
        if base.len() == 1 && base[0] == 0x2e {
            assert(all[1] == 0x2f);
        }
        if base.len() > 1 {
            assert(all[1] == base[1]);
        }
    }
    let lot = named(pieces(all));
    let few = named(pieces(base));
    assert(anchor(base) + lot == anchor(base) + few.push(name)) by {
        assert(components(base).push(name) == anchor(base) + few.push(name));
    }
    assert(lot == few.push(name)) by {
        let n = anchor(base).len() as int;
        assert((anchor(base) + lot).skip(n) == lot);
        assert((anchor(base) + few.push(name)).skip(n) == few.push(name));
    }
    assert(lot.last() == name);
}

} // verus!
