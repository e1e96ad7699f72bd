//! What the free space adds to what a tree says.

use vstd::prelude::*;
use vstd::utf8::{encode_utf8, is_ascii_chars_encode_utf8};

use crate::scan::whole::{arena_facts, node_fact, Fact};
use crate::tree::arena::{place_of, shape_wf};
use crate::tree::flags;
use crate::tree::free::{lemma_root_children, moved, shifted, with_free_space};
use crate::tree::Node;

verus! {

/// What is said of the free space: it stands below the root.
pub open spec fn free_fact(bytes: u64) -> Fact {
    Fact {
        place: seq![encode_utf8("(free space)"@)],
        flags: flags::FREE_SPACE,
        logical: bytes as int,
        physical: bytes as int,
    }
}

/// What is said of the root once the free space is added, in sizes of 64 bits.
pub open spec fn root_with_free(root: Fact, bytes: u64) -> Fact {
    Fact {
        logical: (root.logical + bytes) as u64 as int,
        physical: (root.physical + bytes) as u64 as int,
        ..root
    }
}

/// What is said with the free space, given what is said without it: the root
/// weighs more, the free space is there, and the rest is as it was.
pub open spec fn facts_with_free(root: Fact, facts: Set<Fact>, bytes: u64) -> Set<Fact> {
    Set::new(
        |fact: Fact|
            fact == root_with_free(root, bytes) || fact == free_fact(bytes) || facts.contains(fact)
                && fact.place.len() > 0,
    )
}

/// Whether an arena is `nodes` with the free space put in.
pub open spec fn has_free(
    nodes: Seq<Node>,
    names: Seq<u8>,
    bytes: u64,
    kind: u16,
    after: Seq<Node>,
    after_names: Seq<u8>,
) -> bool {
    &&& after == with_free_space(nodes, bytes, kind, names.len() as u32)
    &&& after_names == names + encode_utf8("(free space)"@)
}

/// Whether the names of all nodes but the root lie in the buffer.
pub open spec fn names_inside(nodes: Seq<Node>, names: Seq<u8>) -> bool {
    forall|c: int|
        0 < c < nodes.len() ==> (#[trigger] nodes[c]).name_off + nodes[c].name_len <= names.len()
}

/// A node stands where it stood, whatever its number is now.
proof fn lemma_moved_place(
    nodes: Seq<Node>,
    names: Seq<u8>,
    bytes: u64,
    kind: u16,
    after: Seq<Node>,
    after_names: Seq<u8>,
    i: int,
)
    requires
        shape_wf(nodes),
        nodes.len() < u32::MAX,
        names_inside(nodes, names),
        has_free(nodes, names, bytes, kind, after, after_names),
        0 <= i < nodes.len(),
    ensures
        place_of(after, after_names, shifted(i, 1 + nodes[0].child_len)) == place_of(
            nodes,
            names,
            i,
        ),
    decreases i,
{
    let at = 1 + nodes[0].child_len;
    if i > 0 {
        let n = nodes[i];
        let up = n.parent as int;
        assert(up < i);
        lemma_moved_place(nodes, names, bytes, kind, after, after_names, up);
        assert(after[shifted(i, at)] == moved(n, at));
        assert(after_names.subrange(n.name_off as int, n.name_off + n.name_len) == names.subrange(
            n.name_off as int,
            n.name_off + n.name_len,
        ));
    }
}

/// What is said of the root and of the free space.
proof fn lemma_free_node_fact(
    nodes: Seq<Node>,
    names: Seq<u8>,
    bytes: u64,
    kind: u16,
    after: Seq<Node>,
    after_names: Seq<u8>,
)
    requires
        shape_wf(nodes),
        names.len() <= u32::MAX,
        has_free(nodes, names, bytes, kind, after, after_names),
    ensures
        node_fact(after, after_names, 0) == root_with_free(node_fact(nodes, names, 0), bytes),
        node_fact(after, after_names, 1 + nodes[0].child_len) == free_fact(bytes),
{
    let at = 1 + nodes[0].child_len;
    let label = encode_utf8("(free space)"@);
    lemma_root_children(nodes);
    assert(label.len() == 12) by {
        reveal_strlit("(free space)");
        is_ascii_chars_encode_utf8("(free space)"@);
    }
    assert(after_names.subrange(names.len() as int, (names.len() + 12) as int) == label);
    assert(place_of(after, after_names, 0) == Seq::<Seq<u8>>::empty());
    assert(place_of(after, after_names, at) == seq![label]);
}

/// What is said of the others.
proof fn lemma_moved_fact(
    nodes: Seq<Node>,
    names: Seq<u8>,
    bytes: u64,
    kind: u16,
    after: Seq<Node>,
    after_names: Seq<u8>,
    i: int,
)
    requires
        shape_wf(nodes),
        nodes.len() < u32::MAX,
        names_inside(nodes, names),
        has_free(nodes, names, bytes, kind, after, after_names),
        0 < i < nodes.len(),
    ensures
        node_fact(after, after_names, shifted(i, 1 + nodes[0].child_len)) == node_fact(
            nodes,
            names,
            i,
        ),
        node_fact(nodes, names, i).place.len() > 0,
{
    let at = 1 + nodes[0].child_len;
    lemma_moved_place(nodes, names, bytes, kind, after, after_names, i);
    assert(after[shifted(i, at)] == moved(nodes[i], at));
    assert(nodes[i].parent < i);
}

/// The free space changes what a tree says of its root and adds what is said of
/// itself; nothing else changes.
pub proof fn lemma_free_space_facts(
    nodes: Seq<Node>,
    names: Seq<u8>,
    bytes: u64,
    kind: u16,
    after: Seq<Node>,
    after_names: Seq<u8>,
)
    requires
        shape_wf(nodes),
        nodes.len() < u32::MAX,
        names_inside(nodes, names),
        names.len() <= u32::MAX,
        has_free(nodes, names, bytes, kind, after, after_names),
    ensures
        node_fact(after, after_names, 0) == root_with_free(node_fact(nodes, names, 0), bytes),
        arena_facts(after, after_names) == facts_with_free(
            node_fact(nodes, names, 0),
            arena_facts(nodes, names),
            bytes,
        ),
{
    let at = 1 + nodes[0].child_len;
    let root = node_fact(nodes, names, 0);
    let said = facts_with_free(root, arena_facts(nodes, names), bytes);
    lemma_root_children(nodes);
    lemma_free_node_fact(nodes, names, bytes, kind, after, after_names);
    assert(after.len() == nodes.len() + 1);
    assert(root.place.len() == 0);
    assert forall|fact: Fact| arena_facts(after, after_names).contains(fact) implies said.contains(
        fact,
    ) by {
        let j = choose|j: int|
            0 <= j < after.len() && fact == #[trigger] node_fact(after, after_names, j);
        if j != 0 && j != at {
            let i = if j > at {
                j - 1
            } else {
                j
            };
            lemma_moved_fact(nodes, names, bytes, kind, after, after_names, i);
            assert(fact == node_fact(nodes, names, i));
        }
    }
    assert forall|fact: Fact| said.contains(fact) implies arena_facts(
        after,
        after_names,
    ).contains(fact) by {
        if arena_facts(nodes, names).contains(fact) && fact.place.len() > 0 {
            let i = choose|i: int|
                0 <= i < nodes.len() && fact == #[trigger] node_fact(nodes, names, i);
            lemma_moved_fact(nodes, names, bytes, kind, after, after_names, i);
            assert(fact == node_fact(after, after_names, shifted(i, at)));
        } else if fact == free_fact(bytes) {
            assert(fact == node_fact(after, after_names, at));
        } else {
            assert(fact == node_fact(after, after_names, 0));
        }
    }
    assert(arena_facts(after, after_names) =~= said);
}

} // verus!
