//! Paths as bytes.
//!
//! Filesystem names are not guaranteed to be UTF-8, so a path is a sequence of
//! bytes with `/` between its parts.

use vstd::prelude::*;

verus! {

/// The byte `/`.
pub const SEPARATOR: u8 = 0x2f;

/// The byte `.`.
pub const DOT: u8 = 0x2e;

/// `part` appended to `base` the way a path grows: an absolute part replaces
/// everything, otherwise one separator goes in between unless `base` is empty
/// or already ends in one.
pub open spec fn joined(base: Seq<u8>, part: Seq<u8>) -> Seq<u8> {
    if part.len() > 0 && part[0] == SEPARATOR {
        part
    } else if base.len() == 0 || base.last() == SEPARATOR {
        base + part
    } else {
        base.push(SEPARATOR) + part
    }
}

/// Appends `part` to `base`.
pub fn join(base: &mut Vec<u8>, part: &[u8])
    ensures
        final(base)@ == joined(old(base)@, part@),
{
    let absolute = part.len() > 0 && part[0] == SEPARATOR;
    if absolute {
        base.clear();
    } else if base.len() > 0 && base[base.len() - 1] != SEPARATOR {
        base.push(SEPARATOR);
    }
    base.extend_from_slice(part);
    assert(absolute ==> Seq::<u8>::empty() + part@ == part@);
}

/// What stands between the separators of `path`, empty pieces included.
pub open spec fn pieces(path: Seq<u8>) -> Seq<Seq<u8>>
    decreases path.len(),
{
    if path.len() == 0 {
        seq![Seq::empty()]
    } else {
        let before = pieces(path.drop_last());
        if path.last() == SEPARATOR {
            before.push(Seq::empty())
        } else {
            before.drop_last().push(before.last().push(path.last()))
        }
    }
}

/// Whether a piece names something: neither empty nor `.`.
pub open spec fn names_something(piece: Seq<u8>) -> bool {
    piece.len() > 0 && piece != seq![DOT]
}

/// The pieces that name something, in order.
pub open spec fn named(all: Seq<Seq<u8>>) -> Seq<Seq<u8>>
    decreases all.len(),
{
    if all.len() == 0 {
        Seq::empty()
    } else if names_something(all.last()) {
        named(all.drop_last()).push(all.last())
    } else {
        named(all.drop_last())
    }
}

/// The component a path starts with besides its names: `/` when it is
/// absolute, `.` when it is relative and starts so.
pub open spec fn anchor(path: Seq<u8>) -> Seq<Seq<u8>> {
    if path.len() > 0 && path[0] == SEPARATOR {
        seq![seq![SEPARATOR]]
    } else if path.len() > 0 && path[0] == DOT && (path.len() == 1 || path[1] == SEPARATOR) {
        seq![seq![DOT]]
    } else {
        Seq::empty()
    }
}

/// The components of a path. Repeated and trailing separators, and `.` but at
/// the start, make no difference; `..` is a component like any other.
pub open spec fn components(path: Seq<u8>) -> Seq<Seq<u8>> {
    anchor(path) + named(pieces(path))
}

/// Whether `path` is `root` or lies below it, component by component.
pub open spec fn lies_under(root: Seq<u8>, path: Seq<u8>) -> bool {
    let r = components(root);
    let p = components(path);
    r.len() <= p.len() && r == p.take(r.len() as int)
}

/// The last component, when it is a name: not `/`, `.` or `..`.
pub open spec fn last_name(path: Seq<u8>) -> Option<Seq<u8>> {
    let names = named(pieces(path));
    if names.len() == 0 || names.last() == seq![DOT, DOT] {
        None
    } else {
        Some(names.last())
    }
}

/// What the parts of a path say, as sequences.
pub open spec fn texts(parts: Seq<Vec<u8>>) -> Seq<Seq<u8>> {
    parts.map(|i: int, part: Vec<u8>| part@)
}

/// Closes the piece being read: keeps it if it names something.
fn close_piece(found: &mut Vec<Vec<u8>>, piece: Vec<u8>)
    ensures
        texts(final(found)@) == if names_something(piece@) {
            texts(old(found)@).push(piece@)
        } else {
            texts(old(found)@)
        },
{
    let dot = piece.len() == 1 && piece[0] == DOT;
    proof {
        if dot {
            assert(piece@ == seq![DOT]);
        }
    }
    if piece.len() > 0 && !dot {
        found.push(piece);
        assert(texts(found@) == texts(old(found)@).push(piece@));
    }
}

/// The pieces of `path` that name something.
fn split_names(path: &[u8]) -> (found: Vec<Vec<u8>>)
    ensures
        texts(found@) == named(pieces(path@)),
{
    let mut found: Vec<Vec<u8>> = Vec::new();
    let mut piece: Vec<u8> = Vec::new();
    proof {
        reveal_with_fuel(named, 2);
        assert(path@.take(0) == Seq::<u8>::empty());
        assert(pieces(path@.take(0)).drop_last() == Seq::<Seq<u8>>::empty());
        assert(texts(found@) == Seq::<Seq<u8>>::empty());
    }
    for i in 0..path.len()
        invariant
            pieces(path@.take(i as int)).len() > 0,
            piece@ == pieces(path@.take(i as int)).last(),
            texts(found@) == named(pieces(path@.take(i as int)).drop_last()),
    {
        let ghost before = pieces(path@.take(i as int));
        assert(path@.take(i + 1).drop_last() == path@.take(i as int));
        let b: u8 = path[i];
        if b == SEPARATOR {
            let done = piece;
            piece = Vec::new();
            close_piece(&mut found, done);
            proof {
                let now = pieces(path@.take(i + 1));
                assert(now == before.push(Seq::empty()));
                assert(now.drop_last() == before);
                assert(piece@ == now.last());
            }
        } else {
            piece.push(b);
            proof {
                let now = pieces(path@.take(i + 1));
                assert(now == before.drop_last().push(before.last().push(b)));
                assert(now.drop_last() == before.drop_last());
            }
        }
    }
    assert(path@.take(path@.len() as int) == path@);
    close_piece(&mut found, piece);
    found
}

/// The components of `path`.
pub fn split(path: &[u8]) -> (parts: Vec<Vec<u8>>)
    ensures
        texts(parts@) == components(path@),
{
    let mut parts: Vec<Vec<u8>> = Vec::new();
    if path.len() > 0 && path[0] == SEPARATOR {
        let mut root: Vec<u8> = Vec::new();
        root.push(SEPARATOR);
        assert(root@ == seq![SEPARATOR]);
        parts.push(root);
    } else if path.len() > 0 && path[0] == DOT && (path.len() == 1 || path[1] == SEPARATOR) {
        let mut here: Vec<u8> = Vec::new();
        here.push(DOT);
        assert(here@ == seq![DOT]);
        parts.push(here);
    }
    assert(texts(parts@) == anchor(path@));
    let mut names = split_names(path);
    let ghost head = parts@;
    let ghost tail = names@;
    parts.append(&mut names);
    assert(texts(head + tail) == texts(head) + texts(tail));
    parts
}

/// Whether two byte strings are the same.
pub fn same_bytes(a: &[u8], b: &[u8]) -> (same: bool)
    ensures
        same == (a@ == b@),
{
    if a.len() != b.len() {
        return false;
    }
    for i in 0..a.len()
        invariant
            a@.len() == b@.len(),
            forall|j: int| 0 <= j < i ==> a@[j] == b@[j],
    {
        if a[i] != b[i] {
            return false;
        }
    }
    assert(a@ == b@);
    true
}

/// The last component of `path`, when it is a name.
pub fn file_name(path: &[u8]) -> (name: Option<Vec<u8>>)
    ensures
        match name {
            Some(name) => last_name(path@) == Some(name@),
            None => last_name(path@) is None,
        },
{
    let mut names = split_names(path);
    let ghost all = names@;
    assert(texts(all).len() == all.len());
    match names.pop() {
        None => None,
        Some(last) => {
            assert(texts(all).last() == last@);
            if last.len() == 2 && last[0] == DOT && last[1] == DOT {
                assert(last@ == seq![DOT, DOT]);
                None
            } else {
                Some(last)
            }
        },
    }
}

/// The name a path is shown by: its last name, or all of it when it has none.
pub open spec fn shown_name(path: Seq<u8>) -> Seq<u8> {
    match last_name(path) {
        Some(name) => name,
        None => path,
    }
}

/// The name a path is shown by.
pub fn title(path: &[u8]) -> (name: Vec<u8>)
    ensures
        name@ == shown_name(path@),
{
    match file_name(path) {
        Some(name) => name,
        None => copied(path),
    }
}

/// Whether a path has a component to take away: it is neither empty nor the
/// root.
pub open spec fn has_parent(path: Seq<u8>) -> bool {
    components(path).len() > 0 && components(path) != seq![seq![SEPARATOR]]
}

/// Whether `parent` is `path` without its last component: the shortest
/// beginning of `path` that has all its other components.
pub open spec fn is_parent(path: Seq<u8>, parent: Seq<u8>) -> bool {
    let above = components(path).drop_last();
    &&& parent.len() <= path.len()
    &&& parent == path.take(parent.len() as int)
    &&& components(parent) == above
    &&& forall|k: int| 0 <= k < parent.len() ==> components(#[trigger] path.take(k)) != above
}

/// Some beginning of a path has all components but the last.
proof fn lemma_parent_exists(path: Seq<u8>) -> (k: int)
    requires
        has_parent(path),
    ensures
        0 <= k <= path.len(),
        components(path.take(k)) == components(path).drop_last(),
    decreases path.len(),
{
    lemma_pieces(path);
    assert(path.len() > 0) by {
        if path.len() == 0 {
            reveal_with_fuel(named, 2);
            assert(components(path) == Seq::<Seq<u8>>::empty());
        }
    }
    let q = path.drop_last();
    lemma_pieces(q);
    let before = pieces(q);
    let front = before.drop_last();
    reveal_with_fuel(named, 2);
    assert(named(Seq::<Seq<u8>>::empty()) == Seq::<Seq<u8>>::empty());
    if path.last() == SEPARATOR {
        assert(pieces(path).drop_last() == before);
        if q.len() == 0 {
            assert(before.drop_last() == Seq::<Seq<u8>>::empty());
            assert(components(path) == seq![seq![SEPARATOR]]);
        }
        assert(anchor(q) == anchor(path));
        assert(components(q) == components(path));
        let k = lemma_parent_exists(q);
        assert(path.take(k) == q.take(k));
        k
    } else {
        let w = before.last().push(path.last());
        assert(pieces(path) == front.push(w));
        assert(front.push(w).drop_last() == front);
        assert(path.take(path.len() - 1) == q);
        assert(path.take(0) == Seq::<u8>::empty());
        assert(components(path.take(0)) == Seq::<Seq<u8>>::empty()) by {
            assert(pieces(path.take(0)).drop_last() == Seq::<Seq<u8>>::empty());
        }
        lemma_last_piece(q);
        if names_something(w) {
            assert(components(path).drop_last() == anchor(path) + named(front));
            if names_something(before.last()) {
                if q.len() == 1 && q[0] == DOT {
                    assert(before.last() == seq![DOT]);
                }
                assert(anchor(q) == anchor(path));
                assert(components(q).drop_last() == anchor(q) + named(front));
                assert(components(q).len() > 0);
                if components(q) == seq![seq![SEPARATOR]] {
                    assert(components(q).last() == before.last());
                    assert(before.last()[0] == SEPARATOR);
                }
                let k = lemma_parent_exists(q);
                assert(path.take(k) == q.take(k));
                k
            } else if q == seq![DOT] {
                assert(q.drop_last() == Seq::<u8>::empty());
                assert(pieces(q.drop_last()) == seq![Seq::<u8>::empty()]);
                assert(front == Seq::<Seq<u8>>::empty());
                assert(anchor(path) == Seq::<Seq<u8>>::empty());
                0
            } else {
                assert(components(q) == anchor(q) + named(front));
                if q.len() == 1 {
                    assert(q[0] != DOT) by {
                        if q[0] == DOT {
                            assert(q == seq![DOT]);
                        }
                    }
                }
                assert(anchor(q) == anchor(path));
                path.len() - 1
            }
        } else {
            assert(w == seq![DOT]);
            assert(before.last().len() == 0);
            assert(components(path) == anchor(path) + named(front));
            assert(components(q) == anchor(q) + named(front));
            if q.len() == 0 {
                assert(front == Seq::<Seq<u8>>::empty());
                assert(components(path).drop_last() == Seq::<Seq<u8>>::empty());
                0
            } else {
                assert(q.last() == SEPARATOR);
                assert(anchor(q) == anchor(path));
                let k = lemma_parent_exists(q);
                assert(path.take(k) == q.take(k));
                k
            }
        }
    }
}

/// The last piece is what follows the last separator.
proof fn lemma_last_piece(path: Seq<u8>)
    ensures
        pieces(path).len() > 0,
        pieces(path).last().len() <= path.len(),
        pieces(path).last() == path.skip(path.len() - pieces(path).last().len()),
        forall|i: int|
            0 <= i < pieces(path).last().len() ==> #[trigger] pieces(path).last()[i] != SEPARATOR,
        pieces(path).last().len() < path.len() ==> path[path.len() - pieces(path).last().len() - 1]
            == SEPARATOR,
    decreases path.len(),
{
    lemma_pieces(path);
    if path.len() > 0 {
        let q = path.drop_last();
        lemma_last_piece(q);
        lemma_pieces(q);
        if path.last() != SEPARATOR {
            assert(pieces(path).last() == pieces(q).last().push(path.last()));
            assert(pieces(path).last() == path.skip(path.len() - pieces(path).last().len()));
        } else {
            assert(pieces(path).last() == path.skip(path.len() as int));
        }
    } else {
        assert(pieces(path).last() == path.skip(0));
    }
}

/// Whether the parts of `a` are those of `b` but the last.
fn all_but_last(a: &Vec<Vec<u8>>, b: &Vec<Vec<u8>>) -> (yes: bool)
    requires
        b@.len() > 0,
    ensures
        yes == (texts(a@) == texts(b@).drop_last()),
{
    if a.len() != b.len() - 1 {
        assert(texts(a@).len() != texts(b@).drop_last().len());
        return false;
    }
    for i in 0..a.len()
        invariant
            a@.len() == b@.len() - 1,
            forall|j: int| 0 <= j < i ==> texts(a@)[j] == #[trigger] texts(b@).drop_last()[j],
    {
        if !same_bytes(a[i].as_slice(), b[i].as_slice()) {
            assert(texts(a@)[i as int] != texts(b@).drop_last()[i as int]);
            return false;
        }
    }
    assert(texts(a@) == texts(b@).drop_last());
    true
}

/// `path` without its last component; nothing for the root and for an empty
/// path.
pub fn parent(path: &[u8]) -> (parent: Option<Vec<u8>>)
    ensures
        match parent {
            Some(parent) => has_parent(path@) && is_parent(path@, parent@),
            None => !has_parent(path@),
        },
{
    let parts = split(path);
    assert(texts(parts@).len() == parts@.len());
    if parts.len() == 0 {
        return None;
    }
    if parts.len() == 1 && parts[0].len() == 1 && parts[0][0] == SEPARATOR {
        assert(texts(parts@)[0] == seq![SEPARATOR]);
        assert(components(path@) == seq![seq![SEPARATOR]]);
        return None;
    }
    proof {
        if components(path@) == seq![seq![SEPARATOR]] {
            assert(texts(parts@)[0] == parts@[0]@);
        }
    }
    let ghost above = components(path@).drop_last();
    let mut k: usize = 0;
    while k < path.len()
        invariant
            0 <= k <= path@.len(),
            has_parent(path@),
            parts@.len() > 0,
            texts(parts@) == components(path@),
            above == components(path@).drop_last(),
            forall|j: int| 0 <= j < k ==> components(#[trigger] path@.take(j)) != above,
        decreases path@.len() - k,
    {
        let head = vstd::slice::slice_subrange(path, 0, k);
        assert(head@ == path@.take(k as int));
        if all_but_last(&split(head), &parts) {
            return Some(copied(head));
        }
        k = k + 1;
    }
    proof {
        let _ = lemma_parent_exists(path@);
        assert(path@.take(path@.len() as int) == path@);
    }
    Some(copied(path))
}

/// A copy of `bytes`.
pub fn copied(bytes: &[u8]) -> (copy: Vec<u8>)
    ensures
        copy@ == bytes@,
{
    let mut copy: Vec<u8> = Vec::new();
    copy.extend_from_slice(bytes);
    copy
}

/// Every path has a last piece.
proof fn lemma_pieces(path: Seq<u8>)
    ensures
        pieces(path).len() > 0,
    decreases path.len(),
{
    if path.len() > 0 {
        lemma_pieces(path.drop_last());
    }
}

/// A separator keeps the pieces before it and after it apart.
proof fn lemma_pieces_append(a: Seq<u8>, b: Seq<u8>)
    ensures
        pieces(a.push(SEPARATOR) + b) == pieces(a) + pieces(b),
    decreases b.len(),
{
    let whole = a.push(SEPARATOR) + b;
    lemma_pieces(a);
    if b.len() == 0 {
        assert(whole == a.push(SEPARATOR));
        assert(whole.drop_last() == a);
        assert(pieces(whole) == pieces(a) + pieces(b));
    } else {
        assert(whole.drop_last() == a.push(SEPARATOR) + b.drop_last());
        lemma_pieces_append(a, b.drop_last());
        lemma_pieces(b.drop_last());
        assert(pieces(whole) == pieces(a) + pieces(b));
    }
}

proof fn lemma_named_append(a: Seq<Seq<u8>>, b: Seq<Seq<u8>>)
    ensures
        named(a + b) == named(a) + named(b),
    decreases b.len(),
{
    if b.len() == 0 {
        assert(a + b == a);
        assert(named(a) + named(b) == named(a));
    } else {
        assert((a + b).drop_last() == a + b.drop_last());
        lemma_named_append(a, b.drop_last());
        assert(named(a + b) == named(a) + named(b));
    }
}

/// Joining a relative part adds the part's names to the components.
pub proof fn lemma_join_components(base: Seq<u8>, part: Seq<u8>)
    requires
        base.len() > 0,
        part.len() == 0 || part[0] != SEPARATOR,
    ensures
        components(joined(base, part)) == components(base) + named(pieces(part)),
{
    let whole = joined(base, part);
    assert(anchor(whole) == anchor(base));
    if base.last() == SEPARATOR {
        let stem = base.drop_last();
        assert(base == stem.push(SEPARATOR));
        lemma_pieces_append(stem, part);
        assert(pieces(base) == pieces(stem).push(Seq::empty()));
        assert(pieces(base).drop_last() == pieces(stem));
        assert(named(pieces(base)) == named(pieces(stem)));
        lemma_named_append(pieces(stem), pieces(part));
    } else {
        lemma_pieces_append(base, part);
        lemma_named_append(pieces(base), pieces(part));
    }
    assert(components(whole) == components(base) + named(pieces(part)));
}

/// A path with a relative part joined to it lies under what it lay under.
pub proof fn lemma_join_stays_under(root: Seq<u8>, base: Seq<u8>, part: Seq<u8>)
    requires
        lies_under(root, base),
        part.len() == 0 || part[0] != SEPARATOR,
    ensures
        lies_under(root, joined(base, part)),
{
    let r = components(root);
    if base.len() == 0 {
        reveal_with_fuel(named, 2);
        assert(components(base) == Seq::<Seq<u8>>::empty());
        assert(r == components(joined(base, part)).take(0));
    } else {
        lemma_join_components(base, part);
        assert(r == components(joined(base, part)).take(r.len() as int));
    }
}

/// Every path lies under itself, and what lies under a path under another lies
/// under that other.
pub proof fn lemma_under_is_an_order(a: Seq<u8>, b: Seq<u8>, c: Seq<u8>)
    ensures
        lies_under(a, a),
        lies_under(a, b) && lies_under(b, c) ==> lies_under(a, c),
{
    assert(components(a).take(components(a).len() as int) == components(a));
    if lies_under(a, b) && lies_under(b, c) {
        let x = components(a);
        assert(components(c).take(x.len() as int) == components(b).take(x.len() as int));
    }
}

} // verus!
