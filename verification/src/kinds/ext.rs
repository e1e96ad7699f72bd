//! Extensions, and their packing into lookup keys.

use vstd::prelude::*;

verus! {

/// Longest extension that is classified. Anything longer falls through to
/// `Other`, which is fine: 16 bytes covers every real extension.
pub const MAX_EXT: usize = 16;

/// The byte `.`.
pub const DOT: u8 = 0x2e;

/// Where the last dot stands, if there is one.
pub open spec fn is_last_dot(name: Seq<u8>, at: int) -> bool {
    &&& 0 <= at < name.len()
    &&& name[at] == DOT
    &&& forall|i: int| at < i < name.len() ==> #[trigger] name[i] != DOT
}

/// The bytes after the last dot, or none when there is no dot or only the one
/// the name starts with.
pub open spec fn spec_extension(name: Seq<u8>) -> Seq<u8> {
    if exists|at: int| 0 < at && #[trigger] is_last_dot(name, at) {
        let at = choose|at: int| 0 < at && #[trigger] is_last_dot(name, at);
        name.subrange(at + 1, name.len() as int)
    } else {
        Seq::empty()
    }
}

/// The bytes after the last `.`, or empty when there is no usable extension.
/// A leading dot does not count (`.gitignore` has no extension), matching how
/// the Finder treats dotfiles.
pub fn extension(name: &[u8]) -> (ext: &[u8])
    ensures
        ext@ == spec_extension(name@),
{
    let mut i: usize = name.len();
    while i > 0
        invariant
            i <= name@.len(),
            forall|j: int| i <= j < name@.len() ==> #[trigger] name@[j] != DOT,
        decreases i,
    {
        i -= 1;
        if name[i] == DOT {
            assert(is_last_dot(name@, i as int));
            if i == 0 {
                assert(!exists|at: int| 0 < at && #[trigger] is_last_dot(name@, at));
                assert(name@.subrange(0, 0) == Seq::<u8>::empty());
                return vstd::slice::slice_subrange(name, 0, 0);
            }
            let ghost at = choose|at: int| 0 < at && #[trigger] is_last_dot(name@, at);
            assert(at == i) by {
                assert(is_last_dot(name@, at));
                if at < i {
                    assert(name@[i as int] != DOT);
                }
            }
            return vstd::slice::slice_subrange(name, i + 1, name.len());
        }
    }
    assert(!exists|at: int| 0 < at && #[trigger] is_last_dot(name@, at));
    assert(name@.subrange(0, 0) == Seq::<u8>::empty());
    vstd::slice::slice_subrange(name, 0, 0)
}

/// An ASCII letter in lower case; anything else as it is.
pub open spec fn lower(b: u8) -> u8 {
    if 0x41 <= b <= 0x5a {
        (b + 32) as u8
    } else {
        b
    }
}

/// `bytes` with its ASCII letters in lower case.
pub open spec fn lowered(bytes: Seq<u8>) -> Seq<u8> {
    bytes.map(|i: int, b: u8| lower(b))
}

/// The lowercased bytes as one number, the first byte lowest.
pub open spec fn packed(ext: Seq<u8>) -> nat
    decreases ext.len(),
{
    if ext.len() == 0 {
        0
    } else {
        lower(ext.first()) as nat + 256 * packed(ext.drop_first())
    }
}

/// The lookup key of an extension: none when it is empty or too long.
pub open spec fn spec_ext_key(ext: Seq<u8>) -> Option<u128> {
    if ext.len() == 0 || ext.len() > MAX_EXT {
        None
    } else {
        Some(packed(ext) as u128)
    }
}

/// `256^n`.
spec fn width(n: nat) -> nat
    decreases n,
{
    if n == 0 {
        1
    } else {
        256 * width((n - 1) as nat)
    }
}

proof fn lemma_width(n: nat)
    requires
        n <= 15,
    ensures
        width(n) <= width(15),
        256 * width(15) == u128::MAX + 1,
    decreases 15 - n,
{
    if n < 15 {
        lemma_width(n + 1);
    }
    assert(256 * width(15) == u128::MAX + 1) by {
        reveal_with_fuel(width, 17);
    }
}

proof fn lemma_packed_fits(ext: Seq<u8>)
    ensures
        packed(ext) < width(ext.len()),
    decreases ext.len(),
{
    if ext.len() > 0 {
        lemma_packed_fits(ext.drop_first());
    }
}

/// The lowest byte of a key is the first of the extension, in lower case.
pub proof fn lemma_key_first(ext: Seq<u8>)
    requires
        0 < ext.len() <= MAX_EXT,
    ensures
        spec_ext_key(ext) matches Some(key) && key % 256 == lower(ext[0]),
{
    lemma_packed_fits(ext);
    lemma_width((ext.len() - 1) as nat);
    assert(width(ext.len()) == 256 * width((ext.len() - 1) as nat));
}

fn to_lower(b: u8) -> (l: u8)
    ensures
        l == lower(b),
{
    if 0x41 <= b && b <= 0x5a {
        b + 32
    } else {
        b
    }
}

/// Packs up to 16 ASCII-lowercased bytes into a `u128`. `None` when the
/// extension is empty or too long.
pub fn ext_key(ext: &[u8]) -> (key: Option<u128>)
    ensures
        key == spec_ext_key(ext@),
{
    if ext.len() == 0 || ext.len() > MAX_EXT {
        return None;
    }
    let mut key: u128 = 0;
    let mut i: usize = ext.len();
    proof {
        assert(ext@.skip(ext@.len() as int).len() == 0);
    }
    while i > 0
        invariant
            i <= ext@.len() <= MAX_EXT,
            key == packed(ext@.skip(i as int)),
        decreases i,
    {
        proof {
            lemma_packed_fits(ext@.skip(i as int));
            lemma_width((ext@.len() - i) as nat);
            assert(ext@.skip(i - 1).drop_first() == ext@.skip(i as int));
        }
        i -= 1;
        key = key * 256 + to_lower(ext[i]) as u128;
    }
    assert(ext@.skip(0) == ext@);
    Some(key)
}

/// Extensions that differ only in case have one key.
pub proof fn lemma_key_ignores_case(a: Seq<u8>, b: Seq<u8>)
    requires
        lowered(a) == lowered(b),
    ensures
        spec_ext_key(a) == spec_ext_key(b),
{
    lemma_packed_ignores_case(a, b);
}

proof fn lemma_packed_ignores_case(a: Seq<u8>, b: Seq<u8>)
    requires
        lowered(a) == lowered(b),
    ensures
        a.len() == b.len(),
        packed(a) == packed(b),
    decreases a.len(),
{
    assert(lowered(a).len() == a.len());
    assert(lowered(b).len() == b.len());
    if a.len() > 0 {
        assert(lowered(a)[0] == lower(a[0]));
        assert(lowered(b)[0] == lower(b[0]));
        assert(lowered(a.drop_first()) == lowered(a).drop_first());
        assert(lowered(b.drop_first()) == lowered(b).drop_first());
        lemma_packed_ignores_case(a.drop_first(), b.drop_first());
    }
}

/// Extensions of one length that share a key differ only in case.
pub proof fn lemma_key_tells_apart(a: Seq<u8>, b: Seq<u8>)
    requires
        a.len() == b.len(),
        0 < a.len() <= MAX_EXT,
        spec_ext_key(a) == spec_ext_key(b),
    ensures
        lowered(a) == lowered(b),
{
    lemma_packed_fits(a);
    lemma_packed_fits(b);
    lemma_width((a.len() - 1) as nat);
    assert(width(a.len()) == 256 * width((a.len() - 1) as nat));
    lemma_packed_tells_apart(a, b);
}

proof fn lemma_packed_tells_apart(a: Seq<u8>, b: Seq<u8>)
    requires
        a.len() == b.len(),
        packed(a) == packed(b),
    ensures
        lowered(a) == lowered(b),
    decreases a.len(),
{
    if a.len() > 0 {
        let x = lower(a.first()) as nat;
        let y = lower(b.first()) as nat;
        let p = packed(a.drop_first());
        let q = packed(b.drop_first());
        assert(x == y && p == q) by (nonlinear_arith)
            requires
                x + 256 * p == y + 256 * q,
                x < 256,
                y < 256,
        ;
        lemma_packed_tells_apart(a.drop_first(), b.drop_first());
        assert forall|i: int| 0 <= i < a.len() implies lowered(a)[i] == lowered(b)[i] by {
            if i > 0 {
                assert(lowered(a.drop_first())[i - 1] == lowered(b.drop_first())[i - 1]);
            }
        }
        assert(lowered(a) == lowered(b));
    } else {
        assert(lowered(a) == lowered(b));
    }
}

} // verus!
