//! Sorting by size, largest first.

use vstd::multiset::Multiset;
use vstd::prelude::*;
use vstd::seq_lib::lemma_multiset_commutative;

verus! {

/// Something to sort: largest `key` first, among equal keys largest `tie`.
#[derive(Clone, Copy, Debug, PartialEq, Eq, Structural)]
pub struct Ranked {
    pub key: u64,
    pub tie: u64,
    pub id: u32,
}

/// Whether `a` may stand before `b`.
pub open spec fn not_after(a: Ranked, b: Ranked) -> bool {
    a.key > b.key || (a.key == b.key && a.tie >= b.tie)
}

pub open spec fn sorted(s: Seq<Ranked>) -> bool {
    forall|i: int, j: int|
        0 <= i < j < s.len() ==> not_after(#[trigger] s[i], #[trigger] s[j])
}

fn may_precede(a: &Ranked, b: &Ranked) -> (yes: bool)
    ensures
        yes == not_after(*a, *b),
{
    a.key > b.key || (a.key == b.key && a.tie >= b.tie)
}

/// One more element of `s` taken.
proof fn lemma_take_one(s: Seq<Ranked>, i: int)
    requires
        0 <= i < s.len(),
    ensures
        s.take(i + 1).to_multiset() == s.take(i).to_multiset().insert(s[i]),
{
    broadcast use vstd::seq_lib::group_to_multiset_ensures;

    assert(s.take(i + 1) == s.take(i).push(s[i]));
}

/// What a list holds after one more element, from either of two sources.
proof fn lemma_grow(s: Seq<Ranked>, next: Ranked, a: Multiset<Ranked>, b: Multiset<Ranked>)
    requires
        s.to_multiset() == a.add(b),
    ensures
        s.push(next).to_multiset() == a.insert(next).add(b),
        s.push(next).to_multiset() == a.add(b.insert(next)),
{
    broadcast use vstd::seq_lib::group_to_multiset_ensures;

    assert(a.add(b).insert(next) =~= a.insert(next).add(b));
    assert(a.add(b).insert(next) =~= a.add(b.insert(next)));
}

/// Merges two sorted lists.
fn merge(a: &Vec<Ranked>, b: &Vec<Ranked>) -> (out: Vec<Ranked>)
    requires
        sorted(a@),
        sorted(b@),
        a@.len() + b@.len() <= usize::MAX,
    ensures
        sorted(out@),
        out@.to_multiset() == a@.to_multiset().add(b@.to_multiset()),
{
    broadcast use vstd::seq_lib::group_to_multiset_ensures;

    let mut out: Vec<Ranked> = Vec::new();
    let mut i: usize = 0;
    let mut j: usize = 0;
    proof {
        assert(a@.take(0) == Seq::<Ranked>::empty());
        assert(b@.take(0) == Seq::<Ranked>::empty());
        assert(out@.to_multiset() == a@.take(0).to_multiset().add(b@.take(0).to_multiset()));
    }
    while i < a.len() || j < b.len()
        invariant
            sorted(a@),
            sorted(b@),
            i <= a@.len(),
            j <= b@.len(),
            a@.len() + b@.len() <= usize::MAX,
            sorted(out@),
            out@.to_multiset() == a@.take(i as int).to_multiset().add(
                b@.take(j as int).to_multiset(),
            ),
            forall|k: int, h: int|
                0 <= k < out@.len() && i <= h < a@.len() ==> not_after(
                    #[trigger] out@[k],
                    #[trigger] a@[h],
                ),
            forall|k: int, h: int|
                0 <= k < out@.len() && j <= h < b@.len() ==> not_after(
                    #[trigger] out@[k],
                    #[trigger] b@[h],
                ),
        decreases a@.len() - i + b@.len() - j,
    {
        let ghost before = out@;
        if j >= b.len() || (i < a.len() && may_precede(&a[i], &b[j])) {
            proof {
                lemma_take_one(a@, i as int);
            }
            let next = a[i];
            assert(j < b@.len() ==> not_after(next, b@[j as int]));
            proof {
                lemma_grow(
                    before,
                    next,
                    a@.take(i as int).to_multiset(),
                    b@.take(j as int).to_multiset(),
                );
            }
            out.push(next);
            i += 1;
            assert forall|k: int, h: int|
                0 <= k < out@.len() && j <= h < b@.len() implies not_after(
                #[trigger] out@[k],
                #[trigger] b@[h],
            ) by {
                if k == before.len() && h > j {
                    assert(not_after(b@[j as int], b@[h]));
                }
            }
        } else {
            proof {
                lemma_take_one(b@, j as int);
            }
            let next = b[j];
            assert(i < a@.len() ==> not_after(next, a@[i as int]));
            proof {
                lemma_grow(
                    before,
                    next,
                    a@.take(i as int).to_multiset(),
                    b@.take(j as int).to_multiset(),
                );
            }
            out.push(next);
            j += 1;
            assert forall|k: int, h: int|
                0 <= k < out@.len() && i <= h < a@.len() implies not_after(
                #[trigger] out@[k],
                #[trigger] a@[h],
            ) by {
                if k == before.len() && h > i {
                    assert(not_after(a@[i as int], a@[h]));
                }
            }
        }
    }
    assert(a@.take(a@.len() as int) == a@);
    assert(b@.take(b@.len() as int) == b@);
    out
}

/// `v` sorted, largest first.
pub fn sort(v: Vec<Ranked>) -> (out: Vec<Ranked>)
    ensures
        sorted(out@),
        out@.to_multiset() == v@.to_multiset(),
        out@.len() == v@.len(),
    decreases v@.len(),
{
    broadcast use vstd::seq_lib::group_to_multiset_ensures;

    if v.len() <= 1 {
        return v;
    }
    let ghost whole = v@;
    let mut left = v;
    let half: usize = left.len() / 2;
    let right = left.split_off(half);
    proof {
        assert(left@ + right@ == whole);
        lemma_multiset_commutative(left@, right@);
    }
    let a = sort(left);
    let b = sort(right);
    let out = merge(&a, &b);
    assert(out@.to_multiset().len() == out@.len());
    assert(whole.to_multiset().len() == whole.len());
    out
}

} // verus!
