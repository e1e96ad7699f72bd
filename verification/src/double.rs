//! Double-precision values of at least one, as integers.
//!
//! Sizes and shares are scaled in double precision before they are shown, so
//! their last digit depends on how doubles round. Here a double `v >= 1` is the
//! integer `v * ONE`: its spacing is then at least one, so nothing is lost.

use vstd::prelude::*;

verus! {

/// The double 1.0: two to the power of 52.
pub const ONE: u128 = 0x10_0000_0000_0000;

/// `a / b` rounded to the nearest integer, and to the even one of two equally
/// near.
pub open spec fn half_even(a: nat, b: nat) -> nat {
    let q = a / b;
    let r = a % b;
    if 2 * r < b || (2 * r == b && q % 2 == 0) {
        q
    } else {
        q + 1
    }
}

/// The largest power of two that is at most `x`; one for `x` below two.
pub open spec fn binade(x: nat) -> nat
    decreases x,
{
    if x < 2 {
        1
    } else {
        2 * binade(x / 2)
    }
}

/// The double nearest to the ratio `a / b` of an integer scaled by `ONE`:
/// between two powers of two doubles stand evenly, the lower power apart.
pub open spec fn nearest(a: nat, b: nat) -> nat {
    let step = binade(a / b / ONE as nat);
    step * half_even(a, b * step)
}

/// The double nearest to an integer, as an integer: doubles of at least two to
/// the power of 53 are integers, and below that every integer is a double.
pub open spec fn whole(n: nat) -> nat {
    nearest(n, 1)
}

proof fn lemma_binade(x: nat)
    requires
        x >= 1,
    ensures
        1 <= binade(x) <= x < 2 * binade(x),
    decreases x,
{
    if x >= 2 {
        lemma_binade(x / 2);
    }
}

/// Computes [`binade`].
fn power_below(x: u128) -> (p: u128)
    requires
        x >= 1,
    ensures
        p == binade(x as nat),
        1 <= p <= x,
{
    let mut y: u128 = x;
    let mut p: u128 = 1;
    proof {
        lemma_binade(x as nat);
    }
    while y >= 2
        invariant
            y >= 1,
            x >= 1,
            p * binade(y as nat) == binade(x as nat),
            binade(x as nat) <= x,
            p >= 1,
        decreases y,
    {
        proof {
            lemma_binade((y / 2) as nat);
            let half = binade((y / 2) as nat);
            assert(p * (2 * half) == (p * 2) * half) by (nonlinear_arith);
            assert(p * 2 <= (p * 2) * half) by (nonlinear_arith)
                requires
                    half >= 1,
            ;
        }
        y = y / 2;
        p = p * 2;
    }
    assert(binade(y as nat) == 1);
    assert(p * 1 == p);
    p
}

/// Computes [`half_even`].
pub fn round(a: u128, b: u128) -> (q: u128)
    requires
        0 < b,
        b <= u128::MAX / 2,
        a / b < u128::MAX,
    ensures
        q == half_even(a as nat, b as nat),
{
    let q: u128 = a / b;
    let r: u128 = a % b;
    if 2 * r < b || (2 * r == b && q % 2 == 0) {
        q
    } else {
        q + 1
    }
}

/// What `nearest` rounds to is near what it rounds.
pub proof fn lemma_nearest(a: nat, b: nat)
    requires
        b > 0,
        a >= b * ONE,
    ensures
        ({
            let step = binade(a / b / ONE as nat);
            &&& step >= 1
            &&& b * step * ONE <= a
            &&& 2 * (b * nearest(a, b)) <= 2 * a + b * step
            &&& 2 * a <= 2 * (b * nearest(a, b)) + b * step
            &&& nearest(a, b) >= ONE
            &&& 1000 * (b * nearest(a, b)) <= 1001 * a
        }),
{
    let x = a / b / ONE as nat;
    assert(a / b >= ONE) by (nonlinear_arith)
        requires
            b > 0,
            a >= b * ONE,
    ;
    assert(x >= 1) by (nonlinear_arith)
        requires
            a / b >= ONE,
            x == a / b / ONE as nat,
    ;
    lemma_binade(x);
    let step = binade(x);
    assert(b * step * ONE <= a) by (nonlinear_arith)
        requires
            step <= x,
            x == a / b / ONE as nat,
            b > 0,
    ;
    let d = b * step;
    let q = a / d;
    let r = a % d;
    assert(d > 0) by (nonlinear_arith)
        requires
            b > 0,
            step >= 1,
            d == b * step,
    ;
    assert(a == d * q + r && r < d) by (nonlinear_arith)
        requires
            d > 0,
            q == a / d,
            r == a % d,
    ;
    let h = half_even(a, d);
    let v = step * h;
    assert(b * v == d * h) by (nonlinear_arith)
        requires
            v == step * h,
            d == b * step,
    ;
    assert(2 * (d * h) <= 2 * a + d && 2 * a <= 2 * (d * h) + d) by (nonlinear_arith)
        requires
            a == d * q + r,
            r < d,
            (h == q && 2 * r <= d) || (h == q + 1 && 2 * r >= d),
    ;
    assert(1000 * d <= d * ONE);
    assert(q >= ONE) by (nonlinear_arith)
        requires
            d * ONE <= a,
            d > 0,
            q == a / d,
    ;
    assert(v >= ONE) by (nonlinear_arith)
        requires
            h >= ONE,
            step >= 1,
            v == step * h,
    ;
}

/// Computes [`nearest`].
pub fn to_double(a: u128, b: u128) -> (v: u128)
    requires
        b > 0,
        b * ONE <= a,
        a <= u128::MAX / 8,
    ensures
        v == nearest(a as nat, b as nat),
        v >= ONE,
        b * v <= 2 * a,
        1000 * (b * v) <= 1001 * a,
{
    proof {
        lemma_nearest(a as nat, b as nat);
        assert(a / b / ONE >= 1) by (nonlinear_arith)
            requires
                b > 0,
                b * ONE <= a,
        ;
    }
    let step: u128 = power_below(a / b / ONE);
    proof {
        assert(b * step <= b * step * ONE) by (nonlinear_arith)
            requires
                b > 0,
        ;
        assert(b * step > 0) by (nonlinear_arith)
            requires
                b > 0,
                step >= 1,
        ;
    }
    let d: u128 = b * step;
    assert(a / d <= a) by (nonlinear_arith)
        requires
            d > 0,
    ;
    let h: u128 = round(a, d);
    proof {
        let v = step * h;
        assert(v <= b * v) by (nonlinear_arith)
            requires
                b > 0,
                v >= 0,
        ;
    }
    step * h
}

/// Computes [`whole`].
pub fn to_whole(n: u128) -> (v: u128)
    requires
        n <= u128::MAX / 8,
    ensures
        v == whole(n as nat),
        v <= 2 * n,
        n >= 1 ==> v >= 1,
{
    if n < ONE {
        assert(n as nat / 1 / ONE as nat == 0);
        assert(half_even(n as nat, 1) == n);
        assert(1 * half_even(n as nat, 1) == n);
        n
    } else {
        let v: u128 = to_double(n, 1);
        assert(1 * v == v);
        v
    }
}

} // verus!
