//! What numbers look like.

use vstd::prelude::*;

use crate::double::{half_even, lemma_nearest, nearest, whole, ONE};
use crate::fmt::{
    bytes_text, count_text, decimal, digit, files_text, fixed, grouped, hundredths,
    lemma_three_significant_digits, percent_text, places, scaled, ten_to, three_digits, unit_name,
    THIN_SPACE,
};

verus! {

/// Whether a character is a decimal digit.
pub open spec fn is_digit(c: char) -> bool {
    48 <= c as int <= 57
}

/// The number that digits spell, the most significant first.
pub open spec fn number(digits: Seq<char>) -> int
    decreases digits.len(),
{
    if digits.len() == 0 {
        0
    } else {
        10 * number(digits.drop_last()) + (digits.last() as int - 48)
    }
}

/// A number in decimal is read back as it was, is made of digits, and does not
/// start with a zero unless it is zero.
pub proof fn lemma_decimal_is_read_back(n: nat)
    ensures
        number(decimal(n)) == n,
        decimal(n).len() > 0,
        forall|i: int| 0 <= i < decimal(n).len() ==> is_digit(#[trigger] decimal(n)[i]),
        n > 0 ==> decimal(n)[0] != '0',
        n >= 10 ==> decimal(n).len() > 1,
    decreases n,
{
    reveal_with_fuel(number, 2);
    let text = decimal(n);
    if n < 10 {
        assert(text.drop_last() == Seq::<char>::empty());
        assert(text.last() == digit(n as int));
    } else {
        lemma_decimal_is_read_back(n / 10);
        assert(text.drop_last() == decimal(n / 10));
        assert(text.last() == digit((n % 10) as int));
        assert(text[0] == decimal(n / 10)[0]);
    }
}

/// A text without its thin spaces.
pub open spec fn closed_up(text: Seq<char>) -> Seq<char>
    decreases text.len(),
{
    if text.len() == 0 {
        text
    } else if text.last() == '\u{202f}' {
        closed_up(text.drop_last())
    } else {
        closed_up(text.drop_last()).push(text.last())
    }
}

proof fn lemma_closed_up(a: Seq<char>, b: Seq<char>)
    ensures
        closed_up(a + b) == closed_up(a) + closed_up(b),
    decreases b.len(),
{
    if b.len() > 0 {
        lemma_closed_up(a, b.drop_last());
        assert((a + b).drop_last() == a + b.drop_last());
        assert((a + b).last() == b.last());
        if b.last() != '\u{202f}' {
            assert(closed_up(a) + closed_up(b) == (closed_up(a) + closed_up(b.drop_last())).push(
                b.last(),
            ));
        }
    } else {
        assert(a + b == a);
    }
}

proof fn lemma_digits_stay(text: Seq<char>)
    requires
        forall|i: int| 0 <= i < text.len() ==> is_digit(#[trigger] text[i]),
    ensures
        closed_up(text) == text,
    decreases text.len(),
{
    if text.len() > 0 {
        assert(is_digit(text[text.len() - 1]));
        lemma_digits_stay(text.drop_last());
        assert(text.drop_last().push(text.last()) == text);
    }
}

/// Grouping digits takes none away: without its thin spaces a count is the
/// number in decimal.
pub proof fn lemma_counts_keep_their_digits(n: u64)
    ensures
        closed_up(count_text(n)) == decimal(n as nat),
        number(closed_up(count_text(n))) == n,
{
    lemma_decimal_is_read_back(n as nat);
    lemma_grouped(decimal(n as nat));
}

proof fn lemma_grouped(text: Seq<char>)
    requires
        forall|i: int| 0 <= i < text.len() ==> is_digit(#[trigger] text[i]),
    ensures
        closed_up(grouped(text)) == text,
        grouped(text).len() == if text.len() == 0 {
            0
        } else {
            text.len() + (text.len() - 1) / 3
        },
        forall|k: int|
            0 <= k < grouped(text).len() ==> (#[trigger] grouped(text)[grouped(text).len() - 1 - k]
                == '\u{202f}' <==> k % 4 == 3),
    decreases text.len(),
{
    let n = text.len() as int;
    if n <= 3 {
        lemma_digits_stay(text);
        assert forall|k: int| 0 <= k < n implies (#[trigger] grouped(text)[n - 1 - k] == '\u{202f}'
            <==> k % 4 == 3) by {
            assert(is_digit(text[n - 1 - k]));
        }
    } else {
        let head = text.take(n - 3);
        let tail = text.skip(n - 3);
        let front = grouped(head).push(THIN_SPACE);
        lemma_grouped(head);
        lemma_digits_stay(tail);
        lemma_closed_up(front, tail);
        assert(front.drop_last() == grouped(head));
        assert(closed_up(front) == head);
        assert(head + tail == text);
        let all = grouped(text);
        assert(all == front + tail);
        let len = all.len() as int;
        assert forall|k: int| 0 <= k < len implies (#[trigger] all[len - 1 - k] == '\u{202f}'
            <==> k % 4 == 3) by {
            if k < 3 {
                assert(all[len - 1 - k] == tail[2 - k]);
                assert(is_digit(text[n - 3 + 2 - k]));
            } else if k > 3 {
                let m = grouped(head).len() as int;
                assert(all[len - 1 - k] == grouped(head)[m - 1 - (k - 4)]);
            }
        }
    }
}

/// In a count every fourth character from the right is a thin space, and no
/// other.
pub proof fn lemma_counts_are_in_threes(n: u64, k: int)
    requires
        0 <= k < count_text(n).len(),
    ensures
        count_text(n)[count_text(n).len() - 1 - k] == '\u{202f}' <==> k % 4 == 3,
{
    lemma_decimal_is_read_back(n as nat);
    lemma_grouped(decimal(n as nat));
}

/// One is said in the singular, everything else in the plural and in full.
pub proof fn lemma_singular(n: u64)
    ensures
        n == 1 ==> files_text(n) == "1 file"@,
        n != 1 ==> files_text(n) == count_text(n) + " files"@,
{
}

/// A number with digits behind the point: those before it are the whole part,
/// and there are as many behind it as asked for.
pub proof fn lemma_fixed(n: nat)
    ensures
        fixed(n, 0) == decimal(n),
        fixed(n, 1) == decimal(n / 10) + seq!['.', digit((n % 10) as int)],
        fixed(n, 2) == decimal(n / 100) + seq![
            '.',
            digit((n / 10 % 10) as int),
            digit((n % 10) as int),
        ],
{
    reveal_with_fuel(fixed, 3);
    assert(n / 10 / 10 == n / 100);
    assert(fixed(n, 2) =~= decimal(n / 100) + seq![
        '.',
        digit((n / 10 % 10) as int),
        digit((n % 10) as int),
    ]);
}

/// A thousand to the power of `u`.
pub open spec fn thousands(u: nat) -> nat
    decreases u,
{
    if u == 0 {
        1
    } else {
        1000 * thousands((u - 1) as nat)
    }
}

/// How far apart two numbers are.
pub open spec fn apart(a: int, b: int) -> int {
    if a < b {
        b - a
    } else {
        a - b
    }
}

/// Whether a size of `n` bytes is `shown` over ten to the power of `p` of the
/// unit with that power of a thousand, to within half of the last digit (and a
/// thousandth of it, for the rounding in between).
pub open spec fn shows_size(n: nat, shown: nat, p: nat, u: nat) -> bool {
    let tenth: int = if p == 0 {
        1
    } else if p == 1 {
        10
    } else {
        100
    };
    &&& 100 <= shown <= 999
    &&& p <= 2
    &&& 1 <= u <= 6
    &&& 2000 * apart((shown * thousands(u)) as int, n * tenth) <= 1001 * thousands(u)
}

/// Whether `v`, scaled by a thousand `u` times, is close to `n`.
spec fn is_near(n: nat, v: nat, u: nat) -> bool {
    apart((thousands(u) * v) as int, n * ONE) <= (u + 1) * n
}

proof fn lemma_scale_down(n: nat, v: nat, u: nat)
    requires
        is_near(n, v, u),
        u < 6,
        v >= 1000 * ONE,
    ensures
        is_near(n, nearest(v, 1000), u + 1),
{
    let w = nearest(v, 1000);
    let t = thousands(u);
    lemma_nearest(v, 1000);
    let step = crate::double::binade(v / 1000 / ONE as nat);
    let d = apart((1000 * w) as int, v as int);
    assert(2 * d <= 1000 * step);
    assert(1000 * step * ONE <= v);
    assert(2 * ONE * d <= v) by (nonlinear_arith)
        requires
            2 * d <= 1000 * step,
            1000 * step * ONE <= v,
            0 <= ONE,
    ;
    assert(t * v <= n * ONE + 7 * n) by (nonlinear_arith)
        requires
            apart((t * v) as int, n * ONE) <= (u + 1) * n,
            u < 6,
    ;
    assert(t * v <= 2 * ONE * n) by (nonlinear_arith)
        requires
            t * v <= n * ONE + 7 * n,
            ONE >= 7,
    ;
    assert(2 * ONE * (t * d) <= t * v) by (nonlinear_arith)
        requires
            2 * ONE * d <= v,
            0 <= t,
    ;
    assert(t * d <= n) by (nonlinear_arith)
        requires
            2 * ONE * (t * d) <= 2 * ONE * n,
            ONE > 0,
    ;
    assert(apart((1000 * t * w) as int, (t * v) as int) == t * d) by (nonlinear_arith)
        requires
            d == apart((1000 * w) as int, v as int),
            0 <= t,
    ;
    assert((u + 1 + 1) * n == (u + 1) * n + n) by (nonlinear_arith);
    assert(thousands(u + 1) == 1000 * t);
    assert(thousands(u + 1) * w == 1000 * t * w);
}

proof fn lemma_scaled_near(n: nat, v: nat, unit: nat)
    requires
        is_near(n, v, unit),
        unit <= 6,
    ensures
        ({
            let (w, u) = scaled(v, unit as int);
            &&& unit <= u <= 6
            &&& is_near(n, w, u as nat)
            &&& u < 6 ==> w < 1000 * ONE
        }),
    decreases 6 - unit,
{
    if v >= 1000 * ONE && unit < 6 {
        lemma_scale_down(n, v, unit);
        lemma_scaled_near(n, nearest(v, 1000), unit + 1);
    }
}

proof fn lemma_half(a: nat, b: nat)
    requires
        b > 0,
    ensures
        2 * apart((half_even(a, b) * b) as int, a as int) <= b,
{
    let q = a / b;
    let r = a % b;
    assert(a == b * q + r && r < b) by (nonlinear_arith)
        requires
            b > 0,
            q == a / b,
            r == a % b,
    ;
    let h = half_even(a, b);
    assert(2 * apart((h * b) as int, a as int) <= b) by (nonlinear_arith)
        requires
            a == b * q + r,
            r < b,
            (h == q && 2 * r <= b) || (h == q + 1 && 2 * r >= b),
    ;
}

/// Three digits of a value near to `n` are near to `n`.
proof fn lemma_rounded_near(n: nat, w: nat, u: nat, tenth: nat)
    requires
        is_near(n, w, u),
        u <= 6,
        n > 0,
        tenth == 1 || tenth == 10 || tenth == 100,
        w * tenth < 1000 * ONE,
    ensures
        2000 * apart((half_even(w * tenth, ONE as nat) * thousands(u)) as int, (n * tenth) as int)
            <= 1001 * thousands(u),
{
    let t = thousands(u);
    let h = half_even(w * tenth, ONE as nat);
    lemma_half(w * tenth, ONE as nat);
    let e = apart((h * ONE) as int, (w * tenth) as int);
    let d = apart((t * w) as int, n * ONE);
    assert(d <= 7 * n) by (nonlinear_arith)
        requires
            d <= (u + 1) * n,
            u <= 6,
    ;
    assert(t * e <= t * ONE / 2 && 2 * (t * e) <= t * ONE) by (nonlinear_arith)
        requires
            2 * e <= ONE,
            0 <= t,
    ;
    // h*ONE*t is near w*tenth*t, which is near n*ONE*tenth.
    let x = h * ONE * t;
    let y = w * tenth * t;
    let z = n * ONE * tenth;
    assert(apart(x as int, y as int) == t * e) by (nonlinear_arith)
        requires
            e == apart((h * ONE) as int, (w * tenth) as int),
            x == h * ONE * t,
            y == w * tenth * t,
            0 <= t,
    ;
    assert(apart(y as int, z as int) == tenth * d) by (nonlinear_arith)
        requires
            d == apart((t * w) as int, n * ONE),
            y == w * tenth * t,
            z == n * ONE * tenth,
            0 <= tenth,
    ;
    assert(apart(x as int, z as int) <= t * e + tenth * d);
    // n*tenth is at most about a thousand t.
    assert(y <= 1000 * ONE * t) by (nonlinear_arith)
        requires
            w * tenth < 1000 * ONE,
            y == w * tenth * t,
            0 <= t,
    ;
    let m = n * tenth;
    assert(tenth * d <= 7 * m) by (nonlinear_arith)
        requires
            d <= 7 * n,
            m == n * tenth,
            0 <= tenth,
    ;
    assert(z == m * ONE) by (nonlinear_arith)
        requires
            z == n * ONE * tenth,
            m == n * tenth,
    ;
    assert(m * ONE <= 1000 * ONE * t + 7 * m);
    assert(m <= 1001 * t) by (nonlinear_arith)
        requires
            m * ONE <= 1000 * ONE * t + 7 * m,
            ONE == 0x10_0000_0000_0000,
            0 <= t,
    ;
    assert(2000 * (7 * m) <= t * ONE) by (nonlinear_arith)
        requires
            m <= 1001 * t,
            ONE == 0x10_0000_0000_0000,
            0 <= t,
    ;
    let g = apart((h * t) as int, m as int);
    assert(apart(x as int, z as int) == g * ONE) by (nonlinear_arith)
        requires
            g == apart((h * t) as int, m as int),
            x == h * ONE * t,
            z == m * ONE,
            ONE > 0,
    ;
    assert(2000 * (g * ONE) <= 1000 * (t * ONE) + t * ONE);
    assert(2000 * g <= 1001 * t) by (nonlinear_arith)
        requires
            2000 * (g * ONE) <= 1000 * (t * ONE) + t * ONE,
            ONE > 0,
    ;
}

/// Sizes are nowhere near a thousand of the largest unit.
proof fn lemma_last_unit(n: u64, w: nat)
    requires
        is_near(n as nat, w, 6),
    ensures
        w < 1000 * ONE,
{
    reveal_with_fuel(thousands, 7);
    assert(thousands(6) == 1_000_000_000_000_000_000);
    assert(1_000_000_000_000_000_000 * w <= n * ONE + 7 * n);
    assert(n * ONE + 7 * n <= 18_446_744_073_709_551_615 * ONE + 7 * 18_446_744_073_709_551_615)
        by (nonlinear_arith)
        requires
            n <= 18_446_744_073_709_551_615,
            ONE > 0,
    ;
}

/// A size is shown in bytes below a thousand, and otherwise with three digits in
/// a unit of a power of a thousand, rounded to the nearest: what is read is off
/// by no more than half of the last digit.
pub proof fn lemma_sizes_are_shown_to_the_last_digit(n: u64)
    ensures
        n < 1000 ==> bytes_text(n) == decimal(n as nat) + " bytes"@,
        n >= 1000 ==> exists|shown: nat, p: nat, u: nat| #[trigger]
            shows_size(n as nat, shown, p, u) && bytes_text(n) == fixed(shown, p) + " "@
                + unit_name(u as int),
{
    if n >= 1000 {
        let m = n as nat;
        let a = m * ONE as nat;
        lemma_nearest(a, 1);
        let v = nearest(a, 1);
        let step = crate::double::binade(a / 1 / ONE as nat);
        assert(step <= m) by (nonlinear_arith)
            requires
                1 * step * ONE <= a,
                a == m * ONE,
                ONE > 0,
        ;
        assert(thousands(0) * v == v);
        assert(1 * v == v && 1 * step == step);
        assert((0nat + 1) * m == m) by (nonlinear_arith);
        assert(a == m * ONE);
        assert(is_near(m, v, 0));
        lemma_scaled_near(m, v, 0);
        let (w, u) = scaled(v, 0);
        if u == 6 {
            lemma_last_unit(n, w);
        }
        lemma_three_significant_digits(n);
        let p = places(w);
        let tenth = ten_to(p);
        assert(w * tenth < 1000 * ONE) by {
            assert(w * 1 == w && w * 10 == 10 * w && w * 100 == 100 * w);
        }
        lemma_rounded_near(m, w, u as nat, tenth);
        let raw = half_even(w * tenth, ONE as nat);
        let (shown, q, unit) = three_digits(w, u);
        let t = thousands(u as nat);
        if raw < 1000 {
            assert(shows_size(m, shown, q, unit as nat));
        } else {
            assert(raw == 1000) by {
                lemma_half(w * tenth, ONE as nat);
            }
            assert(thousands((u + 1) as nat) == 1000 * t);
            assert(raw * t == 1000 * t);
            assert(m * 1 == m && m * 10 == 10 * m && m * 100 == 100 * m);
            assert(100 * (1000 * t) == 100_000 * t);
            assert(shows_size(m, shown, q, unit as nat));
        }
    }
}

/// The units go up by a thousand at a time.
pub proof fn lemma_units()
    ensures
        unit_name(1) == "KB"@,
        unit_name(2) == "MB"@,
        unit_name(3) == "GB"@,
        unit_name(4) == "TB"@,
        unit_name(5) == "PB"@,
        unit_name(6) == "EB"@,
{
}

/// A number as a double is off by less than what a double cannot tell apart.
proof fn lemma_whole_near(n: nat)
    ensures
        0x20_0000_0000_0000 * apart(whole(n) as int, n as int) <= n,
{
    if n >= ONE {
        lemma_nearest(n, 1);
        let step = crate::double::binade(n / 1 / ONE as nat);
        let d = apart(whole(n) as int, n as int);
        assert(2 * d <= step);
        assert(0x20_0000_0000_0000 * d <= n) by (nonlinear_arith)
            requires
                2 * d <= step,
                1 * step * ONE <= n,
                ONE == 0x10_0000_0000_0000,
        ;
    } else {
        assert(n / 1 == n && n % 1 == 0);
        assert(n / ONE as nat == 0);
        assert(crate::double::binade(0) == 1);
        assert(half_even(n, 1) == n);
    }
}

/// No share of a whole is anywhere near three hundred percent.
proof fn lemma_share_bound(part: nat, total: nat, v: nat)
    requires
        0 < part <= total,
        whole(whole(part) * 100) >= whole(total),
        v == nearest(whole(whole(part) * 100) * ONE as nat, whole(total)),
    ensures
        v <= 250 * ONE,
{
    let q = whole(part) * 100;
    let p = whole(q);
    let w = whole(total);
    lemma_whole_near(part);
    lemma_whole_near(q);
    lemma_whole_near(total);
    assert(w > 0 && 2 * w >= total && p <= 102 * total);
    let pc = p * ONE as nat;
    assert(pc >= w * ONE) by (nonlinear_arith)
        requires
            p >= w,
            pc == p * ONE as nat,
    ;
    lemma_nearest(pc, w);
    let wv = w * v;
    assert(v <= 250 * ONE) by (nonlinear_arith)
        requires
            1000 * wv <= 1001 * pc,
            pc == p * ONE as nat,
            wv == w * v,
            p <= 204 * w,
            w > 0,
            ONE > 0,
    ;
}

/// What each step of working out a share is off by adds up to little.
proof fn lemma_steps_add_up(
    part: int,
    total: int,
    a: int,
    p: int,
    w: int,
    kp: int,
    kpart: int,
    vkw: int,
    dw: int,
    dt: int,
)
    requires
        0 < part <= total,
        0x20_0000_0000_0000 * apart(a, part) <= part,
        0x20_0000_0000_0000 * apart(p, 100 * a) <= 100 * a,
        0x20_0000_0000_0000 * apart(w, total) <= total,
        (kp == p && kpart == 100 * part) || (kp == 10 * p && kpart == 1000 * part),
        2 * apart(vkw, 0x10_0000_0000_0000 * kp) <= kp,
        2 * apart(0x10_0000_0000_0000 * dw, vkw) <= 0x10_0000_0000_0000 * w,
        0x20_0000_0000_0000 * apart(dw, dt) <= 300 * total,
    ensures
        2000 * apart(dt, kpart) <= 1001 * total,
{
    assert(a <= 2 * part && p <= 102 * total);
    assert(0x10_0000_0000_0000 * apart(p, 100 * part) <= 200 * part);
    assert(0x10_0000_0000_0000 * apart(kp, kpart) <= 2000 * total && kp <= 1020 * total);
    assert(0x20_0000_0000_0000 * w <= 0x20_0000_0000_0000 * total + total);
    let l: int = 0x20_0000_0000_0000 * (dw - kp);
    assert(l <= 0x10_0000_0000_0000 * w + kp && -l <= 0x10_0000_0000_0000 * w + kp);
    let m: int = 0x20_0000_0000_0000 * (dt - kpart);
    assert(m <= 0x10_0000_0000_0000 * total + 6000 * total);
    assert(-m <= 0x10_0000_0000_0000 * total + 6000 * total);
}

/// A share is near the ratio of the two doubles it is worked out from.
proof fn lemma_share_near(part: nat, total: nat, v: nat, k: nat)
    requires
        0 < part <= total,
        whole(whole(part) * 100) >= whole(total),
        v == nearest(whole(whole(part) * 100) * ONE as nat, whole(total)),
        k == 1 || k == 10,
        half_even(v * k, ONE as nat) <= 300,
    ensures
        2000 * apart((half_even(v * k, ONE as nat) * total) as int, (100 * k * part) as int)
            <= 1001 * total,
{
    let q = whole(part) * 100;
    let p = whole(q);
    let w = whole(total);
    lemma_whole_near(part);
    lemma_whole_near(q);
    lemma_whole_near(total);
    assert(w > 0);
    let pc = p * ONE as nat;
    assert(pc >= w * ONE) by (nonlinear_arith)
        requires
            p >= w,
            pc == p * ONE as nat,
    ;
    lemma_nearest(pc, w);
    let step = crate::double::binade(pc / w / ONE as nat);
    assert(w * step <= p) by (nonlinear_arith)
        requires
            w * step * ONE <= pc,
            pc == p * ONE as nat,
            ONE > 0,
    ;
    let wv = w * v;
    let d = half_even(v * k, ONE as nat);
    lemma_half(v * k, ONE as nat);
    let dw = d * w;
    let dt = d * total;
    let vkw = k * wv;
    assert(pc == 0x10_0000_0000_0000 * p) by (nonlinear_arith)
        requires
            pc == p * ONE as nat,
            ONE == 0x10_0000_0000_0000,
    ;
    let dc = d * ONE as nat;
    let vk = v * k;
    let near = apart(dc as int, vk as int);
    assert(2 * near <= ONE);
    assert(2 * apart((0x10_0000_0000_0000 * dw) as int, vkw as int) <= 0x10_0000_0000_0000 * w)
        by (nonlinear_arith)
        requires
            near == apart(dc as int, vk as int),
            2 * near <= ONE,
            dc == d * ONE as nat,
            ONE == 0x10_0000_0000_0000,
            dw == d * w,
            vk == v * k,
            vkw == k * wv,
            wv == w * v,
    {
        assert(0x10_0000_0000_0000 * dw == w * dc);
        assert(vkw == w * vk);
        assert(apart(w * dc as int, w * vk as int) == w * near);
        assert(2 * (w * near) <= w * ONE);
    }
    let off = apart(w as int, total as int);
    assert(0x20_0000_0000_0000 * apart(dw as int, dt as int) <= 300 * total) by (nonlinear_arith)
        requires
            off == apart(w as int, total as int),
            0x20_0000_0000_0000 * off <= total,
            dw == d * w,
            dt == d * total,
            d <= 300,
    {
        assert(apart(dw as int, dt as int) == d * off);
        assert(d * off <= 300 * off);
    }
    assert(2 * apart(wv as int, pc as int) <= p);
    let kp = k * p;
    assert((k == 1 && vkw == wv && kp == p) || (k == 10 && vkw == 10 * wv && kp == 10 * p));
    lemma_steps_add_up(
        part as int,
        total as int,
        whole(part) as int,
        p as int,
        w as int,
        kp as int,
        (100 * k * part) as int,
        vkw as int,
        dw as int,
        dt as int,
    );
}

/// What rounds to the nearest stays between what bounds it.
proof fn lemma_half_between(a: nat, b: nat, low: nat, high: nat)
    requires
        b > 0,
        low * b <= a <= high * b,
    ensures
        low <= half_even(a, b) <= high,
{
    lemma_half(a, b);
    let h = half_even(a, b);
    let hb = h * b;
    assert(low <= h <= high) by (nonlinear_arith)
        requires
            hb == h * b,
            2 * hb <= 2 * a + b,
            2 * a <= 2 * hb + b,
            low * b <= a,
            a <= high * b,
            b > 0,
    ;
}

/// A share is shown to the percent from ten percent on and to a tenth of it
/// below that, rounded to the nearest; below one percent it is only said that
/// there is something.
pub proof fn lemma_shares_are_shown_to_the_last_digit(part: u64, total: u64)
    requires
        0 < part <= total,
    ensures
        ({
            let text = percent_text(part, total);
            ||| text == "<1%"@ && 100 * part <= total + total / 1000
            ||| exists|d: nat|
                text == #[trigger] decimal(d) + "%"@ && d >= 10 && 2000 * apart(
                    (d * total) as int,
                    100 * part,
                ) <= 1001 * total
            ||| exists|d: nat|
                text == #[trigger] fixed(d, 1) + "%"@ && 10 <= d <= 100 && 2000 * apart(
                    (d * total) as int,
                    1000 * part,
                ) <= 1001 * total
        }),
{
    let (p, w) = hundredths(part, total);
    lemma_whole_near(part as nat);
    lemma_whole_near(whole(part as nat) * 100);
    lemma_whole_near(total as nat);
    if p >= w {
        let pc = p * ONE as nat;
        assert(pc >= w * ONE) by (nonlinear_arith)
            requires
                p >= w,
                pc == p * ONE as nat,
        ;
        lemma_nearest(pc, w);
        let v = nearest(pc, w);
        lemma_share_bound(part as nat, total as nat, v);
        if v >= 10 * ONE {
            lemma_half_between(v, ONE as nat, 10, 250);
            assert(v * 1 == v);
            lemma_share_near(part as nat, total as nat, v, 1);
            assert(percent_text(part, total) == decimal(half_even(v, ONE as nat)) + "%"@);
        } else {
            lemma_half_between(v * 10, ONE as nat, 10, 100);
            lemma_share_near(part as nat, total as nat, v, 10);
            assert(percent_text(part, total) == fixed(half_even(v * 10, ONE as nat), 1) + "%"@);
        }
    }
}

/// A share of nothing is a dash, no share is nothing at all, and what is whole
/// is all of it.
pub proof fn lemma_ends_of_the_scale(part: u64, total: u64)
    ensures
        percent_text(part, 0) == "\u{2014}"@,
        total > 0 ==> percent_text(0, total) == "0%"@,
{
}

} // verus!
