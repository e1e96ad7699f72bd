//! Human-readable sizes.

use vstd::prelude::*;

use crate::double::{half_even, lemma_nearest, nearest, round, to_double, to_whole, whole, ONE};
use crate::text::owned;

verus! {

/// `std::string::String::push` appends one character.
pub assume_specification[ String::push ](s: &mut String, c: char)
    ensures
        final(s)@ == old(s)@.push(c),
;

/// The narrow no-break space that groups digits.
pub const THIN_SPACE: char = '\u{202f}';

/// The digit `d`.
pub open spec fn digit(d: int) -> char {
    ('0' as int + d) as char
}

/// `n` in decimal.
pub open spec fn decimal(n: nat) -> Seq<char>
    decreases n,
{
    if n < 10 {
        seq![digit(n as int)]
    } else {
        decimal(n / 10).push(digit((n % 10) as int))
    }
}

/// `n / 10^places` with `places` digits after the point.
pub open spec fn fixed(n: nat, places: nat) -> Seq<char>
    decreases places,
{
    if places == 0 {
        decimal(n)
    } else if places == 1 {
        decimal(n / 10) + seq!['.', digit((n % 10) as int)]
    } else {
        fixed(n / 10, (places - 1) as nat).push(digit((n % 10) as int))
    }
}

fn digit_char(d: u8) -> (c: char)
    requires
        d < 10,
    ensures
        c == digit(d as int),
{
    (48 + d) as char
}

/// Appends `n` in decimal.
pub fn push_decimal(out: &mut String, n: u128)
    ensures
        final(out)@ == old(out)@ + decimal(n as nat),
    decreases n,
{
    if n >= 10 {
        push_decimal(out, n / 10);
    }
    let ghost before = out@;
    out.push(digit_char((n % 10) as u8));
    proof {
        if n < 10 {
            assert(out@ == old(out)@ + seq![digit(n as int)]);
        } else {
            assert(out@ == old(out)@ + decimal(n as nat / 10).push(digit((n % 10) as int)));
        }
    }
}

/// `n` in decimal.
pub fn to_decimal(n: u128) -> (out: String)
    ensures
        out@ == decimal(n as nat),
{
    let mut out = String::new();
    push_decimal(&mut out, n);
    assert(Seq::<char>::empty() + decimal(n as nat) == decimal(n as nat));
    out
}

/// Appends `n / 10^places` with `places` digits after the point.
fn push_fixed(out: &mut String, n: u128, places: u8)
    requires
        places <= 2,
    ensures
        final(out)@ == old(out)@ + fixed(n as nat, places as nat),
    decreases places,
{
    if places == 0 {
        push_decimal(out, n);
    } else {
        let ghost start = out@;
        if places == 1 {
            push_decimal(out, n / 10);
            out.push('.');
        } else {
            push_fixed(out, n / 10, places - 1);
        }
        out.push(digit_char((n % 10) as u8));
        proof {
            if places == 1 {
                assert(out@ == start + (decimal(n as nat / 10) + seq![
                    '.',
                    digit((n % 10) as int),
                ]));
            } else {
                assert(out@ == start + fixed(n as nat / 10, (places - 1) as nat).push(
                    digit((n % 10) as int),
                ));
            }
        }
    }
}

/// The unit a size is shown in, by its power of a thousand.
pub open spec fn unit_name(unit: int) -> Seq<char> {
    if unit == 0 {
        "bytes"@
    } else if unit == 1 {
        "KB"@
    } else if unit == 2 {
        "MB"@
    } else if unit == 3 {
        "GB"@
    } else if unit == 4 {
        "TB"@
    } else if unit == 5 {
        "PB"@
    } else {
        "EB"@
    }
}

fn unit_text(unit: u8) -> (text: &'static str)
    requires
        unit <= 6,
    ensures
        text@ == unit_name(unit as int),
{
    if unit == 0 {
        "bytes"
    } else if unit == 1 {
        "KB"
    } else if unit == 2 {
        "MB"
    } else if unit == 3 {
        "GB"
    } else if unit == 4 {
        "TB"
    } else if unit == 5 {
        "PB"
    } else {
        "EB"
    }
}

/// A double divided by a thousand until it is below a thousand, and how often:
/// the value a size is shown with, and its unit.
pub open spec fn scaled(v: nat, unit: int) -> (nat, int)
    decreases 6 - unit,
{
    if v >= 1000 * ONE && unit < 6 {
        scaled(nearest(v, 1000), unit + 1)
    } else {
        (v, unit)
    }
}

/// How many digits after the point leave three digits in all.
pub open spec fn places(v: nat) -> nat {
    if v < 10 * ONE {
        2
    } else if v < 100 * ONE {
        1
    } else {
        0
    }
}

/// Ten to the power of `p`.
pub open spec fn ten_to(p: nat) -> nat {
    if p == 0 {
        1
    } else if p == 1 {
        10
    } else {
        100
    }
}

/// Three significant digits of a value, the digits after the point, and the
/// unit. A value that rounds up to a fourth digit gives one digit after the
/// point up for it, or moves on to the next unit.
pub open spec fn three_digits(v: nat, unit: int) -> (nat, nat, int) {
    let p = places(v);
    let shown = half_even(v * ten_to(p), ONE as nat);
    if shown < 1000 {
        (shown, p, unit)
    } else if p > 0 {
        (100, (p - 1) as nat, unit)
    } else {
        (100, 2, unit + 1)
    }
}

/// A byte count as it is shown.
pub open spec fn bytes_text(n: u64) -> Seq<char> {
    if n < 1000 {
        decimal(n as nat) + " bytes"@
    } else {
        let (v, unit) = scaled(nearest(n as nat * ONE as nat, 1), 0);
        let (shown, p, unit) = three_digits(v, unit);
        fixed(shown, p) + " "@ + unit_name(unit)
    }
}

/// A bound on the value shown in each unit; no size reaches the thousands of
/// the last one.
spec fn ceiling(unit: int) -> int {
    if unit == 0 {
        18_500_000_000_000_000_000
    } else if unit == 1 {
        18_600_000_000_000_000
    } else if unit == 2 {
        18_700_000_000_000
    } else if unit == 3 {
        18_800_000_000
    } else if unit == 4 {
        18_900_000
    } else if unit == 5 {
        19_000
    } else {
        20
    }
}

/// A value has three digits left, whatever its unit.
proof fn lemma_three_digits(v: nat, unit: int)
    requires
        ONE <= v < 1000 * ONE,
        0 <= unit <= 6,
        v <= ceiling(unit) * ONE,
    ensures
        ({
            let (shown, p, u) = three_digits(v, unit);
            &&& 100 <= shown <= 999
            &&& p <= 2
            &&& unit <= u <= unit + 1
            &&& u <= 6
        }),
        half_even(v * ten_to(places(v)), ONE as nat) <= 1000,
{
    let p = places(v);
    let a = v * ten_to(p);
    if p == 0 {
        assert(a == v);
    } else if p == 1 {
        assert(a == v * 10);
    } else {
        assert(a == v * 100);
    }
    let q = a / ONE as nat;
    assert(100 * ONE <= a < 1000 * ONE);
    assert(100 <= q <= 999);
}

/// Formats a byte count the way macOS does: decimal units, three significant
/// digits. 1 GB is 10^9 bytes, matching what the Finder and `df` report, so a
/// number here can be compared with a number there.
pub fn bytes(n: u64) -> (text: String)
    ensures
        text@ == bytes_text(n),
{
    let mut out = String::new();
    assert forall|s: Seq<char>| #[trigger] (Seq::<char>::empty() + s) == s by {
        assert(Seq::<char>::empty() + s =~= s);
    }
    if n < 1000 {
        push_decimal(&mut out, n as u128);
        out.append(" bytes");
        return out;
    }
    let mut value: u128 = to_double(n as u128 * ONE, 1);
    let mut unit: u8 = 0;
    let ghost start = value as nat;
    assert(1 * value == value);
    while value >= 1000 * ONE && unit < 6
        invariant
            ONE <= value,
            unit <= 6,
            value <= ceiling(unit as int) * ONE,
            scaled(start, 0) == scaled(value as nat, unit as int),
        decreases 6 - unit,
    {
        value = to_double(value, 1000);
        unit = unit + 1;
    }
    proof {
        lemma_three_digits(value as nat, unit as int);
    }
    let mut p: u8 = if value < 10 * ONE {
        2
    } else if value < 100 * ONE {
        1
    } else {
        0
    };
    let power: u128 = if p == 0 {
        1
    } else if p == 1 {
        10
    } else {
        100
    };
    let mut shown: u128 = round(value * power, ONE);
    if shown >= 1000 {
        shown = 100;
        if p > 0 {
            p = p - 1;
        } else {
            p = 2;
            unit = unit + 1;
        }
    }
    push_fixed(&mut out, shown, p);
    out.append(" ");
    out.append(unit_text(unit));
    out
}

/// A size of at least a thousand bytes is shown with exactly three significant
/// digits, in a unit from KB to EB.
pub proof fn lemma_three_significant_digits(n: u64)
    requires
        n >= 1000,
    ensures
        ({
            let (v, unit) = scaled(nearest(n as nat * ONE as nat, 1), 0);
            let (shown, p, u) = three_digits(v, unit);
            &&& 100 <= shown <= 999
            &&& p <= 2
            &&& 1 <= u <= 6
            &&& bytes_text(n) == fixed(shown, p) + " "@ + unit_name(u)
        }),
{
    let a = n as nat * ONE as nat;
    lemma_nearest(a, 1);
    let v = nearest(a, 1);
    assert(1 * v == v);
    assert(v >= 1000 * ONE) by {
        lemma_exact_thousand(n as nat);
    }
    lemma_scaled(v, 0);
    let (w, unit) = scaled(v, 0);
    lemma_three_digits(w, unit);
}

/// Rounding to a double does not take a size below a thousand.
proof fn lemma_exact_thousand(n: nat)
    requires
        1000 <= n <= u64::MAX,
    ensures
        nearest(n * ONE as nat, 1) >= 1000 * ONE,
{
    let a = n * ONE as nat;
    lemma_nearest(a, 1);
    let step = crate::double::binade(a / 1 / ONE as nat);
    let v = nearest(a, 1);
    assert(a / 1 / ONE as nat == n);
    assert(2 * a <= 2 * v + step);
    assert(step * ONE <= a);
    if n >= 1001 {
        assert(2 * v >= 2 * a - step);
    } else {
        reveal_with_fuel(crate::double::binade, 11);
        assert(step == 512);
        assert(1000 * ONE as nat % 512 == 0);
        assert(v == 1000 * ONE);
    }
}

/// What scaling keeps.
proof fn lemma_scaled(v: nat, unit: int)
    requires
        ONE <= v <= ceiling(unit) * ONE,
        0 <= unit <= 6,
    ensures
        ({
            let (w, u) = scaled(v, unit);
            &&& unit <= u <= 6
            &&& ONE <= w < 1000 * ONE
            &&& w <= ceiling(u) * ONE
            &&& v >= 1000 * ONE && unit < 6 ==> unit < u
        }),
    decreases 6 - unit,
{
    if v >= 1000 * ONE && unit < 6 {
        lemma_nearest(v, 1000);
        lemma_scaled(nearest(v, 1000), unit + 1);
    }
}

/// `text` with a thin space before every group of three digits from the right.
pub open spec fn grouped(text: Seq<char>) -> Seq<char>
    decreases text.len(),
{
    if text.len() <= 3 {
        text
    } else {
        grouped(text.take(text.len() - 3)).push(THIN_SPACE) + text.skip(text.len() - 3)
    }
}

/// A count as it is shown.
pub open spec fn count_text(n: u64) -> Seq<char> {
    grouped(decimal(n as nat))
}

/// Appends `n` in decimal, in groups of three digits.
fn push_grouped(out: &mut String, n: u64)
    ensures
        final(out)@ == old(out)@ + grouped(decimal(n as nat)),
    decreases n,
{
    proof {
        lemma_decimal_split(n as nat);
    }
    if n < 1000 {
        push_decimal(out, n as u128);
    } else {
        let ghost start = out@;
        push_grouped(out, n / 1000);
        out.push(THIN_SPACE);
        let low: u64 = n % 1000;
        out.push(digit_char((low / 100) as u8));
        out.push(digit_char((low / 10 % 10) as u8));
        out.push(digit_char((low % 10) as u8));
        proof {
            let whole = decimal(n as nat);
            let head = decimal(n as nat / 1000);
            assert(whole.take(whole.len() - 3) == head);
            assert(out@ == start + (grouped(head).push(THIN_SPACE) + whole.skip(
                whole.len() - 3,
            )));
        }
    }
}

/// A number of at least a thousand ends in the digits of its last thousand.
proof fn lemma_decimal_split(n: nat)
    ensures
        decimal(n).len() >= 1,
        n < 1000 ==> decimal(n).len() <= 3,
        n >= 1000 ==> decimal(n) == decimal(n / 1000) + seq![
            digit((n % 1000 / 100) as int),
            digit((n % 1000 / 10 % 10) as int),
            digit((n % 10) as int),
        ],
{
    reveal_with_fuel(decimal, 4);
    if n >= 1000 {
        let a = n / 10;
        let b = a / 10;
        assert(b / 10 == n / 1000);
        assert(b % 10 == n % 1000 / 100);
        assert(a % 10 == n % 1000 / 10 % 10);
        assert(decimal(n) == decimal(a).push(digit((n % 10) as int)));
        assert(decimal(a) == decimal(b).push(digit((a % 10) as int)));
        assert(decimal(b) == decimal(b / 10).push(digit((b % 10) as int)));
        assert(decimal(n) == decimal(n / 1000) + seq![
            digit((n % 1000 / 100) as int),
            digit((n % 1000 / 10 % 10) as int),
            digit((n % 10) as int),
        ]);
    }
}

/// Formats a count with thin separators, for the "1 842 317 files" readout.
pub fn count(n: u64) -> (text: String)
    ensures
        text@ == count_text(n),
{
    let mut out = String::new();
    push_grouped(&mut out, n);
    assert(Seq::<char>::empty() + count_text(n) == count_text(n));
    out
}

/// "1 file" or "12 files".
pub open spec fn files_text(n: u64) -> Seq<char> {
    if n == 1 {
        "1 file"@
    } else {
        count_text(n) + " files"@
    }
}

/// "1 file" or "12 files". The singular matters: these land in a table where
/// "1 files" is the kind of thing a reader notices.
pub fn files(n: u64) -> (text: String)
    ensures
        text@ == files_text(n),
{
    if n == 1 {
        owned("1 file")
    } else {
        let mut out = count(n);
        out.append(" files");
        out
    }
}

/// A hundred times `part` over `whole` as a double, where that is at least one.
pub open spec fn hundredths(part: u64, total: u64) -> (nat, nat) {
    (whole(whole(part as nat) * 100), whole(total as nat))
}

/// A share as it is shown: to the percent from ten percent on, to a tenth of
/// it from one percent on, and below that only whether it is anything at all.
pub open spec fn percent_text(part: u64, total: u64) -> Seq<char> {
    let (p, w) = hundredths(part, total);
    if total == 0 {
        "\u{2014}"@
    } else if part == 0 {
        "0%"@
    } else if p < w {
        "<1%"@
    } else {
        let v = nearest(p * ONE as nat, w);
        if v >= 10 * ONE {
            decimal(half_even(v, ONE as nat)) + "%"@
        } else {
            fixed(half_even(v * 10, ONE as nat), 1) + "%"@
        }
    }
}

/// A share in percent.
pub fn percent(part: u64, whole: u64) -> (text: String)
    ensures
        text@ == percent_text(part, whole),
{
    if whole == 0 {
        return owned("\u{2014}");
    }
    if part == 0 {
        return owned("0%");
    }
    let p: u128 = to_whole(to_whole(part as u128) * 100);
    let w: u128 = to_whole(whole as u128);
    if p < w {
        return owned("<1%");
    }
    let mut out = String::new();
    assert forall|s: Seq<char>| #[trigger] (Seq::<char>::empty() + s) == s by {
        assert(Seq::<char>::empty() + s =~= s);
    }
    proof {
        assert(w * ONE <= p * ONE) by (nonlinear_arith)
            requires
                w <= p,
        ;
    }
    let v: u128 = to_double(p * ONE, w);
    if v >= 10 * ONE {
        push_decimal(&mut out, round(v, ONE));
    } else {
        push_fixed(&mut out, round(v * 10, ONE), 1);
    }
    out.append("%");
    out
}

/// Rate in bytes per second, for live scan progress; a dash while no time has
/// passed.
pub fn rate(per_second: Option<u64>) -> (text: String)
    ensures
        match per_second {
            None => text@ == "\u{2014}"@,
            Some(n) => text@ == bytes_text(n) + "/s"@,
        },
{
    match per_second {
        None => owned("\u{2014}"),
        Some(n) => {
            let mut out = bytes(n);
            out.append("/s");
            out
        },
    }
}

} // verus!
