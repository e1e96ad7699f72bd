use diskscope::fmt::{bytes, count, files, percent, rate};

#[test]
fn sizes_read_like_the_finder() {
    assert_eq!(bytes(0), "0 bytes");
    assert_eq!(bytes(999), "999 bytes");
    assert_eq!(bytes(1000), "1.00 KB");
    assert_eq!(bytes(1_500_000), "1.50 MB");
    assert_eq!(bytes(412_000_000_000), "412 GB");
    assert_eq!(bytes(u64::MAX), "18.4 EB");
}

#[test]
fn counts_are_grouped() {
    assert_eq!(count(0), "0");
    assert_eq!(count(999), "999");
    assert_eq!(count(1_842_317), "1\u{202f}842\u{202f}317");
}

#[test]
fn file_counts_are_singular_when_they_should_be() {
    assert_eq!(files(0), "0 files");
    assert_eq!(files(1), "1 file");
    assert_eq!(files(2), "2 files");
}

#[test]
fn percentages_degrade_gracefully() {
    assert_eq!(percent(1, 0), "—");
    assert_eq!(percent(0, 100), "0%");
    assert_eq!(percent(1, 1000), "<1%");
    assert_eq!(percent(55, 1000), "5.5%");
    assert_eq!(percent(550, 1000), "55%");
}

/// The value and unit a size would be shown with in double precision.
fn scaled(n: u64) -> (f64, usize) {
    let mut value = n as f64;
    let mut unit = 0;
    while value >= 1000.0 && unit < 6 {
        value /= 1000.0;
        unit += 1;
    }
    (value, unit)
}

/// A spread of numbers over all magnitudes, ties and neighbours of powers among
/// them.
fn spread() -> Vec<u64> {
    let mut out = Vec::new();
    let mut seed: u64 = 0x9e37_79b9_7f4a_7c15;
    for i in 0..20_000u64 {
        seed = seed.wrapping_mul(6_364_136_223_846_793_005).wrapping_add(1_442_695_040_888_963_407);
        out.push(seed >> (i % 64));
    }
    for k in 1000..20_000u64 {
        out.push(k);
        out.push(k * 1000 + 5);
        out.push(k * 500);
        out.push(k * 125_000);
    }
    let mut p: u64 = 1;
    for _ in 0..19 {
        for d in 0..12u64 {
            out.push(p.saturating_sub(d));
            out.push(p.saturating_add(d));
            out.push((p * 9).saturating_add(p - 1 - p / 1000 * d));
        }
        p *= 10;
    }
    for s in 52..64u32 {
        for d in 0..5u64 {
            out.push((1u64 << s) + d);
            out.push((1u64 << s) - d);
        }
    }
    out
}

#[test]
fn sizes_round_as_doubles_do() {
    const UNITS: [&str; 7] = ["bytes", "KB", "MB", "GB", "TB", "PB", "EB"];
    for n in spread() {
        if n < 1000 {
            assert_eq!(bytes(n), format!("{n} bytes"));
            continue;
        }
        let (value, unit) = scaled(n);
        let decimals = if value < 10.0 {
            2
        } else if value < 100.0 {
            1
        } else {
            0
        };
        let text = format!("{value:.decimals$}");
        let digits = text.chars().filter(|c| c.is_ascii_digit()).count();
        if digits == 3 {
            assert_eq!(bytes(n), format!("{text} {}", UNITS[unit]), "{n}");
        }
    }
}

#[test]
fn a_fourth_digit_is_carried() {
    assert_eq!(bytes(9_994), "9.99 KB");
    assert_eq!(bytes(9_999), "10.0 KB");
    assert_eq!(bytes(99_949), "99.9 KB");
    assert_eq!(bytes(99_999), "100 KB");
    assert_eq!(bytes(999_499), "999 KB");
    assert_eq!(bytes(999_999), "1.00 MB");
    assert_eq!(bytes(999_999_999_999), "1.00 TB");
}

#[test]
fn every_large_size_has_three_significant_digits() {
    for n in spread() {
        if n >= 1000 {
            let text = bytes(n);
            let digits = text.chars().filter(|c| c.is_ascii_digit()).count();
            assert_eq!(digits, 3, "{n}: {text}");
        }
    }
}

#[test]
fn shares_round_as_doubles_do() {
    let numbers = spread();
    for (i, &part) in numbers.iter().enumerate() {
        let whole = numbers[(i * 7919 + 13) % numbers.len()];
        if whole == 0 {
            assert_eq!(percent(part, whole), "—");
            continue;
        }
        let p = part as f64 * 100.0 / whole as f64;
        let expected = if p >= 10.0 {
            format!("{p:.0}%")
        } else if p >= 1.0 {
            format!("{p:.1}%")
        } else if p > 0.0 {
            "<1%".to_string()
        } else {
            "0%".to_string()
        };
        assert_eq!(percent(part, whole), expected, "{part} of {whole}");
    }
}

#[test]
fn shares_close_to_the_thresholds_round_as_doubles_do() {
    for whole in [7u64, 1000, 1001, 3_000_000_007, (1 << 53) + 1, u64::MAX - 1] {
        for target in [1u64, 10] {
            let near = (whole as u128 * target as u128 / 100) as u64;
            for d in 0..6u64 {
                for part in [near.saturating_sub(d), near.saturating_add(d)] {
                    let p = part as f64 * 100.0 / whole as f64;
                    let expected = if p >= 10.0 {
                        format!("{p:.0}%")
                    } else if p >= 1.0 {
                        format!("{p:.1}%")
                    } else if p > 0.0 {
                        "<1%".to_string()
                    } else {
                        "0%".to_string()
                    };
                    assert_eq!(percent(part, whole), expected, "{part} of {whole}");
                }
            }
        }
    }
}

#[test]
fn large_counts_are_grouped_to_the_end() {
    assert_eq!(count(1000), "1\u{202f}000");
    assert_eq!(count(1_000_007), "1\u{202f}000\u{202f}007");
    assert_eq!(
        count(u64::MAX),
        "18\u{202f}446\u{202f}744\u{202f}073\u{202f}709\u{202f}551\u{202f}615"
    );
    assert_eq!(files(1_842_317), "1\u{202f}842\u{202f}317 files");
}

#[test]
fn a_rate_needs_time_to_have_passed() {
    assert_eq!(rate(None), "—");
    assert_eq!(rate(Some(999)), "999 bytes/s");
    assert_eq!(rate(Some(1_500_000)), "1.50 MB/s");
}
