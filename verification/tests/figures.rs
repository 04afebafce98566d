use heap_analyzer::figures::{fmt_bytes, megabytes, pct};

/// A reproducible stream of numbers of all magnitudes.
fn samples(seed: u64, n: usize) -> Vec<u64> {
    let mut x = seed;
    let mut out = Vec::new();
    for i in 0..n {
        x = x
            .wrapping_mul(6364136223846793005)
            .wrapping_add(1442695040888963407);
        out.push((x ^ (x >> 29)) >> (i % 64));
    }
    out
}

fn double_pct(n: u64, total: u64) -> String {
    format!("{:.1}%", (n as f64 / total as f64) * 100.0)
}

#[test]
fn bytes_below_a_kilobyte_are_exact() {
    assert_eq!(fmt_bytes(0), "0 B");
    assert_eq!(fmt_bytes(1), "1 B");
    assert_eq!(fmt_bytes(1023), "1023 B");
}

#[test]
fn kilobytes_round_half_to_even() {
    assert_eq!(fmt_bytes(1024), "1 kB");
    assert_eq!(fmt_bytes(1536), "2 kB");
    assert_eq!(fmt_bytes(2560), "2 kB");
    assert_eq!(fmt_bytes(2561), "3 kB");
    assert_eq!(fmt_bytes(1048575), "1024 kB");
}

#[test]
fn megabytes_have_one_decimal() {
    assert_eq!(fmt_bytes(1048576), "1.0 MB");
    assert_eq!(fmt_bytes(10 * 1048576), "10.0 MB");
    assert_eq!(fmt_bytes(1048576 + 262144), "1.2 MB");
    assert_eq!(fmt_bytes(1048576 + 786432), "1.8 MB");
    assert_eq!(fmt_bytes(u64::MAX), "17592186044416.0 MB");
    assert_eq!(megabytes(0), "0.0");
    assert_eq!(megabytes(52429), "0.1");
}

#[test]
fn sizes_agree_with_double_arithmetic() {
    for b in samples(1, 40000) {
        let shown = format!("{:.1}", b as f64 / 1_048_576.0);
        assert_eq!(megabytes(b), shown, "{b}");
        if b >= 1_048_576 {
            assert_eq!(fmt_bytes(b), format!("{shown} MB"), "{b}");
        } else if b >= 1024 {
            assert_eq!(fmt_bytes(b), format!("{:.0} kB", b as f64 / 1024.0), "{b}");
        } else {
            assert_eq!(fmt_bytes(b), format!("{b} B"));
        }
    }
    for b in 0..20000u64 {
        let near = b * 52429 / 2;
        assert_eq!(megabytes(near), format!("{:.1}", near as f64 / 1_048_576.0));
    }
    for b in 1024..30000u64 {
        assert_eq!(fmt_bytes(b), format!("{:.0} kB", b as f64 / 1024.0));
    }
}

#[test]
fn share_of_nothing_is_zero() {
    assert_eq!(pct(0, 0), "0.0%");
    assert_eq!(pct(5, 0), "0.0%");
    assert_eq!(pct(0, 9), "0.0%");
}

#[test]
fn shares_have_one_decimal() {
    assert_eq!(pct(1, 3), "33.3%");
    assert_eq!(pct(2, 3), "66.7%");
    assert_eq!(pct(1, 8), "12.5%");
    assert_eq!(pct(1, 16), "6.2%");
    assert_eq!(pct(3, 16), "18.8%");
    assert_eq!(pct(1, u64::MAX), "0.0%");
    assert_eq!(pct(u64::MAX, 1), "1844674407370955161600.0%");
}

#[test]
fn the_whole_is_a_hundred_per_cent() {
    for n in samples(7, 2000) {
        if n > 0 {
            assert_eq!(pct(n, n), "100.0%");
        }
    }
}

#[test]
fn shares_agree_with_double_arithmetic() {
    let a = samples(11, 60000);
    let b = samples(23, 60000);
    for i in 0..a.len() {
        let t = b[(i * 17) % b.len()];
        if t > 0 {
            assert_eq!(pct(a[i], t), double_pct(a[i], t), "{} of {}", a[i], t);
        }
    }
    for t in 1..400u64 {
        for n in 0..=t {
            assert_eq!(pct(n, t), double_pct(n, t), "{n} of {t}");
        }
    }
}

/// How much a written size stands for, in tenths of a byte.
fn byte_tenths(text: &str) -> u128 {
    let (number, unit) = text.split_once(' ').unwrap();
    let digits: u128 = number.replace('.', "").parse().unwrap();
    match unit {
        "B" => digits * 10,
        "kB" => digits * 10240,
        _ => digits * 1048576,
    }
}

/// The tenths of a written share.
fn share_tenths(text: &str) -> u128 {
    text.replace(['.', '%'], "").parse().unwrap()
}

#[test]
fn more_bytes_are_never_shown_as_less() {
    assert_eq!(byte_tenths(&fmt_bytes(1023)), 10230);
    assert_eq!(byte_tenths(&fmt_bytes(1024)), 10240);
    assert_eq!(byte_tenths(&fmt_bytes(1048575)), 10485760);
    assert_eq!(byte_tenths(&fmt_bytes(1048576)), 10485760);
    let mut sizes = samples(31, 40000);
    sizes.extend(0..4096);
    sizes.extend(1048576 - 2048..1048576 + 2048);
    sizes.sort();
    for i in 1..sizes.len() {
        let less = byte_tenths(&fmt_bytes(sizes[i - 1]));
        assert!(less <= byte_tenths(&fmt_bytes(sizes[i])), "{}", sizes[i]);
    }
}

#[test]
fn a_greater_part_is_never_a_smaller_share() {
    let mut parts = samples(37, 600);
    parts.sort();
    for total in samples(41, 300) {
        for i in 1..parts.len() {
            let less = share_tenths(&pct(parts[i - 1], total));
            assert!(less <= share_tenths(&pct(parts[i], total)), "{}", parts[i]);
        }
    }
}

#[test]
fn doubling_both_leaves_the_share() {
    assert_eq!(pct(2, 6), pct(1, 3));
    assert_eq!(pct(10, 0), pct(5, 0));
    let parts = samples(43, 20000);
    let totals = samples(47, 20000);
    for i in 0..parts.len() {
        let n = parts[i] / 2;
        let total = totals[(i * 13) % totals.len()] / 2;
        assert_eq!(pct(2 * n, 2 * total), pct(n, total), "{n} of {total}");
    }
}
