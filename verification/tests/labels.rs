use sector::labels::{commas, decimal, human_size, padded_decimal};

#[test]
fn bytes_have_no_decimal() {
    assert_eq!(human_size(0), "0 B");
    assert_eq!(human_size(512), "512 B");
    assert_eq!(human_size(1023), "1023 B");
}

#[test]
fn kilobytes() {
    assert_eq!(human_size(1024), "1.0 KB");
    assert_eq!(human_size(1536), "1.5 KB");
}

#[test]
fn larger_units() {
    assert_eq!(human_size(1024u64.pow(2)), "1.0 MB");
    assert_eq!(human_size(1024u64.pow(3)), "1.0 GB");
    assert_eq!(human_size(3 * 1024u64.pow(4)), "3.0 TB");
}

#[test]
fn caps_at_terabytes() {
    // Petabyte-scale values still read in TB rather than overflowing units.
    assert_eq!(human_size(2 * 1024u64.pow(5)), "2048.0 TB");
}

/// The same size reckoned in floating point.
fn reckoned(bytes: u64) -> String {
    let units = ["B", "KB", "MB", "GB", "TB"];
    let mut size = bytes as f64;
    let mut unit = 0;
    while size >= 1024.0 && unit < units.len() - 1 {
        size /= 1024.0;
        unit += 1;
    }
    if unit == 0 {
        format!("{bytes} {}", units[0])
    } else {
        format!("{size:.1} {}", units[unit])
    }
}

#[test]
fn sizes_agree_with_floating_point() {
    let mut probes = vec![0, 1, 1023, 1024, 1025, 1280, 1792, 1075, 1076, 51_200, u64::MAX, u64::MAX - 1];
    for shift in 0..64u32 {
        for off in 0..6u64 {
            let p = 1u64 << shift;
            probes.push(p.wrapping_add(off));
            probes.push(p.wrapping_sub(off));
            probes.push(p.wrapping_mul(3).wrapping_add(off * 77));
            // Halves of a tenth, where rounding has to choose.
            probes.push((p / 20).wrapping_mul(2 * off + 1));
        }
    }
    let mut x: u64 = 0x9e37_79b9_7f4a_7c15;
    for i in 0..20_000u32 {
        x = x.wrapping_mul(6364136223846793005).wrapping_add(1442695040888963407);
        probes.push(x >> (i % 64));
    }
    for b in probes {
        assert_eq!(human_size(b), reckoned(b), "{b}");
    }
}

#[test]
fn ties_round_to_even() {
    assert_eq!(human_size(1280), "1.2 KB"); // 1.25
    assert_eq!(human_size(1792), "1.8 KB"); // 1.75
    assert_eq!(human_size(1024 * 1024 - 1), "1024.0 KB");
}

#[test]
fn digits_are_grouped_in_threes() {
    assert_eq!(commas(0), "0");
    assert_eq!(commas(999), "999");
    assert_eq!(commas(1000), "1,000");
    assert_eq!(commas(278_589), "278,589");
    assert_eq!(commas(u64::MAX), "18,446,744,073,709,551,615");
}

#[test]
fn decimals_match_the_standard_ones() {
    for n in [0u64, 7, 10, 99, 100, 12_345, u64::MAX] {
        assert_eq!(decimal(n), n.to_string());
        assert_eq!(padded_decimal(n, 4), format!("{n:04}"));
    }
}
