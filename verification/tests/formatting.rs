use ars_dl::utils::{format_bytes, format_duration};

fn float_bytes(b: u64) -> String {
    let b = b as f64;
    if b < 1_000.0 {
        format!("{:.0}B", b)
    } else if b < 1_000_000.0 {
        format!("{:.1}KB", b / 1_000.0)
    } else if b < 1_000_000_000.0 {
        format!("{:.1}MB", b / 1_000_000.0)
    } else {
        format!("{:.2}GB", b / 1_000_000_000.0)
    }
}

fn check_range(from: u64, to: u64, step: u64) {
    let mut b = from;
    while b <= to {
        assert_eq!(format_bytes(b), float_bytes(b), "bytes {}", b);
        match b.checked_add(step) {
            Some(n) => b = n,
            None => break,
        }
    }
}

#[test]
fn format_bytes_examples() {
    assert_eq!(format_bytes(0), "0B");
    assert_eq!(format_bytes(999), "999B");
    assert_eq!(format_bytes(1000), "1.0KB");
    assert_eq!(format_bytes(1500), "1.5KB");
    assert_eq!(format_bytes(62_500_000), "62.5MB");
    assert_eq!(format_bytes(328_000_000), "328.0MB");
    assert_eq!(format_bytes(999_999), "1000.0KB");
    assert_eq!(format_bytes(1_000_000_000), "1.00GB");
    assert_eq!(format_bytes(1_250_000_000), "1.25GB");
}

#[test]
fn format_bytes_matches_binary64_small() {
    check_range(0, 20_000, 1);
}

#[test]
fn format_bytes_matches_binary64_ties() {
    // values whose exact quotient lies halfway between two printed values
    for k in 0..20_000u64 {
        let kb = 1_000 + 100 * k + 50;
        if kb < 1_000_000 {
            assert_eq!(format_bytes(kb), float_bytes(kb), "bytes {}", kb);
        }
        let mb = 1_000_000 + 100_000 * k + 50_000;
        assert_eq!(format_bytes(mb), float_bytes(mb), "bytes {}", mb);
        let gb = 1_000_000_000 + 10_000_000 * k + 5_000_000;
        assert_eq!(format_bytes(gb), float_bytes(gb), "bytes {}", gb);
    }
}

#[test]
fn format_bytes_matches_binary64_wide() {
    let mut x: u64 = 0x9E37_79B9_7F4A_7C15;
    for _ in 0..200_000 {
        x ^= x << 13;
        x ^= x >> 7;
        x ^= x << 17;
        let shift = (x % 64) as u32;
        let b = x >> shift;
        assert_eq!(format_bytes(b), float_bytes(b), "bytes {}", b);
    }
    for b in [
        (1u64 << 53) - 1,
        1u64 << 53,
        (1u64 << 53) + 1,
        (1u64 << 54) + 3,
        u64::MAX,
        u64::MAX - 1,
        999_999_999,
        999_995_000,
        999_994_999,
        9_999_995_000_000,
    ] {
        assert_eq!(format_bytes(b), float_bytes(b), "bytes {}", b);
    }
}

#[test]
fn format_duration_examples() {
    assert_eq!(format_duration(0), "0s");
    assert_eq!(format_duration(59), "59s");
    assert_eq!(format_duration(60), "1m0s");
    assert_eq!(format_duration(154), "2m34s");
    assert_eq!(format_duration(3599), "59m59s");
    assert_eq!(format_duration(3600), "1h0m0s");
    assert_eq!(format_duration(3723), "1h2m3s");
    assert_eq!(format_duration(u64::MAX), "5124095576030431h0m15s");
}
