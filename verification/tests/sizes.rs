use fdedupe::tui::{fmt_size, truncate_path};

fn by_floats(bytes: i64) -> String {
    const KB: f64 = 1024.0;
    const MB: f64 = KB * 1024.0;
    const GB: f64 = MB * 1024.0;
    let b = bytes as f64;
    if b >= GB {
        format!("{:.1} GB", b / GB)
    } else if b >= MB {
        format!("{:.1} MB", b / MB)
    } else if b >= KB {
        format!("{:.1} KB", b / KB)
    } else {
        format!("{} B", bytes)
    }
}

#[test]
fn sizes_below_one_kilobyte_are_whole_bytes() {
    assert_eq!(fmt_size(0), "0 B");
    assert_eq!(fmt_size(12), "12 B");
    assert_eq!(fmt_size(1023), "1023 B");
    assert_eq!(fmt_size(-5), "-5 B");
    assert_eq!(fmt_size(i64::MIN), "-9223372036854775808 B");
}

#[test]
fn sizes_from_one_kilobyte_have_one_decimal() {
    assert_eq!(fmt_size(1024), "1.0 KB");
    assert_eq!(fmt_size(1536), "1.5 KB");
    assert_eq!(fmt_size(131072), "128.0 KB");
    assert_eq!(fmt_size(262210), "256.1 KB");
    assert_eq!(fmt_size(1048576), "1.0 MB");
    assert_eq!(fmt_size(1073741824), "1.0 GB");
    assert_eq!(fmt_size(1288490189), "1.2 GB");
}

#[test]
fn ties_go_to_the_even_digit() {
    assert_eq!(fmt_size(1280), "1.2 KB");
    assert_eq!(fmt_size(1792), "1.8 KB");
    assert_eq!(fmt_size(1280), by_floats(1280));
    assert_eq!(fmt_size(1792), by_floats(1792));
}

#[test]
fn a_size_just_below_a_unit_rounds_up_within_the_smaller_unit() {
    assert_eq!(fmt_size(1048575), "1024.0 KB");
    assert_eq!(fmt_size(1073741823), "1024.0 MB");
}

#[test]
fn sizes_agree_with_floating_point_formatting() {
    let mut samples: Vec<i64> = vec![
        0, 1, 999, 1023, 1024, 1025, 1075, 1076, 1126, 1127, 1128, 1279, 1280, 1281, 1791, 1792,
        1793, 10239, 10240, 65536, 131072, 262210, 1048575, 1048576, 1048577, 1100000, 1073741823,
        1073741824, 1073741825, 5000000000, 123456789012, 9007199254740991, 9007199254740992,
        9007199254740993, 9007199254740994, 9007199254740995, 18014398509481983,
        18014398509481985, 36028797018963967, 4611686018427387903, 4611686018427387904,
        9223372036854775295, 9223372036854775296, 9223372036854775806, i64::MAX, -1, -1024,
        -1048576, i64::MIN,
    ];
    let mut x: i64 = 7;
    for _ in 0..2000 {
        x = x.wrapping_mul(6364136223846793005).wrapping_add(1442695040888963407);
        samples.push(x);
        samples.push((x >> 20).abs());
        samples.push((x >> 33).abs());
        samples.push((x >> 45).abs());
    }
    for k in 0..4096i64 {
        samples.push(1024 + k);
        samples.push(1048576 + k * 256);
        samples.push(1073741824 + k * 262144);
    }
    for bytes in samples {
        assert_eq!(fmt_size(bytes), by_floats(bytes), "for {}", bytes);
    }
}

#[test]
fn a_path_that_does_not_fit_keeps_its_end() {
    assert_eq!(truncate_path("/r/alpha/nested", 40), "/r/alpha/nested");
    assert_eq!(truncate_path("/r/alpha/nested", 15), "/r/alpha/nested");
    assert_eq!(truncate_path("/r/alpha/nested", 14), "...lpha/nested");
    assert_eq!(truncate_path("/r/alpha/nested", 10), ".../nested");
    assert_eq!(truncate_path("/r/alpha/nested", 4), "...d");
    assert_eq!(truncate_path("/r/alpha/nested", 3), "ted");
    assert_eq!(truncate_path("/r/alpha/nested", 1), "d");
    assert_eq!(truncate_path("/r/alpha/nested", 0), "");
    assert_eq!(truncate_path("", 0), "");
    assert_eq!(truncate_path("/é/üü", 4), "...ü");
    assert_eq!(truncate_path("/é/üü", 5), "/é/üü");
    for width in 0..20 {
        assert!(truncate_path("/r/alpha/nested", width).chars().count() <= width);
    }
}
