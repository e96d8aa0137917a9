use openprofiler::format::{
    format_bytes, format_count, format_duration_nano, format_signed_bytes, format_signed_count,
    short_method, truncate_middle,
};

fn float_bytes(bytes: u64) -> String {
    if bytes >= 1024 * 1024 {
        format!("{:.1} MB", bytes as f64 / 1024.0 / 1024.0)
    } else if bytes >= 1024 {
        format!("{} kB", format_count((bytes + 1023) / 1024))
    } else {
        format!("{} bytes", format_count(bytes))
    }
}

fn float_duration(nanos: u64) -> String {
    if nanos >= 60_000_000_000 {
        format!("{:.0} m", nanos as f64 / 60_000_000_000.0)
    } else if nanos >= 1_000_000_000 {
        format!("{:.0} s", nanos as f64 / 1_000_000_000.0)
    } else if nanos >= 1_000_000 {
        format!("{} ms", format_count(nanos / 1_000_000))
    } else if nanos >= 1_000 {
        format!("{} us", format_count(nanos / 1_000))
    } else {
        format!("{} ns", format_count(nanos))
    }
}

#[test]
fn counts_are_grouped_by_thousands() {
    assert_eq!(format_count(0), "0");
    assert_eq!(format_count(999), "999");
    assert_eq!(format_count(1000), "1,000");
    assert_eq!(format_count(1234567), "1,234,567");
    assert_eq!(format_count(u64::MAX), "18,446,744,073,709,551,615");
}

#[test]
fn signed_counts_carry_their_sign() {
    assert_eq!(format_signed_count(0), "+0");
    assert_eq!(format_signed_count(1234), "+1,234");
    assert_eq!(format_signed_count(-5), "-5");
    assert_eq!(format_signed_count(i64::MIN), "-9,223,372,036,854,775,808");
}

#[test]
fn bytes_in_each_unit() {
    assert_eq!(format_bytes(0), "0 bytes");
    assert_eq!(format_bytes(1023), "1,023 bytes");
    assert_eq!(format_bytes(1024), "1 kB");
    assert_eq!(format_bytes(1025), "2 kB");
    assert_eq!(format_bytes(1024 * 1024), "1.0 MB");
    assert_eq!(format_bytes(1572864), "1.5 MB");
    assert_eq!(format_signed_bytes(-2048), "-2 kB");
    assert_eq!(format_signed_bytes(10), "+10 bytes");
}

#[test]
fn bytes_match_float_formatting() {
    let mut samples: Vec<u64> = vec![
        1048576,
        1048577,
        1153433,
        1101004,
        1101005,
        1153434,
        157286,
        (1 << 53) + 1,
        (1 << 53) + 3,
        u64::MAX,
        u64::MAX - 1,
        12345678901234567,
        9007199254740993,
    ];
    let mut x: u64 = 0x9E3779B97F4A7C15;
    for _ in 0..20000 {
        x ^= x << 13;
        x ^= x >> 7;
        x ^= x << 17;
        samples.push(x >> (x % 64));
        samples.push(1048576 + (x % 100_000_000));
    }
    for b in samples {
        assert_eq!(format_bytes(b), float_bytes(b), "bytes {}", b);
    }
}

#[test]
fn durations_in_each_unit() {
    assert_eq!(format_duration_nano(999), "999 ns");
    assert_eq!(format_duration_nano(1_000), "1 us");
    assert_eq!(format_duration_nano(1_500_000), "1 ms");
    assert_eq!(format_duration_nano(1_000_000_000), "1 s");
    assert_eq!(format_duration_nano(1_500_000_000), "2 s");
    assert_eq!(format_duration_nano(2_500_000_000), "2 s");
    assert_eq!(format_duration_nano(90_000_000_000), "2 m");
    assert_eq!(format_duration_nano(150_000_000_000), "2 m");
}

#[test]
fn durations_match_float_formatting() {
    let mut samples: Vec<u64> = vec![
        59_999_999_999,
        60_000_000_000,
        89_999_999_999,
        90_000_000_000,
        u64::MAX,
        1_499_999_999,
        1_500_000_000,
    ];
    let mut x: u64 = 0xD1B54A32D192ED03;
    for _ in 0..20000 {
        x ^= x << 13;
        x ^= x >> 7;
        x ^= x << 17;
        samples.push(x >> (x % 64));
        samples.push(1_000_000_000 + (x % 1_000_000_000_000));
    }
    for n in samples {
        assert_eq!(format_duration_nano(n), float_duration(n), "nanos {}", n);
    }
}

#[test]
fn short_method_keeps_last_two_parts() {
    assert_eq!(short_method("com.example.Service.run"), "Service.run");
    assert_eq!(short_method("a/b/c.d.e"), "d.e");
    assert_eq!(short_method("run"), "run");
    assert_eq!(short_method("x.y"), "x.y");
}

#[test]
fn truncate_middle_shortens_long_text() {
    assert_eq!(truncate_middle("hello", 10), "hello");
    assert_eq!(truncate_middle("abcdefghij", 7), "abc...j");
    assert_eq!(truncate_middle("abcdefghij", 2), "a...");
    assert_eq!(truncate_middle("héllo wörld", 8).chars().count(), 8);
}

#[test]
fn format_count_groups_digits_in_threes() {
    for v in [0u64, 7, 999, 1000, 12345, 1234567, u64::MAX] {
        let s = format_count(v);
        assert_eq!(s.replace(',', ""), v.to_string());
        let groups: Vec<&str> = s.split(',').collect();
        assert!(!groups[0].is_empty() && groups[0].len() <= 3);
        assert!(groups[1..].iter().all(|g| g.len() == 3));
    }
    assert_eq!(format_count(1234567), "1,234,567");
}
