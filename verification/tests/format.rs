use costree::format::{human_size, now_unix, relative_time_text};
use costree::text::{decimal_text, has_char, str_contains, trim_text, white_space};

/// The size text as floating-point division and `{:.1}` formatting give it.
fn float_size(bytes: u64) -> String {
    let units = ["B", "KB", "MB", "GB", "TB", "PB"];
    let mut size = bytes as f64;
    let mut unit = 0;
    while size >= 1024.0 && unit < units.len() - 1 {
        size /= 1024.0;
        unit += 1;
    }
    if unit == 0 {
        format!("{bytes} {}", units[unit])
    } else {
        format!("{size:.1} {}", units[unit])
    }
}

#[test]
fn human_size_exact_values() {
    assert_eq!(human_size(1023), "1023 B");
    assert_eq!(human_size(1280), "1.2 KB"); // 1.25 rounds to the even digit
    assert_eq!(human_size(1792), "1.8 KB"); // 1.75 rounds to the even digit
    assert_eq!(human_size(1075), "1.0 KB"); // 1.0498...
    assert_eq!(human_size(1076), "1.1 KB"); // 1.0507...
    assert_eq!(human_size(1024 * 1023), "1023.0 KB");
    assert_eq!(human_size(1048575), "1024.0 KB");
    assert_eq!(human_size(1024u64.pow(4)), "1.0 TB");
    assert_eq!(human_size(1024u64.pow(5)), "1.0 PB");
    assert_eq!(human_size(1024u64.pow(5) * 2048), "2048.0 PB");
    assert_eq!(human_size(u64::MAX), "16384.0 PB");
}

#[test]
fn human_size_matches_float_formatting() {
    let mut values: Vec<u64> = Vec::new();
    for k in 0..6u32 {
        let scale = 1024u64.pow(k);
        for m in [1u64, 2, 3, 5, 7, 10, 99, 100, 511, 512, 1000, 1023] {
            for tenths in 0..40u64 {
                let base = scale.saturating_mul(m);
                values.push(base.saturating_add(scale / 40 * tenths));
                values.push(base.saturating_add(scale / 20 * tenths));
                values.push(base.saturating_add(scale / 20 * tenths).saturating_sub(1));
                values.push(base.saturating_add(scale / 20 * tenths).saturating_add(1));
            }
        }
    }
    let mut x: u64 = 0x9e37_79b9_7f4a_7c15;
    for _ in 0..20000 {
        x ^= x << 13;
        x ^= x >> 7;
        x ^= x << 17;
        values.push(x >> (x % 64));
    }
    values.push(u64::MAX);
    values.push((1u64 << 53) + 1);
    values.push((1u64 << 54) + 3);
    for v in values {
        assert_eq!(human_size(v), float_size(v), "bytes = {v}");
    }
}

#[test]
fn relative_time_text_buckets() {
    assert_eq!(relative_time_text(1000, 1000), "just now");
    assert_eq!(relative_time_text(1059, 1000), "just now");
    assert_eq!(relative_time_text(1060, 1000), "1m ago");
    assert_eq!(relative_time_text(1000 + 3599, 1000), "59m ago");
    assert_eq!(relative_time_text(1000 + 3600, 1000), "1h ago");
    assert_eq!(relative_time_text(1000 + 86399, 1000), "23h ago");
    assert_eq!(relative_time_text(1000 + 86400, 1000), "1d ago");
    assert_eq!(relative_time_text(1000 + 86400 * 400, 1000), "400d ago");
    // A timestamp in the future counts as no time at all.
    assert_eq!(relative_time_text(1000, 5000), "just now");
    assert_eq!(relative_time_text(u64::MAX, 0), "213503982334601d ago");
}

#[test]
fn now_unix_reads_the_clock() {
    let before = std::time::SystemTime::now()
        .duration_since(std::time::UNIX_EPOCH)
        .unwrap()
        .as_secs();
    let now = now_unix();
    assert!(now >= before);
    assert!(now <= before + 5);
}

#[test]
fn text_helpers() {
    assert_eq!(decimal_text(0), "0");
    assert_eq!(decimal_text(1234567890), "1234567890");
    assert_eq!(decimal_text(u64::MAX), "18446744073709551615");
    assert_eq!(trim_text("  a b \t\n"), "a b");
    assert_eq!(trim_text("   "), "");
    assert_eq!(trim_text("\u{3000}x\u{a0}"), "x");
    assert!(str_contains("target.txt", "get"));
    assert!(str_contains("target.txt", ""));
    assert!(!str_contains("target.txt", "nope"));
    assert!(has_char("a/b", '/'));
    assert!(!has_char("ab", '/'));
}

#[test]
fn white_space_agrees_with_char_is_whitespace() {
    for u in 0..0x11_0000u32 {
        if let Some(c) = char::from_u32(u) {
            assert_eq!(white_space(c), c.is_whitespace(), "U+{u:04X}");
        }
    }
}

#[test]
fn trim_text_agrees_with_str_trim() {
    for s in ["", " ", "a", " a ", "\t\na b\r\n", "\u{2003}x\u{2028}", "x\u{200b}"] {
        assert_eq!(trim_text(s), s.trim());
    }
}
