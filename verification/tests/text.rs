use rcli::modified::render_mtime;
use rcli::{html_escape, human_size, ModTime};

#[test]
fn test_html_escape() {
    assert_eq!(html_escape("plain"), "plain");
    assert_eq!(html_escape("<script>"), "&lt;script&gt;");
    assert_eq!(html_escape("a & b"), "a &amp; b");
    assert_eq!(html_escape("\"quoted\""), "&quot;quoted&quot;");
    assert_eq!(html_escape("it's"), "it&#39;s");
    assert_eq!(html_escape("a<>\"'&b"), "a&lt;&gt;&quot;&#39;&amp;b");
}

#[test]
fn html_escape_keeps_other_characters() {
    assert_eq!(html_escape(""), "");
    assert_eq!(html_escape("größe — 文件 🦀"), "größe — 文件 🦀");
}

#[test]
fn html_escape_works_in_pieces() {
    let parts = ["a<b", "", "&amp;", "\"x'"];
    let mut whole = String::new();
    let mut joined = String::new();
    for part in parts {
        whole.push_str(part);
        joined.push_str(&html_escape(part));
    }
    assert_eq!(html_escape(&whole), joined);
}

#[test]
fn html_escape_tells_texts_apart() {
    assert_ne!(html_escape("&lt;"), html_escape("<"));
    assert_eq!(html_escape("&lt;"), "&amp;lt;");
}

#[test]
fn html_escape_leaves_no_markup() {
    let out = html_escape("<a href=\"x\" title='y'>&</a>");
    assert!(!out.contains(|c| c == '<' || c == '>' || c == '"' || c == '\''));
}

#[test]
fn test_human_size() {
    assert_eq!(human_size(0), "0 B");
    assert_eq!(human_size(512), "512 B");
    assert_eq!(human_size(1023), "1023 B");
    assert_eq!(human_size(1024), "1.00 KiB");
    assert_eq!(human_size(1536), "1.50 KiB");
    assert_eq!(human_size(1024 * 1024), "1.00 MiB");
    assert_eq!(human_size(1024u64.pow(3)), "1.00 GiB");
    assert_eq!(human_size(1024u64.pow(4)), "1.00 TiB");
    assert_eq!(human_size(1024u64.pow(5)), "1.00 PiB");
    assert_eq!(human_size(1024u64.pow(6)), "1024.00 PiB");
}

#[test]
fn human_size_rounds_ties_to_even() {
    assert_eq!(human_size(1024 + 128), "1.12 KiB");
    assert_eq!(human_size(1024 + 384), "1.38 KiB");
    assert_eq!(human_size(1024 + 640), "1.62 KiB");
    assert_eq!(human_size(1024 + 896), "1.88 KiB");
}

#[test]
fn human_size_edges() {
    assert_eq!(human_size(1024 * 1024 - 1), "1024.00 KiB");
    assert_eq!(human_size(u64::MAX), "16384.00 PiB");
}

fn float_size(bytes: u64) -> String {
    let units = ["B", "KiB", "MiB", "GiB", "TiB", "PiB"];
    let mut value = bytes as f64;
    let mut idx = 0;
    while value >= 1024.0 && idx < units.len() - 1 {
        value /= 1024.0;
        idx += 1;
    }
    if idx == 0 {
        format!("{} B", bytes)
    } else {
        format!("{:.2} {}", value, units[idx])
    }
}

#[test]
fn human_size_agrees_with_double_precision() {
    for bytes in 0..70_000u64 {
        assert_eq!(human_size(bytes), float_size(bytes));
    }
    for shift in 10..64u32 {
        let base = 1u64 << shift;
        for delta in 0..300u64 {
            assert_eq!(human_size(base - delta), float_size(base - delta));
            assert_eq!(human_size(base + delta), float_size(base + delta));
        }
    }
    // Around the middle between two hundredths, where rounding decides.
    for odd in 0..200_000u64 {
        let middle = (1u64 << 47) * (2 * (odd % 65_000) + 1);
        for near in [middle - 1025, middle - 1024, middle - 1, middle, middle + 1, middle + 1024] {
            assert_eq!(human_size(near), float_size(near));
        }
    }
    let mut seed = 0x9e37_79b9_7f4a_7c15u64;
    for i in 0..200_000u32 {
        seed ^= seed << 13;
        seed ^= seed >> 7;
        seed ^= seed << 17;
        let bytes = seed >> (i % 64);
        assert_eq!(human_size(bytes), float_size(bytes));
    }
}

#[test]
fn mtime_is_shown_in_utc() {
    let at = |secs: u64| render_mtime(Some(ModTime::SinceEpoch(secs)));
    assert_eq!(at(0), "1970-01-01 00:00:00 UTC");
    assert_eq!(at(951_782_399), "2000-02-28 23:59:59 UTC");
    assert_eq!(at(951_782_400), "2000-02-29 00:00:00 UTC");
    assert_eq!(at(1_431_648_000), "2015-05-15 00:00:00 UTC");
    assert_eq!(at(4_107_542_400), "2100-03-01 00:00:00 UTC");
}

#[test]
fn mtime_far_away() {
    let at = |secs: u64| render_mtime(Some(ModTime::SinceEpoch(secs)));
    assert_eq!(at(253_402_300_799), "9999-12-31 23:59:59 UTC");
    assert_eq!(at(253_402_300_800), "+10000-01-01 00:00:00 UTC");
    assert_eq!(at(8_210_266_876_799), "+262142-12-31 23:59:59 UTC");
    assert_eq!(at(8_210_266_876_800), "—");
    assert_eq!(at(u64::MAX), "1969-12-31 23:59:59 UTC");
    assert_eq!(at(1u64 << 63), "—");
    assert_eq!(at(0u64.wrapping_sub(62_167_219_201)), "-0001-12-31 23:59:59 UTC");
    assert_eq!(at(0u64.wrapping_sub(62_167_219_200)), "0000-01-01 00:00:00 UTC");
    assert_eq!(at(0u64.wrapping_sub(8_334_601_228_800)), "-262143-01-01 00:00:00 UTC");
    assert_eq!(at(0u64.wrapping_sub(8_334_601_228_801)), "—");
}

#[test]
fn mtime_unknown_is_a_dash() {
    assert_eq!(render_mtime(None), "—");
    assert_eq!(render_mtime(Some(ModTime::BeforeEpoch)), "—");
}
