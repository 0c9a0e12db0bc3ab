//! Quantities as they are shown.

use filesync::calendar::{civil_from_days, timestamp_utc};
use filesync::number::{parse_i32, parse_unsigned};
use filesync::progress;
use filesync::text::{contains_text, split_words, trim};
use filesync::units;

#[test]
fn bytes_use_one_uniform_style() {
    assert_eq!(units::human_bytes(0), "0 B");
    assert_eq!(units::human_bytes(512), "512 B");
    assert_eq!(units::human_bytes(8 << 10), "8.0 KiB");
    assert_eq!(units::human_bytes(5 << 20), "5.0 MiB");
    assert_eq!(units::human_bytes(3 << 30), "3.0 GiB");
}

#[test]
fn signed_bytes_carry_their_sign() {
    assert_eq!(units::signed_bytes(4 << 20), "+4.0 MiB");
    assert_eq!(units::signed_bytes(-(3 << 10)), "-3.0 KiB");
}

#[test]
fn units_elapsed_is_humanized() {
    assert_eq!(units::human_elapsed(45), "45s");
    assert_eq!(units::human_elapsed(125), "2m5s");
    assert_eq!(units::human_elapsed(3700), "1h1m");
}

#[test]
fn bytes_are_humanized() {
    assert_eq!(progress::human_bytes(512), "512 bytes");
    assert_eq!(progress::human_bytes(8 << 10), "8 KiB");
    assert_eq!(progress::human_bytes(5 << 20), "5.0 MiB");
    assert_eq!(progress::human_bytes(3 << 30), "3.0 GiB");
}

#[test]
fn progress_elapsed_is_humanized() {
    assert_eq!(progress::human_elapsed(45), "45s");
    assert_eq!(progress::human_elapsed(125), "2m5s");
    assert_eq!(progress::human_elapsed(3700), "1h1m");
}

#[test]
fn progress_hidden_scan_progress_is_a_quiet_counter() {
    let mut p = progress::ScanCount::new();
    p.tick(100);
    p.tick(0);
    assert_eq!((p.entries, p.bytes), (2, 100));
}

#[test]
fn progress_update_hidden_scan_progress_is_a_quiet_counter() {
    let mut p = progress::ScanCount::new();
    p.tick(100);
    p.tick(0);
    assert_eq!((p.entries, p.bytes), (2, 100));
    assert_eq!(p.status(), "2 entries  100 B");
}

#[test]
fn bytes_are_rounded_as_floating_point_shows_them() {
    for n in [1023u64, 1024, 1075, 1126, 1536, 1048575, 1048576, 1_599_999, u64::MAX, (1 << 53) + 1] {
        let mut v = n as f64;
        let mut unit = "B";
        for u in ["KiB", "MiB", "GiB", "TiB", "PiB"] {
            if v < 1024.0 {
                break;
            }
            v /= 1024.0;
            unit = u;
        }
        let want = if unit == "B" { format!("{n} B") } else { format!("{v:.1} {unit}") };
        assert_eq!(units::human_bytes(n), want);
    }
    assert_eq!(units::signed_bytes(i64::MIN), "-8192.0 PiB");
}

#[test]
fn report_timestamp_is_formatted_utc() {
    assert_eq!(timestamp_utc(1_609_459_200), "2021-01-01_0000");
    assert_eq!(timestamp_utc(1_609_459_200 + 13 * 3600 + 37 * 60), "2021-01-01_1337");
}

#[test]
fn mod_timestamp_is_formatted_utc() {
    assert_eq!(timestamp_utc(1_609_459_200), "2021-01-01_0000");
    assert_eq!(timestamp_utc(1_609_459_200 + 13 * 3600 + 37 * 60), "2021-01-01_1337");
}

#[test]
fn days_have_dates() {
    assert_eq!(civil_from_days(0), (1970, 1, 1));
    assert_eq!(civil_from_days(59), (1970, 3, 1));
    assert_eq!(civil_from_days(11016), (2000, 2, 29));
    assert_eq!(civil_from_days(-1), (1969, 12, 31));
    assert_eq!(civil_from_days(-719468), (0, 3, 1));
    assert_eq!(civil_from_days(i64::MIN), (-25252734927764585, 6, 7));
    assert_eq!(civil_from_days(i64::MAX - 719468), (25252734927766554, 9, 25));
    assert_eq!(timestamp_utc(4_107_542_399), "2100-02-28_2359");
    assert_eq!(timestamp_utc(4_107_542_400), "2100-03-01_0000");
}

#[test]
fn numbers_are_read_strictly() {
    assert_eq!(parse_unsigned("0", 10), Some(0));
    assert_eq!(parse_unsigned("+007", 10), Some(7));
    assert_eq!(parse_unsigned("11", 10), None);
    assert_eq!(parse_unsigned("18446744073709551615", u64::MAX), Some(u64::MAX));
    assert_eq!(parse_unsigned("18446744073709551616", u64::MAX), None);
    for bad in ["", "+", "-1", " 1", "1 ", "1.5", "x", "٣"] {
        assert_eq!(parse_unsigned(bad, u64::MAX), None, "{bad:?}");
        assert!(bad.parse::<u64>().is_err());
    }
    assert_eq!(parse_i32("-2147483648"), Some(i32::MIN));
    assert_eq!(parse_i32("2147483647"), Some(i32::MAX));
    assert_eq!(parse_i32("2147483648"), None);
    assert_eq!(parse_i32("-"), None);
    assert_eq!(parse_i32("-+1"), None);
}

#[test]
fn white_space_is_unicodes() {
    assert_eq!(trim(" \t\r\n x y \u{b}\u{c}"), "x y");
    assert_eq!(trim("\u{3000}42\u{a0}"), "42");
    assert_eq!(trim("\u{200b}1"), "\u{200b}1");
    assert_eq!(trim("   "), "");
    assert_eq!(split_words(" a\u{2003}bc  d "), vec!["a".to_string(), "bc".into(), "d".into()]);
    assert!(split_words("").is_empty());
}

#[test]
fn texts_are_searched() {
    assert!(contains_text("größe", "öß"));
    assert!(contains_text("abc", ""));
    assert!(!contains_text("ab", "abc"));
}

#[test]
fn progress_lines_are_worded() {
    let mut c = progress::ScanCount::new();
    c.tick(5 << 20);
    assert_eq!(c.heartbeat("/src"), "filesync: scanning /src: 1 entries, 5.0 MiB so far");
    assert_eq!(progress::action_message(3, 9), "3/9 actions");
}
