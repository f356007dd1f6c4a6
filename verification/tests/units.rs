use nhl_notifier::game::GameScore;
use nhl_notifier::numerals::format_mmss;
use nhl_notifier::numerals::parse_mmss;
use nhl_notifier::numerals::parse_u32;
use nhl_notifier::numerals::time_remaining;
use nhl_notifier::numerals::u32_to_string;
use nhl_notifier::text::str_eq;

#[test]
fn parse_u32_reads_plain_numerals() {
    assert_eq!(parse_u32("0"), Some(0));
    assert_eq!(parse_u32("417"), Some(417));
    assert_eq!(parse_u32("007"), Some(7));
    assert_eq!(parse_u32("+417"), Some(417));
    assert_eq!(parse_u32("+0"), Some(0));
    assert_eq!(parse_u32("4294967295"), Some(u32::MAX));
}

#[test]
fn parse_u32_rejects_bad_numerals() {
    assert_eq!(parse_u32(""), None);
    assert_eq!(parse_u32("+"), None);
    assert_eq!(parse_u32("++1"), None);
    assert_eq!(parse_u32("12a"), None);
    assert_eq!(parse_u32("-4"), None);
    assert_eq!(parse_u32(" 4"), None);
    assert_eq!(parse_u32("4294967296"), None);
    assert_eq!(parse_u32("99999999999999999999"), None);
}

#[test]
fn parse_mmss_reads_period_clock() {
    assert_eq!(parse_mmss("00:00"), Some(0));
    assert_eq!(parse_mmss("02:30"), Some(150));
    assert_eq!(parse_mmss("2:30"), Some(150));
    assert_eq!(parse_mmss("2:3"), Some(123));
    assert_eq!(parse_mmss("02:3"), Some(123));
    assert_eq!(parse_mmss("19:59"), Some(1199));
    assert_eq!(parse_mmss("59:59"), Some(3599));
}

#[test]
fn parse_mmss_rejects_bad_clock_text() {
    assert_eq!(parse_mmss(""), None);
    assert_eq!(parse_mmss(":30"), None);
    assert_eq!(parse_mmss("02:"), None);
    assert_eq!(parse_mmss("02-30"), None);
    assert_eq!(parse_mmss("60:00"), None);
    assert_eq!(parse_mmss("02:60"), None);
    assert_eq!(parse_mmss("ab:cd"), None);
    assert_eq!(parse_mmss("123:45"), None);
    assert_eq!(parse_mmss("02:300"), None);
    assert_eq!(parse_mmss("1:2:3"), None);
}

#[test]
fn format_mmss_prints_period_clock() {
    assert_eq!(format_mmss(0), "00:00");
    assert_eq!(format_mmss(150), "02:30");
    assert_eq!(format_mmss(1199), "19:59");
    assert_eq!(format_mmss(3599), "59:59");
    // Minutes wrap at sixty, as on a time-of-day clock.
    assert_eq!(format_mmss(86370), "59:30");
}

#[test]
fn u32_to_string_prints_decimal() {
    assert_eq!(u32_to_string(0), "0");
    assert_eq!(u32_to_string(7), "7");
    assert_eq!(u32_to_string(10), "10");
    assert_eq!(u32_to_string(417), "417");
    assert_eq!(u32_to_string(u32::MAX), "4294967295");
}

#[test]
fn time_remaining_subtracts_elapsed() {
    assert_eq!(time_remaining(300, 150), 150);
    assert_eq!(time_remaining(1200, 0), 1200);
    assert_eq!(time_remaining(1200, 1200), 0);
    // Past the period's end the clock wraps a full day, as the original
    // time-of-day arithmetic does.
    assert_eq!(time_remaining(0, 30), 86370);
}

#[test]
fn game_score_starts_at_zero() {
    let s = GameScore::new();
    assert_eq!(s.home, 0);
    assert_eq!(s.away, 0);
}

#[test]
fn str_eq_compares_contents() {
    assert!(str_eq("GOAL", "GOAL"));
    assert!(!str_eq("GOAL", "goal"));
    assert!(!str_eq("GOAL", "GOAL "));
    assert!(str_eq("", ""));
}
