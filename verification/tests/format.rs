use oweka::ui::format::{age_tone, format_age, relative_age, truncate_left, AgeTone};

#[test]
fn truncates_ascii_with_ellipsis() {
    assert_eq!(truncate_left("abcdef", 4), "…def");
}

#[test]
fn truncates_multibyte_without_panicking() {
    assert_eq!(truncate_left("日本語テスト", 3), "…スト");
}

#[test]
fn passes_short_input_through() {
    assert_eq!(truncate_left("hi", 4), "hi");
}

#[test]
fn truncation_edges() {
    assert_eq!(truncate_left("abc", 0), "");
    assert_eq!(truncate_left("abc", 1), "…");
    assert_eq!(truncate_left("abc", 3), "abc");
    assert_eq!(truncate_left("", 0), "");
}

#[test]
fn ages_use_the_largest_unit_that_fits() {
    assert_eq!(format_age(0), "0s ago");
    assert_eq!(format_age(59), "59s ago");
    assert_eq!(format_age(60), "1m ago");
    assert_eq!(format_age(3599), "59m ago");
    assert_eq!(format_age(3600), "1h ago");
    assert_eq!(format_age(86399), "23h ago");
    assert_eq!(format_age(86400), "1d ago");
    assert_eq!(format_age(86400 * 30 - 1), "29d ago");
    assert_eq!(format_age(86400 * 30), "1mo ago");
    assert_eq!(format_age(86400 * 365 - 1), "12mo ago");
    assert_eq!(format_age(86400 * 365), "1y ago");
    assert_eq!(format_age(u64::MAX), "584942417355y ago");
}

#[test]
fn relative_age_counts_whole_seconds_and_never_goes_negative() {
    let second: i128 = 1_000_000_000;
    assert_eq!(relative_age(None, 0), "...");
    assert_eq!(relative_age(Some(10 * second), 10 * second + second - 1), "0s ago");
    assert_eq!(relative_age(Some(10 * second), 130 * second), "2m ago");
    assert_eq!(relative_age(Some(50 * second), 10 * second), "0s ago");
    assert_eq!(relative_age(Some(-5 * second), 5 * second), "10s ago");
}

#[test]
fn tones_follow_age() {
    let day: i128 = 86_400 * 1_000_000_000;
    assert_eq!(age_tone(None, 0), AgeTone::Faded);
    assert_eq!(age_tone(Some(0), day - 1), AgeTone::Fresh);
    assert_eq!(age_tone(Some(0), day), AgeTone::Recent);
    assert_eq!(age_tone(Some(0), 30 * day), AgeTone::Settled);
    assert_eq!(age_tone(Some(0), 180 * day), AgeTone::Faded);
}
