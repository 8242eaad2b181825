use std::time::SystemTime;
use winsel::utils::{abbreviate_path, clean, compute_elapsed, elapsed_seconds, human_time};

#[test]
fn test_compute_elapsed_nanoseconds() {
    let now_secs = SystemTime::UNIX_EPOCH.elapsed().unwrap().as_secs() as i128;
    let nanos = now_secs * 1_000_000_000;
    let elapsed = compute_elapsed(nanos);
    assert!(elapsed.is_some());
    let secs = elapsed.unwrap();
    assert!(secs >= 0);
    assert!(secs < 10);
}

#[test]
fn test_compute_elapsed_milliseconds() {
    let millis = 1700000000000i128;
    let elapsed = compute_elapsed(millis);
    assert!(elapsed.is_some());
    let secs = elapsed.unwrap();
    assert!(secs >= 0);
}

#[test]
fn test_compute_elapsed_seconds() {
    let secs_timestamp = 1700000000i128;
    let elapsed = compute_elapsed(secs_timestamp);
    assert!(elapsed.is_some());
    let secs = elapsed.unwrap();
    assert!(secs >= 0);
}

#[test]
fn test_compute_elapsed_zero() {
    assert_eq!(compute_elapsed(0), None);
}

#[test]
fn test_compute_elapsed_negative() {
    assert_eq!(compute_elapsed(-100), None);
}

#[test]
fn compute_elapsed_reads_the_clock() {
    // A stamp of one second after the epoch is decades in the past.
    let secs = compute_elapsed(1).unwrap();
    assert!(secs > 1_600_000_000);
}

#[test]
fn elapsed_seconds_by_unit() {
    let now: u128 = 1_700_000_100_000_000_000;
    assert_eq!(elapsed_seconds(1_700_000_000, now), Some(100));
    assert_eq!(elapsed_seconds(1_700_000_000_000, now), Some(100));
    assert_eq!(elapsed_seconds(1_700_000_000_000_000_000, now), Some(100));
    assert_eq!(elapsed_seconds(1_700_000_000_500_000_000, now), Some(99));
    assert_eq!(elapsed_seconds(1_800_000_000, now), Some(0));
    assert_eq!(elapsed_seconds(0, now), None);
}

#[test]
fn test_human_time_none() {
    assert_eq!(human_time(None), "n/a");
}

#[test]
fn test_human_time_seconds_only() {
    assert_eq!(human_time(Some(45)), "45s");
}

#[test]
fn test_human_time_minutes_and_seconds() {
    assert_eq!(human_time(Some(125)), "2m 5s");
}

#[test]
fn test_human_time_hours_minutes_seconds() {
    assert_eq!(human_time(Some(3665)), "1h 1m 5s");
}

#[test]
fn test_human_time_full() {
    assert_eq!(human_time(Some(90061)), "1d 1h 1m 1s");
}

#[test]
fn test_human_time_zero() {
    assert_eq!(human_time(Some(0)), "0s");
}

#[test]
fn test_human_time_exact_hour() {
    assert_eq!(human_time(Some(3600)), "1h 0s");
}

#[test]
fn test_human_time_exact_day() {
    assert_eq!(human_time(Some(86400)), "1d 0s");
}

#[test]
fn human_time_units_add_up() {
    // 3 days, 23 hours, 59 minutes and 59 seconds.
    assert_eq!(human_time(Some(3 * 86_400 + 23 * 3_600 + 59 * 60 + 59)), "3d 23h 59m 59s");
    assert_eq!(human_time(Some(86_400 + 60)), "1d 1m 0s");
}

#[test]
fn human_time_negative_keeps_the_sign_of_the_seconds() {
    assert_eq!(human_time(Some(-5)), "-5s");
    assert_eq!(human_time(Some(-3_725)), "-5s");
    assert_eq!(human_time(Some(i128::MIN)), format!("{}s", i128::MIN % 60));
}

#[test]
fn test_clean_tabs() {
    assert_eq!(clean("hello\tworld"), "hello world");
}

#[test]
fn test_clean_newlines() {
    assert_eq!(clean("hello\nworld"), "hello world");
}

#[test]
fn test_clean_multiple_whitespace() {
    assert_eq!(clean("hello\t\nworld"), "hello  world");
}

#[test]
fn test_clean_trim() {
    assert_eq!(clean("  hello  "), "hello");
}

#[test]
fn test_clean_combination() {
    assert_eq!(clean("  \thello\n\tworld  "), "hello  world");
}

#[test]
fn test_clean_empty() {
    assert_eq!(clean(""), "");
}

#[test]
fn test_clean_whitespace_only() {
    assert_eq!(clean("  \t\n  "), "");
}

#[test]
fn clean_is_idempotent_and_leaves_no_tab() {
    for s in ["  a\tb\nc  ", "\u{3000}x\r\n", "x\u{a0}", ""] {
        let once = clean(s);
        assert!(!once.contains('\t') && !once.contains('\n'));
        assert_eq!(once.trim(), once);
        assert_eq!(clean(&once), once);
    }
    assert_eq!(clean("\u{3000}x\r\n"), "x");
}

#[test]
fn test_abbreviate_path_empty() {
    assert_eq!(abbreviate_path("", Some("/Users/bmizerany")), "");
    assert_eq!(abbreviate_path("", None), "");
}

#[test]
fn test_abbreviate_path_with_home() {
    let home = "/Users/bmizerany";
    let full_path = format!("{}/documents", home);
    assert_eq!(abbreviate_path(&full_path, Some(home)), "~/documents");
}

#[test]
fn test_abbreviate_path_without_home() {
    assert_eq!(abbreviate_path("/usr/local/bin", Some("/Users/bmizerany")), "/usr/local/bin");
    assert_eq!(abbreviate_path("/usr/local/bin", None), "/usr/local/bin");
}

#[test]
fn test_abbreviate_path_exact_home() {
    let home = "/Users/bmizerany";
    assert_eq!(abbreviate_path(home, Some(home)), "~");
}

#[test]
fn test_abbreviate_path_home_multiple_occurrences() {
    let home = "/Users/bmizerany";
    let path = format!("{}/path/to/{}/file", home, home);
    let expected = "~/path/to/~/file".to_string();
    assert_eq!(abbreviate_path(&path, Some(home)), expected);
}

#[test]
fn abbreviate_path_with_empty_home_interleaves() {
    // `str::replace` with an empty pattern puts the replacement around every character.
    assert_eq!(abbreviate_path("ab", Some("")), "~a~b~");
}
