use fdedupe::list::relative_name;
use fdedupe::paths::{path_at_or_under, path_in_tree, path_is_descendant, path_is_direct_child};
use fdedupe::scan::system_time_to_secs;
use fdedupe::text::parse_i64;

#[test]
fn a_path_lies_at_or_under_a_prefix_that_it_is_or_that_a_slash_follows() {
    assert!(path_at_or_under("/r/a/x", "/r/a"));
    assert!(path_at_or_under("/r/a/x/y", "/r/a"));
    assert!(path_at_or_under("/r/a", "/r/a"));
    assert!(!path_at_or_under("/r/ab/x", "/r/a"));
    assert!(!path_at_or_under("/r/ab", "/r/a"));
    assert!(!path_at_or_under("/r/alphabet/b.txt", "/r/alpha"));
    assert!(!path_at_or_under("/r/b/x", "/r/a"));
    assert!(!path_at_or_under("/r", "/r/a"));
    assert!(path_at_or_under("/anything", ""));
    assert!(!path_at_or_under("anything", ""));
    assert!(path_at_or_under("", ""));
    assert!(path_at_or_under("/r/100%/f", "/r/100%"));
    assert!(!path_at_or_under("/r/100x/f", "/r/100%"));
}

#[test]
fn a_descendant_starts_with_the_directory_and_a_slash() {
    assert!(path_is_descendant("/r/a/x", "/r/a"));
    assert!(path_is_descendant("/r/a/x/y", "/r/a"));
    assert!(!path_is_descendant("/r/a", "/r/a"));
    assert!(!path_is_descendant("/r/ab", "/r/a"));
    assert!(path_in_tree("/r/a", "/r/a"));
    assert!(path_in_tree("/r/a/x", "/r/a"));
    assert!(!path_in_tree("/r/ab", "/r/a"));
    assert!(!path_in_tree("/r", "/r/a"));
}

#[test]
fn a_direct_child_has_no_further_slash() {
    assert!(path_is_direct_child("/r/a", "/r"));
    assert!(!path_is_direct_child("/r/a/b", "/r"));
    assert!(!path_is_direct_child("/r", "/r"));
    assert!(!path_is_direct_child("/rx", "/r"));
    assert!(path_is_direct_child("/r/", "/r"));
    assert!(path_is_direct_child("/é/ü", "/é"));
    assert!(!path_is_direct_child("/usr", "/"));
    assert!(path_is_direct_child("//usr", "/"));
}

#[test]
fn relative_name_strips_the_base_and_a_slash() {
    assert_eq!(relative_name("/r", "/r/alpha"), "alpha");
    assert_eq!(relative_name("/r/", "/r/alpha"), "alpha");
    assert_eq!(relative_name("/r///", "/r/alpha/deep"), "alpha/deep");
    assert_eq!(relative_name("/r", "/other/alpha"), "/other/alpha");
    assert_eq!(relative_name("/r", "/r"), "/r");
    assert_eq!(relative_name("/", "/usr"), "usr");
    assert_eq!(relative_name("", "/usr"), "usr");
    assert_eq!(relative_name("/ré", "/ré/ü"), "ü");
}

#[test]
fn numerals_are_read_as_the_standard_library_reads_them() {
    let samples = [
        "0", "7", "-7", "+7", "007", "-0", "", "-", "+", "1a", "a1", " 1", "1 ", "--1", "+-1",
        "9223372036854775807", "9223372036854775808", "-9223372036854775808",
        "-9223372036854775809", "99999999999999999999999999999999999999999999", "12-3", "１２",
        "-00000000000000000000000000000000000000000000000000000000000042",
    ];
    for text in samples {
        assert_eq!(parse_i64(text), text.parse::<i64>().ok(), "{:?}", text);
    }
    assert_eq!(parse_i64("-42"), Some(-42));
    assert_eq!(parse_i64("9223372036854775807"), Some(i64::MAX));
    assert_eq!(parse_i64("-9223372036854775808"), Some(i64::MIN));
    assert_eq!(parse_i64("9223372036854775808"), None);
}

#[test]
fn times_before_the_epoch_count_as_the_epoch() {
    assert_eq!(system_time_to_secs(None), 0);
    assert_eq!(system_time_to_secs(Some(0)), 0);
    assert_eq!(system_time_to_secs(Some(1_700_000_000)), 1_700_000_000);
    assert_eq!(system_time_to_secs(Some(i64::MAX as u64)), i64::MAX);
    assert_eq!(system_time_to_secs(Some(i64::MAX as u64 + 1)), i64::MIN);
    assert_eq!(system_time_to_secs(Some(u64::MAX)), -1);
    assert_eq!(system_time_to_secs(Some(u64::MAX)), u64::MAX as i64);
}
