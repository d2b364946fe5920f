//! Tests for the plain-text utilities.

use cartunes::text::{file_stem, is_html, trim_str};
use cartunes::updates::{should_check, should_notify, UpdateFrequency, Version3};

#[test]
fn test_is_html() {
    assert!(is_html(Some("export.htm")));
    assert!(is_html(Some("export.html")));
    assert!(is_html(Some("EXPORT.HTML")));
    assert!(is_html(Some("export.Htm")));
    assert!(!is_html(Some("export.txt")));
    assert!(!is_html(Some("html")));
    assert!(!is_html(Some("")));
    assert!(!is_html(None));
}

#[test]
fn test_file_stem() {
    assert_eq!(file_stem("/exports/baseline.htm"), "baseline");
    assert_eq!(file_stem("baseline.htm"), "baseline");
    assert_eq!(file_stem("/a/b/archive.tar.gz"), "archive.tar");
    assert_eq!(file_stem("/a/b/.hidden"), ".hidden");
    assert_eq!(file_stem("/a/b/noext"), "noext");
}

#[test]
fn test_trim() {
    assert_eq!(trim_str("  padded \t"), "padded");
    assert_eq!(trim_str("\r\n"), "");
    assert_eq!(trim_str("solid"), "solid");
}

#[test]
fn test_update_frequency() {
    assert_eq!(UpdateFrequency::from("daily"), UpdateFrequency::Daily);
    assert_eq!(UpdateFrequency::from("weekly"), UpdateFrequency::Weekly);
    assert_eq!(UpdateFrequency::from("sometimes"), UpdateFrequency::Never);
    assert_eq!(UpdateFrequency::default(), UpdateFrequency::Never);

    assert_eq!(UpdateFrequency::Never.into_duration(), None);
    assert_eq!(UpdateFrequency::Daily.into_duration(), Some(86_400));
    assert_eq!(UpdateFrequency::Weekly.into_duration(), Some(604_800));

    for f in [
        UpdateFrequency::Never,
        UpdateFrequency::Daily,
        UpdateFrequency::Weekly,
    ] {
        assert_eq!(UpdateFrequency::from(f.as_str()), f);
    }
}

#[test]
fn test_should_check() {
    assert!(!should_check(1_000_000, UpdateFrequency::Never));
    assert!(!should_check(86_399, UpdateFrequency::Daily));
    assert!(should_check(86_400, UpdateFrequency::Daily));
    assert!(!should_check(604_799, UpdateFrequency::Weekly));
    assert!(should_check(604_800, UpdateFrequency::Weekly));
}

#[test]
fn test_should_notify() {
    let v = |major, minor, patch| Version3 { major, minor, patch };
    assert!(should_notify(&v(2, 0, 0), &v(1, 9, 9)));
    assert!(should_notify(&v(1, 3, 0), &v(1, 2, 9)));
    assert!(should_notify(&v(1, 2, 4), &v(1, 2, 3)));
    assert!(!should_notify(&v(1, 2, 3), &v(1, 2, 3)));
    assert!(!should_notify(&v(1, 2, 2), &v(1, 2, 3)));
}
