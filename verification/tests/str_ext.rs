//! Tests for the string helpers: truncation, capitalization, and the
//! human comparison.

use cartunes::str_ext::{capitalize_words, ellipsis, human_compare};
use std::cmp::Ordering;

/// Test grapheme-aware truncation.
#[test]
fn test_ellipsis() {
    let s = "Small";
    assert_eq!(ellipsis(s, 25), "Small");

    let s = "The number of graphemes in this string is too damn high!";
    assert_eq!(ellipsis(s, 25), "The number of graphemes \u{2026}");
}

/// Test the truncation minimum length.
#[test]
fn test_ellipsis_min() {
    for expected in ["", "A", "AB"] {
        assert_eq!(ellipsis(expected, 0), expected);
        assert_eq!(ellipsis(expected, 1), expected);
        assert_eq!(ellipsis(expected, 2), expected);
        assert_eq!(ellipsis(expected, 3), expected);
    }

    let s = "The number of graphemes in this string is too damn high!";
    assert_eq!(ellipsis(s, 0), "T\u{2026}");
    assert_eq!(ellipsis(s, 1), "T\u{2026}");
    assert_eq!(ellipsis(s, 2), "T\u{2026}");
    assert_eq!(ellipsis(s, 3), "Th\u{2026}");
}

/// Test word capitalization.
#[test]
fn test_capitalize_words() {
    assert_eq!(
        capitalize_words("YOU KNOW, I FIND THAT I (ALWAYS) SHOUT A LOT! SORRY!"),
        "You Know, I Find That I (Always) Shout A Lot! Sorry!",
    );
}

#[test]
fn test_human_compare_text() {
    assert_eq!(human_compare("a", "b"), Ordering::Less);
    assert_eq!(human_compare("ab", "abc"), Ordering::Less);
    assert_eq!(human_compare("abc", "abc"), Ordering::Equal);
}

#[test]
fn test_human_compare_numbers() {
    assert_eq!(human_compare("1", "1"), Ordering::Equal);
    assert_eq!(human_compare("10", "10"), Ordering::Equal);
    assert_eq!(human_compare("1", "10"), Ordering::Less);
    assert_eq!(human_compare("10", "1"), Ordering::Greater);

    assert_eq!(human_compare("1", "2"), Ordering::Less);
    assert_eq!(human_compare("10", "2"), Ordering::Greater);
    assert_eq!(human_compare("1", "-2"), Ordering::Greater);
    assert_eq!(human_compare("10", "-2"), Ordering::Greater);
    assert_eq!(human_compare("-1", "2"), Ordering::Less);
    assert_eq!(human_compare("-10", "2"), Ordering::Less);
    assert_eq!(human_compare("-1", "-2"), Ordering::Greater);
    assert_eq!(human_compare("-10", "-2"), Ordering::Less);
}

/// Cross-check the comparison against the `human-sort` crate on plain
/// names, with the negative-number operand swap applied the same way.
#[test]
fn test_human_compare_against_human_sort() {
    let samples = [
        "a", "b", "abc", "ab", "file1", "file2", "file10", "file10a", "item200", "item3", "x",
        "2", "10", "-1", "-2", "-10", "baseline", "baseline2", "baseline10",
    ];
    for a in samples {
        for b in samples {
            let expected = if a.starts_with('-') && b.starts_with('-') {
                human_sort::compare(b, a)
            } else {
                human_sort::compare(a, b)
            };
            assert_eq!(human_compare(a, b), expected, "inputs {:?} {:?}", a, b);
        }
    }
}

/// Grapheme clusters count as single units when truncating.
#[test]
fn test_ellipsis_graphemes() {
    // Five graphemes: the limit of five leaves the string alone.
    let s = "a\u{310}e\u{301}o\u{308}\u{332}xy";
    assert_eq!(ellipsis(s, 5), s);
    assert_eq!(ellipsis(s, 4), "a\u{310}e\u{301}o\u{308}\u{332}\u{2026}");
}
