//! Tests for the resolver dictionaries, the longest-prefix track lookup,
//! color parsing and the theme choice.

use cartunes::config::{color_from_str, Dict, DictConfig, UserTheme};

/// The dictionary entries of the stock configuration resolve raw tokens
/// by longest canonical prefix, with direct lookups for cars.
#[test]
fn test_default_config() {
    let mut config = DictConfig::new();
    config.insert_track(
        "charlotte".to_string(),
        "[Legacy] Charlotte Motor Speedway".to_string(),
    );
    config.insert_track(
        "charlotte_2018".to_string(),
        "Charlotte Motor Speedway".to_string(),
    );
    config.insert_car("rt2000".to_string(), "Skip Barber Formula 2000".to_string());

    // Longest-prefix matching against the canonical id set.
    assert_eq!(
        config.resolve_track("charlotte_2018_2019_roval"),
        "Charlotte Motor Speedway",
    );
    assert_eq!(
        config.resolve_track("charlotte_fullroadcourse"),
        "[Legacy] Charlotte Motor Speedway",
    );
    // A token no canonical id prefixes falls back to itself.
    assert_eq!(config.resolve_track("san_francisco"), "san_francisco");

    // Direct car lookup, with fallback to the raw id.
    assert_eq!(config.resolve_car("rt2000"), "Skip Barber Formula 2000");
    assert_eq!(config.resolve_car("unknown_car"), "unknown_car");
}

/// A matched canonical id missing from the name map is shown verbatim.
#[test]
fn test_resolve_track_name_fallback() {
    let mut config = DictConfig::new();
    config.insert_track("okayama".to_string(), "Okayama International".to_string());
    assert_eq!(config.resolve_track("okayama_full"), "Okayama International");
    assert_eq!(config.resolve_track("okayama"), "Okayama International");
}

#[test]
fn test_color_from_str_valid() {
    assert_eq!(color_from_str("#000000"), Ok((0, 0, 0)));
    assert_eq!(color_from_str("#ffffff"), Ok((255, 255, 255)));
    assert_eq!(color_from_str("#0a1B2c"), Ok((10, 27, 44)));
}

#[test]
fn test_color_from_str_invalid() {
    assert_eq!(color_from_str(""), Err(()));
    assert_eq!(color_from_str("123456"), Err(()));
    assert_eq!(color_from_str("#12345"), Err(()));
    assert_eq!(color_from_str("#1234567"), Err(()));
    assert_eq!(color_from_str("#12345g"), Err(()));
}

#[test]
fn test_user_theme_round_trip() {
    assert!(matches!(UserTheme::from_str("dark"), UserTheme::Dark));
    assert!(matches!(UserTheme::from_str("light"), UserTheme::Light));
    assert!(matches!(UserTheme::from_str("auto"), UserTheme::Auto));
    assert!(matches!(UserTheme::from_str("anything"), UserTheme::Auto));

    for theme in [UserTheme::Auto, UserTheme::Dark, UserTheme::Light] {
        assert_eq!(UserTheme::from_str(theme.as_str()), theme);
    }
}

/// The dictionary keeps insertion order, overwrites an existing key in
/// place, and looks keys up by value equality.
#[test]
fn test_dict_insert_and_get() {
    let mut d = Dict::new();
    d.insert("ab".to_string(), "one".to_string());
    d.insert("cd".to_string(), "two".to_string());
    d.insert("ab".to_string(), "three".to_string());
    assert_eq!(d.len(), 2);
    assert_eq!(d.key_at(0), "ab");
    assert_eq!(d.value_at(0), "three");
    assert_eq!(d.key_at(1), "cd");
    assert_eq!(d.get("ab").map(|s| s.as_str()), Some("three"));
    assert_eq!(d.get("cd").map(|s| s.as_str()), Some("two"));
    assert_eq!(d.get("ef"), None);
}
