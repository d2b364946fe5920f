//! Tests for the ordered key intersection of the comparison grid.

use cartunes::grid::intersect_keys;

fn svec(list: &[&str]) -> Vec<String> {
    list.iter().map(|s| s.to_string()).collect()
}

/// Test `intersect_keys()` with two sets.
#[test]
fn test_intersect_keys_two() {
    let expected = svec(&["foo", "bar"]);
    let list = vec![expected.clone(), expected.clone()];
    let keys = intersect_keys(&list);
    assert_eq!(keys, expected);
}

/// Test `intersect_keys()` with three sets.
#[test]
fn test_intersect_keys_three() {
    let expected = svec(&["foo", "bar"]);
    let list = vec![expected.clone(), expected.clone(), expected.clone()];
    let keys = intersect_keys(&list);
    assert_eq!(keys, expected);
}

/// Test `intersect_keys()` with four sets.
#[test]
fn test_intersect_keys_four() {
    let expected = svec(&["foo", "bar"]);
    let list = vec![
        expected.clone(),
        expected.clone(),
        expected.clone(),
        expected.clone(),
    ];
    let keys = intersect_keys(&list);
    assert_eq!(keys, expected);
}

/// Test `intersect_keys()` with a superset and a subset.
///
/// The two lists are the same except "super" contains an additional key.
#[test]
fn test_intersect_keys_super_sub() {
    let expected = svec(&["foo", "bar"]);
    let subkeys = expected.clone();
    let mut superkeys = subkeys.clone();
    superkeys.push("baz".to_string());

    let list = vec![superkeys, subkeys];
    let keys = intersect_keys(&list);
    assert_eq!(keys, expected);
}

/// Test `intersect_keys()` with a subset and a superset.
///
/// The two lists are the same except "super" contains an additional key.
#[test]
fn test_intersect_keys_sub_super() {
    let expected = svec(&["foo", "bar"]);
    let subkeys = expected.clone();
    let mut superkeys = subkeys.clone();
    superkeys.push("baz".to_string());

    let list = vec![subkeys, superkeys];
    let keys = intersect_keys(&list);
    assert_eq!(keys, expected);
}

/// Test `intersect_keys()` with sets that share only a few keys.
#[test]
fn test_intersect_keys_with_intersection() {
    let expected = svec(&["foo", "bar"]);
    let mut keys_a = expected.clone();
    let mut keys_b = expected.clone();
    keys_a.push("baz".to_string());
    keys_b.push("qux".to_string());

    let list = vec![keys_a, keys_b];
    let keys = intersect_keys(&list);
    assert_eq!(keys, expected);
}

/// Test `intersect_keys()` with sets that share no keys.
#[test]
fn test_intersect_keys_without_intersection() {
    let keys_a = svec(&["foo", "bar"]);
    let keys_b = svec(&["baz", "qux"]);

    let list = vec![keys_a, keys_b];
    let keys = intersect_keys(&list);
    assert!(keys.is_empty());
}
