//! Tests for the selection reducer over the diff-event stream.

use cartunes::gui::{ErrorButton, Selection, ShowError, ShowWarning};
use cartunes::setup::UpdateKind;

fn selection_for(track: &str, car: &str, indices: &[usize]) -> Selection {
    let mut sel = Selection::new();
    sel.select_track(track.to_string());
    sel.select_car(car.to_string());
    for i in indices {
        sel.push_setup(*i);
    }
    sel
}

/// An insertion moves the selected indices at or past it up by one.
#[test]
fn test_selection_added_setup() {
    let mut sel = selection_for("Track", "Car", &[0, 2, 5]);
    sel.handle_update(&UpdateKind::AddedSetup(
        "Track".to_string(),
        "Car".to_string(),
        2,
    ));
    assert_eq!(sel.setups(), &vec![0, 3, 6]);

    // Another bucket's insertion leaves the selection alone.
    sel.handle_update(&UpdateKind::AddedSetup(
        "Track".to_string(),
        "Other Car".to_string(),
        0,
    ));
    assert_eq!(sel.setups(), &vec![0, 3, 6]);
}

/// A removal drops the removed index and moves later ones down by one.
#[test]
fn test_selection_removed_setup() {
    let mut sel = selection_for("Track", "Car", &[0, 2, 5]);
    sel.handle_update(&UpdateKind::RemovedSetup(
        "Track".to_string(),
        "Car".to_string(),
        2,
    ));
    assert_eq!(sel.setups(), &vec![0, 4]);
}

/// Removing the selected car clears the dependent choices.
#[test]
fn test_selection_removed_car() {
    let mut sel = selection_for("Track", "Car", &[1]);
    sel.handle_update(&UpdateKind::RemovedCar(
        "Track".to_string(),
        "Car".to_string(),
    ));
    assert!(sel.car().is_none());
    assert!(sel.setups().is_empty());
    assert_eq!(sel.track().as_deref(), Some("Track"));
}

/// Removing the selected track clears everything.
#[test]
fn test_selection_removed_track() {
    let mut sel = selection_for("Track", "Car", &[1]);
    sel.handle_update(&UpdateKind::RemovedTrack("Track".to_string()));
    assert!(sel.track().is_none());
    assert!(sel.car().is_none());
    assert!(sel.setups().is_empty());
}

/// The message records carry their text unchanged.
#[test]
fn test_show_messages() {
    let buttons = (
        ErrorButton::new("Keep".to_string()),
        ErrorButton::new("Replace".to_string()),
    );
    let error = ShowError::new(
        "boom".to_string(),
        "while loading".to_string(),
        buttons,
    );
    assert_eq!(error.error(), "boom");
    assert_eq!(error.context(), "while loading");
    assert_eq!(error.buttons().0.label(), "Keep");
    assert_eq!(error.buttons().1.label(), "Replace");

    let warning = ShowWarning::new("odd file".to_string(), "while walking".to_string());
    assert_eq!(warning.warning(), "odd file");
    assert_eq!(warning.context(), "while walking");
}
