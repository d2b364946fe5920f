//! End-to-end tests of the parser and the synchronized setup tree: real
//! export markup in, structural diff events and a sorted tree out.

use cartunes::config::DictConfig;
use cartunes::markup::{RawHeading, SetupDoc, SibNode};
use cartunes::parser::{get_properties, setup_from_doc, Error};
use cartunes::setup::{Event, Setups, UpdateKind};

fn test_config() -> DictConfig {
    let mut config = DictConfig::new();
    config.insert_track(
        "centripetal_circuit".to_string(),
        "Centripetal Circuit".to_string(),
    );
    config.insert_car("rt2000".to_string(), "Skip Barber Formula 2000".to_string());
    config
}

fn export_html(stem: &str) -> String {
    let mut html = String::new();
    html.push_str("<html><head><title>export</title></head><body>");
    html.push_str("<h2 align=\"center\">Setup Export\nrt2000 setup: ");
    html.push_str(stem);
    html.push_str(".sto\nTrack: centripetal circuit</h2>");
    html.push_str("<h2>Front</h2>Brake bias:<u>54%</u><br><br>");
    html.push_str(
        "<h2>Left Front</h2>Cold pressure:<u>25.0 psi</u><br>\
         Last temps O M I:<u>119F</u><u>119F</u><u>119F</u><br>\
         Camber:<u>-1.6 deg</u><br><br>",
    );
    html.push_str("<h2>Right Front</h2>Tread remaining:<u>100%</u><u>100%</u><u>100%</u><br><br>");
    html.push_str("<h2>Rear</h2>Fuel level:<u>4.2 gal</u><br><br>");
    html.push_str("<h2>Notes</h2>Qualifying trim.");
    html.push_str("</body></html>");
    html
}

fn create_event(path: &str, html: &str) -> Event {
    Event::Create {
        path: path.to_string(),
        is_file: true,
        bytes: Some(html.as_bytes().to_vec()),
    }
}

/// A full export parses into the expected tree: resolved names, the
/// expected groups, the tire heuristic applied, and the file stem as the
/// display name.
#[test]
fn test_add_setup() {
    let config = test_config();
    let mut setups = Setups::new();
    let html = export_html("skip_barber_centripetal");
    let path = "/exports/skip_barber_centripetal.htm";

    let result = setups.update(&create_event(path, &html), &config);
    assert_eq!(
        result,
        vec![UpdateKind::AddedSetup(
            "Centripetal Circuit".to_string(),
            "Skip Barber Formula 2000".to_string(),
            0,
        )],
    );

    let tracks = setups.tracks();
    assert_eq!(tracks.len(), 1);
    assert_eq!(tracks[0].name(), "Centripetal Circuit");
    let cars = tracks[0].cars();
    assert_eq!(cars.len(), 1);
    assert_eq!(cars[0].name(), "Skip Barber Formula 2000");
    let infos = cars[0].setups();
    assert_eq!(infos.len(), 1);
    assert_eq!(infos[0].name(), "skip_barber_centripetal");
    assert_eq!(infos[0].path(), path);

    let setup = infos[0].setup();
    assert_eq!(setup.len(), 4);
    assert_eq!(setup.key_at(0), "Front");
    assert_eq!(setup.key_at(1), "Left Front");
    // The tire heuristic renames the tread-only corner group.
    assert_eq!(setup.key_at(2), "Right Front Tire");
    assert_eq!(setup.key_at(3), "Rear");

    let front = setup.get("Front").expect("group Front");
    assert_eq!(
        front.get_all("Brake bias").cloned(),
        Some(vec!["54%".to_string()]),
    );
    let left_front = setup.get("Left Front").expect("group Left Front");
    assert_eq!(
        left_front.get_all("Camber").cloned(),
        Some(vec!["-1.6 deg".to_string()]),
    );
    assert_eq!(
        left_front.get_all("Last temps O M I").cloned(),
        Some(vec![
            "119F".to_string(),
            "119F".to_string(),
            "119F".to_string(),
        ]),
    );
    // The scan stopped before the notes heading.
    assert!(setup.get("Notes").is_none());
}

/// Adding the same unchanged file again refreshes in place and emits no
/// diff event.
#[test]
fn test_add_setup_idempotent() {
    let config = test_config();
    let mut setups = Setups::new();
    let html = export_html("skip_barber_centripetal");
    let path = "/exports/skip_barber_centripetal.htm";

    let first = setups.update(&create_event(path, &html), &config);
    assert_eq!(first.len(), 1);

    let second = setups.update(
        &Event::Write {
            path: path.to_string(),
            is_file: true,
            bytes: Some(html.as_bytes().to_vec()),
        },
        &config,
    );
    assert_eq!(second, vec![]);
    assert_eq!(setups.tracks().len(), 1);
    assert_eq!(setups.tracks()[0].cars()[0].setups().len(), 1);
}

/// Removing an added file restores the tree, cascading exactly
/// `RemovedSetup`, `RemovedCar`, `RemovedTrack` for a track holding one
/// setup.
#[test]
fn test_remove_setup() {
    let config = test_config();
    let mut setups = Setups::new();
    let html = export_html("skip_barber_centripetal");
    let path = "/exports/skip_barber_centripetal.htm";
    setups.update(&create_event(path, &html), &config);

    let result = setups.update(
        &Event::Remove { path: path.to_string() },
        &config,
    );
    assert_eq!(
        result,
        vec![
            UpdateKind::RemovedSetup(
                "Centripetal Circuit".to_string(),
                "Skip Barber Formula 2000".to_string(),
                0,
            ),
            UpdateKind::RemovedCar(
                "Centripetal Circuit".to_string(),
                "Skip Barber Formula 2000".to_string(),
            ),
            UpdateKind::RemovedTrack("Centripetal Circuit".to_string()),
        ],
    );
    assert_eq!(setups.tracks().len(), 0);

    // Removing a path found nowhere is a no-op.
    let again = setups.update(
        &Event::Remove { path: path.to_string() },
        &config,
    );
    assert_eq!(again, vec![]);
}

/// Entries within one car bucket stay sorted by the human order of their
/// names, and the insertion index is reported.
#[test]
fn test_sorted_insertion() {
    let config = test_config();
    let mut setups = Setups::new();

    for stem in ["setup10", "setup2", "setup1"] {
        let html = export_html(stem);
        let path = format!("/exports/{}.htm", stem);
        setups.update(&create_event(&path, &html), &config);
    }

    let infos = setups.tracks()[0].cars()[0].setups();
    assert_eq!(infos.len(), 3);
    assert_eq!(infos[0].name(), "setup1");
    assert_eq!(infos[1].name(), "setup2");
    assert_eq!(infos[2].name(), "setup10");
}

/// After a removal the entry formerly behind the removed one stands at
/// its index.
#[test]
fn test_index_after_removal() {
    let config = test_config();
    let mut setups = Setups::new();
    for stem in ["alpha", "bravo", "charlie"] {
        let html = export_html(stem);
        let path = format!("/exports/{}.htm", stem);
        setups.update(&create_event(&path, &html), &config);
    }

    let result = setups.update(
        &Event::Remove { path: "/exports/bravo.htm".to_string() },
        &config,
    );
    assert_eq!(
        result,
        vec![UpdateKind::RemovedSetup(
            "Centripetal Circuit".to_string(),
            "Skip Barber Formula 2000".to_string(),
            1,
        )],
    );
    let infos = setups.tracks()[0].cars()[0].setups();
    assert_eq!(infos.len(), 2);
    assert_eq!(infos[0].name(), "alpha");
    assert_eq!(infos[1].name(), "charlie");
}

/// A rename between two recognized paths updates the entry in place via
/// the match hint: no structural diff events, only the stored path and
/// name change.
#[test]
fn test_update_setup() {
    let config = test_config();
    let mut setups = Setups::new();
    let html = export_html("skip_barber_centripetal");
    let old_path = "/exports/skip_barber_centripetal.htm";
    setups.update(&create_event(old_path, &html), &config);

    let new_path = "/exports/renamed_export.html";
    let result = setups.update(
        &Event::Rename {
            from: old_path.to_string(),
            to: new_path.to_string(),
            to_is_file: true,
            bytes: Some(export_html("renamed_export").as_bytes().to_vec()),
        },
        &config,
    );
    assert_eq!(result, vec![]);

    let infos = setups.tracks()[0].cars()[0].setups();
    assert_eq!(infos.len(), 1);
    assert_eq!(infos[0].path(), new_path);
    assert_eq!(infos[0].name(), "renamed_export");

    // Renaming to an unrecognized name removes the entry.
    let result = setups.update(
        &Event::Rename {
            from: new_path.to_string(),
            to: "/exports/renamed_export.bak".to_string(),
            to_is_file: true,
            bytes: None,
        },
        &config,
    );
    assert_eq!(result.len(), 3);
    assert_eq!(setups.tracks().len(), 0);
}

/// Events for unrecognized or non-file paths are ignored.
#[test]
fn test_ignored_events() {
    let config = test_config();
    let mut setups = Setups::new();
    let html = export_html("whatever");

    let result = setups.update(&create_event("/exports/notes.txt", &html), &config);
    assert_eq!(result, vec![]);

    let result = setups.update(
        &Event::Create {
            path: "/exports/dir.htm".to_string(),
            is_file: false,
            bytes: None,
        },
        &config,
    );
    assert_eq!(result, vec![]);
    assert_eq!(setups.tracks().len(), 0);
}

/// A document that fails to parse is dropped silently by live updates.
#[test]
fn test_unparseable_dropped() {
    let config = test_config();
    let mut setups = Setups::new();
    let result = setups.update(
        &create_event("/exports/broken.htm", "<html><body>no header</body></html>"),
        &config,
    );
    assert_eq!(result, vec![]);
    assert_eq!(setups.tracks().len(), 0);
}

/// The bulk loader reports parse errors to its caller.
#[test]
fn test_load_file_error() {
    let config = test_config();
    let mut setups = Setups::new();
    let bad = "<html><body>no header</body></html>".as_bytes().to_vec();
    let r = setups.load_file("/exports/broken.htm".to_string(), &bad, &config);
    assert!(matches!(r, Err(Error::MissingHeader)));

    let good = export_html("baseline");
    let r = setups.load_file(
        "/exports/baseline.htm".to_string(),
        &good.as_bytes().to_vec(),
        &config,
    );
    assert!(r.is_ok());
    assert_eq!(setups.tracks().len(), 1);
}

/// Each header defect is reported as its own error.
#[test]
fn test_parse_errors() {
    let config = test_config();

    let doc = SetupDoc { header: None, groups: vec![] };
    assert!(matches!(
        setup_from_doc(&doc, &config),
        Err(Error::MissingHeader)
    ));

    let doc = SetupDoc {
        header: Some("only one line".to_string()),
        groups: vec![],
    };
    assert!(matches!(setup_from_doc(&doc, &config), Err(Error::MissingCar)));

    let doc = SetupDoc {
        header: Some("x\nrt2000 setup: y.sto".to_string()),
        groups: vec![],
    };
    assert!(matches!(
        setup_from_doc(&doc, &config),
        Err(Error::MissingTrack)
    ));

    let doc = SetupDoc {
        header: Some("x\nrt2000 setup: y.sto\nnospace".to_string()),
        groups: vec![],
    };
    assert!(matches!(
        setup_from_doc(&doc, &config),
        Err(Error::MissingTrack)
    ));
}

fn prop_group(text: &str, props: &[(&str, &str)]) -> RawHeading {
    let mut nodes = Vec::new();
    for (name, value) in props {
        nodes.push(SibNode::Text {
            text: format!("{}:", name),
        });
        nodes.push(SibNode::Element {
            is_br: false,
            text: value.to_string(),
        });
        nodes.push(SibNode::Element {
            is_br: true,
            text: String::new(),
        });
    }
    nodes.push(SibNode::Element {
        is_br: true,
        text: String::new(),
    });
    RawHeading {
        text: text.to_string(),
        nodes,
    }
}

/// A repeated group name rejects the whole document.
#[test]
fn test_duplicate_group() {
    let config = test_config();
    let doc = SetupDoc {
        header: Some("x\nrt2000 setup: y.sto\nTrack: centripetal circuit".to_string()),
        groups: vec![
            prop_group("FRONT", &[("Brake bias", "54%")]),
            prop_group("Front", &[("Fuel level", "4.2 gal")]),
        ],
    };
    match setup_from_doc(&doc, &config) {
        Err(Error::DuplicatePropGroup(name)) => assert_eq!(name, "Front"),
        other => panic!("expected a duplicate group, got {:?}", other.is_ok()),
    }
}

/// A heading without properties passes its name to the next heading that
/// has some.
#[test]
fn test_empty_heading_passes_name() {
    let config = test_config();
    let empty = RawHeading {
        text: "Tire Compound".to_string(),
        nodes: vec![],
    };
    let doc = SetupDoc {
        header: Some("x\nrt2000 setup: y.sto\nTrack: centripetal circuit".to_string()),
        groups: vec![empty, prop_group("ignored heading", &[("Compound", "Medium")])],
    };
    let (_, _, setup) = setup_from_doc(&doc, &config).expect("parse");
    assert_eq!(setup.len(), 1);
    assert_eq!(setup.key_at(0), "Tire Compound");
}

/// The sibling scan of one heading: a text node naming a property, values
/// from markup nodes, a double line break ending the group, and a value
/// before any name ending it too.
#[test]
fn test_get_properties_scan() {
    let nodes = vec![
        SibNode::Text {
            text: " Cold pressure: ".to_string(),
        },
        SibNode::Element {
            is_br: false,
            text: " 25.0 psi ".to_string(),
        },
        SibNode::Element {
            is_br: true,
            text: String::new(),
        },
        SibNode::Element {
            is_br: true,
            text: String::new(),
        },
        SibNode::Text {
            text: "Never read:".to_string(),
        },
    ];
    let props = get_properties(&nodes);
    assert_eq!(props.len(), 1);
    assert_eq!(props.key_at(0), "Cold pressure");
    assert_eq!(
        props.get_all("Cold pressure").cloned(),
        Some(vec!["25.0 psi".to_string()]),
    );

    // A value-bearing element before any property name ends the scan.
    let nodes = vec![
        SibNode::Element {
            is_br: false,
            text: "stray".to_string(),
        },
        SibNode::Text {
            text: "Name:".to_string(),
        },
        SibNode::Element {
            is_br: false,
            text: "value".to_string(),
        },
    ];
    let props = get_properties(&nodes);
    assert_eq!(props.len(), 0);
}

/// Export bytes use a legacy single-byte encoding: each byte decodes to
/// the character with the same code point.
#[test]
fn test_latin1_decoding() {
    let config = test_config();
    let mut setups = Setups::new();
    let mut bytes = Vec::new();
    bytes.extend_from_slice(b"<html><body><h2 align=\"center\">Setup Export\nrt2000 setup: x.sto\nTrack: centripetal circuit</h2><h2>Front</h2>Brake bias:<u>54% f");
    bytes.push(0xfc);
    bytes.extend_from_slice(b"r</u><br><br></body></html>");
    let result = setups.update(
        &Event::Create {
            path: "/exports/latin.htm".to_string(),
            is_file: true,
            bytes: Some(bytes),
        },
        &config,
    );
    assert_eq!(result.len(), 1);
    let infos = setups.tracks()[0].cars()[0].setups();
    let front = infos[0].setup().get("Front").expect("group Front");
    assert_eq!(
        front.get_all("Brake bias").cloned(),
        Some(vec!["54% f\u{fc}r".to_string()]),
    );
}

/// The group scan stops at notes and driver-aid headings in any letter
/// case.
#[test]
fn test_stop_headings() {
    let config = test_config();
    let header = "x\nrt2000 setup: y.sto\nTrack: centripetal circuit".to_string();
    let doc = SetupDoc {
        header: Some(header.clone()),
        groups: vec![
            prop_group("Front", &[("Brake bias", "54%")]),
            prop_group("NOTES", &[("ignored", "1")]),
            prop_group("Rear", &[("Fuel level", "4.2 gal")]),
        ],
    };
    let (_, _, setup) = setup_from_doc(&doc, &config).expect("parse");
    assert_eq!(setup.len(), 1);
    assert_eq!(setup.key_at(0), "Front");

    let doc = SetupDoc {
        header: Some(header),
        groups: vec![
            prop_group("Driver Aids", &[("ignored", "1")]),
        ],
    };
    let (_, _, setup) = setup_from_doc(&doc, &config).expect("parse");
    assert_eq!(setup.len(), 0);
}

/// Resolved names fall back to the raw tokens when the dictionaries know
/// nothing about them.
#[test]
fn test_unresolved_names() {
    let config = DictConfig::new();
    let doc = SetupDoc {
        header: Some("x\nsome car setup: y.sto\nTrack: mystery venue".to_string()),
        groups: vec![prop_group("Front", &[("Brake bias", "54%")])],
    };
    let (track, car, _) = setup_from_doc(&doc, &config).expect("parse");
    assert_eq!(track, "mystery_venue");
    assert_eq!(car, "some_car");
}

/// Text values buffered before the first property name stay buffered and
/// land under that first name.
#[test]
fn test_get_properties_early_values() {
    let nodes = vec![
        SibNode::Text {
            text: "junk".to_string(),
        },
        SibNode::Text {
            text: "Name:".to_string(),
        },
        SibNode::Element {
            is_br: false,
            text: "v1".to_string(),
        },
        SibNode::Element {
            is_br: true,
            text: String::new(),
        },
        SibNode::Element {
            is_br: true,
            text: String::new(),
        },
    ];
    let props = get_properties(&nodes);
    assert_eq!(props.len(), 1);
    assert_eq!(
        props.get_all("Name").cloned(),
        Some(vec!["junk".to_string(), "v1".to_string()]),
    );
}

/// A text node between two line breaks does not reset the break state:
/// the second break still ends the scan.
#[test]
fn test_get_properties_text_between_breaks() {
    let nodes = vec![
        SibNode::Text {
            text: "Name:".to_string(),
        },
        SibNode::Element {
            is_br: false,
            text: "v1".to_string(),
        },
        SibNode::Element {
            is_br: true,
            text: String::new(),
        },
        SibNode::Text {
            text: "  ".to_string(),
        },
        SibNode::Element {
            is_br: true,
            text: String::new(),
        },
        SibNode::Text {
            text: "Unseen:".to_string(),
        },
        SibNode::Element {
            is_br: false,
            text: "v2".to_string(),
        },
    ];
    let props = get_properties(&nodes);
    assert_eq!(props.len(), 1);
    assert_eq!(
        props.get_all("Name").cloned(),
        Some(vec!["v1".to_string(), "".to_string()]),
    );
}

/// A run of headings without properties passes the name of the first one
/// in the run to the next heading that has properties.
#[test]
fn test_pending_name_keeps_first() {
    let config = test_config();
    let doc = SetupDoc {
        header: Some("x\nrt2000 setup: y.sto\nTrack: centripetal circuit".to_string()),
        groups: vec![
            RawHeading {
                text: "Alpha".to_string(),
                nodes: vec![],
            },
            RawHeading {
                text: "Beta".to_string(),
                nodes: vec![],
            },
            prop_group("Gamma", &[("Key", "value")]),
        ],
    };
    let (_, _, setup) = setup_from_doc(&doc, &config).expect("parse");
    assert_eq!(setup.len(), 1);
    assert_eq!(setup.key_at(0), "Alpha");
}

/// A hint-matched rename keeps the entry's position even when the new
/// name would sort elsewhere: replacement is in place by design.
#[test]
fn test_rename_keeps_position() {
    let config = test_config();
    let mut setups = Setups::new();
    for stem in ["alpha", "bravo"] {
        let html = export_html(stem);
        let path = format!("/exports/{}.htm", stem);
        setups.update(&create_event(&path, &html), &config);
    }

    let result = setups.update(
        &Event::Rename {
            from: "/exports/bravo.htm".to_string(),
            to: "/exports/aardvark.htm".to_string(),
            to_is_file: true,
            bytes: Some(export_html("aardvark").as_bytes().to_vec()),
        },
        &config,
    );
    assert_eq!(result, vec![]);
    let infos = setups.tracks()[0].cars()[0].setups();
    assert_eq!(infos.len(), 2);
    assert_eq!(infos[0].name(), "alpha");
    assert_eq!(infos[1].name(), "aardvark");
}
