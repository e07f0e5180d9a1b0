use mila::{LayeredFilesystemError, TextArchive};
use text_data::{default_localized_value, TextData, TextDataDefinition, TextDataError};

fn def(path: &str, localized: bool) -> TextDataDefinition {
    TextDataDefinition {
        path: path.to_string(),
        localized,
    }
}

fn missing() -> LayeredFilesystemError {
    LayeredFilesystemError::FileNotFound("missing".to_string())
}

fn is_load_of(r: &Result<(), TextDataError>, p: &str, l: bool) -> bool {
    match r {
        Err(TextDataError::Load { path, localized, .. }) => path == p && *localized == l,
        _ => false,
    }
}

#[test]
fn localized_defaults_to_true() {
    assert!(default_localized_value());
}

#[test]
fn fresh_cache_holds_nothing() {
    let td = TextData::from_definitions(vec![def("m/a.bin.lz", true)]);
    assert!(!td.has_message("m/a.bin.lz".to_string(), true, "K"));
    assert_eq!(td.message("m/a.bin.lz".to_string(), true, "K"), None);
    assert_eq!(td.enumerate_messages("m/a.bin.lz".to_string(), true), None);
}

#[test]
fn set_message_on_unopened_archive_is_not_loaded() {
    let mut td = TextData::from_definitions(vec![]);
    let r = td.set_message("m/x.bin.lz".to_string(), true, "K", Some("v".to_string()));
    match r {
        Err(TextDataError::NotLoaded { path, localized }) => {
            assert_eq!(path, "m/x.bin.lz");
            assert!(localized);
        }
        other => panic!("unexpected {:?}", other),
    }
    assert!(!td.has_message("m/x.bin.lz".to_string(), true, "K"));
}

#[test]
fn set_then_message_round_trips() {
    let mut td = TextData::from_definitions(vec![]);
    td.new_archive("m/a.bin.lz".to_string(), true);
    td.set_message("m/a.bin.lz".to_string(), true, "GREETING", Some("hi".to_string()))
        .unwrap();
    assert!(td.has_message("m/a.bin.lz".to_string(), true, "GREETING"));
    assert_eq!(
        td.message("m/a.bin.lz".to_string(), true, "GREETING"),
        Some("hi".to_string())
    );
    td.set_message("m/a.bin.lz".to_string(), true, "GREETING", Some("bye".to_string()))
        .unwrap();
    assert_eq!(
        td.message("m/a.bin.lz".to_string(), true, "GREETING"),
        Some("bye".to_string())
    );
}

#[test]
fn localization_flag_separates_archives() {
    let mut td = TextData::from_definitions(vec![]);
    td.new_archive("m/a.bin.lz".to_string(), true);
    td.set_message("m/a.bin.lz".to_string(), true, "K", Some("v".to_string()))
        .unwrap();
    assert!(!td.has_message("m/a.bin.lz".to_string(), false, "K"));
    assert!(td
        .set_message("m/a.bin.lz".to_string(), false, "K", None)
        .is_err());
}

#[test]
fn escaped_line_breaks_are_kept() {
    let mut td = TextData::from_definitions(vec![]);
    td.new_archive("m/a.bin.lz".to_string(), true);
    td.set_message("m/a.bin.lz".to_string(), true, "K", Some("one\\ntwo".to_string()))
        .unwrap();
    assert_eq!(
        td.message("m/a.bin.lz".to_string(), true, "K"),
        Some("one\\ntwo".to_string())
    );
}

#[test]
fn raw_line_breaks_read_back_escaped() {
    let mut td = TextData::from_definitions(vec![]);
    td.new_archive("m/a.bin.lz".to_string(), true);
    td.set_message("m/a.bin.lz".to_string(), true, "K", Some("one\ntwo".to_string()))
        .unwrap();
    assert_eq!(
        td.message("m/a.bin.lz".to_string(), true, "K"),
        Some("one\\ntwo".to_string())
    );
}

#[test]
fn delete_removes_key_present_or_not() {
    let mut td = TextData::from_definitions(vec![]);
    td.new_archive("m/a.bin.lz".to_string(), false);
    assert!(td.set_message("m/a.bin.lz".to_string(), false, "ABSENT", None).is_ok());
    assert!(!td.has_message("m/a.bin.lz".to_string(), false, "ABSENT"));
    td.set_message("m/a.bin.lz".to_string(), false, "K", Some("v".to_string()))
        .unwrap();
    td.set_message("m/a.bin.lz".to_string(), false, "K", None).unwrap();
    assert!(!td.has_message("m/a.bin.lz".to_string(), false, "K"));
    assert_eq!(td.message("m/a.bin.lz".to_string(), false, "K"), None);
}

#[test]
fn enumerate_messages_lists_live_keys() {
    let mut td = TextData::from_definitions(vec![]);
    td.new_archive("m/a.bin.lz".to_string(), true);
    assert_eq!(
        td.enumerate_messages("m/a.bin.lz".to_string(), true),
        Some(vec![])
    );
    for k in ["A", "B", "C"] {
        td.set_message("m/a.bin.lz".to_string(), true, k, Some("x".to_string()))
            .unwrap();
    }
    td.set_message("m/a.bin.lz".to_string(), true, "B", None).unwrap();
    td.set_message("m/a.bin.lz".to_string(), true, "A", Some("y".to_string()))
        .unwrap();
    let mut keys = td
        .enumerate_messages("m/a.bin.lz".to_string(), true)
        .unwrap();
    keys.sort();
    assert_eq!(keys, vec!["A".to_string(), "C".to_string()]);
    assert_eq!(td.enumerate_messages("m/b.bin.lz".to_string(), true), None);
}

#[test]
fn new_archive_replaces_existing() {
    let mut td = TextData::from_definitions(vec![]);
    td.new_archive("m/a.bin.lz".to_string(), true);
    td.set_message("m/a.bin.lz".to_string(), true, "K", Some("v".to_string()))
        .unwrap();
    td.new_archive("m/a.bin.lz".to_string(), true);
    assert!(!td.has_message("m/a.bin.lz".to_string(), true, "K"));
}

#[test]
fn accept_archive_stores_or_reports() {
    let mut td = TextData::from_definitions(vec![]);
    assert!(td
        .accept_archive("m/a.bin.lz".to_string(), true, Ok(TextArchive::new()))
        .is_ok());
    assert_eq!(
        td.enumerate_messages("m/a.bin.lz".to_string(), true),
        Some(vec![])
    );
    let r = td.accept_archive("m/b.bin.lz".to_string(), false, Err(missing()));
    assert!(is_load_of(&r, "m/b.bin.lz", false));
    assert_eq!(td.enumerate_messages("m/b.bin.lz".to_string(), false), None);
}

#[test]
fn load_failure_keeps_earlier_archives() {
    let mut td = TextData::from_definitions(vec![
        def("m/a.bin.lz", true),
        def("m/b.bin.lz", true),
        def("m/c.bin.lz", false),
    ]);
    assert!(td
        .accept_archive("m/a.bin.lz".to_string(), true, Ok(TextArchive::new()))
        .is_ok());
    let r = td.accept_archive("m/b.bin.lz".to_string(), true, Err(missing()));
    assert!(is_load_of(&r, "m/b.bin.lz", true));
    assert!(td.enumerate_messages("m/a.bin.lz".to_string(), true).is_some());
    assert!(td.enumerate_messages("m/b.bin.lz".to_string(), true).is_none());
    assert!(td.enumerate_messages("m/c.bin.lz".to_string(), false).is_none());
}

#[test]
fn archive_listing_is_mount_and_pattern() {
    assert_eq!(TextData::archive_listing(), ("m", "**/*.bin.lz"));
}

#[test]
fn accept_listing_hands_back_or_wraps() {
    let paths = vec!["m/a.bin.lz".to_string(), "m/b/c.bin.lz".to_string()];
    assert_eq!(TextData::accept_listing(Ok(paths.clone())).unwrap(), paths);
    match TextData::accept_listing(Err(missing())) {
        Err(TextDataError::Enumeration { source }) => {
            assert!(matches!(source, LayeredFilesystemError::FileNotFound(ref f) if f == "missing"))
        }
        other => panic!("unexpected {:?}", other),
    }
}

#[test]
fn accept_write_names_archive() {
    let key = TextData::accept_write("m/a.bin.lz".to_string(), false, Ok(())).unwrap();
    assert_eq!(key.path, "m/a.bin.lz");
    assert!(!key.localized);
    match TextData::accept_write("m/b.bin.lz".to_string(), true, Err(missing())) {
        Err(TextDataError::Save {
            path,
            localized,
            source,
        }) => {
            assert_eq!(path, "m/b.bin.lz");
            assert!(localized);
            assert!(matches!(source, LayeredFilesystemError::FileNotFound(_)));
        }
        other => panic!("unexpected {:?}", other),
    }
}

#[test]
fn load_error_carries_filesystem_error() {
    let mut td = TextData::from_definitions(vec![]);
    match td.accept_archive("m/a.bin.lz".to_string(), true, Err(missing())) {
        Err(TextDataError::Load { source, .. }) => {
            assert!(matches!(source, LayeredFilesystemError::FileNotFound(ref f) if f == "missing"))
        }
        other => panic!("unexpected {:?}", other),
    }
}

#[test]
fn enumerate_messages_follows_last_set_order() {
    let mut td = TextData::from_definitions(vec![]);
    td.new_archive("m/a.bin.lz".to_string(), true);
    for k in ["A", "B", "C"] {
        td.set_message("m/a.bin.lz".to_string(), true, k, Some("x".to_string()))
            .unwrap();
    }
    td.set_message("m/a.bin.lz".to_string(), true, "A", Some("y".to_string()))
        .unwrap();
    td.set_message("m/a.bin.lz".to_string(), true, "B", None).unwrap();
    assert_eq!(
        td.enumerate_messages("m/a.bin.lz".to_string(), true),
        Some(vec!["C".to_string(), "A".to_string()])
    );
}

fn is_load_step_of(r: &Result<bool, TextDataError>, p: &str, l: bool) -> bool {
    match r {
        Err(TextDataError::Load { path, localized, .. }) => path == p && *localized == l,
        _ => false,
    }
}

#[test]
fn reload_stops_at_failing_definition() {
    let mut td = TextData::from_definitions(vec![
        def("m/a.bin.lz", true),
        def("m/b.bin.lz", true),
        def("m/c.bin.lz", false),
    ]);
    td.new_archive("m/stale.bin.lz".to_string(), true);
    td.begin_reload();
    assert_eq!(td.enumerate_messages("m/stale.bin.lz".to_string(), true), None);
    assert_eq!(td.read_step(0, Ok(TextArchive::new())).unwrap(), true);
    let r = td.read_step(1, Err(missing()));
    assert!(is_load_step_of(&r, "m/b.bin.lz", true));
    assert!(td.enumerate_messages("m/a.bin.lz".to_string(), true).is_some());
    assert!(td.enumerate_messages("m/b.bin.lz".to_string(), true).is_none());
    assert!(td.enumerate_messages("m/c.bin.lz".to_string(), false).is_none());
}

#[test]
fn reload_reports_when_definitions_run_out() {
    let mut td = TextData::from_definitions(vec![def("m/a.bin.lz", true), def("m/b.bin.lz", false)]);
    assert_eq!(td.definition_count(), 2);
    assert_eq!(td.definition(1).path, "m/b.bin.lz");
    assert!(!td.definition(1).localized);
    td.begin_reload();
    assert_eq!(td.read_step(0, Ok(TextArchive::new())).unwrap(), true);
    assert_eq!(td.read_step(1, Ok(TextArchive::new())).unwrap(), false);
    assert!(!td.needs_load("m/a.bin.lz".to_string(), true));
    assert!(!td.needs_load("m/b.bin.lz".to_string(), false));
}

#[test]
fn reload_of_no_definitions_empties_cache() {
    let mut td = TextData::from_definitions(vec![]);
    td.new_archive("m/stale.bin.lz".to_string(), true);
    td.begin_reload();
    assert_eq!(td.enumerate_messages("m/stale.bin.lz".to_string(), true), None);
}

#[test]
fn loaded_archive_needs_no_load() {
    let mut td = TextData::from_definitions(vec![]);
    assert!(td.needs_load("m/a.bin.lz".to_string(), true));
    td.new_archive("m/a.bin.lz".to_string(), true);
    assert!(!td.needs_load("m/a.bin.lz".to_string(), true));
    assert!(td.needs_load("m/a.bin.lz".to_string(), false));
}

#[test]
fn dirty_keys_empty_when_nothing_changed() {
    let mut td = TextData::from_definitions(vec![]);
    td.new_archive("m/a.bin.lz".to_string(), true);
    assert!(td
        .accept_archive("m/b.bin.lz".to_string(), false, Ok(TextArchive::new()))
        .is_ok());
    assert!(td.dirty_keys().is_empty());
}

#[test]
fn only_changed_archive_is_to_be_written() {
    let mut td = TextData::from_definitions(vec![def("m/a.bin.lz", true)]);
    td.new_archive("m/untouched.bin.lz".to_string(), true);
    td.begin_reload();
    assert_eq!(td.read_step(0, Ok(TextArchive::new())).unwrap(), false);
    td.new_archive("m/untouched.bin.lz".to_string(), true);
    td.set_message("m/a.bin.lz".to_string(), true, "GREETING", Some("hi".to_string()))
        .unwrap();
    assert!(td.has_message("m/a.bin.lz".to_string(), true, "GREETING"));
    let keys = td.dirty_keys();
    assert_eq!(keys.len(), 1);
    assert_eq!(keys[0].path, "m/a.bin.lz");
    assert!(keys[0].localized);
    let store = td.archive_for("m/a.bin.lz".to_string(), true).unwrap();
    assert_eq!(store.get_message("GREETING"), Some("hi".to_string()));
    assert!(td.archive_for("m/none.bin.lz".to_string(), true).is_none());
}

#[test]
fn deletion_marks_archive_changed() {
    let mut td = TextData::from_definitions(vec![]);
    td.new_archive("m/pruned.bin.lz".to_string(), false);
    td.set_message("m/pruned.bin.lz".to_string(), false, "K", None)
        .unwrap();
    let keys = td.dirty_keys();
    assert_eq!(keys.len(), 1);
    assert_eq!(keys[0].path, "m/pruned.bin.lz");
}
