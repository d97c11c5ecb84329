use fs_cleaner::{Journal, MoveRecord};

#[test]
fn save_and_load_roundtrip() {
    let mut journal = Journal::new();
    journal.record(vec![MoveRecord {
        from: "/a/b".to_string(),
        to: "/a/c".to_string(),
    }]);

    let saved = journal.to_json();
    assert!(!saved.is_empty());

    let loaded = Journal::from_json(&saved).unwrap();
    assert_eq!(loaded.entries.len(), 1);
    assert_eq!(loaded.entries[0].from, "/a/b");
}

#[test]
fn exact_on_disk_form() {
    let mut journal = Journal::new();
    journal.record(vec![MoveRecord {
        from: "/x".to_string(),
        to: "/y".to_string(),
    }]);
    assert_eq!(journal.to_json(), "[{\"from\":\"/x\",\"to\":\"/y\"}]");
}

#[test]
fn empty_journal_roundtrip() {
    let journal = Journal::new();
    let saved = journal.to_json();
    assert_eq!(saved, "[]");
    let loaded = Journal::from_json(&saved).unwrap();
    assert!(loaded.entries.is_empty());
}

#[test]
fn several_entries_keep_their_order() {
    let mut journal = Journal::new();
    journal.record(vec![
        MoveRecord {
            from: "/p/p/one".to_string(),
            to: "/p/one".to_string(),
        },
        MoveRecord {
            from: "/p/p/two".to_string(),
            to: "/p/two".to_string(),
        },
    ]);
    let loaded = Journal::from_json(&journal.to_json()).unwrap();
    assert_eq!(loaded.entries.len(), 2);
    assert_eq!(loaded.entries[0].from, "/p/p/one");
    assert_eq!(loaded.entries[0].to, "/p/one");
    assert_eq!(loaded.entries[1].from, "/p/p/two");
    assert_eq!(loaded.entries[1].to, "/p/two");
}

#[test]
fn awkward_characters_roundtrip() {
    let mut journal = Journal::new();
    journal.record(vec![MoveRecord {
        from: "/odd/\"quoted\"\\back\nslash\tand\rmore".to_string(),
        to: "/plain".to_string(),
    }]);
    let saved = journal.to_json();
    let loaded = Journal::from_json(&saved).unwrap();
    assert_eq!(loaded.entries[0].from, "/odd/\"quoted\"\\back\nslash\tand\rmore");
    assert_eq!(loaded.entries[0].to, "/plain");
}

#[test]
fn pretty_printed_journal_loads() {
    // the schema with whitespace between tokens, as a pretty printer
    // writes it
    let pretty = "[\n  {\n    \"from\": \"/a/b\",\n    \"to\": \"/a/c\"\n  }\n]";
    let loaded = Journal::from_json(pretty).unwrap();
    assert_eq!(loaded.entries.len(), 1);
    assert_eq!(loaded.entries[0].from, "/a/b");
    assert_eq!(loaded.entries[0].to, "/a/c");
}

#[test]
fn pretty_printed_two_entries_load_in_order() {
    let pretty = "[\n  {\n    \"from\": \"/p/p/one\",\n    \"to\": \"/p/one\"\n  },\n  {\n    \"from\": \"/p/p/two\",\n    \"to\": \"/p/two\"\n  }\n]";
    let loaded = Journal::from_json(pretty).unwrap();
    assert_eq!(loaded.entries.len(), 2);
    assert_eq!(loaded.entries[0].from, "/p/p/one");
    assert_eq!(loaded.entries[1].to, "/p/two");
}

#[test]
fn whitespace_only_journal_forms_load() {
    let loaded = Journal::from_json(" [ ] ").unwrap();
    assert!(loaded.entries.is_empty());
}

#[test]
fn unicode_and_short_escapes_load() {
    let text = "[{\"from\":\"\\u0007x\",\"to\":\"\\b\\f\\/\"}]";
    let loaded = Journal::from_json(text).unwrap();
    assert_eq!(loaded.entries[0].from, "\u{0007}x");
    assert_eq!(loaded.entries[0].to, "\u{0008}\u{000c}/");
}

#[test]
fn control_characters_rendered_as_unicode_escapes() {
    let mut journal = Journal::new();
    journal.record(vec![MoveRecord {
        from: "\u{0001}".to_string(),
        to: "/plain".to_string(),
    }]);
    let saved = journal.to_json();
    assert_eq!(saved, "[{\"from\":\"\\u0001\",\"to\":\"/plain\"}]");
    let loaded = Journal::from_json(&saved).unwrap();
    assert_eq!(loaded.entries[0].from, "\u{0001}");
}

#[test]
fn surrogate_escape_rejected() {
    assert!(Journal::from_json("[{\"from\":\"\\ud800\",\"to\":\"x\"}]").is_err());
}

#[test]
fn malformed_journal_rejected() {
    assert!(Journal::from_json("").is_err());
    assert!(Journal::from_json("not json").is_err());
    assert!(Journal::from_json("[").is_err());
    assert!(Journal::from_json("[{\"from\":\"/a\"}]").is_err());
    assert!(Journal::from_json("[{\"from\":\"/a\",\"to\":\"/b\"}").is_err());
    assert!(Journal::from_json("[{\"from\":\"/a\",\"to\":\"/b\"},]").is_err());
}

#[test]
fn record_appends_in_order() {
    let mut journal = Journal::new();
    journal.record(vec![MoveRecord {
        from: "/1".to_string(),
        to: "/2".to_string(),
    }]);
    journal.record(vec![MoveRecord {
        from: "/3".to_string(),
        to: "/4".to_string(),
    }]);
    assert_eq!(journal.entries.len(), 2);
    assert_eq!(journal.entries[0].from, "/1");
    assert_eq!(journal.entries[1].from, "/3");
}

#[test]
fn rollback_plan_reverses_order() {
    let mut journal = Journal::new();
    journal.record(vec![
        MoveRecord {
            from: "/p/p/a".to_string(),
            to: "/p/a".to_string(),
        },
        MoveRecord {
            from: "/p/p/b".to_string(),
            to: "/p/b".to_string(),
        },
    ]);
    let plan = journal.rollback_plan();
    assert_eq!(plan.len(), 2);
    assert_eq!(plan[0].to, "/p/b");
    assert_eq!(plan[0].from, "/p/p/b");
    assert_eq!(plan[1].to, "/p/a");
    assert_eq!(plan[1].from, "/p/p/a");
}
