use fs_cleaner::{detect_nesting, flatten, Journal};

#[test]
fn flatten_scenario_end_to_end() {
    // root/project/project holds README.md and src/
    let root = "/root/project".to_string();
    let listing = Some(vec!["README.md".to_string(), "src".to_string()]);

    let candidates = detect_nesting(&root, &listing).unwrap();
    assert_eq!(candidates.len(), 1);
    let candidate = &candidates[0];
    assert_eq!(candidate.nested, "/root/project/project");
    assert_eq!(
        candidate.children,
        vec![
            "/root/project/project/README.md".to_string(),
            "/root/project/project/src".to_string(),
        ]
    );

    // the parent holds only the nested directory: nothing collides
    let parent_entries = vec!["project".to_string()];
    let result = flatten(candidate, &parent_entries).unwrap();
    assert_eq!(result.moved.len(), 2);
    assert_eq!(result.moved[0].from, "/root/project/project/README.md");
    assert_eq!(result.moved[0].to, "/root/project/README.md");
    assert_eq!(result.moved[1].from, "/root/project/project/src");
    assert_eq!(result.moved[1].to, "/root/project/src");

    // the journal of the apply maps each old nested path to its new
    // parent-level path, and survives a save/load round trip
    let mut journal = Journal::new();
    journal.record(result.moved);
    let saved = journal.to_json();
    let loaded = Journal::from_json(&saved).unwrap();
    assert_eq!(loaded.entries.len(), 2);
    assert_eq!(loaded.entries[0].from, "/root/project/project/README.md");
    assert_eq!(loaded.entries[0].to, "/root/project/README.md");
    assert_eq!(loaded.entries[1].from, "/root/project/project/src");
    assert_eq!(loaded.entries[1].to, "/root/project/src");
}
