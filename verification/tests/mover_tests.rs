use fs_cleaner::{flatten, Error, NestingCandidate};

fn setup() -> NestingCandidate {
    NestingCandidate {
        parent: "/tmp/project".to_string(),
        nested: "/tmp/project/project".to_string(),
        children: vec![
            "/tmp/project/project/file.txt".to_string(),
            "/tmp/project/project/src".to_string(),
        ],
    }
}

#[test]
fn dry_run_does_not_modify_filesystem() {
    // planning never touches the filesystem; a dry run only reports the
    // plan, so the plan itself is all there is to check
    let candidate = setup();
    let parent_entries = vec!["project".to_string()];
    let result = flatten(&candidate, &parent_entries).unwrap();
    assert_eq!(result.moved.len(), 2);
}

#[test]
fn apply_moves_files() {
    let candidate = setup();
    let parent_entries = vec!["project".to_string()];
    let result = flatten(&candidate, &parent_entries).unwrap();

    assert_eq!(result.moved.len(), 2);
    assert_eq!(result.moved[0].from, "/tmp/project/project/file.txt");
    assert_eq!(result.moved[0].to, "/tmp/project/file.txt");
    assert_eq!(result.moved[1].from, "/tmp/project/project/src");
    assert_eq!(result.moved[1].to, "/tmp/project/src");
}

#[test]
fn collision_aborts() {
    let candidate = setup();
    // conflicting file.txt in the parent
    let parent_entries = vec!["project".to_string(), "file.txt".to_string()];
    let err = flatten(&candidate, &parent_entries).unwrap_err();
    assert!(matches!(err, Error::Collision { .. }));
    if let Error::Collision { existing } = err {
        assert_eq!(existing, "/tmp/project/file.txt");
    }
}

#[test]
fn plan_is_deterministic() {
    // a dry run reports exactly what a later apply will perform
    let candidate = setup();
    let parent_entries = vec!["project".to_string()];
    let first = flatten(&candidate, &parent_entries).unwrap();
    let second = flatten(&candidate, &parent_entries).unwrap();
    assert_eq!(first.moved.len(), second.moved.len());
    for (a, b) in first.moved.iter().zip(second.moved.iter()) {
        assert_eq!(a.from, b.from);
        assert_eq!(a.to, b.to);
    }
}

#[test]
fn child_named_like_nested_directory_is_skipped() {
    let candidate = NestingCandidate {
        parent: "/tmp/project".to_string(),
        nested: "/tmp/project/project".to_string(),
        children: vec![
            "/tmp/project/project/a.txt".to_string(),
            "/tmp/project/project/project".to_string(),
        ],
    };
    let parent_entries = vec!["project".to_string()];
    let result = flatten(&candidate, &parent_entries).unwrap();
    assert_eq!(result.moved.len(), 1);
    assert_eq!(result.moved[0].from, "/tmp/project/project/a.txt");
}
