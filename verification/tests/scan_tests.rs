use fs_cleaner::{scan, NestingCandidate};

fn make_candidate() -> NestingCandidate {
    let parent = "/tmp/project".to_string();
    let nested = "/tmp/project/project".to_string();
    let children = vec![
        "/tmp/project/project/file.txt".to_string(),
        "/tmp/project/project/src".to_string(),
    ];
    NestingCandidate {
        parent,
        nested,
        children,
    }
}

#[test]
fn no_collisions_when_parent_is_clean() {
    let candidate = make_candidate();
    // the parent holds only the nested directory itself
    let parent_entries = vec!["project".to_string()];
    let report = scan(&candidate, &parent_entries, &vec![]);
    assert!(report.collisions.is_empty());
    assert!(report.is_safe());
}

#[test]
fn collision_detected() {
    let candidate = make_candidate();
    // a conflicting file.txt already sits in the parent
    let parent_entries = vec!["project".to_string(), "file.txt".to_string()];
    let report = scan(&candidate, &parent_entries, &vec![]);
    assert_eq!(report.collisions.len(), 1);
    assert!(!report.is_safe());
    assert_eq!(report.collisions[0].source, "/tmp/project/project/file.txt");
    assert_eq!(report.collisions[0].existing, "/tmp/project/file.txt");
}

#[test]
fn symlink_risk_detected() {
    let candidate = make_candidate();
    let parent_entries = vec!["project".to_string()];
    let links = vec![(
        "/tmp/project/project/link".to_string(),
        "/tmp/project/project/file.txt".to_string(),
    )];
    let report = scan(&candidate, &parent_entries, &links);
    assert!(!report.symlink_risks.is_empty());
    assert_eq!(report.symlink_risks[0].link, "/tmp/project/project/link");
    assert_eq!(report.symlink_risks[0].target, "/tmp/project/project/file.txt");
    assert!(report.symlink_risks[0].target_inside_nested);
}

#[test]
fn symlink_target_outside_nested_is_classified() {
    let candidate = make_candidate();
    let parent_entries = vec!["project".to_string()];
    let links = vec![
        ("/tmp/project/project/a".to_string(), "/etc/hosts".to_string()),
        ("/tmp/project/project/b".to_string(), "../file.txt".to_string()),
    ];
    let report = scan(&candidate, &parent_entries, &links);
    assert_eq!(report.symlink_risks.len(), 2);
    assert!(!report.symlink_risks[0].target_inside_nested);
    assert!(!report.symlink_risks[1].target_inside_nested);
}

#[test]
fn nested_directory_own_name_is_not_a_collision() {
    // a child named like the parent would land on the nested directory
    // itself, which is expected to exist: never a collision
    let parent = "/tmp/project".to_string();
    let nested = "/tmp/project/project".to_string();
    let children = vec!["/tmp/project/project/project".to_string()];
    let candidate = NestingCandidate {
        parent,
        nested,
        children,
    };
    let parent_entries = vec!["project".to_string()];
    let report = scan(&candidate, &parent_entries, &vec![]);
    assert!(report.collisions.is_empty());
}
