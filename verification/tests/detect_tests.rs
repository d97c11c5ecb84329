use fs_cleaner::{detect_nesting, Error};

#[test]
fn detect_simple_nesting() {
    let root = "/work/project".to_string();
    // names inside /work/project/project, deliberately unsorted
    let listing = Some(vec!["src".to_string(), "README.md".to_string()]);

    let results = detect_nesting(&root, &listing).unwrap();
    assert_eq!(results.len(), 1);

    let candidate = &results[0];
    assert_eq!(candidate.parent, "/work/project");
    assert_eq!(candidate.nested, "/work/project/project");
    assert_eq!(candidate.children.len(), 2); // README.md and src/
    assert_eq!(candidate.children[0], "/work/project/project/README.md");
    assert_eq!(candidate.children[1], "/work/project/project/src");
}

#[test]
fn no_nesting_detected() {
    // /work/project holds only other_name, so there is no self-named child
    // directory and nothing to list.
    let root = "/work/project".to_string();
    let results = detect_nesting(&root, &None).unwrap();
    assert!(results.is_empty());
}

#[test]
fn detect_on_filesystem_root_fails() {
    let root = "/".to_string();
    let err = detect_nesting(&root, &None).unwrap_err();
    assert!(matches!(err, Error::Other(_)));
}

#[test]
fn detect_children_sorted_and_complete() {
    let root = "/srv/data".to_string();
    let listing = Some(vec![
        "zeta".to_string(),
        "alpha".to_string(),
        "midway".to_string(),
    ]);
    let results = detect_nesting(&root, &listing).unwrap();
    let c = &results[0];
    assert_eq!(
        c.children,
        vec![
            "/srv/data/data/alpha".to_string(),
            "/srv/data/data/midway".to_string(),
            "/srv/data/data/zeta".to_string(),
        ]
    );
}
