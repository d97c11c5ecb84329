use fs_cleaner::{file_name, join, path_starts_with, sort_strings, str_le};

#[test]
fn file_name_of_ordinary_paths() {
    assert_eq!(file_name(&"/a/b".to_string()), Some("b".to_string()));
    assert_eq!(file_name(&"/work/project".to_string()), Some("project".to_string()));
    assert_eq!(file_name(&"name".to_string()), Some("name".to_string()));
}

#[test]
fn file_name_of_root_and_empty() {
    assert_eq!(file_name(&"/".to_string()), None);
    assert_eq!(file_name(&"".to_string()), None);
}

#[test]
fn join_glues_with_one_slash() {
    assert_eq!(join(&"/a/b".to_string(), &"c".to_string()), "/a/b/c");
}

#[test]
fn path_prefix_is_component_wise() {
    let nested = "/a/b".to_string();
    assert!(path_starts_with(&"/a/b".to_string(), &nested));
    assert!(path_starts_with(&"/a/b/c".to_string(), &nested));
    assert!(!path_starts_with(&"/a/bc".to_string(), &nested));
    assert!(!path_starts_with(&"/a".to_string(), &nested));
    assert!(!path_starts_with(&"../b".to_string(), &nested));
}

#[test]
fn string_order_is_lexicographic() {
    assert!(str_le(&"a".to_string(), &"b".to_string()));
    assert!(str_le(&"a".to_string(), &"a".to_string()));
    assert!(str_le(&"a".to_string(), &"ab".to_string()));
    assert!(!str_le(&"b".to_string(), &"ab".to_string()));
    assert!(str_le(&"README.md".to_string(), &"src".to_string()));
}

#[test]
fn sort_orders_and_keeps_everything() {
    let v = vec![
        "pear".to_string(),
        "apple".to_string(),
        "orange".to_string(),
        "apple".to_string(),
    ];
    let sorted = sort_strings(v);
    assert_eq!(
        sorted,
        vec![
            "apple".to_string(),
            "apple".to_string(),
            "orange".to_string(),
            "pear".to_string(),
        ]
    );
}
