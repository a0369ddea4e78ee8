use skeletor::errors::SkeletorError;
use skeletor::path::TreePath;
use skeletor::tasks::{compute_stats, traverse_structure, Task};
use skeletor::utils::parse_yaml_string;
use skeletor::value::ConfigValue;

fn text(s: &str) -> ConfigValue {
    ConfigValue::Text(s.to_string())
}

fn mapping(entries: Vec<(&str, ConfigValue)>) -> ConfigValue {
    ConfigValue::Mapping(entries.into_iter().map(|(k, v)| (text(k), v)).collect())
}

#[test]
fn test_traverse_structure() {
    let structure = parse_yaml_string(
        r#"
            src:
              index.js: "console.log('Hello, world!');"
              components:
                Header.js: "// Header component"
            "#,
    )
    .expect("Failed to parse YAML");

    let tasks = traverse_structure(&TreePath::parse("."), &structure).unwrap();

    let expected_tasks = vec![
        Task::Dir(TreePath::parse("./src")),
        Task::File(
            TreePath::parse("./src/index.js"),
            "console.log('Hello, world!');".to_string(),
        ),
        Task::Dir(TreePath::parse("./src/components")),
        Task::File(
            TreePath::parse("./src/components/Header.js"),
            "// Header component".to_string(),
        ),
    ];

    assert_eq!(tasks, expected_tasks);
}

#[test]
fn test_traverse_structure_with_non_mapping_values() {
    let structure = parse_yaml_string(
        r#"
            src:
              file.txt: "content"
              number: 42
              boolean: true
              array: [1, 2, 3]
            "#,
    )
    .unwrap();

    let tasks = traverse_structure(&TreePath::parse("."), &structure).unwrap();

    // Only string values should create file tasks
    let file_tasks: Vec<_> = tasks.iter().filter(|t| matches!(t, Task::File(_, _))).collect();
    assert_eq!(file_tasks.len(), 1);

    let dir_tasks: Vec<_> = tasks.iter().filter(|t| matches!(t, Task::Dir(_))).collect();
    assert_eq!(dir_tasks.len(), 1); // Just the "src" directory
}

#[test]
fn test_traverse_structure_empty_input() {
    let empty_structure = ConfigValue::Mapping(Vec::new());
    let tasks = traverse_structure(&TreePath::parse("."), &empty_structure).unwrap();
    assert!(tasks.is_empty());
}

#[test]
fn tasks_test_compute_stats() {
    let yaml_str = r#"
        src:
          index.js: "console.log('Hello, world!');"
          components:
            Header.js: "// Header component"
        "#;
    let yaml = parse_yaml_string(yaml_str).expect("Failed to parse YAML");

    let (files, dirs) = compute_stats(&yaml);

    assert_eq!(files, 2);
    assert_eq!(dirs, 2); // One for "src" and one for "components"
}

#[test]
fn snapshot_test_compute_stats() {
    let yaml_str = r#"
        src:
          index.js: "console.log('Hello, world!');"
          components:
            Header.js: "// Header component"
        "#;

    let yaml = parse_yaml_string(yaml_str).expect("Failed to parse YAML");

    let (files, dirs) = compute_stats(&yaml);

    assert_eq!(files, 2);
    assert_eq!(dirs, 2); // One for "src" and one for "components"
}

#[test]
fn test_compute_stats_empty_structure() {
    let empty_yaml = ConfigValue::Mapping(Vec::new());
    let (files, dirs) = compute_stats(&empty_yaml);
    assert_eq!(files, 0);
    assert_eq!(dirs, 0);
}

#[test]
fn test_compute_stats_non_string_values() {
    let yaml_str = r#"
        root:
          file.txt: "content"
          number: 42
          boolean: true
          nested:
            another.txt: "more content"
        "#;
    let yaml = parse_yaml_string(yaml_str).unwrap();
    let (files, dirs) = compute_stats(&yaml);

    // Should only count string values as files
    assert_eq!(files, 2); // file.txt and another.txt
    assert_eq!(dirs, 2); // root and nested
}

#[test]
fn traversal_is_depth_first_in_declared_order() {
    let config = mapping(vec![(
        "src",
        mapping(vec![("a.txt", text("x")), ("sub", mapping(vec![("b.txt", text("y"))]))]),
    )]);
    let tasks = traverse_structure(&TreePath::parse("."), &config).unwrap();
    assert_eq!(
        tasks,
        vec![
            Task::Dir(TreePath::parse("src")),
            Task::File(TreePath::parse("src/a.txt"), "x".to_string()),
            Task::Dir(TreePath::parse("src/sub")),
            Task::File(TreePath::parse("src/sub/b.txt"), "y".to_string()),
        ]
    );
    let texts: Vec<String> = tasks.iter().map(|t| t.path().to_text()).collect();
    assert_eq!(texts, vec!["src", "src/a.txt", "src/sub", "src/sub/b.txt"]);
}

#[test]
fn a_directory_comes_before_the_siblings_that_follow_it() {
    let config = mapping(vec![("a", mapping(vec![("x", text("1"))])), ("b", text("2"))]);
    let tasks = traverse_structure(&TreePath::parse("out"), &config).unwrap();
    let texts: Vec<String> = tasks.iter().map(|t| t.path().to_text()).collect();
    assert_eq!(texts, vec!["out/a", "out/a/x", "out/b"]);
}

#[test]
fn a_key_that_steps_to_the_parent_fails_the_traversal() {
    let config = mapping(vec![("ok.txt", text("fine")), ("../escape", text("x"))]);
    match traverse_structure(&TreePath::parse("."), &config) {
        Err(SkeletorError::InvalidPath { key }) => assert_eq!(key, "../escape"),
        other => panic!("expected InvalidPath, got {:?}", other),
    }
}

#[test]
fn unsafe_keys_are_refused_wherever_they_stand() {
    for key in ["/etc/passwd", "\\server\\share", "C:\\Windows", "c:file", "a/../../b", "a\\..\\b", ".."] {
        let config = mapping(vec![("dir", mapping(vec![(key, ConfigValue::Unsigned(1))]))]);
        match traverse_structure(&TreePath::parse("root"), &config) {
            Err(SkeletorError::InvalidPath { key: found }) => assert_eq!(found, key),
            other => panic!("expected InvalidPath for {:?}, got {:?}", key, other),
        }
    }
}

#[test]
fn keys_with_plain_steps_are_followed() {
    let config = mapping(vec![("a/b.txt", text("x")), ("./c", mapping(vec![])), ("..d", text("y"))]);
    let tasks = traverse_structure(&TreePath::parse("/tmp/out/"), &config).unwrap();
    let texts: Vec<String> = tasks.iter().map(|t| t.path().to_text()).collect();
    assert_eq!(texts, vec!["/tmp/out/a/b.txt", "/tmp/out/c", "/tmp/out/..d"]);
}

#[test]
fn entries_without_a_text_key_ask_for_nothing() {
    let config = ConfigValue::Mapping(vec![
        (ConfigValue::Unsigned(7), text("seven")),
        (text("kept"), text("content")),
        (ConfigValue::Null, ConfigValue::Mapping(vec![])),
    ]);
    let tasks = traverse_structure(&TreePath::parse("."), &config).unwrap();
    assert_eq!(tasks, vec![Task::File(TreePath::parse("kept"), "content".to_string())]);
    assert_eq!(compute_stats(&config), (1, 0));
}

#[test]
fn stats_agree_with_the_tasks_of_a_traversal() {
    let config = mapping(vec![
        ("a", mapping(vec![("b", mapping(vec![("c.txt", text(""))])), ("d.txt", text("d"))])),
        ("e.txt", text("e")),
        ("n", ConfigValue::Unsigned(3)),
    ]);
    let tasks = traverse_structure(&TreePath::parse("base"), &config).unwrap();
    let files = tasks.iter().filter(|t| matches!(t, Task::File(_, _))).count();
    let dirs = tasks.iter().filter(|t| matches!(t, Task::Dir(_))).count();
    assert_eq!(compute_stats(&config), (files, dirs));
    assert_eq!((files, dirs), (3, 2));
}

#[test]
fn a_tree_that_is_no_mapping_asks_for_nothing() {
    assert!(traverse_structure(&TreePath::parse("."), &text("x")).unwrap().is_empty());
    assert_eq!(compute_stats(&ConfigValue::Null), (0, 0));
}

#[test]
fn a_deep_tree_is_walked_to_the_bottom() {
    let depth = 2000;
    let mut tree = mapping(vec![("leaf.txt", text("bottom"))]);
    for _ in 0..depth {
        tree = mapping(vec![("d", tree), ("f", text(""))]);
    }
    let tasks = traverse_structure(&TreePath::parse("top"), &tree).unwrap();
    assert_eq!(tasks.len(), 2 * depth + 1);
    assert_eq!(tasks[0].path().to_text(), "top/d");
    assert_eq!(tasks[depth].path().segment_count(), depth + 2);
    assert_eq!(tasks[depth].path().segment(depth + 1), Some("leaf.txt"));
    assert_eq!(tasks[depth + 1].path().segment_count(), depth + 1);
    assert_eq!(tasks[2 * depth].path().to_text(), "top/f");
    assert_eq!(compute_stats(&tree), (depth + 1, depth));
}
