use skeletor::apply::{
    extract_binary_files_from_yaml, extract_ignore_patterns_from_yaml, plan_config, summarize_apply,
};
use skeletor::config::{read_config, SkeletorConfig};
use skeletor::errors::SkeletorError;
use skeletor::info::info_lines;
use skeletor::materialize::{Action, CreationResult, Event, Materializer};
use skeletor::path::TreePath;
use skeletor::utils::{parse_yaml_string, to_yaml_string};
use skeletor::value::ConfigValue;
use std::collections::HashSet;
use std::time::Duration;

fn text(s: &str) -> ConfigValue {
    ConfigValue::Text(s.to_string())
}

fn apply_in_memory(config: &SkeletorConfig, target: &str, overwrite: bool, dry_run: bool, disk: &mut HashSet<String>) -> skeletor::ApplyResult {
    let tasks = plan_config(config, &TreePath::parse(target)).unwrap();
    let total = tasks.len();
    if dry_run {
        return summarize_apply(None, total, Duration::from_micros(1));
    }
    let mut machine = Materializer::new(tasks, overwrite);
    loop {
        match machine.next_action() {
            Action::Finished => break,
            Action::CreateDir(path) | Action::EnsureParent(path) => {
                disk.insert(path.to_text());
                machine.handle(Event::Completed(true));
            }
            Action::Probe(path) => machine.handle(Event::Probed(disk.contains(&path.to_text()))),
            Action::Write(path, _) => {
                disk.insert(path.to_text());
                machine.handle(Event::Completed(true));
            }
        }
    }
    let count: CreationResult = machine.result().clone();
    summarize_apply(Some(&count), total, Duration::from_micros(1))
}

#[test]
fn test_extract_binary_files_from_yaml() {
    // Test with binary_files present
    let mut mapping = Vec::new();
    mapping.push((
        ConfigValue::Text("binary_files".to_string()),
        ConfigValue::Sequence(vec![
            ConfigValue::Text("image.png".to_string()),
            ConfigValue::Text("binary.exe".to_string()),
        ]),
    ));
    let yaml = ConfigValue::Mapping(mapping);

    let result = extract_binary_files_from_yaml(&yaml);
    assert_eq!(result, vec!["image.png", "binary.exe"]);

    // Test with no binary_files key
    let empty_yaml = ConfigValue::Mapping(Vec::new());
    let result = extract_binary_files_from_yaml(&empty_yaml);
    assert!(result.is_empty());

    // Test with non-sequence binary_files
    let mut mapping = Vec::new();
    mapping.push((
        ConfigValue::Text("binary_files".to_string()),
        ConfigValue::Text("not_a_sequence".to_string()),
    ));
    let yaml = ConfigValue::Mapping(mapping);

    let result = extract_binary_files_from_yaml(&yaml);
    assert!(result.is_empty());
}

#[test]
fn test_extract_ignore_patterns_from_yaml() {
    // Test with ignore_patterns present
    let mut mapping = Vec::new();
    mapping.push((
        ConfigValue::Text("ignore_patterns".to_string()),
        ConfigValue::Sequence(vec![
            ConfigValue::Text("*.tmp".to_string()),
            ConfigValue::Text("target/".to_string()),
        ]),
    ));
    let yaml = ConfigValue::Mapping(mapping);

    let result = extract_ignore_patterns_from_yaml(&yaml);
    assert_eq!(result, vec!["*.tmp", "target/"]);

    // Test with no ignore_patterns key
    let empty_yaml = ConfigValue::Mapping(Vec::new());
    let result = extract_ignore_patterns_from_yaml(&empty_yaml);
    assert!(result.is_empty());

    // Test with non-sequence ignore_patterns
    let mut mapping = Vec::new();
    mapping.push((
        ConfigValue::Text("ignore_patterns".to_string()),
        ConfigValue::Text("not_a_sequence".to_string()),
    ));
    let yaml = ConfigValue::Mapping(mapping);

    let result = extract_ignore_patterns_from_yaml(&yaml);
    assert!(result.is_empty());
}

#[test]
fn items_that_are_no_texts_are_passed_over() {
    let yaml = ConfigValue::Mapping(vec![(
        text("binary_files"),
        ConfigValue::Sequence(vec![text("a"), ConfigValue::Unsigned(1), text("b"), ConfigValue::Null]),
    )]);
    assert_eq!(extract_binary_files_from_yaml(&yaml), vec!["a", "b"]);
}

#[test]
fn test_parse_yaml_string() {
    let yaml_str = r#"
        test:
          key: "value"
        "#;

    let result = parse_yaml_string(yaml_str);
    assert!(result.is_ok());

    let yaml = result.unwrap();
    if let ConfigValue::Mapping(_) = yaml {
        assert!(yaml.contains_key("test"));
    } else {
        panic!("Expected YAML mapping");
    }
}

#[test]
fn test_parse_yaml_string_invalid() {
    let invalid_yaml = "invalid: yaml: content: [";
    let result = parse_yaml_string(invalid_yaml);
    assert!(result.is_err());
}

#[test]
fn a_document_is_read_value_by_value() {
    let doc = parse_yaml_string(
        "t: text\nu: 42\ns: -7\nr: 1.5\nb: true\nn: ~\nq: [a, 1]\nm: {k: v}\ntagged: !thing x\n7: seven\n",
    )
    .unwrap();
    let expected = ConfigValue::Mapping(vec![
        (text("t"), text("text")),
        (text("u"), ConfigValue::Unsigned(42)),
        (text("s"), ConfigValue::Signed(-7)),
        (text("r"), ConfigValue::Real("1.5".to_string())),
        (text("b"), ConfigValue::Bool(true)),
        (text("n"), ConfigValue::Null),
        (text("q"), ConfigValue::Sequence(vec![text("a"), ConfigValue::Unsigned(1)])),
        (text("m"), ConfigValue::Mapping(vec![(text("k"), text("v"))])),
        (text("tagged"), ConfigValue::Tagged),
        (ConfigValue::Unsigned(7), text("seven")),
    ]);
    assert_eq!(doc, expected);
    assert_eq!(doc.get("u").and_then(|v| v.as_u64()), Some(42));
    assert_eq!(doc.get("t").and_then(|v| v.as_str()), Some("text"));
    assert_eq!(doc.get("s").and_then(|v| v.as_u64()), None);
    assert!(doc.get("n").unwrap().is_null());
    assert!(doc.get("m").unwrap().is_mapping());
    assert_eq!(doc.get("q").unwrap().as_sequence().unwrap().len(), 2);
    assert_eq!(doc.get("m").unwrap().as_mapping().unwrap().len(), 1);
    assert!(doc.get("missing").is_none());
    assert!(!doc.contains_key("7"));
    assert!(!doc.is_writable());
    assert_eq!(doc.clone(), doc);
}

#[test]
fn a_writable_tree_is_written_and_read_back() {
    let tree = ConfigValue::Mapping(vec![
        (text("name"), text("x: y")),
        (text("count"), ConfigValue::Unsigned(3)),
        (text("below"), ConfigValue::Signed(-1)),
        (text("flags"), ConfigValue::Sequence(vec![ConfigValue::Bool(false), ConfigValue::Null])),
        (text("dir"), ConfigValue::Mapping(vec![(text("f.txt"), text("line 1\nline 2\n"))])),
    ]);
    assert!(tree.is_writable());
    let written = to_yaml_string(&tree).unwrap();
    assert!(written.starts_with("name: 'x: y'\ncount: 3\nbelow: -1\n"));
    assert_eq!(parse_yaml_string(&written).unwrap(), tree);
}

#[test]
fn a_tree_that_is_not_writable_is_refused() {
    let twice = ConfigValue::Mapping(vec![(text("a"), text("1")), (text("a"), text("2"))]);
    let odd_key = ConfigValue::Mapping(vec![(ConfigValue::Unsigned(1), text("1"))]);
    let positive_signed = ConfigValue::Sequence(vec![ConfigValue::Signed(5)]);
    let real = ConfigValue::Mapping(vec![(text("a"), ConfigValue::Real("0.5".to_string()))]);
    for tree in [twice, odd_key, positive_signed, real, ConfigValue::Tagged] {
        assert!(!tree.is_writable());
        match to_yaml_string(&tree) {
            Err(SkeletorError::Config(_)) => {}
            other => panic!("expected Config, got {:?}", other),
        }
    }
}

#[test]
fn test_library_api() {
    let mut disk = HashSet::new();

    // Test the new library API
    let config = SkeletorConfig::from_yaml_str(
        r#"
directories:
  src:
    main.rs: |
      fn main() {
          println!("Hello from library!");
      }
    lib.rs: ""
  tests:
    test.rs: "// Test content"
"#,
    )
    .unwrap();

    let result = apply_in_memory(&config, "target", false, false, &mut disk);

    assert_eq!(result.files_created, 3);
    assert!(result.duration.as_micros() > 0);
    assert_eq!(result.tasks_total, 5); // 2 dirs + 3 files

    // Check that files were actually created
    assert!(disk.contains("target/src/main.rs"));
    assert!(disk.contains("target/src/lib.rs"));
    assert!(disk.contains("target/tests/test.rs"));
}

#[test]
fn test_library_api_dry_run() {
    let mut disk = HashSet::new();

    let config = SkeletorConfig::from_yaml_str(
        r#"
directories:
  test_dir:
    test_file.txt: "content"
"#,
    )
    .unwrap();

    let result = apply_in_memory(&config, "target", false, true, &mut disk);

    // In dry run, no files should be created
    assert_eq!(result.files_created, 0);
    assert_eq!(result.dirs_created, 0);
    assert_eq!(result.tasks_total, 2); // 1 dir + 1 file

    // Check that no files were actually created
    assert!(!disk.contains("target/test_dir"));
}

#[test]
fn a_document_without_a_directories_mapping_is_refused() {
    for yaml in ["other_key: value\nmetadata: test", "directories: just text", "directories: [a, b]", "- a\n- b"] {
        match SkeletorConfig::from_yaml_str(yaml) {
            Err(SkeletorError::MissingConfigKey { key }) => assert_eq!(key, "directories"),
            other => panic!("expected MissingConfigKey, got {:?}", other),
        }
        match read_config(yaml) {
            Err(SkeletorError::MissingConfigKey { key }) => assert_eq!(key, "directories"),
            other => panic!("expected MissingConfigKey, got {:?}", other),
        }
    }
    match SkeletorConfig::from_yaml_str("invalid: yaml: content: [") {
        Err(SkeletorError::InvalidYaml { .. }) => {}
        other => panic!("expected InvalidYaml, got {:?}", other),
    }
    match read_config("invalid_yaml: data\n\tbad_indent: - missing_value") {
        Err(SkeletorError::InvalidYaml { .. }) => {}
        other => panic!("expected InvalidYaml, got {:?}", other),
    }
}

#[test]
fn read_config_gives_the_directories_tree() {
    let yaml_str = r#"
        directories:
          src:
            index.js: "console.log('Hello, world!');"
            components:
              Header.js: "// Header component"
        "#;
    let config = read_config(yaml_str).unwrap();
    assert!(config.contains_key("src"));
    assert_eq!(
        config,
        ConfigValue::Mapping(vec![(
            text("src"),
            ConfigValue::Mapping(vec![
                (text("index.js"), text("console.log('Hello, world!');")),
                (text("components"), ConfigValue::Mapping(vec![(text("Header.js"), text("// Header component"))])),
            ])
        )])
    );
}

#[test]
fn metadata_is_taken_from_the_document() {
    let config = SkeletorConfig::from_yaml_str(
        r#"
created: "2020-01-01T00:00:00Z"
updated: "2020-01-02T00:00:00Z"
generated_comments: "Test comment"
directories:
  src:
    main.rs: "fn main() {}"
stats:
  files: 1
  directories: 2
blacklist:
  - "*.tmp"
  - "target/"
"#,
    )
    .unwrap();
    let metadata = config.metadata.unwrap();
    assert_eq!(metadata.created.as_deref(), Some("2020-01-01T00:00:00Z"));
    assert_eq!(metadata.updated.as_deref(), Some("2020-01-02T00:00:00Z"));
    assert_eq!(metadata.generated_comments.as_deref(), Some("Test comment"));
    assert_eq!(metadata.stats, Some((1, 2)));
    assert_eq!(metadata.blacklist, Some(vec!["*.tmp".to_string(), "target/".to_string()]));

    let bare = SkeletorConfig::from_yaml_str("directories: {}\nstats: {files: \"1\", directories: 1}\nblacklist: [a, 2]\ncreated: 5").unwrap();
    let metadata = bare.metadata.unwrap();
    assert_eq!(metadata.created, None);
    assert_eq!(metadata.updated, None);
    assert_eq!(metadata.stats, None);
    assert_eq!(metadata.blacklist, None);
    assert!(SkeletorConfig::new(ConfigValue::Null).metadata.is_none());
}

#[test]
fn info_tells_what_the_document_holds() {
    let doc = parse_yaml_string(
        r#"
created: "2020-01-01T00:00:00Z"
updated: "2020-01-02T00:00:00Z"
generated_comments: "Test comment"
directories:
  src:
    main.rs: "fn main() {}"
stats:
  files: "1"
  directories: 12
blacklist:
  - "*.tmp"
  - 3
  - "a\"b"
"#,
    )
    .unwrap();
    assert_eq!(
        info_lines(&doc, "config.yaml"),
        vec![
            "Information from \"config.yaml\":",
            "  Created: 2020-01-01T00:00:00Z",
            "  Updated: 2020-01-02T00:00:00Z",
            "  Generated comments: Test comment",
            "  Stats: 0 files, 12 directories",
            "  Blacklist patterns: [\"*.tmp\", \"a\\\"b\"]",
        ]
    );
    let empty = parse_yaml_string("directories: {}\nstats: 3\nblacklist: none").unwrap();
    assert_eq!(
        info_lines(&empty, ".skeletorrc"),
        vec![
            "Information from \".skeletorrc\":",
            "  No created timestamp available.",
            "  No updated timestamp available.",
            "  No generated comments available.",
            "  No stats available.",
            "  No blacklist information available.",
        ]
    );
}
