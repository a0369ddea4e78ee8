use skeletor::path::TreePath;
use skeletor::snapshot::ignore::{collect_ignore_spec, PatternSource};
use skeletor::snapshot::{
    build_metadata, build_snapshot, build_snapshot_at, name_precedes, prepare_verbose_info,
    snapshot_to_operations, traverse_directory, FileContent, SourceEntry,
};
use skeletor::tasks::{compute_stats, traverse_structure, Task};
use skeletor::utils::{parse_yaml_string, to_yaml_string};
use skeletor::value::ConfigValue;

fn text(s: &str) -> ConfigValue {
    ConfigValue::Text(s.to_string())
}

fn mapping(entries: Vec<(&str, ConfigValue)>) -> ConfigValue {
    ConfigValue::Mapping(entries.into_iter().map(|(k, v)| (text(k), v)).collect())
}

fn file(name: &str, content: &[u8]) -> SourceEntry {
    SourceEntry::File { name: name.to_string(), content: FileContent::Bytes(content.to_vec()) }
}

fn unread(name: &str) -> SourceEntry {
    SourceEntry::File { name: name.to_string(), content: FileContent::Unread }
}

fn dir(name: &str, entries: Vec<SourceEntry>) -> SourceEntry {
    SourceEntry::Directory { name: name.to_string(), entries }
}

#[test]
fn test_snapshot_directory_without_contents() {
    // A simple structure with a hidden file and a regular file.
    let listing = vec![dir("src", vec![unread("index.js"), unread(".hidden.txt")])];

    let (yaml_structure, binaries) = traverse_directory(&listing, false, None);

    if let ConfigValue::Mapping(_) = yaml_structure {
        // Expect "src" key exists.
        assert!(yaml_structure.contains_key("src"));
    } else {
        panic!("Expected a YAML hash");
    }
    // Since we are not including contents, binaries should be empty.
    assert!(binaries.is_empty());
    assert_eq!(yaml_structure, mapping(vec![("src", mapping(vec![(".hidden.txt", text("")), ("index.js", text(""))]))]));
}

#[test]
fn test_snapshot_directory_with_contents() {
    let listing = vec![dir("src", vec![file("index.js", b"console.log('Hello');"), file(".hidden.txt", b"secret")])];

    let (yaml_structure, binaries) = traverse_directory(&listing, true, None);

    if let ConfigValue::Mapping(_) = yaml_structure {
        // Expect "src" key exists.
        assert!(yaml_structure.contains_key("src"));
    } else {
        panic!("Expected a YAML hash");
    }
    // Every file is text, so binaries should be empty.
    assert!(binaries.is_empty());
    assert_eq!(
        yaml_structure,
        mapping(vec![("src", mapping(vec![(".hidden.txt", text("secret")), ("index.js", text("console.log('Hello');"))]))])
    );
}

#[test]
fn test_traverse_directory_with_include_contents() {
    let listing = vec![file("text.txt", b"Hello, world!"), file("binary.bin", &[0xFF, 0xFE, 0xFD, 0xFC])];

    let (yaml_structure, binaries) = traverse_directory(&listing, true, None);

    // With include_contents=true, should detect binary files
    assert!(!binaries.is_empty());
    assert_eq!(binaries, vec!["binary.bin"]);

    // Text file is kept with its content, the binary file without
    assert_eq!(yaml_structure, mapping(vec![("binary.bin", text("")), ("text.txt", text("Hello, world!"))]));
    assert_eq!(compute_stats(&yaml_structure), (2, 0));
}

#[test]
fn a_binary_file_is_listed_by_its_path_and_still_counted() {
    let listing = vec![dir("assets", vec![dir("img", vec![file("logo.png", &[0xFF, 0xFE, 0xFD, 0xFC])]), file("a.txt", b"a")])];
    let (tree, binaries) = traverse_directory(&listing, true, None);
    assert_eq!(binaries, vec!["assets/img/logo.png"]);
    assert_eq!(
        tree,
        mapping(vec![("assets", mapping(vec![("a.txt", text("a")), ("img", mapping(vec![("logo.png", text(""))]))]))])
    );
    assert_eq!(compute_stats(&tree), (2, 2));
    let (bare, none) = traverse_directory(&listing, false, None);
    assert!(none.is_empty());
    assert_eq!(compute_stats(&bare), (2, 2));
}

#[test]
fn entries_are_taken_in_the_order_of_their_names() {
    let listing = vec![unread("b"), unread("a"), dir("B", vec![unread("z"), unread("y")]), unread("ab"), unread("é"), unread("")];
    let (tree, _) = traverse_directory(&listing, false, None);
    let names: Vec<String> = match &tree {
        ConfigValue::Mapping(entries) => entries.iter().map(|(k, _)| k.as_str().unwrap().to_string()).collect(),
        _ => panic!("expected a mapping"),
    };
    assert_eq!(names, vec!["", "B", "a", "ab", "b", "é"]);
    assert_eq!(tree.get("B"), Some(&mapping(vec![("y", text("")), ("z", text(""))])));
    let mut shuffled = listing;
    shuffled.reverse();
    assert_eq!(traverse_directory(&shuffled, false, None).0, tree);
}

#[test]
fn names_are_ordered_character_by_character() {
    assert!(name_precedes("", ""));
    assert!(name_precedes("", "a"));
    assert!(!name_precedes("a", ""));
    assert!(name_precedes("a", "a"));
    assert!(name_precedes("a", "ab"));
    assert!(!name_precedes("ab", "a"));
    assert!(name_precedes("Z", "a"));
    assert!(!name_precedes("a", "Z"));
    assert!(name_precedes("z", "é"));
    assert!(name_precedes("a10", "a9"));
}

#[test]
fn what_the_patterns_name_is_left_out() {
    let spec = collect_ignore_spec(&vec![PatternSource::Literal("*.tmp".to_string())]).unwrap();
    let listing = vec![
        file("a.tmp", &[0xFF]),
        file("keep.txt", b"k"),
        dir("sub", vec![file("a.tmp", b"x"), dir("deep", vec![file("a.tmp", &[0xC0]), file("b.bin", &[0xC0])])]),
        dir("cache.tmp", vec![file("inside.txt", b"i"), file("raw", &[0x80])]),
    ];
    let (tree, binaries) = traverse_directory(&listing, true, Some(&spec));
    assert_eq!(
        tree,
        mapping(vec![
            ("keep.txt", text("k")),
            ("sub", mapping(vec![("deep", mapping(vec![("b.bin", text(""))]))])),
        ])
    );
    assert_eq!(binaries, vec!["sub/deep/b.bin"]);
    assert_eq!(compute_stats(&tree), (2, 2));
}

#[test]
fn a_file_that_could_not_be_read_is_left_out_of_a_snapshot_with_contents() {
    let listing = vec![SourceEntry::File { name: "locked".to_string(), content: FileContent::Unreadable }, unread("later")];
    assert_eq!(traverse_directory(&listing, true, None).0, mapping(vec![("later", text(""))]));
    assert_eq!(traverse_directory(&listing, false, None).0, mapping(vec![("later", text("")), ("locked", text(""))]));
}

#[test]
fn a_snapshot_applied_brings_the_files_back() {
    let listing = vec![
        dir("src", vec![file("main.rs", "fn main() { println!(\"héllo\"); }\n".as_bytes()), dir("empty", vec![])]),
        file("README.md", b"# Title\n"),
        file("blob", &[0, 159, 146, 150]),
    ];
    let (tree, binaries) = traverse_directory(&listing, true, None);
    assert_eq!(binaries, vec!["blob"]);
    let tasks = traverse_structure(&TreePath::parse("/restore"), &tree).unwrap();
    assert_eq!(
        tasks,
        vec![
            Task::File(TreePath::parse("/restore/README.md"), "# Title\n".to_string()),
            Task::File(TreePath::parse("/restore/blob"), String::new()),
            Task::Dir(TreePath::parse("/restore/src")),
            Task::Dir(TreePath::parse("/restore/src/empty")),
            Task::File(TreePath::parse("/restore/src/main.rs"), "fn main() { println!(\"héllo\"); }\n".to_string()),
        ]
    );
}

#[test]
fn the_time_of_creation_is_carried_over() {
    let now = "2024-05-06T07:08:09+00:00";
    assert_eq!(build_metadata(None, now), (now.to_string(), now.to_string()));
    let earlier = "created: \"2020-01-01T00:00:00Z\"\nupdated: \"2020-01-02T00:00:00Z\"\ndirectories: {}\n";
    assert_eq!(build_metadata(Some(earlier), now), ("2020-01-01T00:00:00Z".to_string(), now.to_string()));
    assert_eq!(build_metadata(Some("updated: x\ndirectories: {}\n"), now), (now.to_string(), now.to_string()));
    assert_eq!(build_metadata(Some("updated: x\n"), now), (now.to_string(), now.to_string()));
    assert_eq!(build_metadata(Some("created: 2020\ndirectories: {}\n"), now), (now.to_string(), now.to_string()));
    assert_eq!(build_metadata(Some("created: [unclosed"), now), (now.to_string(), now.to_string()));
}

#[test]
fn the_document_of_a_snapshot_holds_all_its_parts() {
    let tree = mapping(vec![("src", mapping(vec![("index.js", text("console.log('Hello');"))]))]);
    let document = build_snapshot_at(
        "2024-05-06T07:08:09+00:00",
        "output.yaml",
        Some("created: \"2020-01-01T00:00:00Z\"\ndirectories:\n  old.txt: x\n"),
        Some("This is a test note"),
        tree.clone(),
        &["src/binary.bin".to_string(), "x\"y".to_string()],
        1,
        1,
    );
    assert_eq!(
        document,
        mapping(vec![
            ("created", text("2020-01-01T00:00:00Z")),
            ("updated", text("2024-05-06T07:08:09+00:00")),
            (
                "generated_comments",
                text("Snapshot generated from folder: \"output.yaml\"\nBinary files detected (contents omitted): [\"src/binary.bin\", \"x\\\"y\"]")
            ),
            ("notes", text("This is a test note")),
            ("stats", mapping(vec![("files", ConfigValue::Unsigned(1)), ("directories", ConfigValue::Unsigned(1))])),
            ("directories", tree.clone()),
        ])
    );
    let written = to_yaml_string(&document).unwrap();
    assert!(written.contains("This is a test note"));
    assert_eq!(parse_yaml_string(&written).unwrap(), document);

    let fresh = build_snapshot_at("now", "out", None, None, tree.clone(), &[], 1, 1);
    assert_eq!(
        fresh,
        mapping(vec![
            ("created", text("now")),
            ("updated", text("now")),
            ("generated_comments", text("Snapshot generated from folder: \"out\"\nNo binary files detected.")),
            ("stats", mapping(vec![("files", ConfigValue::Unsigned(1)), ("directories", ConfigValue::Unsigned(1))])),
            ("directories", tree),
        ])
    );
}

#[test]
fn a_snapshot_is_stamped_with_the_time_of_the_call() {
    let document = build_snapshot("out.yml", None, None, ConfigValue::Mapping(Vec::new()), &[], 0, 0);
    let created = document.get("created").unwrap().as_str().unwrap().to_string();
    let updated = document.get("updated").unwrap().as_str().unwrap().to_string();
    assert_eq!(created, updated);
    assert!(chrono::DateTime::parse_from_rfc3339(&updated).is_ok());
    assert!(updated.ends_with("+00:00"));
    let again = build_snapshot("out.yml", Some(&to_yaml_string(&document).unwrap()), None, ConfigValue::Mapping(Vec::new()), &[], 0, 0);
    assert_eq!(again.get("created").unwrap().as_str().unwrap(), created);
    assert!(again.get("notes").is_none());
}

#[test]
fn what_is_said_of_the_patterns() {
    let patterns = vec!["*.log".to_string(), "target/".to_string()];
    assert_eq!(
        prepare_verbose_info(&patterns, true),
        vec!["Loaded ignore patterns: [\"*.log\", \"target/\"]", "Added ignore pattern: *.log", "Added ignore pattern: target/"]
    );
    assert_eq!(prepare_verbose_info(&patterns, false), vec!["Using 2 ignore pattern(s)"]);
    assert_eq!(prepare_verbose_info(&[], true), vec!["Loaded ignore patterns: []"]);
    assert!(prepare_verbose_info(&[], false).is_empty());
}

#[test]
fn a_snapshot_tree_is_shown_as_operations() {
    let tree = mapping(vec![
        ("src", mapping(vec![("main.rs", text("fn main() {}")), ("n", ConfigValue::Unsigned(1))])),
        ("README.md", text("# Test Project")),
    ]);
    assert_eq!(
        snapshot_to_operations(&tree, ""),
        vec![
            Task::Dir("./src".into()),
            Task::File("./src/main.rs".into(), String::new()),
            Task::File("./README.md".into(), String::new()),
        ]
    );
    assert_eq!(
        snapshot_to_operations(&tree, "base/dir"),
        vec![
            Task::Dir("base/dir/src".into()),
            Task::File("base/dir/src/main.rs".into(), String::new()),
            Task::File("base/dir/README.md".into(), String::new()),
        ]
    );
    assert!(snapshot_to_operations(&text("x"), "").is_empty());
}

#[test]
fn snapshot_test_traverse_directory() {
    // A simple structure with a hidden file and a regular file.
    let listing = vec![dir("src", vec![unread("index.js"), unread(".hidden.txt")])];

    let (yaml_structure, binaries) = traverse_directory(&listing, false, None);

    if let ConfigValue::Mapping(_) = yaml_structure {
        // Expect "src" key exists.
        assert!(yaml_structure.contains_key("src"));
    } else {
        panic!("Expected a YAML hash");
    }
    // Since we are not including contents, binaries should be empty.
    assert!(binaries.is_empty());
}

#[test]
fn tasks_test_traverse_directory() {
    // A simple structure with a hidden file and a regular file.
    let listing = vec![dir("src", vec![file("index.js", b"console.log('Hello');"), file(".hidden.txt", b"secret")])];

    let (yaml_structure, binaries) = traverse_directory(&listing, false, None);

    if let ConfigValue::Mapping(_) = yaml_structure {
        // Expect "src" key exists.
        assert!(yaml_structure.contains_key("src"));
    } else {
        panic!("Expected a YAML hash");
    }
    // Since we are not including contents, binaries should be empty.
    assert!(binaries.is_empty());
    assert_eq!(yaml_structure.get("src").unwrap().get("index.js"), Some(&text("")));
}

#[test]
fn a_directory_pattern_leaves_files_of_that_name_in() {
    let spec = collect_ignore_spec(&vec![
        PatternSource::Literal("build/".to_string()),
        PatternSource::Literal("*.log".to_string()),
        PatternSource::Literal("!important.log".to_string()),
    ])
    .unwrap();
    let listing = vec![
        file("build", b"a file named build"),
        dir("app", vec![dir("build", vec![file("out.bin", &[0xFF])]), file("run.log", b"r"), file("important.log", b"i")]),
    ];
    let (tree, binaries) = traverse_directory(&listing, true, Some(&spec));
    assert_eq!(
        tree,
        mapping(vec![("app", mapping(vec![("important.log", text("i"))])), ("build", text("a file named build"))])
    );
    assert!(binaries.is_empty());
}

#[test]
fn the_order_of_a_listing_does_not_matter_at_any_depth() {
    let one = vec![
        dir("lib", vec![file("b.rs", b"b"), dir("deep", vec![file("2", b"two"), file("1", &[0xFF])]), file("a.rs", b"a")]),
        file("Cargo.toml", b"[package]"),
        dir("empty", vec![]),
    ];
    let other = vec![
        dir("empty", vec![]),
        file("Cargo.toml", b"[package]"),
        dir("lib", vec![dir("deep", vec![file("1", &[0xFF]), file("2", b"two")]), file("a.rs", b"a"), file("b.rs", b"b")]),
    ];
    let spec = collect_ignore_spec(&vec![PatternSource::Literal("a.*".to_string())]).unwrap();
    for include_contents in [true, false] {
        assert_eq!(traverse_directory(&one, include_contents, None), traverse_directory(&other, include_contents, None));
        assert_eq!(
            traverse_directory(&one, include_contents, Some(&spec)),
            traverse_directory(&other, include_contents, Some(&spec))
        );
    }
    let (tree, binaries) = traverse_directory(&one, true, Some(&spec));
    assert_eq!(binaries, vec!["lib/deep/1"]);
    assert_eq!(
        tree,
        mapping(vec![
            ("Cargo.toml", text("[package]")),
            ("empty", mapping(vec![])),
            ("lib", mapping(vec![("b.rs", text("b")), ("deep", mapping(vec![("1", text("")), ("2", text("two"))]))])),
        ])
    );
    assert!(tree.is_writable());
}

#[test]
fn an_earlier_file_that_is_no_snapshot_gives_no_time_of_creation() {
    let now = "2024-05-06T07:08:09+00:00";
    let fresh = (now.to_string(), now.to_string());
    // YAML with a time of creation, but without a `directories` mapping.
    assert_eq!(build_metadata(Some("created: \"2020-01-01T00:00:00Z\"\n"), now), fresh);
    assert_eq!(build_metadata(Some("created: \"2020-01-01T00:00:00Z\"\ndirectories: text\n"), now), fresh);
    assert_eq!(build_metadata(Some("created: \"2020-01-01T00:00:00Z\"\ndirectories: [a]\n"), now), fresh);
    assert_eq!(
        build_metadata(Some("created: \"2020-01-01T00:00:00Z\"\nupdated: \"2020-01-02T00:00:00Z\"\ngenerated_comments: \"Test comment\"\ndirectories:\nsrc:\n  main.rs: \"fn main() {}\"\n"), now),
        fresh
    );
    let document = build_snapshot_at(now, "out.yml", Some("created: old\nstats: {files: 1}\n"), None, ConfigValue::Mapping(Vec::new()), &[], 0, 0);
    assert_eq!(document.get("created"), Some(&text(now)));
    assert_eq!(document.get("updated"), Some(&text(now)));
    assert_eq!(
        document.get("stats"),
        Some(&mapping(vec![("files", ConfigValue::Unsigned(0)), ("directories", ConfigValue::Unsigned(0))]))
    );
    assert_eq!(document.get("directories"), Some(&ConfigValue::Mapping(Vec::new())));
}

#[test]
fn a_snapshot_counts_what_the_directory_holds_without_the_ignored() {
    let spec = collect_ignore_spec(&vec![PatternSource::Literal("*.tmp".to_string())]).unwrap();
    let with_ignored = vec![
        file("a.tmp", b"t"),
        file("keep.txt", b"k"),
        dir("sub", vec![file("a.tmp", b"x"), file("b.txt", b"b"), dir("old.tmp", vec![file("in.txt", b"i")])]),
    ];
    let without = vec![file("keep.txt", b"k"), dir("sub", vec![file("b.txt", b"b")])];
    let (tree, binaries) = traverse_directory(&with_ignored, true, Some(&spec));
    let (plain, none) = traverse_directory(&without, true, None);
    assert_eq!(tree, plain);
    assert_eq!(binaries, none);
    assert_eq!(compute_stats(&tree), compute_stats(&plain));
    assert_eq!(compute_stats(&tree), (2, 1));
}
