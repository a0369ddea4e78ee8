use skeletor::materialize::{Action, CreationResult, Event, Materializer};
use skeletor::path::TreePath;
use skeletor::snapshot::{traverse_directory, FileContent, SourceEntry};
use skeletor::tasks::{traverse_structure, Task};
use skeletor::utils::parse_yaml_string;
use std::collections::{HashMap, HashSet};

struct Disk {
    files: HashMap<String, String>,
    dirs: HashSet<String>,
    broken: HashSet<String>,
    log: Vec<String>,
}

fn empty_disk() -> Disk {
    Disk { files: HashMap::new(), dirs: HashSet::new(), broken: HashSet::new(), log: Vec::new() }
}

fn create_files_and_directories(tasks: Vec<Task>, overwrite: bool, disk: &mut Disk) -> CreationResult {
    let mut machine = Materializer::new(tasks, overwrite);
    while !machine.is_finished() {
        match machine.next_action() {
            Action::Finished => unreachable!(),
            Action::CreateDir(path) => {
                let path = path.to_text();
                disk.log.push(format!("mkdir {}", path));
                let ok = !disk.broken.contains(&path);
                if ok {
                    disk.dirs.insert(path);
                }
                machine.handle(Event::Completed(ok));
            }
            Action::Probe(path) => {
                let path = path.to_text();
                machine.handle(Event::Probed(disk.files.contains_key(&path) || disk.dirs.contains(&path)));
            }
            Action::EnsureParent(path) => {
                let path = path.to_text();
                disk.log.push(format!("parent {}", path));
                let ok = !disk.broken.contains(&path);
                if ok {
                    disk.dirs.insert(path);
                }
                machine.handle(Event::Completed(ok));
            }
            Action::Write(path, content) => {
                let path = path.to_text();
                disk.log.push(format!("write {}", path));
                let ok = !disk.broken.contains(&path);
                if ok {
                    disk.files.insert(path, content);
                }
                machine.handle(Event::Completed(ok));
            }
        }
    }
    machine.result().clone()
}

fn file(path: &str, content: &str) -> Task {
    Task::File(TreePath::parse(path), content.to_string())
}

fn dir(path: &str) -> Task {
    Task::Dir(TreePath::parse(path))
}

#[test]
fn test_create_files_and_directories() {
    let mut disk = empty_disk();
    let tasks = vec![
        dir("root/src"),
        file("root/src/index.js", "console.log('Hello, world!');"),
        dir("root/src/components"),
        file("root/src/components/Header.js", "// Header component"),
    ];

    let result = create_files_and_directories(tasks, true, &mut disk);
    assert_eq!(result.files_created, 2);
    assert_eq!(result.dirs_created, 2);

    assert!(disk.files.contains_key("root/src/index.js"));
    assert!(disk.files.contains_key("root/src/components/Header.js"));
}

#[test]
fn test_create_files_and_directories_without_overwrite() {
    let mut disk = empty_disk();
    disk.files.insert("root/existing.txt".to_string(), "original content".to_string());

    let tasks = vec![file("root/existing.txt", "new content"), file("root/new.txt", "new file content")];

    let result = create_files_and_directories(tasks, false, &mut disk);

    // Should create 1 new file and skip 1 existing file
    assert_eq!(result.files_created, 1);
    assert_eq!(result.files_skipped, 1);
    assert_eq!(result.skipped_files_list.len(), 1);
    assert_eq!(result.files_overwritten, 0);
    assert!(result.overwritten_files_list.is_empty());
    assert_eq!(result.skipped_files_list, vec!["root/existing.txt"]);

    // Verify original content wasn't overwritten
    assert_eq!(disk.files["root/existing.txt"], "original content");
    assert_eq!(disk.log, vec!["parent root", "write root/new.txt"]);
}

#[test]
fn test_create_files_and_directories_with_overwrite() {
    let mut disk = empty_disk();
    disk.files.insert("root/existing.txt".to_string(), "original content".to_string());

    let tasks = vec![file("root/existing.txt", "overwritten content"), file("root/new.txt", "new file content")];

    let result = create_files_and_directories(tasks, true, &mut disk);

    // Should create 2 files (1 new + 1 overwritten) and track overwrite
    assert_eq!(result.files_created, 2);
    assert_eq!(result.files_skipped, 0);
    assert_eq!(result.files_overwritten, 1);
    assert_eq!(result.overwritten_files_list.len(), 1);
    assert!(result.skipped_files_list.is_empty());
    assert_eq!(result.overwritten_files_list, vec!["root/existing.txt"]);

    // Verify content was overwritten
    assert_eq!(disk.files["root/existing.txt"], "overwritten content");
}

#[test]
fn test_create_files_and_directories_with_directory_creation_failure() {
    let mut disk = empty_disk();

    // Try to create a file in a deeply nested directory structure
    let tasks = vec![file("root/deep/nested/structure/file.txt", "content")];

    // This should succeed because the parent directories are asked for first
    let result = create_files_and_directories(tasks, false, &mut disk);
    assert_eq!(result.files_created, 1);
    assert_eq!(disk.log, vec!["parent root/deep/nested/structure", "write root/deep/nested/structure/file.txt"]);
}

#[test]
fn test_create_files_and_directories_progress_logging() {
    let mut disk = empty_disk();

    let mut tasks = Vec::new();
    for i in 0..1005 {
        tasks.push(file(&format!("root/file_{}.txt", i), &format!("content {}", i)));
    }

    let result = create_files_and_directories(tasks, false, &mut disk);
    assert_eq!(result.files_created, 1005);
}

#[test]
fn a_failure_is_passed_over_and_the_rest_is_carried_out() {
    let mut disk = empty_disk();
    for broken in ["out/bad", "out/locked", "out/sealed.txt"] {
        disk.broken.insert(broken.to_string());
    }
    let tasks = vec![
        dir("out/bad"),
        file("out/locked/a.txt", "a"),
        file("out/sealed.txt", "s"),
        dir("out/good"),
        file("out/good/b.txt", "b"),
    ];
    let result = create_files_and_directories(tasks, false, &mut disk);
    assert_eq!(result.dirs_created, 1);
    assert_eq!(result.files_created, 1);
    assert_eq!(result.files_skipped, 0);
    assert_eq!(result.files_overwritten, 0);
    assert_eq!(
        disk.log,
        vec!["mkdir out/bad", "parent out/locked", "parent out", "write out/sealed.txt", "mkdir out/good", "parent out/good", "write out/good/b.txt"]
    );
    assert_eq!(disk.files.len(), 1);
    assert_eq!(disk.files["out/good/b.txt"], "b");
}

#[test]
fn applying_twice_without_overwrite_skips_every_file() {
    let tree = parse_yaml_string("src:\n  a.txt: x\n  sub:\n    b.txt: y\nREADME.md: z\n").unwrap();
    let target = TreePath::parse("/work/out");
    let mut disk = empty_disk();
    let first = create_files_and_directories(traverse_structure(&target, &tree).unwrap(), false, &mut disk);
    assert_eq!((first.files_created, first.dirs_created, first.files_skipped), (3, 2, 0));
    let contents = disk.files.clone();
    let second = create_files_and_directories(traverse_structure(&target, &tree).unwrap(), false, &mut disk);
    assert_eq!(second.files_created, 0);
    assert_eq!(second.files_skipped, 3);
    assert_eq!(second.dirs_created, 2);
    assert_eq!(second.files_overwritten, 0);
    assert_eq!(second.skipped_files_list, vec!["/work/out/src/a.txt", "/work/out/src/sub/b.txt", "/work/out/README.md"]);
    assert_eq!(disk.files, contents);
}

#[test]
fn the_steps_of_a_file_come_in_order() {
    let mut machine = Materializer::new(vec![file("a/b.txt", "text"), file("top.txt", "t"), dir("d")], true);
    assert_eq!(machine.next_action(), Action::Probe(TreePath::parse("a/b.txt")));
    machine.handle(Event::Completed(true));
    assert_eq!(machine.next_action(), Action::Probe(TreePath::parse("a/b.txt")));
    machine.handle(Event::Probed(true));
    assert_eq!(machine.next_action(), Action::EnsureParent(TreePath::parse("a")));
    machine.handle(Event::Probed(false));
    assert_eq!(machine.next_action(), Action::EnsureParent(TreePath::parse("a")));
    machine.handle(Event::Completed(true));
    assert_eq!(machine.next_action(), Action::Write(TreePath::parse("a/b.txt"), "text".to_string()));
    assert_eq!(machine.result().files_created, 0);
    machine.handle(Event::Completed(true));
    assert_eq!(machine.result().files_created, 1);
    assert_eq!(machine.result().files_overwritten, 1);
    assert_eq!(machine.next_action(), Action::Probe(TreePath::parse("top.txt")));
    machine.handle(Event::Probed(false));
    assert_eq!(machine.next_action(), Action::EnsureParent(TreePath::parse(".")));
    machine.handle(Event::Completed(false));
    assert_eq!(machine.result().files_created, 1);
    assert_eq!(machine.next_action(), Action::CreateDir(TreePath::parse("d")));
    machine.handle(Event::Probed(true));
    assert_eq!(machine.next_action(), Action::CreateDir(TreePath::parse("d")));
    assert!(!machine.is_finished());
    machine.handle(Event::Completed(true));
    assert!(machine.is_finished());
    assert_eq!(machine.next_action(), Action::Finished);
    machine.handle(Event::Completed(true));
    assert_eq!(machine.result().dirs_created, 1);
    assert_eq!(machine.result().files_created, 1);
}

#[test]
fn a_file_at_the_root_has_no_parent_to_make() {
    let mut machine = Materializer::new(vec![Task::File(TreePath::here(), "x".to_string())], false);
    machine.handle(Event::Probed(false));
    assert_eq!(machine.next_action(), Action::Write(TreePath::here(), "x".to_string()));
    machine.handle(Event::Completed(false));
    assert!(machine.is_finished());
    assert_eq!(machine.result().files_created, 0);
}

fn source_file(name: &str, content: &[u8]) -> SourceEntry {
    SourceEntry::File { name: name.to_string(), content: FileContent::Bytes(content.to_vec()) }
}

#[test]
fn a_snapshot_run_on_an_empty_disk_holds_the_bytes_of_each_text_file() {
    let main = "fn main() { println!(\"héllo\"); }\n".as_bytes();
    let listing = vec![
        SourceEntry::Directory {
            name: "src".to_string(),
            entries: vec![
                source_file("main.rs", main),
                SourceEntry::Directory { name: "deep".to_string(), entries: vec![source_file("note.txt", b"n")] },
            ],
        },
        source_file("README.md", b"# Title\n"),
        source_file("empty", b""),
    ];
    let (tree, binaries) = traverse_directory(&listing, true, None);
    assert!(binaries.is_empty());
    let tasks = traverse_structure(&TreePath::parse("out"), &tree).unwrap();
    let mut disk = empty_disk();
    let count = create_files_and_directories(tasks, false, &mut disk);
    assert_eq!((count.files_created, count.files_skipped, count.dirs_created), (4, 0, 2));
    assert_eq!(disk.files.len(), 4);
    assert_eq!(disk.files["out/src/main.rs"].as_bytes(), main);
    assert_eq!(disk.files["out/src/deep/note.txt"].as_bytes(), b"n");
    assert_eq!(disk.files["out/README.md"].as_bytes(), b"# Title\n");
    assert_eq!(disk.files["out/empty"].as_bytes(), b"");
    assert!(disk.dirs.contains("out/src/deep"));
}
