use skeletor::output::{
    render, DefaultReporter, OutputFormat, Reporter, Shade, SilentReporter, SimpleApplyResult,
    SimpleSnapshotResult, Span,
};
use skeletor::tasks::Task;
use std::time::Duration;

fn text_of(spans: &[Span]) -> String {
    render(spans, "<elapsed>")
}

#[test]
fn test_simple_apply_result_creation() {
    let simple_result = SimpleApplyResult::new(5, 3, Duration::from_millis(100), 8);
    assert_eq!(simple_result.files_created, 5);
    assert_eq!(simple_result.dirs_created, 3);
    assert_eq!(simple_result.duration, Duration::from_millis(100));
    assert_eq!(simple_result.tasks_total, 8);
}

#[test]
fn test_default_reporter_creation() {
    let reporter = DefaultReporter::new();
    match reporter.output_format() {
        OutputFormat::Pretty => {}
        _ => panic!("Expected Pretty format"),
    }
}

#[test]
fn test_reporter_with_format() {
    let reporter = DefaultReporter::with_format(OutputFormat::Plain);
    match reporter.output_format() {
        OutputFormat::Plain => {}
        _ => panic!("Expected Plain format"),
    }
}

#[test]
fn test_silent_reporter_methods() {
    let reporter = SilentReporter;
    let task = Task::Dir("test".into());

    // These should not panic and should do nothing
    assert!(reporter.operation_start("test", "details").is_empty());
    assert!(reporter.progress(1, 10, "message").is_empty());
    assert!(reporter.task_success(&task).is_empty());
    assert!(reporter.task_warning(&task, "warning").is_empty());
    assert!(reporter.dry_run_preview(&[task]).is_empty());

    let apply_result = SimpleApplyResult {
        files_created: 1,
        dirs_created: 1,
        duration: Duration::from_millis(50),
        tasks_total: 2,
    };
    assert!(reporter.apply_complete(&apply_result).is_empty());

    let snapshot_result = SimpleSnapshotResult {
        files_processed: 2,
        dirs_processed: 1,
        duration: Duration::from_millis(75),
        output_path: "test.yml".to_string(),
        binary_files_excluded: 0,
        binary_files_list: vec![],
    };
    assert!(reporter.snapshot_complete(&snapshot_result).is_empty());
}

#[test]
fn test_default_reporter_methods() {
    let reporter = DefaultReporter::new();
    let task = Task::File("test.txt".into(), "content".to_string());

    assert_eq!(
        text_of(&reporter.operation_start("test operation", "details")),
        "start: test operation: details\n"
    );
    assert_eq!(text_of(&reporter.progress(1, 10, "progress message")), "progress: 1/10 - progress message\n");
    assert_eq!(text_of(&reporter.task_success(&task)), "📄 File: test.txt\n");
    assert_eq!(text_of(&reporter.task_warning(&task, "warning message")), "warning: test.txt: warning message\n");
    let preview = text_of(&reporter.dry_run_preview(&[task]));
    assert!(preview.contains("  • 1 files to be created\n"));
    assert!(preview.contains("  1. 📄 test.txt\n"));

    let apply_result = SimpleApplyResult {
        files_created: 3,
        dirs_created: 2,
        duration: Duration::from_millis(150),
        tasks_total: 5,
    };
    assert_eq!(
        text_of(&reporter.apply_complete(&apply_result)),
        "------------------------------------------\n✅ Successfully generated 3 files and 2 directories in <elapsed>\n"
    );

    let snapshot_result = SimpleSnapshotResult {
        files_processed: 4,
        dirs_processed: 2,
        duration: Duration::from_millis(200),
        output_path: "snapshot.yml".to_string(),
        binary_files_excluded: 1,
        binary_files_list: vec!["image.png".to_string()],
    };
    assert_eq!(
        text_of(&reporter.snapshot_complete(&snapshot_result)),
        "Snapshot written to \"snapshot.yml\"\n\nBinary files excluded:\n  • image.png\n"
    );
}

#[test]
fn test_plain_format_reporter() {
    let reporter = DefaultReporter::with_format(OutputFormat::Plain);
    let apply_result = SimpleApplyResult {
        files_created: 2,
        dirs_created: 1,
        duration: Duration::from_millis(75),
        tasks_total: 3,
    };

    assert_eq!(
        text_of(&reporter.apply_complete(&apply_result)),
        "Success!\nDirectories created: 1\nFiles created: 2\nDuration: <elapsed>\nTotal operations: 3\n"
    );

    let snapshot_result = SimpleSnapshotResult {
        files_processed: 5,
        dirs_processed: 3,
        duration: Duration::from_millis(125),
        output_path: "plain.yml".to_string(),
        binary_files_excluded: 2,
        binary_files_list: vec!["image.png".to_string(), "video.mp4".to_string()],
    };
    assert_eq!(
        text_of(&reporter.snapshot_complete(&snapshot_result)),
        "Snapshot complete!\nFiles processed: 5\nDirectories processed: 3\nDuration: <elapsed>\nOutput: plain.yml\nBinary files excluded: 2\n"
    );
}

#[test]
fn test_output_format_debug() {
    let format = OutputFormat::Pretty;
    let debug_str = format!("{:?}", format);
    assert!(debug_str.contains("Pretty"));
}

#[test]
fn test_simple_results_debug() {
    let apply_result = SimpleApplyResult {
        files_created: 1,
        dirs_created: 1,
        duration: Duration::from_millis(50),
        tasks_total: 2,
    };
    let debug_str = format!("{:?}", apply_result);
    assert!(debug_str.contains("files_created"));

    let snapshot_result = SimpleSnapshotResult {
        files_processed: 2,
        dirs_processed: 1,
        duration: Duration::from_millis(75),
        output_path: "test.yml".to_string(),
        binary_files_excluded: 0,
        binary_files_list: vec![],
    };
    let debug_str = format!("{:?}", snapshot_result);
    assert!(debug_str.contains("files_processed"));
}

#[test]
fn test_clone_functionality() {
    let apply_result = SimpleApplyResult {
        files_created: 1,
        dirs_created: 1,
        duration: Duration::from_millis(50),
        tasks_total: 2,
    };
    let cloned = apply_result.clone();
    assert_eq!(cloned.files_created, apply_result.files_created);

    let snapshot_result = SimpleSnapshotResult {
        files_processed: 2,
        dirs_processed: 1,
        duration: Duration::from_millis(75),
        output_path: "test.yml".to_string(),
        binary_files_excluded: 0,
        binary_files_list: vec![],
    };
    let cloned = snapshot_result.clone();
    assert_eq!(cloned.files_processed, snapshot_result.files_processed);
}

#[test]
fn test_verbose_operation_preview() {
    let reporter = DefaultReporter::new();
    let tasks = vec![
        Task::Dir("src".into()),
        Task::File("src/main.rs".into(), "fn main() {}".to_string()),
        Task::File("README.md".into(), "# Project".to_string()),
    ];

    assert_eq!(
        text_of(&reporter.verbose_operation_preview(&tasks)),
        "Operations to be executed:\n  1. 📁 src\n  2. 📄 src/main.rs\n  3. 📄 README.md\n\n"
    );
}

#[test]
fn test_verbose_operation_preview_empty() {
    let reporter = DefaultReporter::new();
    let tasks = vec![];

    // Test with empty task list
    assert_eq!(text_of(&reporter.verbose_operation_preview(&tasks)), "Operations to be executed:\n\n");
}

#[test]
fn test_dry_run_preview_comprehensive_verbose() {
    let reporter = DefaultReporter::new();
    let tasks = vec![
        Task::Dir("src".into()),
        Task::File("src/main.rs".into(), "fn main() {}".to_string()),
    ];
    let binary_files = vec!["image.png".to_string(), "video.mp4".to_string()];
    let ignore_patterns = vec!["*.tmp".to_string(), "node_modules/".to_string()];

    // Test verbose mode
    let out = reporter.dry_run_preview_comprehensive(&tasks, true, &binary_files, &ignore_patterns, "applied");
    assert_eq!(
        text_of(&out),
        "Dry run enabled.\n\
         \n\
         Summary of planned operations:\n\
         \x20 • 1 files to be created\n\
         \x20 • 1 directories to be created\n\
         \x20 • Total: 2 operations\n\
         \n\
         Complete list of operations:\n\
         \x20 1. 📁 src\n\
         \x20 2. 📄 src/main.rs\n\
         \n\
         Binary files that would be applied:\n\
         \x20 • image.png\n\
         \x20 • video.mp4\n\
         \n\
         Ignore patterns that would be used:\n\
         \x20 • *.tmp\n\
         \x20 • node_modules/\n\
         \n\
         ------------------------------------------\n\
         Dry run complete. No changes were made.\n"
    );
}

#[test]
fn test_dry_run_preview_comprehensive_non_verbose() {
    let reporter = DefaultReporter::new();
    let tasks = vec![
        Task::Dir("src".into()),
        Task::File("src/main.rs".into(), "fn main() {}".to_string()),
        Task::File("lib.rs".into(), "// lib".to_string()),
        Task::File("tests.rs".into(), "// tests".to_string()),
    ];
    let binary_files = vec![
        "img1.png".to_string(),
        "img2.jpg".to_string(),
        "img3.gif".to_string(),
        "img4.png".to_string(),
    ];
    let ignore_patterns = vec![
        "*.tmp".to_string(),
        "*.log".to_string(),
        "node_modules/".to_string(),
        "target/".to_string(),
    ];

    // Test non-verbose mode (should show first 3 + count)
    let out = reporter.dry_run_preview_comprehensive(&tasks, false, &binary_files, &ignore_patterns, "captured");
    assert_eq!(
        text_of(&out),
        "Dry run enabled.\n\
         \n\
         Summary of planned operations:\n\
         \x20 • 3 files to be created\n\
         \x20 • 1 directories to be created\n\
         \x20 • Total: 4 operations\n\
         \n\
         Operations preview (showing first 3):\n\
         \x20 1. 📁 src\n\
         \x20 2. 📄 src/main.rs\n\
         \x20 3. 📄 lib.rs\n\
         \x20 ... and 1 more operations\n\
         \n\
         Binary files that would be captured:\n\
         \x20 • img1.png\n\
         \x20 • img2.jpg\n\
         \x20 • img3.gif\n\
         \x20 ... and 1 more binary files\n\
         \n\
         Ignore patterns that would be used:\n\
         \x20 • *.tmp\n\
         \x20 • *.log\n\
         \x20 • node_modules/\n\
         \x20 ... and 1 more ignore patterns\n\
         \n\
         ------------------------------------------\n\
         Dry run complete. No changes were made.\n"
    );
}

#[test]
fn test_dry_run_preview_comprehensive_empty_lists() {
    let reporter = DefaultReporter::new();
    let tasks = vec![Task::Dir("src".into())];
    let binary_files = vec![];
    let ignore_patterns = vec![];

    // Test with empty binary files and ignore patterns
    let out = reporter.dry_run_preview_comprehensive(&tasks, true, &binary_files, &ignore_patterns, "processed");
    assert_eq!(
        text_of(&out),
        "Dry run enabled.\n\
         \n\
         Summary of planned operations:\n\
         \x20 • 0 files to be created\n\
         \x20 • 1 directories to be created\n\
         \x20 • Total: 1 operations\n\
         \n\
         Complete list of operations:\n\
         \x20 1. 📁 src\n\
         \n\
         ------------------------------------------\n\
         Dry run complete. No changes were made.\n"
    );
}

#[test]
fn test_silent_reporter_comprehensive() {
    let reporter = SilentReporter;
    let tasks = vec![Task::Dir("test".into())];
    let binary_files = vec!["test.bin".to_string()];
    let ignore_patterns = vec!["*.tmp".to_string()];

    // Test all methods on silent reporter
    assert!(reporter.dry_run_preview_verbose(&tasks, true).is_empty());
    assert!(reporter
        .dry_run_preview_comprehensive(&tasks, true, &binary_files, &ignore_patterns, "processed")
        .is_empty());
    assert!(reporter.verbose_operation_preview(&tasks).is_empty());
}

#[test]
fn test_default_reporter_default_impl() {
    let reporter1 = DefaultReporter::default();
    let reporter2 = DefaultReporter::new();

    // Both should create Pretty format
    match (reporter1.output_format(), reporter2.output_format()) {
        (OutputFormat::Pretty, OutputFormat::Pretty) => {}
        _ => panic!("Default implementation doesn't match new()"),
    }
}

#[test]
fn pretty_reports_colour_their_heads() {
    let reporter = DefaultReporter::new();
    let spans = reporter.operation_start("apply", "Creating 5 tasks");
    assert_eq!(
        spans,
        vec![
            Span::Text { text: "start: ".to_string(), shade: Some(Shade::Blue) },
            Span::Text { text: "apply: Creating 5 tasks\n".to_string(), shade: None },
        ]
    );
    let task = Task::Dir("out/src".into());
    assert_eq!(
        reporter.task_success(&task),
        vec![
            Span::Text { text: "📁 ".to_string(), shade: None },
            Span::Text { text: "Dir: ".to_string(), shade: Some(Shade::Blue) },
            Span::Text { text: "out/src\n".to_string(), shade: None },
        ]
    );
    let done = reporter.apply_complete(&SimpleApplyResult::new(1, 2, Duration::from_micros(1500), 3));
    assert_eq!(
        done[2],
        Span::Elapsed { duration: Duration::from_micros(1500), shade: Some(Shade::Cyan) }
    );
}

#[test]
fn plain_reports_are_single_lines() {
    let reporter = DefaultReporter::with_format(OutputFormat::Json);
    let task = Task::File("a/b.txt".into(), String::new());
    assert_eq!(text_of(&reporter.operation_start("snapshot", "x")), "start: snapshot: x\n");
    assert_eq!(text_of(&reporter.progress(1000, 20000, "m")), "progress: 1000/20000 - m\n");
    assert_eq!(text_of(&reporter.task_success(&task)), "✓ a/b.txt\n");
    assert_eq!(text_of(&reporter.task_warning(&task, "denied")), "warning: a/b.txt: denied\n");
    assert_eq!(
        text_of(&reporter.dry_run_preview_verbose(&[task, Task::Dir("c".into())], true)),
        "Dry run preview (2 tasks):\n  a/b.txt\n  c\n"
    );
}

#[test]
fn the_sample_of_a_preview_stops_at_five() {
    let reporter = DefaultReporter::new();
    let tasks: Vec<Task> = (0..7).map(|i| Task::Dir(format!("d{}", i).as_str().into())).collect();
    assert_eq!(
        text_of(&reporter.dry_run_preview(&tasks)),
        "Dry run enabled. Summary of planned operations:\n\
         \x20 • 0 files to be created\n\
         \x20 • 7 directories to be created\n\
         \x20 • Total: 7 operations\n\
         \nSample of operations:\n\
         \x20 1. 📁 d0\n\
         \x20 2. 📁 d1\n\
         \x20 3. 📁 d2\n\
         \x20 4. 📁 d3\n\
         \x20 5. 📁 d4\n\
         \x20 ... and 2 more operations\n\
         \ntip: Use --verbose to see the complete operation list\n\
         \nDry run complete. No changes were made.\n"
    );
    assert_eq!(
        text_of(&reporter.dry_run_preview_verbose(&tasks[..1], true)),
        "Dry run enabled. Summary of planned operations:\n\
         \x20 • 0 files to be created\n\
         \x20 • 1 directories to be created\n\
         \x20 • Total: 1 operations\n\
         \nComplete list of operations:\n\
         \x20 1. 📁 d0\n\
         \nDry run complete. No changes were made.\n"
    );
    assert_eq!(
        text_of(&reporter.dry_run_preview(&[])),
        "Dry run enabled. Summary of planned operations:\n\
         \x20 • 0 files to be created\n\
         \x20 • 0 directories to be created\n\
         \x20 • Total: 0 operations\n\
         \nDry run complete. No changes were made.\n"
    );
}

#[test]
fn a_snapshot_report_lists_three_binary_files_at_most() {
    let reporter = DefaultReporter::new();
    let result = SimpleSnapshotResult {
        files_processed: 9,
        dirs_processed: 1,
        duration: Duration::from_millis(1),
        output_path: "out put\".yml".to_string(),
        binary_files_excluded: 5,
        binary_files_list: vec!["a", "b", "c", "d", "e"].into_iter().map(String::from).collect(),
    };
    assert_eq!(
        text_of(&reporter.snapshot_complete(&result)),
        "Snapshot written to \"out put\\\".yml\"\n\nBinary files excluded:\n  • a\n  • b\n  • c\n  ... and 2 more binary files\n"
    );
}
