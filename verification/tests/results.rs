use skeletor::config::default_file_path;
use skeletor::materialize::CreationResult;
use std::path::PathBuf;

#[test]
fn test_default_file_path_when_input_not_provided() {
    // When no input is specified, default_file_path returns ".skeletorrc"
    let path = default_file_path(None);
    assert_eq!(PathBuf::from(path), PathBuf::from(".skeletorrc"));
}

#[test]
fn default_file_path_keeps_a_given_path() {
    let given = "templates/web.yml".to_string();
    assert_eq!(default_file_path(Some(&given)), "templates/web.yml");
}

#[test]
fn test_creation_result_new_and_default() {
    let result1 = CreationResult::new();
    let result2 = CreationResult::default();

    assert_eq!(result1.files_created, 0);
    assert_eq!(result1.dirs_created, 0);
    assert_eq!(result1.files_skipped, 0);
    assert_eq!(result1.files_overwritten, 0);
    assert!(result1.skipped_files_list.is_empty());
    assert!(result1.overwritten_files_list.is_empty());

    // Test that default and new produce equivalent results
    assert_eq!(result1.files_created, result2.files_created);
    assert_eq!(result1.dirs_created, result2.dirs_created);
}

#[test]
fn test_creation_result_debug_and_clone() {
    let mut result = CreationResult::new();
    result.files_created = 5;
    result.files_skipped = 2;
    result.skipped_files_list.push("test.txt".to_string());

    // Test clone functionality
    let cloned = result.clone();
    assert_eq!(cloned.files_created, result.files_created);
    assert_eq!(cloned.skipped_files_list, result.skipped_files_list);

    // Test debug formatting
    let debug_str = format!("{:?}", result);
    assert!(debug_str.contains("files_created"));
    assert!(debug_str.contains("files_skipped"));
}
