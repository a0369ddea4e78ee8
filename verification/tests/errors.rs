use skeletor::errors::SkeletorError;
use skeletor::utils::parse_yaml_string;
use std::io::{Error as IoError, ErrorKind};

#[test]
fn test_file_not_found_error() {
    let path = "test.txt".to_string();
    let error = SkeletorError::FileNotFound { path: path.clone() };
    let error_str = error.message();
    assert!(error_str.contains("test.txt"));
    assert!(error_str.contains("tip:"));
    assert!(error_str.contains("Check that the file exists"));
}

#[test]
fn test_directory_not_found_error() {
    let path = "test_dir".to_string();
    let error = SkeletorError::DirectoryNotFound { path: path.clone() };
    let error_str = error.message();
    assert!(error_str.contains("test_dir"));
    assert!(error_str.contains("tip:"));
    assert!(error_str.contains("Verify the directory path"));
}

#[test]
fn test_permission_denied_error() {
    let path = "/restricted/file.txt".to_string();
    let error = SkeletorError::PermissionDenied { path: path.clone() };
    let error_str = error.message();
    assert!(error_str.contains("/restricted/file.txt"));
    assert!(error_str.contains("tip:"));
    assert!(error_str.contains("Check file/directory permissions"));
}

#[test]
fn test_invalid_yaml_error() {
    let error = SkeletorError::InvalidYaml { message: "unexpected character".to_string() };
    let error_str = error.message();
    assert!(error_str.contains("unexpected character"));
    assert!(error_str.contains("tip:"));
    assert!(error_str.contains("YAML validator"));
}

#[test]
fn test_missing_config_key_error() {
    let error = SkeletorError::MissingConfigKey { key: "directories".to_string() };
    let error_str = error.message();
    assert!(error_str.contains("directories"));
    assert!(error_str.contains("tip:"));
    assert!(error_str.contains("required 'directories' section"));
}

#[test]
fn test_invalid_ignore_pattern_error() {
    let error = SkeletorError::InvalidIgnorePattern { pattern: "[invalid".to_string() };
    let error_str = error.message();
    assert!(error_str.contains("[invalid"));
    assert!(error_str.contains("tip:"));
    assert!(error_str.contains("glob pattern syntax"));
}

#[test]
fn test_from_io_with_context_file_not_found() {
    let io_error = IoError::new(ErrorKind::NotFound, "file not found");
    let path = "missing.txt".to_string();
    let error = SkeletorError::from_io_with_context(io_error, path, false);

    match error {
        SkeletorError::FileNotFound { path } => {
            assert_eq!(path, "missing.txt");
        }
        _ => panic!("Expected FileNotFound error"),
    }
}

#[test]
fn test_from_io_with_context_directory_not_found() {
    let io_error = IoError::new(ErrorKind::NotFound, "directory not found");
    let path = "missing_dir/".to_string();
    let error = SkeletorError::from_io_with_context(io_error, path, false);

    match error {
        SkeletorError::DirectoryNotFound { path } => {
            assert_eq!(path, "missing_dir/");
        }
        _ => panic!("Expected DirectoryNotFound error"),
    }
}

#[test]
fn test_from_io_with_context_permission_denied() {
    let io_error = IoError::new(ErrorKind::PermissionDenied, "permission denied");
    let path = "/restricted".to_string();
    let error = SkeletorError::from_io_with_context(io_error, path, false);

    match error {
        SkeletorError::PermissionDenied { path } => {
            assert_eq!(path, "/restricted");
        }
        _ => panic!("Expected PermissionDenied error"),
    }
}

#[test]
fn test_from_io_with_context_other_error() {
    let io_error = IoError::new(ErrorKind::InvalidData, "invalid data");
    let path = "test.txt".to_string();
    let error = SkeletorError::from_io_with_context(io_error, path, false);

    match error {
        SkeletorError::Io(_) => {} // Should fall back to generic IO error
        _ => panic!("Expected Io error"),
    }
}

#[test]
fn test_directory_not_found_helper() {
    let path = "test_dir".to_string();
    let error = SkeletorError::directory_not_found(path.clone());

    match error {
        SkeletorError::DirectoryNotFound { path: err_path } => {
            assert_eq!(err_path, path);
        }
        _ => panic!("Expected DirectoryNotFound error"),
    }
}

#[test]
fn test_invalid_yaml_helper() {
    let error = SkeletorError::invalid_yaml("syntax error");

    match error {
        SkeletorError::InvalidYaml { message } => {
            assert_eq!(message, "syntax error");
        }
        _ => panic!("Expected InvalidYaml error"),
    }
}

#[test]
fn test_missing_config_key_helper() {
    let error = SkeletorError::missing_config_key("directories");

    match error {
        SkeletorError::MissingConfigKey { key } => {
            assert_eq!(key, "directories");
        }
        _ => panic!("Expected MissingConfigKey error"),
    }
}

#[test]
fn test_error_debug_format() {
    let error = SkeletorError::Config("test config error".to_string());
    let debug_str = format!("{:?}", error);
    assert!(debug_str.contains("Config"));
    assert!(debug_str.contains("test config error"));
}

#[test]
fn test_io_error_conversion() {
    let io_error = IoError::new(ErrorKind::InvalidData, "test io error");
    let error: SkeletorError = io_error.into();

    match error {
        SkeletorError::Io(_) => {}
        _ => panic!("Expected Io error from conversion"),
    }
}

#[test]
fn test_yaml_error_conversion() {
    // Create a YAML error by parsing invalid YAML
    let yaml_result: Result<serde_yaml::Value, serde_yaml::Error> =
        serde_yaml::from_str("invalid: yaml: [");

    if let Err(yaml_error) = yaml_result {
        let error: SkeletorError = yaml_error.into();
        match error {
            SkeletorError::Yaml(_) => {}
            _ => panic!("Expected Yaml error from conversion"),
        }
    } else {
        panic!("Expected YAML parsing to fail");
    }
}

#[test]
fn every_message_reads_as_written() {
    assert_eq!(
        SkeletorError::FileNotFound { path: "a/b.yml".to_string() }.message(),
        "file not found: 'a/b.yml'\ntip: Check that the file exists and you have read permissions"
    );
    assert_eq!(
        SkeletorError::DirectoryNotFound { path: "src".to_string() }.message(),
        "directory not found: 'src'\ntip: Verify the directory path exists and is accessible"
    );
    assert_eq!(
        SkeletorError::PermissionDenied { path: "/root".to_string() }.message(),
        "permission denied: '/root'\ntip: Check file/directory permissions or run with appropriate privileges"
    );
    assert_eq!(
        SkeletorError::InvalidYaml { message: "bad".to_string() }.message(),
        "invalid YAML configuration: bad\ntip: Validate your YAML syntax using an online YAML validator"
    );
    assert_eq!(
        SkeletorError::MissingConfigKey { key: "directories".to_string() }.message(),
        "missing configuration key: 'directories'\ntip: Ensure your YAML file contains the required 'directories' section"
    );
    assert_eq!(
        SkeletorError::InvalidIgnorePattern { pattern: "[x".to_string() }.message(),
        "invalid ignore pattern: '[x'\ntip: Check glob pattern syntax (e.g., '*.log', 'target/*')"
    );
    assert_eq!(
        SkeletorError::InvalidPath { key: "../x".to_string() }.message(),
        "invalid path: '../x'\ntip: Keys must stay below the target directory: no '..', no absolute path, no drive prefix"
    );
    assert_eq!(SkeletorError::Config("c".to_string()).message(), "Configuration error: c");
    let io: SkeletorError = IoError::new(ErrorKind::Other, "disk on fire").into();
    assert_eq!(io.message(), "IO error: disk on fire");
    match parse_yaml_string("a: [") {
        Err(SkeletorError::InvalidYaml { message }) => assert!(!message.is_empty()),
        other => panic!("expected InvalidYaml, got {:?}", other),
    }
    let yaml: SkeletorError = serde_yaml::from_str::<serde_yaml::Value>("a: [").unwrap_err().into();
    assert!(yaml.message().starts_with("YAML parsing error: "));
    assert!(yaml.message().len() > "YAML parsing error: ".len());
}

#[test]
fn a_missing_path_reads_as_a_directory_or_a_file() {
    let not_found = || IoError::new(ErrorKind::NotFound, "gone");
    let kind = |path: &str, is_dir: bool| {
        match SkeletorError::from_io_with_context(not_found(), path.to_string(), is_dir) {
            SkeletorError::DirectoryNotFound { .. } => "dir",
            SkeletorError::FileNotFound { .. } => "file",
            _ => "other",
        }
    };
    assert_eq!(kind("plain", false), "dir");
    assert_eq!(kind("with.dot", false), "file");
    assert_eq!(kind("with.dot/", false), "dir");
    assert_eq!(kind("with.dot", true), "dir");
    assert_eq!(kind("", false), "dir");
    assert_eq!(kind("a.d/b", false), "file");
}
