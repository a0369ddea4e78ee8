//! What can go wrong, and how each failure reads to the user.

use vstd::prelude::*;
use vstd::string::*;

verus! {

#[verifier::external_type_specification]
#[verifier::external_body]
pub struct ExIoError(std::io::Error);

#[verifier::external_type_specification]
#[verifier::external_body]
pub struct ExYamlError(serde_yaml::Error);

/// The kinds of I/O failure that are reported in words of their own.
#[derive(Clone, Copy, Debug, PartialEq, Eq)]
pub enum IoFailureKind {
    NotFound,
    PermissionDenied,
    Other,
}

/// The kind of failure that an I/O error stands for.
pub uninterp spec fn io_failure_kind(error: std::io::Error) -> IoFailureKind;

/// `std::io::Error::kind`, read as one of the three kinds that the engine tells apart:
/// `ErrorKind::NotFound`, `ErrorKind::PermissionDenied`, and every other kind as `Other`.
#[verifier::external_body]
fn failure_kind(error: &std::io::Error) -> (kind: IoFailureKind)
    ensures
        kind == io_failure_kind(*error),
{
    match error.kind() {
        std::io::ErrorKind::NotFound => IoFailureKind::NotFound,
        std::io::ErrorKind::PermissionDenied => IoFailureKind::PermissionDenied,
        _ => IoFailureKind::Other,
    }
}

/// The `Display` text of a `std::io::Error`. It may come from the operating system,
/// so nothing is stated of it.
#[verifier::external_body]
pub(crate) fn io_error_text(error: &std::io::Error) -> (text: String) {
    error.to_string()
}

/// The `Display` text of a `serde_yaml::Error`: the parser's message with the place
/// it points at. Nothing is stated of it.
#[verifier::external_body]
pub(crate) fn yaml_error_text(error: &serde_yaml::Error) -> (text: String) {
    error.to_string()
}

#[derive(Debug)]
pub enum SkeletorError {
    Io(std::io::Error),
    Yaml(serde_yaml::Error),
    Config(String),
    FileNotFound { path: String },
    DirectoryNotFound { path: String },
    PermissionDenied { path: String },
    InvalidYaml { message: String },
    MissingConfigKey { key: String },
    InvalidIgnorePattern { pattern: String },
    /// A mapping key that would lead out of the target directory.
    InvalidPath { key: String },
}

/// Whether a path that was not found reads as a directory: it ends in `/`, or holds
/// no `.`, or is known to be a directory.
pub open spec fn reads_as_directory(path: Seq<char>, is_directory: bool) -> bool {
    ||| (path.len() > 0 && path.last() == '/')
    ||| !path.contains('.')
    ||| is_directory
}

fn ends_with_slash_or_has_no_dot(path: &str) -> (b: bool)
    ensures
        b == reads_as_directory(path@, false),
{
    let n: usize = path.unicode_len();
    if n > 0 && path.get_char(n - 1) == '/' {
        return true;
    }
    let mut i: usize = 0;
    while i < n
        invariant
            n == path@.len(),
            i <= n,
            !(n > 0 && path@.last() == '/'),
            forall|k: int| 0 <= k < i ==> path@[k] != '.',
        decreases n - i,
    {
        if path.get_char(i) == '.' {
            assert(path@.contains('.'));
            return false;
        }
        i += 1;
    }
    true
}

impl SkeletorError {
    /// The error that stands for an I/O failure at `path`. `is_directory` says whether
    /// the caller knows `path` to be a directory.
    pub fn from_io_with_context(error: std::io::Error, path: String, is_directory: bool) -> (e:
        SkeletorError)
        ensures
            match io_failure_kind(error) {
                IoFailureKind::NotFound => if reads_as_directory(path@, is_directory) {
                    e == (SkeletorError::DirectoryNotFound { path })
                } else {
                    e == (SkeletorError::FileNotFound { path })
                },
                IoFailureKind::PermissionDenied => e == (SkeletorError::PermissionDenied { path }),
                IoFailureKind::Other => e == SkeletorError::Io(error),
            },
    {
        match failure_kind(&error) {
            IoFailureKind::NotFound => {
                if is_directory || ends_with_slash_or_has_no_dot(path.as_str()) {
                    SkeletorError::DirectoryNotFound { path }
                } else {
                    SkeletorError::FileNotFound { path }
                }
            },
            IoFailureKind::PermissionDenied => SkeletorError::PermissionDenied { path },
            IoFailureKind::Other => SkeletorError::Io(error),
        }
    }

    pub fn directory_not_found(path: String) -> (e: SkeletorError)
        ensures
            e == (SkeletorError::DirectoryNotFound { path }),
    {
        SkeletorError::DirectoryNotFound { path }
    }

    pub fn invalid_yaml(message: &str) -> (e: SkeletorError)
        ensures
            e matches SkeletorError::InvalidYaml { message: m } && m@ == message@,
    {
        SkeletorError::InvalidYaml { message: String::from_str(message) }
    }

    pub fn missing_config_key(key: &str) -> (e: SkeletorError)
        ensures
            e matches SkeletorError::MissingConfigKey { key: k } && k@ == key@,
    {
        SkeletorError::MissingConfigKey { key: String::from_str(key) }
    }

    /// What the user reads of this error, without the text of an I/O or parser error
    /// that it may wrap.
    pub open spec fn headline(self) -> Seq<char> {
        match self {
            SkeletorError::Io(_) => "IO error: "@,
            SkeletorError::Yaml(_) => "YAML parsing error: "@,
            SkeletorError::Config(detail) => "Configuration error: "@ + detail@,
            SkeletorError::FileNotFound { path } => "file not found: '"@ + path@
                + "'\ntip: Check that the file exists and you have read permissions"@,
            SkeletorError::DirectoryNotFound { path } => "directory not found: '"@ + path@
                + "'\ntip: Verify the directory path exists and is accessible"@,
            SkeletorError::PermissionDenied { path } => "permission denied: '"@ + path@
                + "'\ntip: Check file/directory permissions or run with appropriate privileges"@,
            SkeletorError::InvalidYaml { message } => "invalid YAML configuration: "@ + message@
                + "\ntip: Validate your YAML syntax using an online YAML validator"@,
            SkeletorError::MissingConfigKey { key } => "missing configuration key: '"@ + key@
                + "'\ntip: Ensure your YAML file contains the required '"@ + key@ + "' section"@,
            SkeletorError::InvalidIgnorePattern { pattern } => "invalid ignore pattern: '"@
                + pattern@ + "'\ntip: Check glob pattern syntax (e.g., '*.log', 'target/*')"@,
            SkeletorError::InvalidPath { key } => "invalid path: '"@ + key@
                + "'\ntip: Keys must stay below the target directory: no '..', no absolute path, no drive prefix"@,
        }
    }

    /// The message for the user. For an error that wraps an I/O or parser error the
    /// text of that error follows the headline.
    pub fn message(&self) -> (text: String)
        ensures
            match self {
                SkeletorError::Io(_) | SkeletorError::Yaml(_) => self.headline().is_prefix_of(
                    text@,
                ),
                _ => text@ == self.headline(),
            },
    {
        match self {
            SkeletorError::Io(error) => {
                let mut text = String::from_str("IO error: ");
                let detail = io_error_text(error);
                text.append(detail.as_str());
                text
            },
            SkeletorError::Yaml(error) => {
                let mut text = String::from_str("YAML parsing error: ");
                let detail = yaml_error_text(error);
                text.append(detail.as_str());
                text
            },
            SkeletorError::Config(detail) => {
                let mut text = String::from_str("Configuration error: ");
                text.append(detail.as_str());
                text
            },
            SkeletorError::FileNotFound { path } => {
                let mut text = String::from_str("file not found: '");
                text.append(path.as_str());
                text.append("'\ntip: Check that the file exists and you have read permissions");
                text
            },
            SkeletorError::DirectoryNotFound { path } => {
                let mut text = String::from_str("directory not found: '");
                text.append(path.as_str());
                text.append("'\ntip: Verify the directory path exists and is accessible");
                text
            },
            SkeletorError::PermissionDenied { path } => {
                let mut text = String::from_str("permission denied: '");
                text.append(path.as_str());
                text.append(
                    "'\ntip: Check file/directory permissions or run with appropriate privileges",
                );
                text
            },
            SkeletorError::InvalidYaml { message } => {
                let mut text = String::from_str("invalid YAML configuration: ");
                text.append(message.as_str());
                text.append("\ntip: Validate your YAML syntax using an online YAML validator");
                text
            },
            SkeletorError::MissingConfigKey { key } => {
                let mut text = String::from_str("missing configuration key: '");
                text.append(key.as_str());
                text.append("'\ntip: Ensure your YAML file contains the required '");
                text.append(key.as_str());
                text.append("' section");
                text
            },
            SkeletorError::InvalidIgnorePattern { pattern } => {
                let mut text = String::from_str("invalid ignore pattern: '");
                text.append(pattern.as_str());
                text.append("'\ntip: Check glob pattern syntax (e.g., '*.log', 'target/*')");
                text
            },
            SkeletorError::InvalidPath { key } => {
                let mut text = String::from_str("invalid path: '");
                text.append(key.as_str());
                text.append(
                    "'\ntip: Keys must stay below the target directory: no '..', no absolute path, no drive prefix",
                );
                text
            },
        }
    }
}

impl From<std::io::Error> for SkeletorError {
    fn from(error: std::io::Error) -> (e: SkeletorError) {
        SkeletorError::Io(error)
    }
}

impl vstd::std_specs::convert::FromSpecImpl<std::io::Error> for SkeletorError {
    open spec fn obeys_from_spec() -> bool {
        true
    }

    open spec fn from_spec(error: std::io::Error) -> SkeletorError {
        SkeletorError::Io(error)
    }
}

impl From<serde_yaml::Error> for SkeletorError {
    fn from(error: serde_yaml::Error) -> (e: SkeletorError) {
        SkeletorError::Yaml(error)
    }
}

impl vstd::std_specs::convert::FromSpecImpl<serde_yaml::Error> for SkeletorError {
    open spec fn obeys_from_spec() -> bool {
        true
    }

    open spec fn from_spec(error: serde_yaml::Error) -> SkeletorError {
        SkeletorError::Yaml(error)
    }
}

} // verus!
