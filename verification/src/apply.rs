//! Applying a configuration: what the document says beside the tree, and the
//! summary of a run.

use crate::config::{texts_in, texts_under, SkeletorConfig};
use crate::errors::SkeletorError;
use crate::materialize::CreationResult;
use crate::path::TreePath;
use crate::tasks::{task_views, tasks_of, traverse_structure, Task};
use crate::text::strings;
use crate::value::ConfigValue;
use std::time::Duration;
use vstd::prelude::*;

verus! {

/// Extract binary files list from the document if present
pub fn extract_binary_files_from_yaml(yaml_config: &ConfigValue) -> (files: Vec<String>)
    ensures
        strings(files@) == texts_under(yaml_config@, "binary_files"@),
{
    texts_in(yaml_config, "binary_files")
}

/// Extract ignore patterns from the document if present
pub fn extract_ignore_patterns_from_yaml(yaml_config: &ConfigValue) -> (patterns: Vec<String>)
    ensures
        strings(patterns@) == texts_under(yaml_config@, "ignore_patterns"@),
{
    texts_in(yaml_config, "ignore_patterns")
}

/// Result of applying a configuration
#[derive(Debug, Clone)]
pub struct ApplyResult {
    pub files_created: usize,
    pub dirs_created: usize,
    pub duration: Duration,
    pub tasks_total: usize,
}

/// Result of taking a directory snapshot
#[derive(Debug, Clone)]
pub struct SnapshotResult {
    pub files_processed: usize,
    pub dirs_processed: usize,
    pub duration: Duration,
    pub output_path: String,
    pub binary_files_excluded: usize,
}

/// The tasks of a configuration below `target_dir`.
pub fn plan_config(config: &SkeletorConfig, target_dir: &TreePath) -> (r: Result<
    Vec<Task>,
    SkeletorError,
>)
    ensures
        match tasks_of(target_dir@, config.directories@) {
            Ok(tasks) => r is Ok && task_views(r.unwrap()@) == tasks,
            Err(name) => r matches Err(SkeletorError::InvalidPath { key }) && key@ == name,
        },
{
    traverse_structure(target_dir, &config.directories)
}

/// The summary of a run over `tasks_total` tasks that took `duration`. A dry run has
/// no count (`None`) and has created nothing.
pub fn summarize_apply(count: Option<&CreationResult>, tasks_total: usize, duration: Duration) -> (result:
    ApplyResult)
    ensures
        result.tasks_total == tasks_total,
        result.duration == duration,
        match count {
            Some(made) => result.files_created == made.files_created && result.dirs_created
                == made.dirs_created,
            None => result.files_created == 0 && result.dirs_created == 0,
        },
{
    match count {
        Some(made) => ApplyResult {
            files_created: made.files_created,
            dirs_created: made.dirs_created,
            duration,
            tasks_total,
        },
        None => ApplyResult { files_created: 0, dirs_created: 0, duration, tasks_total },
    }
}

} // verus!
