//! What is told to the user, as values.
//!
//! A reporter does not print. It says what is to be printed: a list of spans, each a
//! piece of text (in colour or plain) or a length of time. Whoever prints them writes
//! the spans one after another and adds nothing between them.

use crate::tasks::{
    dir_tasks, file_tasks, is_dir_task, is_file_task, task_views, Task, TaskView,
};
use crate::text::{decimal, decimal_text, quoted, quoted_text, strings};
use std::time::Duration;
use vstd::prelude::*;
use vstd::string::*;

verus! {

/// `Clone::clone` of a `Duration`, which is a `Copy` type: the same length of time.
pub assume_specification[ <std::time::Duration as std::clone::Clone>::clone ](
    duration: &std::time::Duration,
) -> (copy: std::time::Duration)
    ensures
        copy == *duration,
;

/// The colours that reports are written in.
#[derive(Clone, Copy, Debug, PartialEq, Eq)]
pub enum Shade {
    Blue,
    Yellow,
    Green,
    Cyan,
}

/// One piece of a report.
#[derive(Debug, PartialEq, Eq)]
pub enum Span {
    /// Text; in bold of the given colour where there is one.
    Text { text: String, shade: Option<Shade> },
    /// A length of time, to be written in milliseconds with two decimals and `ms`
    /// behind it; in bold of the given colour where there is one.
    Elapsed { duration: Duration, shade: Option<Shade> },
}

/// The mathematical value of a [`Span`].
pub enum SpanView {
    Text { text: Seq<char>, shade: Option<Shade> },
    Elapsed { duration: Duration, shade: Option<Shade> },
}

impl View for Span {
    type V = SpanView;

    open spec fn view(&self) -> SpanView {
        match self {
            Span::Text { text, shade } => SpanView::Text { text: text@, shade: *shade },
            Span::Elapsed { duration, shade } => SpanView::Elapsed {
                duration: *duration,
                shade: *shade,
            },
        }
    }
}

pub open spec fn span_views(spans: Seq<Span>) -> Seq<SpanView> {
    spans.map_values(|s: Span| s@)
}

/// Text without colour.
pub open spec fn plain(text: Seq<char>) -> SpanView {
    SpanView::Text { text, shade: None }
}

/// Text in colour.
pub open spec fn shaded(text: Seq<char>, shade: Shade) -> SpanView {
    SpanView::Text { text, shade: Some(shade) }
}

/// Text without colour, and a line feed behind it.
pub open spec fn line(text: Seq<char>) -> SpanView {
    plain(text + "\n"@)
}

/// The sign that marks a task in a list.
pub open spec fn icon(task: TaskView) -> Seq<char> {
    match task {
        TaskView::Dir(_) => "📁"@,
        TaskView::File(_, _) => "📄"@,
    }
}

/// The line of the task at index `i` in a numbered list: numbers start at one.
pub open spec fn numbered(i: int, task: TaskView) -> SpanView {
    line("  "@ + decimal((i + 1) as nat) + ". "@ + icon(task) + " "@ + task.path().text())
}

/// The numbered lines of the first `n` tasks.
pub open spec fn numbered_lines(tasks: Seq<TaskView>, n: int) -> Seq<SpanView> {
    Seq::new(n as nat, |i: int| numbered(i, tasks[i]))
}

/// The line of one item in a list of items.
pub open spec fn bullet(item: Seq<char>) -> SpanView {
    line("  • "@ + item)
}

/// The lines of the first `n` items.
pub open spec fn bullets(items: Seq<Seq<char>>, n: int) -> Seq<SpanView> {
    Seq::new(n as nat, |i: int| bullet(items[i]))
}

/// How many of `len` items are shown where at most `limit` are.
pub open spec fn shown(len: int, limit: int) -> int {
    if len < limit {
        len
    } else {
        limit
    }
}

/// The line that says how many items were not shown, where some were not.
pub open spec fn more_line(len: int, limit: int, what: Seq<char>) -> Seq<SpanView> {
    if len > limit {
        seq![line("  ... and "@ + decimal((len - limit) as nat) + " more "@ + what)]
    } else {
        Seq::empty()
    }
}

/// The three lines that count the tasks of a list.
pub open spec fn summary(tasks: Seq<TaskView>) -> Seq<SpanView> {
    seq![
        line("  • "@ + decimal(file_tasks(tasks)) + " files to be created"@),
        line("  • "@ + decimal(dir_tasks(tasks)) + " directories to be created"@),
        line("  • Total: "@ + decimal(tasks.len()) + " operations"@),
    ]
}

/// A titled list of items behind an empty line; nothing where there are no items.
/// Where not all is to be shown, three items are, and a line counts the rest.
pub open spec fn listed(items: Seq<Seq<char>>, verbose: bool, title: Seq<char>, what: Seq<char>) -> Seq<
    SpanView,
> {
    if items.len() == 0 {
        Seq::empty()
    } else if verbose {
        seq![line(Seq::empty()), line(title)] + bullets(items, items.len() as int)
    } else {
        seq![line(Seq::empty()), line(title)] + bullets(items, shown(items.len() as int, 3))
            + more_line(items.len() as int, 3, what)
    }
}

/// The list of tasks in a preview: all of them, or the first `limit` under `title`.
pub open spec fn task_list(
    tasks: Seq<TaskView>,
    verbose: bool,
    full_title: Seq<char>,
    title: Seq<char>,
    limit: int,
) -> Seq<SpanView> {
    if tasks.len() == 0 {
        Seq::empty()
    } else if verbose {
        seq![line(full_title)] + numbered_lines(tasks, tasks.len() as int)
    } else {
        seq![line(title)] + numbered_lines(tasks, shown(tasks.len() as int, limit)) + more_line(
            tasks.len() as int,
            limit,
            "operations"@,
        )
    }
}

/// The preview of a dry run with all that is known of it.
pub open spec fn comprehensive_preview(
    tasks: Seq<TaskView>,
    verbose: bool,
    binary_files: Seq<Seq<char>>,
    ignore_patterns: Seq<Seq<char>>,
    verb: Seq<char>,
) -> Seq<SpanView> {
    seq![
        line("Dry run enabled."@),
        line(Seq::empty()),
        line("Summary of planned operations:"@),
    ] + summary(tasks) + seq![line(Seq::empty())] + task_list(
        tasks,
        verbose,
        "Complete list of operations:"@,
        "Operations preview (showing first 3):"@,
        3,
    ) + listed(
        binary_files,
        verbose,
        "Binary files that would be "@ + verb + ":"@,
        "binary files"@,
    ) + listed(
        ignore_patterns,
        verbose,
        "Ignore patterns that would be used:"@,
        "ignore patterns"@,
    ) + seq![
        line(Seq::empty()),
        line("------------------------------------------"@),
        line("Dry run complete. No changes were made."@),
    ]
}

/// The preview of a dry run in the coloured format.
pub open spec fn pretty_preview(tasks: Seq<TaskView>, verbose: bool) -> Seq<SpanView> {
    seq![line("Dry run enabled. Summary of planned operations:"@)] + summary(tasks) + (if tasks.len()
        == 0 {
        Seq::empty()
    } else if verbose {
        task_list(tasks, true, "\nComplete list of operations:"@, Seq::empty(), 5)
    } else {
        task_list(tasks, false, Seq::empty(), "\nSample of operations:"@, 5) + seq![
            line("\ntip: Use --verbose to see the complete operation list"@),
        ]
    }) + seq![line("\nDry run complete. No changes were made."@)]
}

/// The line of one task in the plain preview.
pub open spec fn indented(task: TaskView) -> SpanView {
    line("  "@ + task.path().text())
}

/// The preview of a dry run in the other formats.
pub open spec fn plain_preview(tasks: Seq<TaskView>) -> Seq<SpanView> {
    seq![line("Dry run preview ("@ + decimal(tasks.len()) + " tasks):"@)] + Seq::new(
        tasks.len(),
        |i: int| indented(tasks[i]),
    )
}

/// The list of the operations that are about to be carried out.
pub open spec fn operation_preview(tasks: Seq<TaskView>) -> Seq<SpanView> {
    seq![line("Operations to be executed:"@)] + numbered_lines(tasks, tasks.len() as int) + seq![
        line(Seq::empty()),
    ]
}

/// Output formatting options
#[derive(Debug, Clone, Copy, PartialEq, Eq)]
pub enum OutputFormat {
    /// Plain text output
    Plain,
    /// Colored output with emoji and formatting
    Pretty,
    /// JSON output for machine consumption
    Json,
}

/// Simple result types for output module (without external dependencies)
#[derive(Debug, Clone)]
pub struct SimpleApplyResult {
    pub files_created: usize,
    pub dirs_created: usize,
    pub duration: Duration,
    pub tasks_total: usize,
}

#[derive(Debug, Clone)]
pub struct SimpleSnapshotResult {
    pub files_processed: usize,
    pub dirs_processed: usize,
    pub duration: Duration,
    pub output_path: String,
    pub binary_files_excluded: usize,
    pub binary_files_list: Vec<String>,
}

impl SimpleApplyResult {
    pub fn new(files_created: usize, dirs_created: usize, duration: Duration, tasks_total: usize) -> (result:
        SimpleApplyResult)
        ensures
            result.files_created == files_created,
            result.dirs_created == dirs_created,
            result.duration == duration,
            result.tasks_total == tasks_total,
    {
        SimpleApplyResult { files_created, dirs_created, duration, tasks_total }
    }
}

fn plain_span(text: String) -> (span: Span)
    ensures
        span@ == plain(text@),
{
    Span::Text { text, shade: None }
}

fn shaded_span(text: &str, shade: Shade) -> (span: Span)
    ensures
        span@ == shaded(text@, shade),
{
    Span::Text { text: String::from_str(text), shade: Some(shade) }
}

proof fn lemma_span_views_push(spans: Seq<Span>, span: Span)
    ensures
        span_views(spans.push(span)) == span_views(spans).push(span@),
{
    assert(span_views(spans.push(span)) =~= span_views(spans).push(span@));
}

fn push_span(out: &mut Vec<Span>, span: Span)
    ensures
        span_views(final(out)@) == span_views(old(out)@).push(span@),
{
    proof {
        lemma_span_views_push(out@, span);
    }
    out.push(span);
}

fn push_line(out: &mut Vec<Span>, text: String)
    ensures
        span_views(final(out)@) == span_views(old(out)@).push(line(text@)),
{
    let mut text = text;
    text.append("\n");
    push_span(out, plain_span(text));
}

fn push_text_line(out: &mut Vec<Span>, text: &str)
    ensures
        span_views(final(out)@) == span_views(old(out)@).push(line(text@)),
{
    push_line(out, String::from_str(text));
}

/// `before`, the number, `after`.
fn counted(before: &str, n: usize, after: &str) -> (text: String)
    ensures
        text@ == before@ + decimal(n as nat) + after@,
{
    let mut text = String::from_str(before);
    let digits = decimal_text(n as u64);
    text.append(digits.as_str());
    text.append(after);
    text
}

/// The numbers of file tasks and of directory tasks in a list.
pub fn count_tasks(tasks: &[Task]) -> (counts: (usize, usize))
    ensures
        counts.0 == file_tasks(task_views(tasks@)),
        counts.1 == dir_tasks(task_views(tasks@)),
{
    let ghost views = task_views(tasks@);
    let mut files: usize = 0;
    let mut dirs: usize = 0;
    let n: usize = tasks.len();
    let mut i: usize = 0;
    proof {
        views.take(0).lemma_filter_len(is_file_task());
        views.take(0).lemma_filter_len(is_dir_task());
    }
    while i < n
        invariant
            n == tasks@.len(),
            i <= n,
            views == task_views(tasks@),
            files == file_tasks(views.take(i as int)),
            dirs == dir_tasks(views.take(i as int)),
            files + dirs == i,
        decreases n - i,
    {
        proof {
            assert(views.take(i + 1) == views.take(i as int).push(tasks@[i as int]@));
            views.take(i as int).lemma_filter_push(tasks@[i as int]@, is_file_task());
            views.take(i as int).lemma_filter_push(tasks@[i as int]@, is_dir_task());
        }
        match &tasks[i] {
            Task::File(_, _) => {
                files = files + 1;
            },
            Task::Dir(_) => {
                dirs = dirs + 1;
            },
        }
        i += 1;
    }
    assert(views.take(n as int) == views);
    (files, dirs)
}

fn push_summary(out: &mut Vec<Span>, tasks: &[Task])
    ensures
        span_views(final(out)@) == span_views(old(out)@) + summary(task_views(tasks@)),
{
    let ghost start = span_views(out@);
    let counts = count_tasks(tasks);
    push_line(out, counted("  • ", counts.0, " files to be created"));
    push_line(out, counted("  • ", counts.1, " directories to be created"));
    push_line(out, counted("  • Total: ", tasks.len(), " operations"));
    assert(span_views(out@) =~= start + summary(task_views(tasks@)));
}

fn push_numbered(out: &mut Vec<Span>, tasks: &[Task], n: usize)
    requires
        n <= tasks@.len(),
    ensures
        span_views(final(out)@) == span_views(old(out)@) + numbered_lines(
            task_views(tasks@),
            n as int,
        ),
{
    let ghost start = span_views(out@);
    let ghost views = task_views(tasks@);
    let mut i: usize = 0;
    assert(start =~= start + numbered_lines(views, 0));
    while i < n
        invariant
            i <= n <= tasks@.len(),
            views == task_views(tasks@),
            span_views(out@) == start + numbered_lines(views, i as int),
        decreases n - i,
    {
        let mut text = counted("  ", i + 1, ". ");
        match &tasks[i] {
            Task::Dir(_) => text.append("📁"),
            Task::File(_, _) => text.append("📄"),
        }
        text.append(" ");
        let path = tasks[i].path().to_text();
        text.append(path.as_str());
        push_line(out, text);
        assert(span_views(out@) =~= start + numbered_lines(views, i + 1));
        i += 1;
    }
}

fn push_bullets(out: &mut Vec<Span>, items: &[String], n: usize)
    requires
        n <= items@.len(),
    ensures
        span_views(final(out)@) == span_views(old(out)@) + bullets(strings(items@), n as int),
{
    let ghost start = span_views(out@);
    let mut i: usize = 0;
    assert(start =~= start + bullets(strings(items@), 0));
    while i < n
        invariant
            i <= n <= items@.len(),
            span_views(out@) == start + bullets(strings(items@), i as int),
        decreases n - i,
    {
        let mut text = String::from_str("  • ");
        text.append(items[i].as_str());
        push_line(out, text);
        assert(span_views(out@) =~= start + bullets(strings(items@), i + 1));
        i += 1;
    }
}

fn push_more(out: &mut Vec<Span>, len: usize, limit: usize, what: &str)
    ensures
        span_views(final(out)@) == span_views(old(out)@) + more_line(
            len as int,
            limit as int,
            what@,
        ),
{
    let ghost start = span_views(out@);
    if len > limit {
        let mut text = counted("  ... and ", len - limit, " more ");
        text.append(what);
        push_line(out, text);
        assert(span_views(out@) =~= start + more_line(len as int, limit as int, what@));
    } else {
        assert(start =~= start + more_line(len as int, limit as int, what@));
    }
}

fn push_listed(out: &mut Vec<Span>, items: &[String], verbose: bool, title: String, what: &str)
    ensures
        span_views(final(out)@) == span_views(old(out)@) + listed(
            strings(items@),
            verbose,
            title@,
            what@,
        ),
{
    let ghost start = span_views(out@);
    let ghost all = strings(items@);
    let n: usize = items.len();
    if n == 0 {
        assert(start =~= start + listed(all, verbose, title@, what@));
        return ;
    }
    push_text_line(out, "");
    push_line(out, title);
    proof {
        reveal_strlit("");
        assert(""@ =~= Seq::<char>::empty());
    }
    if verbose {
        push_bullets(out, items, n);
        assert(span_views(out@) =~= start + listed(all, verbose, title@, what@));
    } else {
        let k: usize = if n < 3 {
            n
        } else {
            3
        };
        push_bullets(out, items, k);
        push_more(out, n, 3, what);
        assert(span_views(out@) =~= start + listed(all, verbose, title@, what@));
    }
}

fn push_task_list(
    out: &mut Vec<Span>,
    tasks: &[Task],
    verbose: bool,
    full_title: &str,
    title: &str,
    limit: usize,
)
    ensures
        span_views(final(out)@) == span_views(old(out)@) + task_list(
            task_views(tasks@),
            verbose,
            full_title@,
            title@,
            limit as int,
        ),
{
    let ghost start = span_views(out@);
    let ghost views = task_views(tasks@);
    let ghost wanted = task_list(views, verbose, full_title@, title@, limit as int);
    let n: usize = tasks.len();
    if n == 0 {
        assert(start =~= start + wanted);
    } else if verbose {
        push_text_line(out, full_title);
        push_numbered(out, tasks, n);
        assert(span_views(out@) =~= start + wanted);
    } else {
        let k: usize = if n < limit {
            n
        } else {
            limit
        };
        push_text_line(out, title);
        push_numbered(out, tasks, k);
        push_more(out, n, limit, "operations");
        assert(span_views(out@) =~= start + wanted);
    }
}

/// Trait for reporting progress and results during operations
pub trait Reporter {
    /// Report the start of an operation
    fn operation_start(&self, operation: &str, details: &str) -> (out: Vec<Span>);

    /// Report progress during an operation
    fn progress(&self, current: usize, total: usize, message: &str) -> (out: Vec<Span>);

    /// Report a successful task completion
    fn task_success(&self, task: &Task) -> (out: Vec<Span>);

    /// Report a task warning
    fn task_warning(&self, task: &Task, error: &str) -> (out: Vec<Span>);

    /// Preview tasks in dry-run mode
    fn dry_run_preview(&self, tasks: &[Task]) -> (out: Vec<Span>);

    /// Preview tasks in dry-run mode with verbose option
    fn dry_run_preview_verbose(&self, tasks: &[Task], verbose: bool) -> (out: Vec<Span>);

    /// Preview tasks in dry-run mode with additional context (binary files, ignore patterns)
    fn dry_run_preview_comprehensive(
        &self,
        tasks: &[Task],
        verbose: bool,
        binary_files: &[String],
        ignore_patterns: &[String],
        verb: &str,
    ) -> (out: Vec<Span>);

    /// Show operations that will be executed (verbose mode)
    fn verbose_operation_preview(&self, tasks: &[Task]) -> (out: Vec<Span>);

    /// Report completion of apply operation
    fn apply_complete(&self, result: &SimpleApplyResult) -> (out: Vec<Span>);

    /// Report completion of snapshot operation
    fn snapshot_complete(&self, result: &SimpleSnapshotResult) -> (out: Vec<Span>);
}

/// Default reporter with colored output
#[derive(Debug)]
pub struct DefaultReporter {
    format: OutputFormat,
}

/// What is said at the start of an operation.
pub open spec fn start_report(format: OutputFormat, operation: Seq<char>, details: Seq<char>) -> Seq<
    SpanView,
> {
    if format == OutputFormat::Pretty {
        seq![shaded("start: "@, Shade::Blue), line(operation + ": "@ + details)]
    } else {
        seq![line("start: "@ + operation + ": "@ + details)]
    }
}

/// What is said of the progress of an operation.
pub open spec fn progress_report(format: OutputFormat, current: nat, total: nat, message: Seq<char>) -> Seq<
    SpanView,
> {
    let counts = decimal(current) + "/"@ + decimal(total) + " - "@ + message;
    if format == OutputFormat::Pretty {
        seq![shaded("progress: "@, Shade::Yellow), line(counts)]
    } else {
        seq![line("progress: "@ + counts)]
    }
}

/// What is said of a task that was carried out.
pub open spec fn success_report(format: OutputFormat, task: TaskView) -> Seq<SpanView> {
    if format == OutputFormat::Pretty {
        match task {
            TaskView::Dir(path) => seq![
                plain("📁 "@),
                shaded("Dir: "@, Shade::Blue),
                line(path.text()),
            ],
            TaskView::File(path, _) => seq![
                plain("📄 "@),
                shaded("File: "@, Shade::Green),
                line(path.text()),
            ],
        }
    } else {
        seq![line("✓ "@ + task.path().text())]
    }
}

/// What is said of a task that failed.
pub open spec fn warning_report(format: OutputFormat, task: TaskView, error: Seq<char>) -> Seq<
    SpanView,
> {
    let what = task.path().text() + ": "@ + error;
    if format == OutputFormat::Pretty {
        seq![shaded("warning: "@, Shade::Yellow), line(what)]
    } else {
        seq![line("warning: "@ + what)]
    }
}

/// The mathematical value of a [`SimpleApplyResult`].
pub struct ApplyView {
    pub files_created: nat,
    pub dirs_created: nat,
    pub duration: Duration,
    pub tasks_total: nat,
}

impl View for SimpleApplyResult {
    type V = ApplyView;

    open spec fn view(&self) -> ApplyView {
        ApplyView {
            files_created: self.files_created as nat,
            dirs_created: self.dirs_created as nat,
            duration: self.duration,
            tasks_total: self.tasks_total as nat,
        }
    }
}

/// What is said when an apply run has ended.
pub open spec fn apply_report(format: OutputFormat, result: ApplyView) -> Seq<SpanView> {
    if format == OutputFormat::Pretty {
        seq![
            line("------------------------------------------"@),
            plain(
                "✅ Successfully generated "@ + decimal(result.files_created) + " files and "@
                    + decimal(result.dirs_created) + " directories in "@,
            ),
            SpanView::Elapsed { duration: result.duration, shade: Some(Shade::Cyan) },
            line(Seq::empty()),
        ]
    } else {
        seq![
            line("Success!"@),
            line("Directories created: "@ + decimal(result.dirs_created)),
            line("Files created: "@ + decimal(result.files_created)),
            plain("Duration: "@),
            SpanView::Elapsed { duration: result.duration, shade: None },
            line(Seq::empty()),
            line("Total operations: "@ + decimal(result.tasks_total)),
        ]
    }
}

/// The mathematical value of a [`SimpleSnapshotResult`].
pub struct SnapshotReportView {
    pub files_processed: nat,
    pub dirs_processed: nat,
    pub duration: Duration,
    pub output_path: Seq<char>,
    pub binary_files_excluded: nat,
    pub binary_files_list: Seq<Seq<char>>,
}

impl View for SimpleSnapshotResult {
    type V = SnapshotReportView;

    open spec fn view(&self) -> SnapshotReportView {
        SnapshotReportView {
            files_processed: self.files_processed as nat,
            dirs_processed: self.dirs_processed as nat,
            duration: self.duration,
            output_path: self.output_path@,
            binary_files_excluded: self.binary_files_excluded as nat,
            binary_files_list: strings(self.binary_files_list@),
        }
    }
}

/// The binary files that a snapshot left out: at most three of them, and a line
/// that counts the rest.
pub open spec fn excluded_list(files: Seq<Seq<char>>) -> Seq<SpanView> {
    if files.len() == 0 {
        Seq::empty()
    } else {
        seq![line(Seq::empty()), line("Binary files excluded:"@)] + bullets(
            files,
            shown(files.len() as int, 3),
        ) + more_line(files.len() as int, 3, "binary files"@)
    }
}

/// What is said when a snapshot run has ended.
pub open spec fn snapshot_report(format: OutputFormat, result: SnapshotReportView) -> Seq<SpanView> {
    if format == OutputFormat::Pretty {
        seq![
            shaded("Snapshot written to "@, Shade::Green),
            line(quoted_text(result.output_path)),
        ] + excluded_list(result.binary_files_list)
    } else {
        seq![
            line("Snapshot complete!"@),
            line("Files processed: "@ + decimal(result.files_processed)),
            line("Directories processed: "@ + decimal(result.dirs_processed)),
            plain("Duration: "@),
            SpanView::Elapsed { duration: result.duration, shade: None },
            line(Seq::empty()),
            line("Output: "@ + result.output_path),
        ] + (if result.binary_files_excluded > 0 {
            seq![line("Binary files excluded: "@ + decimal(result.binary_files_excluded))]
        } else {
            Seq::empty()
        })
    }
}

impl DefaultReporter {
    /// Create a new default reporter
    pub fn new() -> (reporter: DefaultReporter)
        ensures
            reporter.format() == OutputFormat::Pretty,
    {
        DefaultReporter::with_format(OutputFormat::Pretty)
    }

    /// Create a reporter with specific output format
    pub fn with_format(format: OutputFormat) -> (reporter: DefaultReporter)
        ensures
            reporter.format() == format,
    {
        DefaultReporter { format }
    }

    /// The format that this reporter writes in.
    pub closed spec fn format(&self) -> OutputFormat {
        self.format
    }

    pub fn output_format(&self) -> (format: OutputFormat)
        ensures
            format == self.format(),
    {
        self.format
    }

    fn is_pretty(&self) -> (pretty: bool)
        ensures
            pretty == (self.format() == OutputFormat::Pretty),
    {
        match self.format {
            OutputFormat::Pretty => true,
            _ => false,
        }
    }
}

impl Reporter for DefaultReporter {
    fn operation_start(&self, operation: &str, details: &str) -> (out: Vec<Span>)
        ensures
            span_views(out@) == start_report(self.format(), operation@, details@),
    {
        let mut out: Vec<Span> = Vec::new();
        let mut text = String::from_str(operation);
        text.append(": ");
        text.append(details);
        if self.is_pretty() {
            push_span(&mut out, shaded_span("start: ", Shade::Blue));
            push_line(&mut out, text);
        } else {
            let mut whole = String::from_str("start: ");
            whole.append(text.as_str());
            assert(whole@ =~= "start: "@ + operation@ + ": "@ + details@);
            push_line(&mut out, whole);
        }
        assert(span_views(out@) =~= start_report(self.format(), operation@, details@));
        out
    }

    fn progress(&self, current: usize, total: usize, message: &str) -> (out: Vec<Span>)
        ensures
            span_views(out@) == progress_report(
                self.format(),
                current as nat,
                total as nat,
                message@,
            ),
    {
        let mut out: Vec<Span> = Vec::new();
        let mut text = counted("", current, "/");
        let rest = counted("", total, " - ");
        text.append(rest.as_str());
        text.append(message);
        proof {
            reveal_strlit("");
            assert(""@ =~= Seq::<char>::empty());
            assert(text@ =~= decimal(current as nat) + "/"@ + decimal(total as nat) + " - "@
                + message@);
        }
        if self.is_pretty() {
            push_span(&mut out, shaded_span("progress: ", Shade::Yellow));
            push_line(&mut out, text);
        } else {
            let mut whole = String::from_str("progress: ");
            whole.append(text.as_str());
            assert(whole@ =~= "progress: "@ + (decimal(current as nat) + "/"@ + decimal(
                total as nat,
            ) + " - "@ + message@));
            push_line(&mut out, whole);
        }
        assert(span_views(out@) =~= progress_report(
            self.format(),
            current as nat,
            total as nat,
            message@,
        ));
        out
    }

    fn task_success(&self, task: &Task) -> (out: Vec<Span>)
        ensures
            span_views(out@) == success_report(self.format(), task@),
    {
        let mut out: Vec<Span> = Vec::new();
        let path = task.path().to_text();
        if self.is_pretty() {
            match task {
                Task::Dir(_) => {
                    push_span(&mut out, plain_span(String::from_str("📁 ")));
                    push_span(&mut out, shaded_span("Dir: ", Shade::Blue));
                },
                Task::File(_, _) => {
                    push_span(&mut out, plain_span(String::from_str("📄 ")));
                    push_span(&mut out, shaded_span("File: ", Shade::Green));
                },
            }
            push_line(&mut out, path);
        } else {
            let mut whole = String::from_str("✓ ");
            whole.append(path.as_str());
            push_line(&mut out, whole);
        }
        assert(span_views(out@) =~= success_report(self.format(), task@));
        out
    }

    fn task_warning(&self, task: &Task, error: &str) -> (out: Vec<Span>)
        ensures
            span_views(out@) == warning_report(self.format(), task@, error@),
    {
        let mut out: Vec<Span> = Vec::new();
        let mut text = task.path().to_text();
        text.append(": ");
        text.append(error);
        if self.is_pretty() {
            push_span(&mut out, shaded_span("warning: ", Shade::Yellow));
            push_line(&mut out, text);
        } else {
            let mut whole = String::from_str("warning: ");
            whole.append(text.as_str());
            assert(whole@ =~= "warning: "@ + (task@.path().text() + ": "@ + error@));
            push_line(&mut out, whole);
        }
        assert(span_views(out@) =~= warning_report(self.format(), task@, error@));
        out
    }

    fn dry_run_preview(&self, tasks: &[Task]) -> (out: Vec<Span>)
        ensures
            span_views(out@) == if self.format() == OutputFormat::Pretty {
                pretty_preview(task_views(tasks@), false)
            } else {
                plain_preview(task_views(tasks@))
            },
    {
        self.dry_run_preview_verbose(tasks, false)
    }

    fn dry_run_preview_verbose(&self, tasks: &[Task], verbose: bool) -> (out: Vec<Span>)
        ensures
            span_views(out@) == if self.format() == OutputFormat::Pretty {
                pretty_preview(task_views(tasks@), verbose)
            } else {
                plain_preview(task_views(tasks@))
            },
    {
        let ghost views = task_views(tasks@);
        let mut out: Vec<Span> = Vec::new();
        let n: usize = tasks.len();
        if self.is_pretty() {
            push_text_line(&mut out, "Dry run enabled. Summary of planned operations:");
            push_summary(&mut out, tasks);
            if n > 0 {
                push_task_list(
                    &mut out,
                    tasks,
                    verbose,
                    "\nComplete list of operations:",
                    "\nSample of operations:",
                    5,
                );
                if !verbose {
                    push_text_line(
                        &mut out,
                        "\ntip: Use --verbose to see the complete operation list",
                    );
                }
            }
            push_text_line(&mut out, "\nDry run complete. No changes were made.");
            proof {
                reveal_strlit("");
                assert(""@ =~= Seq::<char>::empty());
                assert(task_list(
                    views,
                    true,
                    "\nComplete list of operations:"@,
                    "\nSample of operations:"@,
                    5,
                ) == task_list(views, true, "\nComplete list of operations:"@, Seq::empty(), 5));
                assert(task_list(
                    views,
                    false,
                    "\nComplete list of operations:"@,
                    "\nSample of operations:"@,
                    5,
                ) == task_list(views, false, Seq::empty(), "\nSample of operations:"@, 5));
                assert(span_views(out@) =~= pretty_preview(views, verbose));
            }
        } else {
            push_line(&mut out, counted("Dry run preview (", n, " tasks):"));
            let ghost start = span_views(out@);
            let mut i: usize = 0;
            while i < n
                invariant
                    n == tasks@.len(),
                    i <= n,
                    views == task_views(tasks@),
                    span_views(out@) == start + Seq::new(i as nat, |k: int| indented(views[k])),
                decreases n - i,
            {
                let mut text = String::from_str("  ");
                let path = tasks[i].path().to_text();
                text.append(path.as_str());
                push_line(&mut out, text);
                assert(span_views(out@) =~= start + Seq::new(
                    (i + 1) as nat,
                    |k: int| indented(views[k]),
                ));
                i += 1;
            }
            assert(span_views(out@) =~= plain_preview(views));
        }
        out
    }

    fn dry_run_preview_comprehensive(
        &self,
        tasks: &[Task],
        verbose: bool,
        binary_files: &[String],
        ignore_patterns: &[String],
        verb: &str,
    ) -> (out: Vec<Span>)
        ensures
            span_views(out@) == comprehensive_preview(
                task_views(tasks@),
                verbose,
                strings(binary_files@),
                strings(ignore_patterns@),
                verb@,
            ),
    {
        let mut out: Vec<Span> = Vec::new();
        proof {
            reveal_strlit("");
            assert(""@ =~= Seq::<char>::empty());
        }
        push_text_line(&mut out, "Dry run enabled.");
        push_text_line(&mut out, "");
        push_text_line(&mut out, "Summary of planned operations:");
        push_summary(&mut out, tasks);
        push_text_line(&mut out, "");
        push_task_list(
            &mut out,
            tasks,
            verbose,
            "Complete list of operations:",
            "Operations preview (showing first 3):",
            3,
        );
        let mut title = String::from_str("Binary files that would be ");
        title.append(verb);
        title.append(":");
        push_listed(&mut out, binary_files, verbose, title, "binary files");
        push_listed(
            &mut out,
            ignore_patterns,
            verbose,
            String::from_str("Ignore patterns that would be used:"),
            "ignore patterns",
        );
        push_text_line(&mut out, "");
        push_text_line(&mut out, "------------------------------------------");
        push_text_line(&mut out, "Dry run complete. No changes were made.");
        assert(span_views(out@) =~= comprehensive_preview(
            task_views(tasks@),
            verbose,
            strings(binary_files@),
            strings(ignore_patterns@),
            verb@,
        ));
        out
    }

    fn verbose_operation_preview(&self, tasks: &[Task]) -> (out: Vec<Span>)
        ensures
            span_views(out@) == operation_preview(task_views(tasks@)),
    {
        let mut out: Vec<Span> = Vec::new();
        proof {
            reveal_strlit("");
            assert(""@ =~= Seq::<char>::empty());
        }
        push_text_line(&mut out, "Operations to be executed:");
        push_numbered(&mut out, tasks, tasks.len());
        push_text_line(&mut out, "");
        assert(span_views(out@) =~= operation_preview(task_views(tasks@)));
        out
    }

    fn apply_complete(&self, result: &SimpleApplyResult) -> (out: Vec<Span>)
        ensures
            span_views(out@) == apply_report(self.format(), result@),
    {
        let mut out: Vec<Span> = Vec::new();
        proof {
            reveal_strlit("");
            assert(""@ =~= Seq::<char>::empty());
        }
        if self.is_pretty() {
            push_text_line(&mut out, "------------------------------------------");
            let mut text = counted("✅ Successfully generated ", result.files_created, " files and ");
            let rest = counted("", result.dirs_created, " directories in ");
            text.append(rest.as_str());
            assert(text@ =~= "✅ Successfully generated "@ + decimal(result@.files_created)
                + " files and "@ + decimal(result@.dirs_created) + " directories in "@);
            push_span(&mut out, plain_span(text));
            push_span(
                &mut out,
                Span::Elapsed { duration: result.duration, shade: Some(Shade::Cyan) },
            );
            push_text_line(&mut out, "");
        } else {
            push_text_line(&mut out, "Success!");
            push_line(&mut out, counted("Directories created: ", result.dirs_created, ""));
            push_line(&mut out, counted("Files created: ", result.files_created, ""));
            push_span(&mut out, plain_span(String::from_str("Duration: ")));
            push_span(&mut out, Span::Elapsed { duration: result.duration, shade: None });
            push_text_line(&mut out, "");
            push_line(&mut out, counted("Total operations: ", result.tasks_total, ""));
        }
        assert(span_views(out@) =~= apply_report(self.format(), result@));
        out
    }

    fn snapshot_complete(&self, result: &SimpleSnapshotResult) -> (out: Vec<Span>)
        ensures
            span_views(out@) == snapshot_report(self.format(), result@),
    {
        let mut out: Vec<Span> = Vec::new();
        proof {
            reveal_strlit("");
            assert(""@ =~= Seq::<char>::empty());
        }
        if self.is_pretty() {
            push_span(&mut out, shaded_span("Snapshot written to ", Shade::Green));
            push_line(&mut out, quoted(result.output_path.as_str()));
            let n: usize = result.binary_files_list.len();
            if n > 0 {
                let k: usize = if n < 3 {
                    n
                } else {
                    3
                };
                push_text_line(&mut out, "");
                push_text_line(&mut out, "Binary files excluded:");
                push_bullets(&mut out, result.binary_files_list.as_slice(), k);
                push_more(&mut out, n, 3, "binary files");
            }
        } else {
            push_text_line(&mut out, "Snapshot complete!");
            push_line(&mut out, counted("Files processed: ", result.files_processed, ""));
            push_line(&mut out, counted("Directories processed: ", result.dirs_processed, ""));
            push_span(&mut out, plain_span(String::from_str("Duration: ")));
            push_span(&mut out, Span::Elapsed { duration: result.duration, shade: None });
            push_text_line(&mut out, "");
            let mut text = String::from_str("Output: ");
            text.append(result.output_path.as_str());
            push_line(&mut out, text);
            if result.binary_files_excluded > 0 {
                push_line(
                    &mut out,
                    counted("Binary files excluded: ", result.binary_files_excluded, ""),
                );
            }
        }
        assert(span_views(out@) =~= snapshot_report(self.format(), result@));
        out
    }
}

impl Default for DefaultReporter {
    fn default() -> (reporter: DefaultReporter)
        ensures
            reporter.format() == OutputFormat::Pretty,
    {
        DefaultReporter::new()
    }
}

/// Silent reporter that produces no output
#[derive(Debug)]
pub struct SilentReporter;

impl Reporter for SilentReporter {
    fn operation_start(&self, _operation: &str, _details: &str) -> (out: Vec<Span>)
        ensures
            out@.len() == 0,
    {
        Vec::new()
    }

    fn progress(&self, _current: usize, _total: usize, _message: &str) -> (out: Vec<Span>)
        ensures
            out@.len() == 0,
    {
        Vec::new()
    }

    fn task_success(&self, _task: &Task) -> (out: Vec<Span>)
        ensures
            out@.len() == 0,
    {
        Vec::new()
    }

    fn task_warning(&self, _task: &Task, _error: &str) -> (out: Vec<Span>)
        ensures
            out@.len() == 0,
    {
        Vec::new()
    }

    fn dry_run_preview(&self, _tasks: &[Task]) -> (out: Vec<Span>)
        ensures
            out@.len() == 0,
    {
        Vec::new()
    }

    fn dry_run_preview_verbose(&self, _tasks: &[Task], _verbose: bool) -> (out: Vec<Span>)
        ensures
            out@.len() == 0,
    {
        Vec::new()
    }

    fn dry_run_preview_comprehensive(
        &self,
        _tasks: &[Task],
        _verbose: bool,
        _binary_files: &[String],
        _ignore_patterns: &[String],
        _verb: &str,
    ) -> (out: Vec<Span>)
        ensures
            out@.len() == 0,
    {
        Vec::new()
    }

    fn verbose_operation_preview(&self, _tasks: &[Task]) -> (out: Vec<Span>)
        ensures
            out@.len() == 0,
    {
        Vec::new()
    }

    fn apply_complete(&self, _result: &SimpleApplyResult) -> (out: Vec<Span>)
        ensures
            out@.len() == 0,
    {
        Vec::new()
    }

    fn snapshot_complete(&self, _result: &SimpleSnapshotResult) -> (out: Vec<Span>)
        ensures
            out@.len() == 0,
    {
        Vec::new()
    }
}

/// The texts of the spans written one after another; a length of time is written
/// as `elapsed` says.
pub fn render(spans: &[Span], elapsed: &str) -> (text: String)
    ensures
        text@ == rendered(span_views(spans@), elapsed@),
{
    let ghost views = span_views(spans@);
    let mut text = String::new();
    let n: usize = spans.len();
    let mut i: usize = 0;
    assert(views.take(0).len() == 0);
    while i < n
        invariant
            n == spans@.len(),
            i <= n,
            views == span_views(spans@),
            text@ == rendered(views.take(i as int), elapsed@),
        decreases n - i,
    {
        proof {
            assert(views.take(i + 1).drop_last() == views.take(i as int));
            assert(views.take(i + 1).last() == spans@[i as int]@);
        }
        match &spans[i] {
            Span::Text { text: piece, .. } => text.append(piece.as_str()),
            Span::Elapsed { .. } => text.append(elapsed),
        }
        i += 1;
    }
    assert(views.take(n as int) == views);
    text
}

/// The text of a report without its colours, every length of time written as
/// `elapsed`.
pub open spec fn rendered(spans: Seq<SpanView>, elapsed: Seq<char>) -> Seq<char>
    decreases spans.len(),
{
    if spans.len() == 0 {
        Seq::empty()
    } else {
        rendered(spans.drop_last(), elapsed) + match spans.last() {
            SpanView::Text { text, .. } => text,
            SpanView::Elapsed { .. } => elapsed,
        }
    }
}

} // verus!
