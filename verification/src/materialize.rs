//! Carrying a task list out, one step at a time.
//!
//! The engine never touches the disk. It says what to do next ([`Action`]), is told
//! how that went ([`Event`]), and keeps the count. A task that fails is passed over;
//! the tasks after it are still carried out.

use crate::path::{PathView, TreePath};
use crate::tasks::{dir_tasks, file_tasks, is_dir_task, is_file_task, task_views, Task, TaskView};
use crate::text::lemma_strings_push;
use vstd::prelude::*;
use vstd::string::*;

verus! {

/// The mathematical value of a [`CreationResult`].
pub struct CreationView {
    pub files_created: nat,
    pub dirs_created: nat,
    pub files_skipped: nat,
    pub skipped_files_list: Seq<Seq<char>>,
    pub files_overwritten: nat,
    pub overwritten_files_list: Seq<Seq<char>>,
}

impl CreationView {
    pub open spec fn empty() -> CreationView {
        CreationView {
            files_created: 0,
            dirs_created: 0,
            files_skipped: 0,
            skipped_files_list: Seq::empty(),
            files_overwritten: 0,
            overwritten_files_list: Seq::empty(),
        }
    }
}

/// Result of file and directory creation operations
#[derive(Debug, Clone)]
pub struct CreationResult {
    pub files_created: usize,
    pub dirs_created: usize,
    pub files_skipped: usize,
    pub skipped_files_list: Vec<String>,
    pub files_overwritten: usize,
    pub overwritten_files_list: Vec<String>,
}

impl View for CreationResult {
    type V = CreationView;

    open spec fn view(&self) -> CreationView {
        CreationView {
            files_created: self.files_created as nat,
            dirs_created: self.dirs_created as nat,
            files_skipped: self.files_skipped as nat,
            skipped_files_list: crate::text::strings(self.skipped_files_list@),
            files_overwritten: self.files_overwritten as nat,
            overwritten_files_list: crate::text::strings(self.overwritten_files_list@),
        }
    }
}

impl CreationResult {
    pub fn new() -> (result: CreationResult)
        ensures
            result@ == CreationView::empty(),
    {
        let result = CreationResult {
            files_created: 0,
            dirs_created: 0,
            files_skipped: 0,
            skipped_files_list: Vec::new(),
            files_overwritten: 0,
            overwritten_files_list: Vec::new(),
        };
        assert(result@.skipped_files_list =~= Seq::empty());
        assert(result@.overwritten_files_list =~= Seq::empty());
        result
    }
}

impl Default for CreationResult {
    fn default() -> (result: CreationResult)
        ensures
            result@ == CreationView::empty(),
    {
        CreationResult::new()
    }
}

/// What the disk answered while one task was carried out.
#[derive(Clone, Copy, Debug, PartialEq, Eq)]
pub struct Observation {
    /// For a file task: whether something was at the path before.
    pub existed: bool,
    /// For a file task: whether the directories above the path are there.
    pub parent_ready: bool,
    /// Whether the directory was made, or the file written.
    pub completed: bool,
}

/// How one task ended.
pub enum Outcome {
    DirCreated,
    DirFailed,
    Skipped,
    Created,
    Overwritten,
    ParentFailed,
    WriteFailed,
}

/// How a task ends, given what the disk answered: a file that is there already is
/// skipped unless `overwrite` is set; otherwise it is written once the directories
/// above it are there, and counts as overwritten where something was there before.
pub open spec fn settle(task: TaskView, overwrite: bool, seen: Observation) -> Outcome {
    match task {
        TaskView::Dir(_) => if seen.completed {
            Outcome::DirCreated
        } else {
            Outcome::DirFailed
        },
        TaskView::File(_, _) => if seen.existed && !overwrite {
            Outcome::Skipped
        } else if !seen.parent_ready {
            Outcome::ParentFailed
        } else if !seen.completed {
            Outcome::WriteFailed
        } else if seen.existed {
            Outcome::Overwritten
        } else {
            Outcome::Created
        },
    }
}

/// The count after one more task ended.
pub open spec fn recorded(count: CreationView, task: TaskView, outcome: Outcome) -> CreationView {
    match outcome {
        Outcome::DirCreated => CreationView { dirs_created: count.dirs_created + 1, ..count },
        Outcome::Skipped => CreationView {
            files_skipped: count.files_skipped + 1,
            skipped_files_list: count.skipped_files_list.push(task.path().text()),
            ..count
        },
        Outcome::Created => CreationView { files_created: count.files_created + 1, ..count },
        Outcome::Overwritten => CreationView {
            files_created: count.files_created + 1,
            files_overwritten: count.files_overwritten + 1,
            overwritten_files_list: count.overwritten_files_list.push(task.path().text()),
            ..count
        },
        _ => count,
    }
}

/// The count after the tasks were carried out in order, `seen[i]` being what the
/// disk answered for the task `tasks[i]`.
pub open spec fn tally(tasks: Seq<TaskView>, overwrite: bool, seen: Seq<Observation>) -> CreationView
    recommends
        seen.len() == tasks.len(),
    decreases tasks.len(),
{
    if tasks.len() == 0 || seen.len() != tasks.len() {
        CreationView::empty()
    } else {
        recorded(
            tally(tasks.drop_last(), overwrite, seen.drop_last()),
            tasks.last(),
            settle(tasks.last(), overwrite, seen.last()),
        )
    }
}

/// What is to be done next on disk.
#[derive(Debug, PartialEq, Eq)]
pub enum Action {
    /// Create the directory and every missing directory above it.
    CreateDir(TreePath),
    /// Find out whether something is at the path.
    Probe(TreePath),
    /// Create every missing directory down to this one, the parent of a file.
    EnsureParent(TreePath),
    /// Write the whole content to the path, replacing what is there.
    Write(TreePath, String),
    /// Every task was carried out.
    Finished,
}

/// The mathematical value of an [`Action`].
pub enum ActionView {
    CreateDir(PathView),
    Probe(PathView),
    EnsureParent(PathView),
    Write(PathView, Seq<char>),
    Finished,
}

impl View for Action {
    type V = ActionView;

    open spec fn view(&self) -> ActionView {
        match self {
            Action::CreateDir(path) => ActionView::CreateDir(path@),
            Action::Probe(path) => ActionView::Probe(path@),
            Action::EnsureParent(path) => ActionView::EnsureParent(path@),
            Action::Write(path, content) => ActionView::Write(path@, content@),
            Action::Finished => ActionView::Finished,
        }
    }
}

/// What the disk answered to an action.
#[derive(Clone, Copy, Debug, PartialEq, Eq)]
pub enum Event {
    /// The answer to [`Action::Probe`]: whether something is at the path.
    Probed(bool),
    /// The answer to every other action: whether it succeeded.
    Completed(bool),
}

/// How far the task at hand has come.
#[derive(Clone, Copy, Debug, PartialEq, Eq)]
pub enum Stage {
    /// Nothing was done for it yet.
    Fresh,
    /// A file task whose path was probed; it is to be written.
    Probed { existed: bool },
    /// A file task whose parent directory is there.
    ParentReady { existed: bool },
}

/// The mathematical value of a [`Materializer`].
pub struct MaterializerView {
    pub tasks: Seq<TaskView>,
    pub overwrite: bool,
    /// The number of tasks that ended.
    pub position: nat,
    pub stage: Stage,
    /// What the disk answered for each task that ended.
    pub seen: Seq<Observation>,
    pub count: CreationView,
}

/// The directory that holds the last segment of `path`, where it has one.
pub open spec fn parent_of(path: PathView) -> Option<PathView> {
    if path.segments.len() == 0 {
        None
    } else {
        Some(path.ancestor(path.segments.len() - 1))
    }
}

impl MaterializerView {
    pub open spec fn well_formed(self) -> bool {
        &&& self.position <= self.tasks.len()
        &&& self.seen.len() == self.position
        &&& self.count == tally(self.tasks.take(self.position as int), self.overwrite, self.seen)
        &&& self.position == self.tasks.len() ==> self.stage == Stage::Fresh
        &&& self.position < self.tasks.len() && self.tasks[self.position as int] is Dir
            ==> self.stage == Stage::Fresh
        &&& self.stage matches Stage::Probed { existed } ==> !(existed && !self.overwrite)
        &&& self.stage matches Stage::ParentReady { existed } ==> !(existed && !self.overwrite)
    }

    /// The action that is due in this state.
    pub open spec fn action(self) -> ActionView {
        if self.position >= self.tasks.len() {
            ActionView::Finished
        } else {
            match self.tasks[self.position as int] {
                TaskView::Dir(path) => ActionView::CreateDir(path),
                TaskView::File(path, content) => match self.stage {
                    Stage::Fresh => ActionView::Probe(path),
                    Stage::Probed { existed } => match parent_of(path) {
                        Some(parent) => ActionView::EnsureParent(parent),
                        None => ActionView::Write(path, content),
                    },
                    Stage::ParentReady { existed } => ActionView::Write(path, content),
                },
            }
        }
    }

    /// The state with the task at hand ended, `seen` being what the disk answered
    /// for it.
    pub open spec fn ended(self, seen: Observation) -> MaterializerView {
        let task = self.tasks[self.position as int];
        MaterializerView {
            position: self.position + 1,
            stage: Stage::Fresh,
            seen: self.seen.push(seen),
            count: recorded(self.count, task, settle(task, self.overwrite, seen)),
            ..self
        }
    }

    /// The state after the disk answered `event` to the action that was due. An
    /// answer of the wrong kind changes nothing.
    pub open spec fn step(self, event: Event) -> MaterializerView {
        match (self.action(), event) {
            (ActionView::CreateDir(_), Event::Completed(ok)) => self.ended(
                Observation { existed: false, parent_ready: true, completed: ok },
            ),
            (ActionView::Probe(_), Event::Probed(existed)) => if existed && !self.overwrite {
                self.ended(Observation { existed: true, parent_ready: false, completed: false })
            } else {
                MaterializerView { stage: Stage::Probed { existed }, ..self }
            },
            (ActionView::EnsureParent(_), Event::Completed(ok)) => {
                let existed = self.stage->Probed_existed;
                if ok {
                    MaterializerView { stage: Stage::ParentReady { existed }, ..self }
                } else {
                    self.ended(Observation { existed, parent_ready: false, completed: false })
                }
            },
            (ActionView::Write(_, _), Event::Completed(ok)) => {
                let existed = match self.stage {
                    Stage::Probed { existed } => existed,
                    Stage::ParentReady { existed } => existed,
                    Stage::Fresh => false,
                };
                self.ended(Observation { existed, parent_ready: true, completed: ok })
            },
            _ => self,
        }
    }
}

/// Ending one more task keeps the count equal to the tally of the tasks that ended.
pub proof fn lemma_ended_keeps_tally(state: MaterializerView, seen: Observation)
    requires
        state.well_formed(),
        state.position < state.tasks.len(),
    ensures
        state.ended(seen).count == tally(
            state.tasks.take(state.position as int + 1),
            state.overwrite,
            state.seen.push(seen),
        ),
{
    let next = state.tasks.take(state.position as int + 1);
    assert(next.drop_last() == state.tasks.take(state.position as int));
    assert(state.seen.push(seen).drop_last() == state.seen);
}

/// Every step leads from a well-formed state to a well-formed state.
pub proof fn lemma_step_keeps_well_formed(state: MaterializerView, event: Event)
    requires
        state.well_formed(),
    ensures
        state.step(event).well_formed(),
{
    if state.position < state.tasks.len() {
        let existed = match state.stage {
            Stage::Probed { existed } => existed,
            Stage::ParentReady { existed } => existed,
            Stage::Fresh => false,
        };
        lemma_ended_keeps_tally(
            state,
            Observation { existed: false, parent_ready: true, completed: true },
        );
        lemma_ended_keeps_tally(
            state,
            Observation { existed: false, parent_ready: true, completed: false },
        );
        lemma_ended_keeps_tally(
            state,
            Observation { existed: true, parent_ready: false, completed: false },
        );
        lemma_ended_keeps_tally(
            state,
            Observation { existed, parent_ready: false, completed: false },
        );
        lemma_ended_keeps_tally(
            state,
            Observation { existed, parent_ready: true, completed: true },
        );
        lemma_ended_keeps_tally(
            state,
            Observation { existed, parent_ready: true, completed: false },
        );
    }
}

/// The counters never run ahead of the tasks, and each list is as long as its
/// counter says.
pub proof fn lemma_tally_is_consistent(
    tasks: Seq<TaskView>,
    overwrite: bool,
    seen: Seq<Observation>,
)
    requires
        seen.len() == tasks.len(),
    ensures
        ({
            let count = tally(tasks, overwrite, seen);
            &&& count.files_created + count.files_skipped <= file_tasks(tasks)
            &&& count.dirs_created <= dir_tasks(tasks)
            &&& count.files_overwritten <= count.files_created
            &&& count.skipped_files_list.len() == count.files_skipped
            &&& count.overwritten_files_list.len() == count.files_overwritten
            &&& !overwrite ==> count.files_overwritten == 0
        }),
    decreases tasks.len(),
{
    if tasks.len() == 0 {
        tasks.lemma_filter_len(is_file_task());
        tasks.lemma_filter_len(is_dir_task());
    } else {
        lemma_tally_is_consistent(tasks.drop_last(), overwrite, seen.drop_last());
        assert(tasks == tasks.drop_last().push(tasks.last()));
        tasks.drop_last().lemma_filter_push(tasks.last(), is_file_task());
        tasks.drop_last().lemma_filter_push(tasks.last(), is_dir_task());
    }
}

/// Applying a configuration again is idle: where every file of the list is found on
/// disk and nothing may be overwritten, no file is created and every file is skipped.
pub proof fn lemma_existing_files_are_skipped(tasks: Seq<TaskView>, seen: Seq<Observation>)
    requires
        seen.len() == tasks.len(),
        forall|i: int| 0 <= i < tasks.len() && tasks[i] is File ==> (#[trigger] seen[i]).existed,
    ensures
        tally(tasks, false, seen).files_created == 0,
        tally(tasks, false, seen).files_overwritten == 0,
        tally(tasks, false, seen).files_skipped == file_tasks(tasks),
    decreases tasks.len(),
{
    if tasks.len() == 0 {
        tasks.lemma_filter_len(is_file_task());
    } else {
        let fewer = seen.drop_last();
        assert forall|i: int| 0 <= i < tasks.drop_last().len() && tasks.drop_last()[i] is File implies (
        #[trigger] fewer[i]).existed by {
            assert(fewer[i] == seen[i]);
        }
        lemma_existing_files_are_skipped(tasks.drop_last(), fewer);
        assert(tasks == tasks.drop_last().push(tasks.last()));
        tasks.drop_last().lemma_filter_push(tasks.last(), is_file_task());
    }
}

/// Applying a configuration to an empty place where nothing fails creates every file
/// and every directory of the list, and skips none.
pub proof fn lemma_fresh_run_creates_everything(
    tasks: Seq<TaskView>,
    overwrite: bool,
    seen: Seq<Observation>,
)
    requires
        seen.len() == tasks.len(),
        forall|i: int|
            0 <= i < tasks.len() ==> !(#[trigger] seen[i]).existed && seen[i].parent_ready
                && seen[i].completed,
    ensures
        tally(tasks, overwrite, seen).files_created == file_tasks(tasks),
        tally(tasks, overwrite, seen).dirs_created == dir_tasks(tasks),
        tally(tasks, overwrite, seen).files_skipped == 0,
        tally(tasks, overwrite, seen).files_overwritten == 0,
    decreases tasks.len(),
{
    if tasks.len() == 0 {
        tasks.lemma_filter_len(is_file_task());
        tasks.lemma_filter_len(is_dir_task());
    } else {
        let fewer = seen.drop_last();
        assert forall|i: int| 0 <= i < tasks.drop_last().len() implies !(#[trigger] fewer[i]).existed
            && fewer[i].parent_ready && fewer[i].completed by {
            assert(fewer[i] == seen[i]);
        }
        lemma_fresh_run_creates_everything(tasks.drop_last(), overwrite, fewer);
        assert(tasks == tasks.drop_last().push(tasks.last()));
        tasks.drop_last().lemma_filter_push(tasks.last(), is_file_task());
        tasks.drop_last().lemma_filter_push(tasks.last(), is_dir_task());
    }
}

/// What a disk answers to a task when nothing goes wrong: the directories are
/// made, and a file is written unless it is to be skipped. `files` are the paths of
/// the files on disk, each with its content.
pub open spec fn answered(task: TaskView, overwrite: bool, files: Map<PathView, Seq<char>>) -> Observation {
    match task {
        TaskView::Dir(_) => Observation { existed: false, parent_ready: true, completed: true },
        TaskView::File(path, _) => if files.dom().contains(path) && !overwrite {
            Observation { existed: true, parent_ready: false, completed: false }
        } else {
            Observation { existed: files.dom().contains(path), parent_ready: true, completed: true }
        },
    }
}

/// The answers that a disk gives while one task is carried out and nothing goes
/// wrong, in the order in which the machine asks for them.
pub open spec fn answers(task: TaskView, overwrite: bool, files: Map<PathView, Seq<char>>) -> Seq<
    Event,
> {
    match task {
        TaskView::Dir(_) => seq![Event::Completed(true)],
        TaskView::File(path, _) => if files.dom().contains(path) && !overwrite {
            seq![Event::Probed(true)]
        } else if parent_of(path) is Some {
            seq![
                Event::Probed(files.dom().contains(path)),
                Event::Completed(true),
                Event::Completed(true),
            ]
        } else {
            seq![Event::Probed(files.dom().contains(path)), Event::Completed(true)]
        },
    }
}

/// The state after the disk gave these answers, one after the other.
pub open spec fn after_answers(state: MaterializerView, events: Seq<Event>) -> MaterializerView
    decreases events.len(),
{
    if events.len() == 0 {
        state
    } else {
        after_answers(state, events.drop_last()).step(events.last())
    }
}

/// The answers of a disk on which nothing goes wrong end the task at hand, and the
/// machine records what the disk answered.
pub proof fn lemma_answers_end_the_task(state: MaterializerView, files: Map<PathView, Seq<char>>)
    requires
        state.well_formed(),
        state.position < state.tasks.len(),
        state.stage == Stage::Fresh,
    ensures
        after_answers(
            state,
            answers(state.tasks[state.position as int], state.overwrite, files),
        ) == state.ended(answered(state.tasks[state.position as int], state.overwrite, files)),
{
    let task = state.tasks[state.position as int];
    let events = answers(task, state.overwrite, files);
    reveal_with_fuel(after_answers, 4);
    assert(after_answers(state, Seq::empty()) == state);
    if events.len() == 1 {
        assert(events.drop_last() == Seq::<Event>::empty());
    } else if events.len() == 2 {
        assert(events.drop_last() == seq![events[0]]);
        assert(events.drop_last().drop_last() == Seq::<Event>::empty());
    } else {
        assert(events.drop_last() == seq![events[0], events[1]]);
        assert(events.drop_last().drop_last() == seq![events[0]]);
        assert(events.drop_last().drop_last().drop_last() == Seq::<Event>::empty());
    }
}

/// The files on disk after a task was carried out and nothing went wrong.
pub open spec fn written(task: TaskView, overwrite: bool, files: Map<PathView, Seq<char>>) -> Map<
    PathView,
    Seq<char>,
> {
    match task {
        TaskView::Dir(_) => files,
        TaskView::File(path, content) => if files.dom().contains(path) && !overwrite {
            files
        } else {
            files.insert(path, content)
        },
    }
}

/// What the disk answered to each task of a run in which nothing went wrong, and
/// the files on disk after the run.
pub open spec fn carried_out(
    tasks: Seq<TaskView>,
    overwrite: bool,
    files: Map<PathView, Seq<char>>,
) -> (Seq<Observation>, Map<PathView, Seq<char>>)
    decreases tasks.len(),
{
    if tasks.len() == 0 {
        (Seq::empty(), files)
    } else {
        let (seen, so_far) = carried_out(tasks.drop_last(), overwrite, files);
        (
            seen.push(answered(tasks.last(), overwrite, so_far)),
            written(tasks.last(), overwrite, so_far),
        )
    }
}

/// A run in which nothing goes wrong leaves every file of the list on disk, and
/// takes no file away.
pub proof fn lemma_run_leaves_the_files(
    tasks: Seq<TaskView>,
    overwrite: bool,
    files: Map<PathView, Seq<char>>,
)
    ensures
        carried_out(tasks, overwrite, files).0.len() == tasks.len(),
        files.dom().subset_of(carried_out(tasks, overwrite, files).1.dom()),
        forall|i: int|
            0 <= i < tasks.len() && tasks[i] is File ==> carried_out(
                tasks,
                overwrite,
                files,
            ).1.dom().contains((#[trigger] tasks[i]).path()),
    decreases tasks.len(),
{
    if tasks.len() > 0 {
        lemma_run_leaves_the_files(tasks.drop_last(), overwrite, files);
        let after = carried_out(tasks, overwrite, files).1;
        assert forall|i: int| 0 <= i < tasks.len() && tasks[i] is File implies after.dom().contains(
            (#[trigger] tasks[i]).path(),
        ) by {
            if i < tasks.len() - 1 {
                assert(tasks.drop_last()[i] == tasks[i]);
            }
        }
    }
}

/// Where every file of the list is on disk and nothing may be overwritten, a run
/// finds every file and leaves the disk as it is.
pub proof fn lemma_run_over_existing_files(tasks: Seq<TaskView>, files: Map<PathView, Seq<char>>)
    requires
        forall|i: int|
            0 <= i < tasks.len() && tasks[i] is File ==> files.dom().contains(
                (#[trigger] tasks[i]).path(),
            ),
    ensures
        carried_out(tasks, false, files).1 == files,
        carried_out(tasks, false, files).0.len() == tasks.len(),
        forall|i: int|
            0 <= i < tasks.len() && tasks[i] is File ==> (#[trigger] carried_out(
                tasks,
                false,
                files,
            ).0[i]).existed,
    decreases tasks.len(),
{
    if tasks.len() > 0 {
        let fewer = tasks.drop_last();
        assert forall|i: int| 0 <= i < fewer.len() && fewer[i] is File implies files.dom().contains(
            (#[trigger] fewer[i]).path(),
        ) by {
            assert(fewer[i] == tasks[i]);
        }
        lemma_run_over_existing_files(fewer, files);
        let seen = carried_out(tasks, false, files).0;
        assert forall|i: int| 0 <= i < tasks.len() && tasks[i] is File implies (#[trigger] seen[i]).existed by {
            if i < tasks.len() - 1 {
                assert(seen[i] == carried_out(fewer, false, files).0[i]);
            } else {
                assert(tasks[i] == tasks.last());
            }
        }
    }
}

/// Applying a configuration twice changes nothing the second time: after a run in
/// which nothing went wrong, a second run of the same list that may not overwrite
/// creates no file, skips every file, and leaves the disk as the first run left it.
pub proof fn lemma_second_run_skips_every_file(
    tasks: Seq<TaskView>,
    overwrite: bool,
    files: Map<PathView, Seq<char>>,
)
    ensures
        ({
            let first = carried_out(tasks, overwrite, files);
            let second = carried_out(tasks, false, first.1);
            let count = tally(tasks, false, second.0);
            &&& count.files_created == 0
            &&& count.files_overwritten == 0
            &&& count.files_skipped == file_tasks(tasks)
            &&& second.1 == first.1
        }),
{
    let first = carried_out(tasks, overwrite, files);
    lemma_run_leaves_the_files(tasks, overwrite, files);
    lemma_run_over_existing_files(tasks, first.1);
    lemma_existing_files_are_skipped(tasks, carried_out(tasks, false, first.1).0);
}

/// Where nothing may be overwritten, the first task that names a file decides what
/// the file holds after the run, unless the file was there before.
pub proof fn lemma_first_file_task_decides(
    tasks: Seq<TaskView>,
    files: Map<PathView, Seq<char>>,
    i: int,
)
    requires
        0 <= i < tasks.len(),
        tasks[i] is File,
        !files.dom().contains(tasks[i].path()),
        forall|j: int| 0 <= j < i && tasks[j] is File ==> (#[trigger] tasks[j]).path() != tasks[i].path(),
    ensures
        carried_out(tasks, false, files).1.dom().contains(tasks[i].path()),
        carried_out(tasks, false, files).1[tasks[i].path()] == tasks[i]->File_1,
    decreases tasks.len(),
{
    let path = tasks[i].path();
    let fewer = tasks.drop_last();
    if i < tasks.len() - 1 {
        assert(fewer[i] == tasks[i]);
        assert forall|j: int| 0 <= j < i && fewer[j] is File implies (#[trigger] fewer[j]).path()
            != fewer[i].path() by {
            assert(fewer[j] == tasks[j]);
        }
        lemma_first_file_task_decides(fewer, files, i);
    } else {
        lemma_untouched_paths_stay_absent(fewer, files, path);
    }
}

/// A path that no file task names is on disk after a run only if it was there
/// before.
pub proof fn lemma_untouched_paths_stay_absent(
    tasks: Seq<TaskView>,
    files: Map<PathView, Seq<char>>,
    path: PathView,
)
    requires
        !files.dom().contains(path),
        forall|j: int| 0 <= j < tasks.len() && tasks[j] is File ==> (#[trigger] tasks[j]).path() != path,
    ensures
        !carried_out(tasks, false, files).1.dom().contains(path),
    decreases tasks.len(),
{
    if tasks.len() > 0 {
        let fewer = tasks.drop_last();
        assert forall|j: int| 0 <= j < fewer.len() && fewer[j] is File implies (#[trigger] fewer[j]).path()
            != path by {
            assert(fewer[j] == tasks[j]);
        }
        lemma_untouched_paths_stay_absent(fewer, files, path);
        assert(tasks[tasks.len() - 1] == tasks.last());
    }
}

/// How far a run has come.
struct Progress {
    position: usize,
    stage: Stage,
    seen: Ghost<Seq<Observation>>,
    count: CreationResult,
}

impl Progress {
    fn start() -> (progress: Progress)
        ensures
            progress.position == 0,
            progress.stage == Stage::Fresh,
            progress.seen@ == Seq::<Observation>::empty(),
            progress.count@ == CreationView::empty(),
    {
        Progress {
            position: 0,
            stage: Stage::Fresh,
            seen: Ghost(Seq::empty()),
            count: CreationResult::new(),
        }
    }
}

/// Carries a task list out against a disk that the caller operates.
pub struct Materializer {
    tasks: Vec<Task>,
    overwrite: bool,
    progress: Progress,
}

impl View for Materializer {
    type V = MaterializerView;

    closed spec fn view(&self) -> MaterializerView {
        MaterializerView {
            tasks: task_views(self.tasks@),
            overwrite: self.overwrite,
            position: self.progress.position as nat,
            stage: self.progress.stage,
            seen: self.progress.seen@,
            count: self.progress.count@,
        }
    }
}

/// The count with one more task ended.
fn record(count: &mut CreationResult, task: &Task, overwrite: bool, seen: Observation)
    requires
        old(count).files_created < usize::MAX,
        old(count).dirs_created < usize::MAX,
        old(count).files_skipped < usize::MAX,
        old(count).files_overwritten < usize::MAX,
    ensures
        final(count)@ == recorded(old(count)@, task@, settle(task@, overwrite, seen)),
{
    match task {
        Task::Dir(_) => {
            if seen.completed {
                count.dirs_created = count.dirs_created + 1;
            }
        },
        Task::File(path, _) => {
            if seen.existed && !overwrite {
                let text = path.to_text();
                proof {
                    lemma_strings_push(count.skipped_files_list@, text);
                }
                count.files_skipped = count.files_skipped + 1;
                count.skipped_files_list.push(text);
            } else if seen.parent_ready && seen.completed {
                count.files_created = count.files_created + 1;
                if seen.existed {
                    let text = path.to_text();
                    proof {
                        lemma_strings_push(count.overwritten_files_list@, text);
                    }
                    count.files_overwritten = count.files_overwritten + 1;
                    count.overwritten_files_list.push(text);
                }
            }
        },
    }
}

impl Materializer {
    #[verifier::type_invariant]
    spec fn count_is_the_tally(&self) -> bool {
        self@.well_formed()
    }

    /// The state in which no task of `tasks` was carried out yet.
    pub open spec fn starting(tasks: Seq<TaskView>, overwrite: bool) -> MaterializerView {
        MaterializerView {
            tasks,
            overwrite,
            position: 0,
            stage: Stage::Fresh,
            seen: Seq::empty(),
            count: CreationView::empty(),
        }
    }

    pub fn new(tasks: Vec<Task>, overwrite: bool) -> (machine: Materializer)
        ensures
            machine@ == Materializer::starting(task_views(tasks@), overwrite),
            machine@.well_formed(),
    {
        assert(task_views(tasks@).take(0).len() == 0);
        Materializer { tasks, overwrite, progress: Progress::start() }
    }

    /// What is to be done next on disk.
    pub fn next_action(&self) -> (action: Action)
        ensures
            action@ == self@.action(),
            self@.well_formed(),
    {
        proof {
            use_type_invariant(self);
        }
        if self.progress.position >= self.tasks.len() {
            return Action::Finished;
        }
        match &self.tasks[self.progress.position] {
            Task::Dir(path) => Action::CreateDir(path.clone()),
            Task::File(path, content) => match self.progress.stage {
                Stage::Fresh => Action::Probe(path.clone()),
                Stage::Probed { existed } => {
                    let n: usize = path.segment_count();
                    if n > 0 {
                        Action::EnsureParent(path.ancestor(n - 1))
                    } else {
                        Action::Write(path.clone(), content.clone())
                    }
                },
                Stage::ParentReady { existed } => Action::Write(path.clone(), content.clone()),
            },
        }
    }

    pub fn is_finished(&self) -> (done: bool)
        ensures
            done == (self@.action() is Finished),
            done == (self@.position == self@.tasks.len()),
    {
        proof {
            use_type_invariant(self);
        }
        self.progress.position >= self.tasks.len()
    }

    /// The count so far: the tally of the tasks that ended.
    pub fn result(&self) -> (count: &CreationResult)
        ensures
            count@ == self@.count,
            count@ == tally(
                self@.tasks.take(self@.position as int),
                self@.overwrite,
                self@.seen,
            ),
            self@.well_formed(),
    {
        proof {
            use_type_invariant(self);
        }
        &self.progress.count
    }

    /// Takes the disk's answer to the action that was due. An answer of the wrong
    /// kind, or one that comes when every task has ended, changes nothing.
    pub fn handle(&mut self, event: Event)
        ensures
            final(self)@ == old(self)@.step(event),
            final(self)@.well_formed(),
    {
        proof {
            use_type_invariant(&*self);
            lemma_step_keeps_well_formed(self@, event);
        }
        let ghost before = self@;
        let total: usize = self.tasks.len();
        if self.progress.position >= total {
            return ;
        }
        let task = &self.tasks[self.progress.position];
        assert(task@ == before.tasks[before.position as int]);
        let has_parent = task.path().segment_count() > 0;
        let ended: Option<Observation> = match (task, event, self.progress.stage) {
            (Task::Dir(_), Event::Completed(ok), _) => Some(
                Observation { existed: false, parent_ready: true, completed: ok },
            ),
            (Task::File(_, _), Event::Probed(existed), Stage::Fresh) => {
                if existed && !self.overwrite {
                    Some(Observation { existed: true, parent_ready: false, completed: false })
                } else {
                    None
                }
            },
            (Task::File(_, _), Event::Completed(ok), Stage::Probed { existed }) => {
                if !has_parent {
                    Some(Observation { existed, parent_ready: true, completed: ok })
                } else if ok {
                    None
                } else {
                    Some(Observation { existed, parent_ready: false, completed: false })
                }
            },
            (Task::File(_, _), Event::Completed(ok), Stage::ParentReady { existed }) => Some(
                Observation { existed, parent_ready: true, completed: ok },
            ),
            _ => None,
        };
        let stage: Stage = match (task, event, self.progress.stage) {
            (Task::File(_, _), Event::Probed(existed), Stage::Fresh) => Stage::Probed { existed },
            (Task::File(_, _), Event::Completed(_), Stage::Probed { existed }) => Stage::ParentReady {
                existed,
            },
            (_, _, stage) => stage,
        };
        let mut progress = Progress::start();
        core::mem::swap(&mut self.progress, &mut progress);
        match ended {
            Some(seen) => {
                proof {
                    let done = before.tasks.take(before.position as int);
                    lemma_ended_keeps_tally(before, seen);
                    lemma_tally_is_consistent(done, before.overwrite, before.seen);
                    crate::tasks::lemma_tasks_are_files_or_dirs(done);
                    assert(progress.count@ == tally(done, before.overwrite, before.seen));
                    assert(progress.count.files_created + progress.count.files_skipped
                        <= done.len());
                    assert(progress.count.dirs_created <= done.len());
                }
                record(&mut progress.count, &self.tasks[progress.position], self.overwrite, seen);
                progress.position = progress.position + 1;
                progress.stage = Stage::Fresh;
                progress.seen = Ghost(before.seen.push(seen));
            },
            None => {
                progress.stage = stage;
            },
        }
        self.progress = progress;
    }
}

} // verus!
