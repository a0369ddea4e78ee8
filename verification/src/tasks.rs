//! From a configuration tree to the list of tasks that builds it on disk.
//!
//! The tree is walked depth first: the task of a directory stands before the tasks of
//! what lies in it, and the entries of a mapping keep their declared order.

use crate::errors::SkeletorError;
use crate::path::{is_rooted, PathView, TreePath};
use crate::text::{chars_of, pieces, same_text, split, strings, Delimiter};
use crate::value::{entry_views, lemma_mapping_view, ConfigTree, ConfigValue};
use vstd::prelude::*;
use vstd::string::*;

verus! {

/// The mathematical value of a task.
pub enum TaskView {
    Dir(PathView),
    File(PathView, Seq<char>),
}

impl TaskView {
    pub open spec fn path(self) -> PathView {
        match self {
            TaskView::Dir(path) => path,
            TaskView::File(path, _) => path,
        }
    }
}

/// A task to either create a directory or a file.
#[derive(Debug, PartialEq, Eq)]
pub enum Task {
    Dir(TreePath),
    File(TreePath, String),
}

impl View for Task {
    type V = TaskView;

    open spec fn view(&self) -> TaskView {
        match self {
            Task::Dir(path) => TaskView::Dir(path@),
            Task::File(path, content) => TaskView::File(path@, content@),
        }
    }
}

impl Task {
    pub fn path(&self) -> (path: &TreePath)
        ensures
            path@ == self@.path(),
    {
        match self {
            Task::Dir(path) => path,
            Task::File(path, _) => path,
        }
    }
}

impl Clone for Task {
    fn clone(&self) -> (copy: Task)
        ensures
            copy@ == self@,
    {
        match self {
            Task::Dir(path) => Task::Dir(path.clone()),
            Task::File(path, content) => Task::File(path.clone(), content.clone()),
        }
    }
}

/// The values of a list of tasks.
pub open spec fn task_views(tasks: Seq<Task>) -> Seq<TaskView> {
    tasks.map_values(|t: Task| t@)
}

pub open spec fn is_ascii_letter(c: char) -> bool {
    let n = c as u32;
    (0x41 <= n <= 0x5A) || (0x61 <= n <= 0x7A)
}

/// Whether a name starts like `C:`, the drive prefix of some hosts.
pub open spec fn has_drive_prefix(name: Seq<char>) -> bool {
    name.len() >= 2 && is_ascii_letter(name[0]) && name[1] == ':'
}

/// Whether one of the pieces of a name is `..`, the step to the parent directory.
pub open spec fn names_parent(name: Seq<char>) -> bool {
    pieces(name, Delimiter::PathSeparator).contains(seq!['.', '.'])
}

/// A key is safe when following it from a directory cannot lead out of that
/// directory: it is not absolute, has no drive prefix, and never steps to a parent.
pub open spec fn is_safe_name(name: Seq<char>) -> bool {
    !is_rooted(name) && !has_drive_prefix(name) && !names_parent(name)
}

pub fn check_name(name: &str) -> (safe: bool)
    ensures
        safe == is_safe_name(name@),
{
    let chars = chars_of(name);
    if chars.len() > 0 && Delimiter::PathSeparator.cuts_at(chars[0]) {
        return false;
    }
    if chars.len() >= 2 && chars[1] == ':' {
        let n: u32 = chars[0] as u32;
        if (0x41 <= n && n <= 0x5A) || (0x61 <= n && n <= 0x7A) {
            return false;
        }
    }
    let parts = split(name, Delimiter::PathSeparator);
    let ghost all = pieces(name@, Delimiter::PathSeparator);
    let n: usize = parts.len();
    let mut i: usize = 0;
    proof {
        reveal_strlit("..");
        assert(".."@ =~= seq!['.', '.']);
    }
    while i < n
        invariant
            n == parts.len(),
            i <= n,
            all == strings(parts@),
            all == pieces(name@, Delimiter::PathSeparator),
            ".."@ == seq!['.', '.'],
            forall|k: int| 0 <= k < i ==> all[k] != seq!['.', '.'],
        decreases n - i,
    {
        if same_text(parts[i].as_str(), "..") {
            assert(all[i as int] == seq!['.', '.']);
            assert(all.contains(seq!['.', '.']));
            return false;
        }
        i += 1;
    }
    true
}

/// The tasks that the entries of a mapping ask for below `base`, or the first key
/// that is not safe.
pub open spec fn planned(base: PathView, entries: Seq<(ConfigTree, ConfigTree)>) -> Result<
    Seq<TaskView>,
    Seq<char>,
>
    decreases entries,
{
    if entries.len() == 0 {
        Ok(Seq::empty())
    } else {
        match planned(base, entries.drop_last()) {
            Err(name) => Err(name),
            Ok(before) => match entries.last().0 {
                ConfigTree::Text(name) => if !is_safe_name(name) {
                    Err(name)
                } else {
                    let child = base.child(name);
                    match entries.last().1 {
                        ConfigTree::Mapping(inner) => match planned(child, inner) {
                            Err(name) => Err(name),
                            Ok(below) => Ok(before.push(TaskView::Dir(child)) + below),
                        },
                        ConfigTree::Text(content) => Ok(
                            before.push(TaskView::File(child, content)),
                        ),
                        _ => Ok(before),
                    }
                },
                _ => Ok(before),
            },
        }
    }
}

/// The tasks that a tree asks for below `base`. A tree that is no mapping asks for
/// nothing.
pub open spec fn tasks_of(base: PathView, tree: ConfigTree) -> Result<Seq<TaskView>, Seq<char>> {
    planned(base, tree.entries())
}

/// A key that is not safe among the first entries fails the whole mapping.
pub proof fn lemma_planned_failure_stays(
    base: PathView,
    entries: Seq<(ConfigTree, ConfigTree)>,
    n: int,
)
    requires
        0 <= n <= entries.len(),
        planned(base, entries.take(n)) is Err,
    ensures
        planned(base, entries) == planned(base, entries.take(n)),
    decreases entries.len() - n,
{
    if n < entries.len() {
        assert(entries.take(n + 1).drop_last() == entries.take(n));
        lemma_planned_failure_stays(base, entries, n + 1);
    } else {
        assert(entries.take(n) == entries);
    }
}

proof fn lemma_task_views_push(tasks: Seq<Task>, task: Task)
    ensures
        task_views(tasks.push(task)) == task_views(tasks).push(task@),
{
    assert(task_views(tasks.push(task)) =~= task_views(tasks).push(task@));
}

/// The tasks of two runs of entries, one after the other; the first key that is not
/// safe fails both.
pub open spec fn one_after_the_other(
    first: Result<Seq<TaskView>, Seq<char>>,
    second: Result<Seq<TaskView>, Seq<char>>,
) -> Result<Seq<TaskView>, Seq<char>> {
    match first {
        Err(name) => Err(name),
        Ok(tasks) => match second {
            Err(name) => Err(name),
            Ok(more) => Ok(tasks + more),
        },
    }
}

/// The entries of a mapping are taken in their order: the tasks of a mapping are
/// the tasks of its first entries followed by the tasks of the entries after them.
pub proof fn lemma_planned_in_order(
    base: PathView,
    first: Seq<(ConfigTree, ConfigTree)>,
    rest: Seq<(ConfigTree, ConfigTree)>,
)
    ensures
        planned(base, first + rest) == one_after_the_other(
            planned(base, first),
            planned(base, rest),
        ),
    decreases rest.len(),
{
    if rest.len() == 0 {
        assert(first + rest == first);
        if planned(base, first) is Ok {
            assert(planned(base, first)->Ok_0 + Seq::<TaskView>::empty() == planned(
                base,
                first,
            )->Ok_0);
        }
    } else {
        let all = first + rest;
        assert(all.drop_last() == first + rest.drop_last());
        assert(all.last() == rest.last());
        lemma_planned_in_order(base, first, rest.drop_last());
        match (planned(base, first), planned(base, rest.drop_last())) {
            (Ok(a), Ok(b)) => {
                match rest.last().0 {
                    ConfigTree::Text(name) => {
                        if is_safe_name(name) {
                            let child = base.child(name);
                            match rest.last().1 {
                                ConfigTree::Mapping(inner) => {
                                    match planned(child, inner) {
                                        Ok(below) => {
                                            assert((a + b).push(TaskView::Dir(child)) + below == a
                                                + (b.push(TaskView::Dir(child)) + below));
                                        },
                                        Err(_) => {},
                                    }
                                },
                                ConfigTree::Text(content) => {
                                    assert((a + b).push(TaskView::File(child, content)) == a
                                        + b.push(TaskView::File(child, content)));
                                },
                                _ => {},
                            }
                        }
                    },
                    _ => {},
                }
            },
            _ => {},
        }
    }
}

/// A directory whose entries are walked, from the entry at `next` on.
struct Frame<'a> {
    base: TreePath,
    entries: &'a Vec<(ConfigValue, ConfigValue)>,
    next: usize,
}

impl<'a> Frame<'a> {
    /// The entries that are still to be walked.
    spec fn rest(&self) -> Seq<(ConfigTree, ConfigTree)> {
        entry_views(self.entries@).skip(self.next as int)
    }
}

/// The tasks that the directories on the stack still ask for: those of the topmost
/// directory first.
spec fn pending(frames: Seq<Frame>) -> Result<Seq<TaskView>, Seq<char>>
    decreases frames.len(),
{
    if frames.len() == 0 {
        Ok(Seq::empty())
    } else {
        one_after_the_other(
            planned(frames.last().base@, frames.last().rest()),
            pending(frames.drop_last()),
        )
    }
}

/// The number of entries in a run of entries, with the entries of every mapping
/// under them.
spec fn weight(entries: Seq<(ConfigTree, ConfigTree)>) -> nat
    decreases entries,
{
    if entries.len() == 0 {
        0
    } else {
        1 + match entries[0].1 {
            ConfigTree::Mapping(inner) => weight(inner),
            _ => 0,
        } + weight(entries.drop_first())
    }
}

/// How much is left to walk: it shrinks with every step of the walk.
spec fn work_left(frames: Seq<Frame>) -> nat
    decreases frames.len(),
{
    if frames.len() == 0 {
        0
    } else {
        work_left(frames.drop_last()) + 2 * weight(frames.last().rest()) + 1
    }
}

proof fn lemma_one_after_the_other_is_associative(
    a: Result<Seq<TaskView>, Seq<char>>,
    b: Result<Seq<TaskView>, Seq<char>>,
    c: Result<Seq<TaskView>, Seq<char>>,
)
    ensures
        one_after_the_other(one_after_the_other(a, b), c) == one_after_the_other(
            a,
            one_after_the_other(b, c),
        ),
{
    match (a, b, c) {
        (Ok(x), Ok(y), Ok(z)) => {
            assert((x + y) + z == x + (y + z));
        },
        _ => {},
    }
}

proof fn lemma_pushed_frame(frames: Seq<Frame>, frame: Frame)
    ensures
        pending(frames.push(frame)) == one_after_the_other(
            planned(frame.base@, frame.rest()),
            pending(frames),
        ),
        work_left(frames.push(frame)) == work_left(frames) + 2 * weight(frame.rest()) + 1,
{
    assert(frames.push(frame).drop_last() == frames);
}

/// Turns a configuration tree into the ordered list of tasks that builds it below
/// `base`: for every entry with a text key, in declared order, a directory task
/// followed by the tasks of its entries where the value is a mapping, a file task
/// where it is a text. Entries with other keys or values ask for nothing. The first
/// key that is not safe fails the whole traversal.
///
/// The tree is walked with a stack of its own, so a deep tree costs memory, not
/// call depth.
pub fn traverse_structure(base: &TreePath, tree: &ConfigValue) -> (r: Result<
    Vec<Task>,
    SkeletorError,
>)
    ensures
        match tasks_of(base@, tree@) {
            Ok(tasks) => r is Ok && task_views(r.unwrap()@) == tasks,
            Err(name) => r matches Err(SkeletorError::InvalidPath { key }) && key@ == name,
        },
{
    let mut out: Vec<Task> = Vec::new();
    assert(task_views(out@) =~= Seq::<TaskView>::empty());
    let top = match tree {
        ConfigValue::Mapping(entries) => entries,
        _ => {
            return Ok(out);
        },
    };
    proof {
        lemma_mapping_view(*top);
    }
    let ghost wanted = tasks_of(base@, tree@);
    let mut stack: Vec<Frame> = Vec::new();
    let first = Frame { base: base.clone(), entries: top, next: 0 };
    proof {
        assert(first.rest() == entry_views(top@));
        lemma_pushed_frame(stack@, first);
        assert(pending(stack@.push(first)) == wanted) by {
            if wanted is Ok {
                assert(wanted->Ok_0 + Seq::<TaskView>::empty() == wanted->Ok_0);
            }
        }
        assert(one_after_the_other(Ok(task_views(out@)), wanted) == wanted) by {
            if wanted is Ok {
                assert(task_views(out@) + wanted->Ok_0 == wanted->Ok_0);
            }
        }
    }
    stack.push(first);
    while stack.len() > 0
        invariant
            wanted == tasks_of(base@, tree@),
            wanted == one_after_the_other(Ok(task_views(out@)), pending(stack@)),
            forall|k: int| 0 <= k < stack@.len() ==> (#[trigger] stack@[k]).next <= stack@[k].entries@.len(),
        decreases work_left(stack@),
    {
        let ghost before = stack@;
        let ghost made = task_views(out@);
        let frame = stack.pop().unwrap();
        let ghost below = stack@;
        let ghost rest = frame.rest();
        proof {
            assert(before == below.push(frame));
            lemma_pushed_frame(below, frame);
        }
        if frame.next >= frame.entries.len() {
            proof {
                assert(rest.len() == 0);
                if pending(below) is Ok {
                    assert(Seq::<TaskView>::empty() + pending(below)->Ok_0 == pending(below)->Ok_0);
                }
            }
        } else {
            let entry = &frame.entries[frame.next];
            let ghost rest1 = entry_views(frame.entries@).skip(frame.next + 1);
            let ghost one = seq![(entry.0@, entry.1@)];
            proof {
                assert(rest == one + rest1);
                assert(rest.drop_first() == rest1);
                assert(rest[0] == (entry.0@, entry.1@));
                lemma_planned_in_order(frame.base@, one, rest1);
                assert(one.drop_last() == Seq::<(ConfigTree, ConfigTree)>::empty());
                assert(one.last() == (entry.0@, entry.1@));
                assert(planned(frame.base@, Seq::empty()) == Ok::<Seq<TaskView>, Seq<char>>(
                    Seq::empty(),
                ));
                lemma_one_after_the_other_is_associative(
                    planned(frame.base@, one),
                    planned(frame.base@, rest1),
                    pending(below),
                );
            }
            let ghost later = one_after_the_other(planned(frame.base@, rest1), pending(below));
            let next = Frame { base: frame.base.clone(), entries: frame.entries, next: frame.next + 1 };
            proof {
                assert(next.rest() == rest1);
                lemma_pushed_frame(below, next);
            }
            match &entry.0 {
                ConfigValue::Text(name) => {
                    if !check_name(name.as_str()) {
                        return Err(SkeletorError::InvalidPath { key: name.clone() });
                    }
                    let child = frame.base.join(name.as_str());
                    match &entry.1 {
                        ConfigValue::Mapping(inner) => {
                            let task = Task::Dir(child.clone());
                            let down = Frame { base: child, entries: inner, next: 0 };
                            proof {
                                lemma_mapping_view(*inner);
                                lemma_task_views_push(out@, task);
                                assert(down.rest() == entry_views(inner@));
                                lemma_pushed_frame(below.push(next), down);
                                let walked = planned(down.base@, down.rest());
                                assert(planned(frame.base@, one) == one_after_the_other(
                                    Ok(seq![task@]),
                                    walked,
                                )) by {
                                    if walked is Ok {
                                        assert(Seq::<TaskView>::empty().push(task@) + walked->Ok_0
                                            == seq![task@] + walked->Ok_0);
                                    }
                                }
                                lemma_one_after_the_other_is_associative(
                                    Ok(seq![task@]),
                                    walked,
                                    later,
                                );
                                lemma_one_after_the_other_is_associative(
                                    Ok(made),
                                    Ok(seq![task@]),
                                    one_after_the_other(walked, later),
                                );
                                assert(made + seq![task@] == made.push(task@));
                            }
                            out.push(task);
                            stack.push(next);
                            stack.push(down);
                        },
                        ConfigValue::Text(content) => {
                            let task = Task::File(child, content.clone());
                            proof {
                                lemma_task_views_push(out@, task);
                                assert(planned(frame.base@, one) == Ok::<Seq<TaskView>, Seq<char>>(
                                    seq![task@],
                                )) by {
                                    assert(Seq::<TaskView>::empty().push(task@) == seq![task@]);
                                }
                                lemma_one_after_the_other_is_associative(
                                    Ok(made),
                                    Ok(seq![task@]),
                                    later,
                                );
                                assert(made + seq![task@] == made.push(task@));
                            }
                            out.push(task);
                            stack.push(next);
                        },
                        _ => {
                            proof {
                                if later is Ok {
                                    assert(Seq::<TaskView>::empty() + later->Ok_0 == later->Ok_0);
                                }
                            }
                            stack.push(next);
                        },
                    }
                },
                _ => {
                    proof {
                        if later is Ok {
                            assert(Seq::<TaskView>::empty() + later->Ok_0 == later->Ok_0);
                        }
                    }
                    stack.push(next);
                },
            }
        }
    }
    proof {
        assert(stack@.len() == 0);
        assert(task_views(out@) + Seq::<TaskView>::empty() == task_views(out@));
    }
    Ok(out)
}

/// How many files and how many directories the entries of a mapping stand for, in
/// that order: under a text key, a text is a file and a mapping is a directory,
/// counted with what lies in it.
pub open spec fn counted(entries: Seq<(ConfigTree, ConfigTree)>) -> (nat, nat)
    decreases entries,
{
    if entries.len() == 0 {
        (0, 0)
    } else {
        let before = counted(entries.drop_last());
        match entries.last().0 {
            ConfigTree::Text(_) => match entries.last().1 {
                ConfigTree::Mapping(inner) => {
                    let below = counted(inner);
                    (before.0 + below.0, before.1 + 1 + below.1)
                },
                ConfigTree::Text(_) => (before.0 + 1, before.1),
                _ => before,
            },
            _ => before,
        }
    }
}

/// The numbers of files and of directories that a tree stands for.
pub open spec fn stats_of(tree: ConfigTree) -> (nat, nat) {
    counted(tree.entries())
}

/// `n` as a `usize`, or the largest `usize` where `n` does not fit.
pub open spec fn clamped(n: nat) -> usize {
    if n > usize::MAX {
        usize::MAX
    } else {
        n as usize
    }
}

/// Computes the numbers of files and of directories that a tree stands for. A count
/// that does not fit the machine word stops at the largest value.
pub fn compute_stats(tree: &ConfigValue) -> (stats: (usize, usize))
    ensures
        stats.0 == clamped(stats_of(tree@).0),
        stats.1 == clamped(stats_of(tree@).1),
    decreases tree,
{
    let mut files: usize = 0;
    let mut dirs: usize = 0;
    match tree {
        ConfigValue::Mapping(entries) => {
            proof {
                lemma_mapping_view(*entries);
            }
            let ghost all = entry_views(entries@);
            let n: usize = entries.len();
            let mut i: usize = 0;
            assert(all.take(0) == Seq::<(ConfigTree, ConfigTree)>::empty());
            while i < n
                invariant
                    n == entries.len(),
                    i <= n,
                    *tree == ConfigValue::Mapping(*entries),
                    all == entry_views(entries@),
                    files == clamped(counted(all.take(i as int)).0),
                    dirs == clamped(counted(all.take(i as int)).1),
                decreases n - i,
            {
                proof {
                    assert(all.take(i + 1).drop_last() == all.take(i as int));
                    assert(all.take(i + 1).last() == all[i as int]);
                    vstd::std_specs::vec::axiom_vec_index_decreases(*entries, i as int);
                    assert(tree is Mapping);
                    assert(tree->Mapping_0 == *entries);
                    assert(decreases_to!(*tree => tree->Mapping_0));
                    assert(decreases_to!(*entries => entries[i as int]));
                }
                let entry = &entries[i];
                match &entry.0 {
                    ConfigValue::Text(_) => match &entry.1 {
                        ConfigValue::Mapping(inner) => {
                            proof {
                                lemma_mapping_view(*inner);
                            }
                            let below = compute_stats(&entry.1);
                            files = files.saturating_add(below.0);
                            dirs = dirs.saturating_add(1).saturating_add(below.1);
                        },
                        ConfigValue::Text(_) => {
                            files = files.saturating_add(1);
                        },
                        _ => {},
                    },
                    _ => {},
                }
                i += 1;
            }
            assert(all.take(n as int) == all);
        },
        _ => {},
    }
    (files, dirs)
}

pub open spec fn is_file_task() -> spec_fn(TaskView) -> bool {
    |task: TaskView| task is File
}

pub open spec fn is_dir_task() -> spec_fn(TaskView) -> bool {
    |task: TaskView| task is Dir
}

/// The number of file tasks in a list.
pub open spec fn file_tasks(tasks: Seq<TaskView>) -> nat {
    tasks.filter(is_file_task()).len()
}

/// The number of directory tasks in a list.
pub open spec fn dir_tasks(tasks: Seq<TaskView>) -> nat {
    tasks.filter(is_dir_task()).len()
}

/// The tasks of a mapping hold as many file tasks and directory tasks as the
/// mapping counts files and directories.
pub proof fn lemma_counted_agrees(base: PathView, entries: Seq<(ConfigTree, ConfigTree)>)
    requires
        planned(base, entries) is Ok,
    ensures
        file_tasks(planned(base, entries)->Ok_0) == counted(entries).0,
        dir_tasks(planned(base, entries)->Ok_0) == counted(entries).1,
    decreases entries,
{
    let files = is_file_task();
    let dirs = is_dir_task();
    if entries.len() == 0 {
        Seq::<TaskView>::empty().lemma_filter_len(files);
        Seq::<TaskView>::empty().lemma_filter_len(dirs);
    } else {
        lemma_counted_agrees(base, entries.drop_last());
        let before = planned(base, entries.drop_last())->Ok_0;
        match entries.last().0 {
            ConfigTree::Text(name) => {
                let child = base.child(name);
                match entries.last().1 {
                    ConfigTree::Mapping(inner) => {
                        lemma_counted_agrees(child, inner);
                        let below = planned(child, inner)->Ok_0;
                        let task = TaskView::Dir(child);
                        before.lemma_filter_push(task, files);
                        before.lemma_filter_push(task, dirs);
                        Seq::filter_distributes_over_add(before.push(task), below, files);
                        Seq::filter_distributes_over_add(before.push(task), below, dirs);
                    },
                    ConfigTree::Text(content) => {
                        let task = TaskView::File(child, content);
                        before.lemma_filter_push(task, files);
                        before.lemma_filter_push(task, dirs);
                    },
                    _ => {},
                }
            },
            _ => {},
        }
    }
}

/// Wherever the traversal of a tree succeeds, the statistics agree with it: the
/// tree counts as many files as the task list holds file tasks, and as many
/// directories as it holds directory tasks.
pub proof fn lemma_stats_agree_with_tasks(base: PathView, tree: ConfigTree)
    requires
        tasks_of(base, tree) is Ok,
    ensures
        stats_of(tree).0 == file_tasks(tasks_of(base, tree)->Ok_0),
        stats_of(tree).1 == dir_tasks(tasks_of(base, tree)->Ok_0),
{
    lemma_counted_agrees(base, tree.entries());
}

/// Every task is a file task or a directory task.
pub proof fn lemma_tasks_are_files_or_dirs(tasks: Seq<TaskView>)
    ensures
        file_tasks(tasks) + dir_tasks(tasks) == tasks.len(),
    decreases tasks.len(),
{
    let files = is_file_task();
    let dirs = is_dir_task();
    if tasks.len() == 0 {
        tasks.lemma_filter_len(files);
        tasks.lemma_filter_len(dirs);
    } else {
        lemma_tasks_are_files_or_dirs(tasks.drop_last());
        assert(tasks == tasks.drop_last().push(tasks.last()));
        tasks.drop_last().lemma_filter_push(tasks.last(), files);
        tasks.drop_last().lemma_filter_push(tasks.last(), dirs);
    }
}

/// Whether `path` lies at or below `base` by plain names: it continues `base`, and
/// no segment that it adds steps to a parent directory.
pub open spec fn stays_below(path: PathView, base: PathView) -> bool {
    &&& path.is_within(base)
    &&& forall|k: int|
        base.segments.len() <= k < path.segments.len() ==> #[trigger] path.segments[k] != seq![
            '.',
            '.',
        ]
}

/// A safe name leads to a path below the one it is followed from.
pub proof fn lemma_safe_child_stays_below(base: PathView, name: Seq<char>)
    requires
        is_safe_name(name),
    ensures
        stays_below(base.child(name), base),
{
    let all = pieces(name, Delimiter::PathSeparator);
    let added = crate::path::path_segments(name);
    let child = base.child(name);
    assert(base.segments.is_prefix_of(child.segments)) by {
        assert(child.segments.subrange(0, base.segments.len() as int) =~= base.segments);
    }
    assert forall|k: int| base.segments.len() <= k < child.segments.len() implies
        #[trigger] child.segments[k] != seq!['.', '.'] by {
        let j = k - base.segments.len();
        assert(child.segments[k] == added[j]);
        assert(added.contains(added[j]));
        all.lemma_filter_contains_rev(crate::path::kept(), added[j]);
    }
}

/// What stays below a path that stays below a base stays below that base.
pub proof fn lemma_stays_below_is_transitive(path: PathView, middle: PathView, base: PathView)
    requires
        stays_below(path, middle),
        stays_below(middle, base),
    ensures
        stays_below(path, base),
{
    assert(base.segments.is_prefix_of(path.segments)) by {
        assert(middle.segments == path.segments.subrange(0, middle.segments.len() as int));
        assert(base.segments == middle.segments.subrange(0, base.segments.len() as int));
        assert(path.segments.subrange(0, base.segments.len() as int) =~= base.segments);
    }
    assert forall|k: int| base.segments.len() <= k < path.segments.len() implies
        #[trigger] path.segments[k] != seq!['.', '.'] by {
        if k < middle.segments.len() {
            assert(path.segments[k] == middle.segments[k]);
        }
    }
}

/// Every task that the entries of a mapping ask for names a path at or
/// below `base`, reached by plain names only.
pub proof fn lemma_planned_stays_below(base: PathView, entries: Seq<(ConfigTree, ConfigTree)>)
    requires
        planned(base, entries) is Ok,
    ensures
        forall|i: int|
            0 <= i < planned(base, entries)->Ok_0.len() ==> stays_below(
                (#[trigger] planned(base, entries)->Ok_0[i]).path(),
                base,
            ),
    decreases entries,
{
    if entries.len() > 0 {
        lemma_planned_stays_below(base, entries.drop_last());
        let before = planned(base, entries.drop_last())->Ok_0;
        match entries.last().0 {
            ConfigTree::Text(name) => {
                let child = base.child(name);
                lemma_safe_child_stays_below(base, name);
                match entries.last().1 {
                    ConfigTree::Mapping(inner) => {
                        lemma_planned_stays_below(child, inner);
                        let below = planned(child, inner)->Ok_0;
                        let tasks = planned(base, entries)->Ok_0;
                        assert forall|i: int| 0 <= i < tasks.len() implies stays_below(
                            (#[trigger] tasks[i]).path(),
                            base,
                        ) by {
                            if i > before.len() {
                                let j = i - before.len() - 1;
                                assert(tasks[i] == below[j]);
                                lemma_stays_below_is_transitive(below[j].path(), child, base);
                            }
                        }
                    },
                    _ => {},
                }
            },
            _ => {},
        }
    }
}

/// Every task of a successful traversal names a path at or below the
/// base of the traversal, reached by plain names only.
pub proof fn lemma_tasks_stay_below(base: PathView, tree: ConfigTree, i: int)
    requires
        tasks_of(base, tree) is Ok,
        0 <= i < tasks_of(base, tree)->Ok_0.len(),
    ensures
        stays_below(tasks_of(base, tree)->Ok_0[i].path(), base),
{
    lemma_planned_stays_below(base, tree.entries());
}

} // verus!
