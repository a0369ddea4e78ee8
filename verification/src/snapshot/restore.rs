//! A snapshot brings a directory back.
//!
//! The snapshot of a directory, taken with contents and without ignore patterns,
//! asks for one task for each directory and each file of it. Carried out on a disk
//! that holds none of them, and on which nothing goes wrong, the tasks leave each
//! text file where it was, with the bytes it had.

use crate::materialize::{
    carried_out, lemma_first_file_task_decides, lemma_untouched_paths_stay_absent,
};
use crate::path::{is_segment, lemma_segment_names_itself, PathView};
use crate::snapshot::ignore::RuleView;
use crate::snapshot::{
    capture_of, lemma_name_order_indices, lemma_name_order_is_permutation,
    lemma_snapshot_brings_the_listing_back, name_order, names_are_safe, names_of, rebuilt,
    snapshot_of, Capture, ContentView, EntryView,
};
use crate::tasks::{is_safe_name, planned, TaskView};
use vstd::prelude::*;
use vstd::utf8::{decode_utf8, encode_utf8, valid_utf8};

verus! {

/// Whether every name in the listing, at any depth, is the plain name of an entry of
/// a directory: one segment that is safe to follow, and no two alike in one
/// directory. No directory holds more entries than a machine word counts.
pub open spec fn has_plain_names(listing: Seq<EntryView>) -> bool
    decreases listing,
{
    &&& listing.len() <= usize::MAX
    &&& forall|i: int, j: int|
        0 <= i < j < listing.len() ==> (#[trigger] listing[i]).name() != (#[trigger] listing[j]).name()
    &&& forall|i: int|
        0 <= i < listing.len() ==> is_segment((#[trigger] listing[i]).name()) && is_safe_name(
            listing[i].name(),
        ) && match listing[i] {
            EntryView::Directory { name, entries } => has_plain_names(entries),
            EntryView::File { .. } => true,
        }
}

/// Whether the listing of the directory `base` holds a file of these bytes at `path`.
pub open spec fn holds_file(
    listing: Seq<EntryView>,
    base: PathView,
    path: PathView,
    bytes: Seq<u8>,
) -> bool
    decreases listing,
{
    exists|i: int|
        0 <= i < listing.len() && match #[trigger] listing[i] {
            EntryView::Directory { name, entries } => holds_file(
                entries,
                base.child(name),
                path,
                bytes,
            ),
            EntryView::File { name, content } => path == base.child(name) && content
                == ContentView::Bytes(bytes),
        }
}

/// Whether a snapshot with contents keeps, of the listing of the directory `base`, a
/// file at `path` with this text: the text that its bytes encode, or no text where
/// the file is binary or was not read.
pub open spec fn keeps_file(
    listing: Seq<EntryView>,
    base: PathView,
    path: PathView,
    text: Seq<char>,
) -> bool
    decreases listing,
{
    exists|i: int|
        0 <= i < listing.len() && match #[trigger] listing[i] {
            EntryView::Directory { name, entries } => keeps_file(
                entries,
                base.child(name),
                path,
                text,
            ),
            EntryView::File { name, content } => path == base.child(name) && is_kept_as(
                content,
                text,
            ),
        }
}

/// Whether a snapshot with contents keeps a file of this content with this text.
pub open spec fn is_kept_as(content: ContentView, text: Seq<char>) -> bool {
    match capture_of(content, true) {
        Capture::Text(kept) => text == kept,
        Capture::Binary => text == Seq::<char>::empty(),
        Capture::Dropped => false,
    }
}

/// A file whose bytes are UTF-8 is kept with the text that they encode.
pub proof fn lemma_text_files_are_kept(
    listing: Seq<EntryView>,
    base: PathView,
    path: PathView,
    bytes: Seq<u8>,
)
    requires
        valid_utf8(bytes),
        holds_file(listing, base, path, bytes),
    ensures
        keeps_file(listing, base, path, decode_utf8(bytes)),
    decreases listing,
{
    let i = choose|i: int|
        0 <= i < listing.len() && match #[trigger] listing[i] {
            EntryView::Directory { name, entries } => holds_file(
                entries,
                base.child(name),
                path,
                bytes,
            ),
            EntryView::File { name, content } => path == base.child(name) && content
                == ContentView::Bytes(bytes),
        };
    match listing[i] {
        EntryView::Directory { name, entries } => {
            lemma_text_files_are_kept(entries, base.child(name), path, bytes);
        },
        EntryView::File { .. } => {},
    }
}

/// Plain names are safe to follow, in whatever order the entries are taken.
pub proof fn lemma_plain_names_are_safe(listing: Seq<EntryView>, order: Seq<usize>)
    requires
        has_plain_names(listing),
    ensures
        names_are_safe(listing, order),
    decreases listing, order.len(),
{
    if order.len() > 0 {
        lemma_plain_names_are_safe(listing, order.drop_last());
        let i = order.last() as int;
        if i < listing.len() {
            match listing[i] {
                EntryView::Directory { name, entries } => {
                    lemma_plain_names_are_safe(
                        entries,
                        name_order(names_of(entries), entries.len()),
                    );
                },
                EntryView::File { .. } => {},
            }
        }
    }
}

/// Whether a path lies in or below the entry `name` of the directory `base`.
pub open spec fn lies_under(path: PathView, base: PathView, name: Seq<char>) -> bool {
    base.segments.push(name).is_prefix_of(path.segments)
}

/// Whether a path lies in or below one of the entries `order` of a listing of the
/// directory `base`.
pub open spec fn lies_in(
    path: PathView,
    base: PathView,
    listing: Seq<EntryView>,
    order: Seq<usize>,
) -> bool {
    exists|j: int|
        0 <= j < order.len() && (#[trigger] order[j]) < listing.len() && lies_under(
            path,
            base,
            listing[order[j] as int].name(),
        )
}

/// What lies in or below an entry of a directory lies in or below the directory.
proof fn lemma_lies_deeper(path: PathView, base: PathView, name: Seq<char>, inner: Seq<char>)
    requires
        is_segment(name),
        lies_under(path, base.child(name), inner),
    ensures
        lies_under(path, base, name),
        path.segments.len() > base.segments.len() + 1,
{
    lemma_segment_names_itself(name);
    let middle = base.child(name).segments;
    assert(middle =~= base.segments.push(name));
    let deep = middle.push(inner);
    assert(deep == path.segments.subrange(0, deep.len() as int));
    assert(path.segments.subrange(0, middle.len() as int) =~= middle) by {
        assert forall|k: int| 0 <= k < middle.len() implies path.segments[k] == middle[k] by {
            assert(deep[k] == middle[k]);
        }
    }
}

/// The path of every task that brings the entries `order` back lies in or below one
/// of these entries.
pub proof fn lemma_rebuilt_tasks_lie_in_their_entries(
    listing: Seq<EntryView>,
    order: Seq<usize>,
    base: PathView,
)
    requires
        has_plain_names(listing),
    ensures
        forall|k: int|
            0 <= k < rebuilt(listing, order, base).len() ==> lies_in(
                (#[trigger] rebuilt(listing, order, base)[k]).path(),
                base,
                listing,
                order,
            ),
    decreases listing, order.len(), 1int,
{
    let all = rebuilt(listing, order, base);
    if order.len() > 0 {
        let fewer = order.drop_last();
        let before = rebuilt(listing, fewer, base);
        lemma_rebuilt_tasks_lie_in_their_entries(listing, fewer, base);
        let i = order.last() as int;
        let last = order.len() - 1;
        assert(order[last] == order.last());
        if i < listing.len() {
            let name = listing[i].name();
            let path = base.child(name);
            lemma_segment_names_itself(name);
            assert(path.segments =~= base.segments.push(name));
            match listing[i] {
                EntryView::Directory { name: dir, entries } => {
                    lemma_rebuilt_tasks_lie_in_their_entries(
                        entries,
                        name_order(names_of(entries), entries.len()),
                        path,
                    );
                },
                EntryView::File { .. } => {},
            }
        }
        assert forall|k: int| 0 <= k < all.len() implies lies_in(
            (#[trigger] all[k]).path(),
            base,
            listing,
            order,
        ) by {
            if k < before.len() {
                assert(all[k] == before[k]);
                let j = choose|j: int|
                    0 <= j < fewer.len() && (#[trigger] fewer[j]) < listing.len() && lies_under(
                        before[k].path(),
                        base,
                        listing[fewer[j] as int].name(),
                    );
                assert(order[j] == fewer[j]);
            } else {
                lemma_new_tasks_lie_under_the_entry(listing, order, base, k);
            }
        }
    }
}

/// The tasks that the last of the entries `order` adds lie in or below that entry.
proof fn lemma_new_tasks_lie_under_the_entry(
    listing: Seq<EntryView>,
    order: Seq<usize>,
    base: PathView,
    k: int,
)
    requires
        has_plain_names(listing),
        order.len() > 0,
        rebuilt(listing, order.drop_last(), base).len() <= k < rebuilt(listing, order, base).len(),
    ensures
        order.last() < listing.len(),
        lies_under(
            rebuilt(listing, order, base)[k].path(),
            base,
            listing[order.last() as int].name(),
        ),
        k > rebuilt(listing, order.drop_last(), base).len() ==> rebuilt(
            listing,
            order,
            base,
        )[k].path().segments.len() > base.segments.len() + 1,
        k == rebuilt(listing, order.drop_last(), base).len() ==> rebuilt(
            listing,
            order,
            base,
        )[k].path().segments.len() == base.segments.len() + 1,
    decreases listing, order.len(), 0int,
{
    let all = rebuilt(listing, order, base);
    let before = rebuilt(listing, order.drop_last(), base);
    let i = order.last() as int;
    let name = listing[i].name();
    let path = base.child(name);
    lemma_segment_names_itself(name);
    assert(path.segments =~= base.segments.push(name));
    match listing[i] {
        EntryView::Directory { name: dir, entries } => {
            let inner = name_order(names_of(entries), entries.len());
            let below = rebuilt(entries, inner, path);
            if k > before.len() {
                let at = k - before.len() - 1;
                assert(all[k] == below[at]);
                lemma_rebuilt_tasks_lie_in_their_entries(entries, inner, path);
                let j = choose|j: int|
                    0 <= j < inner.len() && (#[trigger] inner[j]) < entries.len() && lies_under(
                        below[at].path(),
                        path,
                        entries[inner[j] as int].name(),
                    );
                lemma_lies_deeper(below[at].path(), base, name, entries[inner[j] as int].name());
            } else {
                assert(all[k] == TaskView::Dir(path));
            }
        },
        EntryView::File { .. } => {},
    }
}

/// No two tasks that bring the entries `order` back name one path.
pub proof fn lemma_rebuilt_paths_differ(listing: Seq<EntryView>, order: Seq<usize>, base: PathView)
    requires
        has_plain_names(listing),
        order.no_duplicates(),
    ensures
        forall|a: int, b: int|
            0 <= a < b < rebuilt(listing, order, base).len() ==> (#[trigger] rebuilt(
                listing,
                order,
                base,
            )[a]).path() != (#[trigger] rebuilt(listing, order, base)[b]).path(),
    decreases listing, order.len(),
{
    let all = rebuilt(listing, order, base);
    if order.len() > 0 {
        let fewer = order.drop_last();
        let before = rebuilt(listing, fewer, base);
        assert(fewer.no_duplicates()) by {
            assert forall|a: int, b: int| 0 <= a < fewer.len() && 0 <= b < fewer.len() && a
                != b implies fewer[a] != fewer[b] by {
                assert(fewer[a] == order[a] && fewer[b] == order[b]);
            }
        }
        lemma_rebuilt_paths_differ(listing, fewer, base);
        lemma_rebuilt_tasks_lie_in_their_entries(listing, fewer, base);
        let i = order.last() as int;
        let last = order.len() - 1;
        assert(order[last] == order.last());
        if i < listing.len() {
            match listing[i] {
                EntryView::Directory { name: dir, entries } => {
                    assert(has_plain_names(entries));
                    lemma_name_order_is_permutation(names_of(entries), entries.len());
                    lemma_rebuilt_paths_differ(
                        entries,
                        name_order(names_of(entries), entries.len()),
                        base.child(dir),
                    );
                },
                EntryView::File { .. } => {},
            }
        }
        assert forall|a: int, b: int| 0 <= a < b < all.len() implies (#[trigger] all[a]).path() != (
        #[trigger] all[b]).path() by {
            if b < before.len() {
                assert(all[a] == before[a] && all[b] == before[b]);
            } else {
                lemma_new_tasks_lie_under_the_entry(listing, order, base, b);
                let name = listing[i].name();
                if a < before.len() {
                    assert(all[a] == before[a]);
                    let j = choose|j: int|
                        0 <= j < fewer.len() && (#[trigger] fewer[j]) < listing.len() && lies_under(
                            before[a].path(),
                            base,
                            listing[fewer[j] as int].name(),
                        );
                    assert(order[j] == fewer[j]);
                    assert(order[j] != order[last]);
                    let other = listing[fewer[j] as int].name();
                    if (fewer[j] as int) < i {
                        assert(listing[fewer[j] as int].name() != listing[i].name());
                    } else {
                        assert(listing[i].name() != listing[fewer[j] as int].name());
                    }
                    let n = base.segments.len() as int;
                    assert(all[a].path().segments[n] == base.segments.push(other)[n]);
                    assert(all[b].path().segments[n] == base.segments.push(name)[n]);
                } else {
                    lemma_new_tasks_lie_under_the_entry(listing, order, base, a);
                    if a > before.len() {
                        match listing[i] {
                            EntryView::Directory { name: dir, entries } => {
                                let below = rebuilt(
                                    entries,
                                    name_order(names_of(entries), entries.len()),
                                    base.child(dir),
                                );
                                assert(all[a] == below[a - before.len() - 1]);
                                assert(all[b] == below[b - before.len() - 1]);
                            },
                            EntryView::File { .. } => {},
                        }
                    }
                }
            }
        }
    }
}

/// Whether a task is among those that an entry of the directory `base` adds.
pub open spec fn is_added_by(task: TaskView, entry: EntryView, base: PathView) -> bool {
    match entry {
        EntryView::Directory { name, entries } => rebuilt(
            entries,
            name_order(names_of(entries), entries.len()),
            base.child(name),
        ).contains(task),
        EntryView::File { name, content } => match task {
            TaskView::File(path, text) => path == base.child(name) && is_kept_as(content, text),
            TaskView::Dir(_) => false,
        },
    }
}

/// What one of the entries `order` adds is among the tasks that bring them back.
pub proof fn lemma_rebuilt_holds_what_an_entry_adds(
    listing: Seq<EntryView>,
    order: Seq<usize>,
    base: PathView,
    j: int,
    task: TaskView,
)
    requires
        0 <= j < order.len(),
        order[j] < listing.len(),
        is_added_by(task, listing[order[j] as int], base),
    ensures
        rebuilt(listing, order, base).contains(task),
    decreases order.len(),
{
    let all = rebuilt(listing, order, base);
    let before = rebuilt(listing, order.drop_last(), base);
    if j < order.len() - 1 {
        assert(order.drop_last()[j] == order[j]);
        lemma_rebuilt_holds_what_an_entry_adds(listing, order.drop_last(), base, j, task);
        let k = choose|k: int| 0 <= k < before.len() && before[k] == task;
        assert(all[k] == task);
    } else {
        assert(order[j] == order.last());
        match listing[order[j] as int] {
            EntryView::Directory { name, entries } => {
                let below = rebuilt(
                    entries,
                    name_order(names_of(entries), entries.len()),
                    base.child(name),
                );
                let k = choose|k: int| 0 <= k < below.len() && below[k] == task;
                assert(all[before.len() + 1 + k] == task);
            },
            EntryView::File { .. } => {
                assert(all[before.len() as int] == task);
            },
        }
    }
}

/// Each file that is kept has its task among those that bring the listing back: the
/// task writes the kept text at the path of the file.
pub proof fn lemma_each_kept_file_has_its_task(
    listing: Seq<EntryView>,
    base: PathView,
    path: PathView,
    text: Seq<char>,
)
    requires
        has_plain_names(listing),
        keeps_file(listing, base, path, text),
    ensures
        rebuilt(listing, name_order(names_of(listing), listing.len()), base).contains(
            TaskView::File(path, text),
        ),
    decreases listing,
{
    let order = name_order(names_of(listing), listing.len());
    let task = TaskView::File(path, text);
    let i = choose|i: int|
        0 <= i < listing.len() && match #[trigger] listing[i] {
            EntryView::Directory { name, entries } => keeps_file(
                entries,
                base.child(name),
                path,
                text,
            ),
            EntryView::File { name, content } => path == base.child(name) && is_kept_as(
                content,
                text,
            ),
        };
    lemma_name_order_is_permutation(names_of(listing), listing.len());
    lemma_name_order_indices(names_of(listing), listing.len());
    assert(order.contains(i as usize));
    let j = choose|j: int| 0 <= j < order.len() && order[j] == i as usize;
    match listing[i] {
        EntryView::Directory { name, entries } => {
            lemma_each_kept_file_has_its_task(entries, base.child(name), path, text);
        },
        EntryView::File { .. } => {},
    }
    lemma_rebuilt_holds_what_an_entry_adds(listing, order, base, j, task);
}

/// Each task that writes a file writes a file that is kept, with the kept text.
pub proof fn lemma_each_file_task_has_its_file(
    listing: Seq<EntryView>,
    order: Seq<usize>,
    base: PathView,
)
    ensures
        forall|k: int|
            0 <= k < rebuilt(listing, order, base).len() ==> match #[trigger] rebuilt(
                listing,
                order,
                base,
            )[k] {
                TaskView::File(path, text) => keeps_file(listing, base, path, text),
                TaskView::Dir(_) => true,
            },
    decreases listing, order.len(),
{
    let all = rebuilt(listing, order, base);
    if order.len() > 0 {
        let before = rebuilt(listing, order.drop_last(), base);
        lemma_each_file_task_has_its_file(listing, order.drop_last(), base);
        let i = order.last() as int;
        if i < listing.len() {
            let path = base.child(listing[i].name());
            match listing[i] {
                EntryView::Directory { name, entries } => {
                    let below = rebuilt(entries, name_order(names_of(entries), entries.len()), path);
                    lemma_each_file_task_has_its_file(
                        entries,
                        name_order(names_of(entries), entries.len()),
                        path,
                    );
                    assert forall|k: int| before.len() < k < all.len() implies match #[trigger] all[k] {
                        TaskView::File(place, text) => keeps_file(listing, base, place, text),
                        TaskView::Dir(_) => true,
                    } by {
                        assert(all[k] == below[k - before.len() - 1]);
                    }
                },
                EntryView::File { .. } => {},
            }
        }
        assert forall|k: int| 0 <= k < all.len() implies match #[trigger] all[k] {
            TaskView::File(place, text) => keeps_file(listing, base, place, text),
            TaskView::Dir(_) => true,
        } by {
            if k < before.len() {
                assert(all[k] == before[k]);
            }
        }
    }
}

/// Taking a snapshot and applying it brings the files back, and nothing else. The
/// snapshot of a listing with plain names, taken with contents and without ignore
/// patterns, gives a list of tasks for any target directory. Carried out on a disk
/// without files, in a run in which nothing goes wrong, the tasks leave below the
/// target the files that the snapshot keeps, each with the text that is kept of it,
/// and no other file.
pub proof fn lemma_snapshot_restores_what_is_kept(
    listing: Seq<EntryView>,
    base: PathView,
    target: PathView,
    path: PathView,
)
    requires
        has_plain_names(listing),
    ensures
        planned(target, snapshot_of(listing, base, true, Seq::<RuleView>::empty()).entries) is Ok,
        ({
            let tasks = planned(
                target,
                snapshot_of(listing, base, true, Seq::<RuleView>::empty()).entries,
            )->Ok_0;
            let disk = carried_out(tasks, false, Map::<PathView, Seq<char>>::empty()).1;
            &&& disk.dom().contains(path) <==> exists|text: Seq<char>|
                keeps_file(listing, target, path, text)
            &&& forall|text: Seq<char>| #[trigger]
                keeps_file(listing, target, path, text) ==> disk[path] == text
        }),
{
    let order = name_order(names_of(listing), listing.len());
    let tasks = rebuilt(listing, order, target);
    let nothing = Map::<PathView, Seq<char>>::empty();
    let disk = carried_out(tasks, false, nothing).1;
    lemma_plain_names_are_safe(listing, order);
    lemma_snapshot_brings_the_listing_back(listing, base, target);
    lemma_name_order_is_permutation(names_of(listing), listing.len());
    lemma_rebuilt_paths_differ(listing, order, target);
    assert forall|text: Seq<char>| #[trigger]
        keeps_file(listing, target, path, text) implies disk.dom().contains(path) && disk[path]
        == text by {
        lemma_each_kept_file_has_its_task(listing, target, path, text);
        let i = choose|i: int| 0 <= i < tasks.len() && tasks[i] == TaskView::File(path, text);
        lemma_first_file_task_decides(tasks, nothing, i);
    }
    if disk.dom().contains(path) {
        if forall|j: int| 0 <= j < tasks.len() && tasks[j] is File ==> (#[trigger] tasks[j]).path() != path {
            lemma_untouched_paths_stay_absent(tasks, nothing, path);
        }
        let j = choose|j: int| 0 <= j < tasks.len() && tasks[j] is File && (#[trigger] tasks[j]).path() == path;
        lemma_each_file_task_has_its_file(listing, order, target);
        assert(keeps_file(listing, target, path, tasks[j]->File_1));
    }
}

/// Taking a snapshot and applying it brings the text files back: after such a run
/// each file of the listing whose bytes are UTF-8 is at its place below the target,
/// and its text encodes to the bytes that the file had.
pub proof fn lemma_snapshot_brings_the_files_back(
    listing: Seq<EntryView>,
    base: PathView,
    target: PathView,
    path: PathView,
    bytes: Seq<u8>,
)
    requires
        has_plain_names(listing),
        valid_utf8(bytes),
        holds_file(listing, target, path, bytes),
    ensures
        planned(target, snapshot_of(listing, base, true, Seq::<RuleView>::empty()).entries) is Ok,
        ({
            let tasks = planned(
                target,
                snapshot_of(listing, base, true, Seq::<RuleView>::empty()).entries,
            )->Ok_0;
            let disk = carried_out(tasks, false, Map::<PathView, Seq<char>>::empty()).1;
            disk.dom().contains(path) && encode_utf8(disk[path]) == bytes
        }),
{
    lemma_text_files_are_kept(listing, target, path, bytes);
    lemma_snapshot_restores_what_is_kept(listing, base, target, path);
    vstd::utf8::decode_utf8_encode_utf8(bytes);
}

} // verus!
