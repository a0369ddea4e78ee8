//! The document of a snapshot: the tree with its times, its comment and its
//! statistics, and what is shown of a snapshot before it is written.

use crate::config::{directories_in, text_at, text_under};
use crate::path::{PathView, TreePath};
use crate::tasks::{task_views, Task, TaskView};
use crate::text::{
    decimal, decimal_text, lemma_strings_push, quoted, quoted_list, quoted_list_of, quoted_text,
    strings,
};
use crate::utils::{parse_yaml_string, yaml_document};
use crate::value::{entry_views, lemma_mapping_view, ConfigTree, ConfigValue};
use vstd::prelude::*;
use vstd::string::*;

verus! {

/// `chrono::Utc::now().to_rfc3339()`: the time at which it is called as an RFC 3339
/// text. The time differs from call to call; the offset is that of UTC, written
/// `+00:00`, in every call.
#[verifier::external_body]
fn current_timestamp() -> (now: String)
    ensures
        utc_offset().is_suffix_of(now@),
{
    chrono::Utc::now().to_rfc3339()
}

/// The offset of UTC as it stands at the end of a time.
pub open spec fn utc_offset() -> Seq<char> {
    "+00:00"@
}

/// The time of creation that an earlier snapshot states: the text under `created`
/// in `existing`, where that is a snapshot, a YAML document with a `directories`
/// mapping, and has such a text.
pub open spec fn created_in(existing: Option<Seq<char>>) -> Option<Seq<char>> {
    match existing {
        Some(text) => match yaml_document(text) {
            Ok(doc) => if directories_in(doc) is Some {
                text_at(doc, "created"@)
            } else {
                None
            },
            Err(_) => None,
        },
        None => None,
    }
}

pub open spec fn optional_text(text: Option<&str>) -> Option<Seq<char>> {
    match text {
        Some(t) => Some(t@),
        None => None,
    }
}

/// The times of a snapshot that is taken at `now`: when it was first created, and
/// when it was last updated. `existing` is the content of the snapshot that is about
/// to be replaced, if there is one. The time of creation is carried over from it.
/// Where it states none, or is no snapshot (no YAML document, or one without a
/// `directories` mapping), the snapshot counts as new.
pub fn build_metadata(existing: Option<&str>, now: &str) -> (times: (String, String))
    ensures
        times.0@ == match created_in(optional_text(existing)) {
            Some(created) => created,
            None => now@,
        },
        times.1@ == now@,
{
    let created = match existing {
        Some(text) => match parse_yaml_string(text) {
            Ok(doc) => {
                let is_snapshot = match doc.get("directories") {
                    Some(tree) => tree.is_mapping(),
                    None => false,
                };
                let stated = if is_snapshot {
                    text_under(&doc, "created")
                } else {
                    None
                };
                match stated {
                    Some(created) => created,
                    None => String::from_str(now),
                }
            },
            Err(_) => String::from_str(now),
        },
        None => String::from_str(now),
    };
    (created, String::from_str(now))
}

/// The comment that a snapshot carries: where it is written to, and which binary
/// files it holds without content.
pub open spec fn generated_comment(output_path: Seq<char>, binary_files: Seq<Seq<char>>) -> Seq<
    char,
> {
    "Snapshot generated from folder: "@ + quoted_text(output_path) + if binary_files.len() == 0 {
        "\nNo binary files detected."@
    } else {
        "\nBinary files detected (contents omitted): "@ + quoted_list(binary_files)
    }
}

pub open spec fn text_entry(key: Seq<char>, text: Seq<char>) -> (ConfigTree, ConfigTree) {
    (ConfigTree::Text(key), ConfigTree::Text(text))
}

/// The statistics of a snapshot as they stand in its document.
pub open spec fn stats_entry(files: nat, directories: nat) -> (ConfigTree, ConfigTree) {
    (
        ConfigTree::Text("stats"@),
        ConfigTree::Mapping(
            seq![
                (ConfigTree::Text("files"@), ConfigTree::Unsigned(files as u64)),
                (ConfigTree::Text("directories"@), ConfigTree::Unsigned(directories as u64)),
            ],
        ),
    )
}

/// The document of a snapshot: its times, its comment, the user's note if there is
/// one, its statistics, and the tree itself under `directories`.
pub open spec fn snapshot_document(
    created: Seq<char>,
    updated: Seq<char>,
    comment: Seq<char>,
    note: Option<Seq<char>>,
    files: nat,
    directories: nat,
    tree: ConfigTree,
) -> ConfigTree {
    ConfigTree::Mapping(
        seq![
            text_entry("created"@, created),
            text_entry("updated"@, updated),
            text_entry("generated_comments"@, comment),
        ] + match note {
            Some(text) => seq![text_entry("notes"@, text)],
            None => Seq::empty(),
        } + seq![stats_entry(files, directories), (ConfigTree::Text("directories"@), tree)],
    )
}

/// The document of a snapshot can be written where its tree can.
pub proof fn lemma_snapshot_document_is_writable(
    created: Seq<char>,
    updated: Seq<char>,
    comment: Seq<char>,
    note: Option<Seq<char>>,
    files: nat,
    directories: nat,
    tree: ConfigTree,
)
    requires
        tree.is_writable(),
    ensures
        snapshot_document(created, updated, comment, note, files, directories, tree).is_writable(),
{
    reveal_strlit("created");
    reveal_strlit("updated");
    reveal_strlit("generated_comments");
    reveal_strlit("notes");
    reveal_strlit("stats");
    reveal_strlit("directories");
    reveal_strlit("files");
    let document = snapshot_document(created, updated, comment, note, files, directories, tree);
    let entries = document->Mapping_0;
    let stats = stats_entry(files, directories).1;
    assert(stats.is_writable()) by {
        let inner = stats->Mapping_0;
        assert(inner[0].0 != inner[1].0) by {
            assert("files"@.len() != "directories"@.len());
        }
        assert forall|i: int| 0 <= i < inner.len() implies (#[trigger] inner[i]).0 is Text
            && inner[i].1.is_writable() by {}
    }
    let keys = if note is Some {
        seq![
            "created"@,
            "updated"@,
            "generated_comments"@,
            "notes"@,
            "stats"@,
            "directories"@,
        ]
    } else {
        seq!["created"@, "updated"@, "generated_comments"@, "stats"@, "directories"@]
    };
    assert(entries.len() == keys.len());
    assert forall|i: int| 0 <= i < entries.len() implies (#[trigger] entries[i]).0
        == ConfigTree::Text(keys[i]) && entries[i].1.is_writable() by {}
    assert forall|i: int, j: int| 0 <= i < j < keys.len() implies keys[i] != keys[j] by {
        if keys[i].len() == keys[j].len() {
            assert(keys[i][0] != keys[j][0]);
        }
    }
    assert forall|i: int, j: int| 0 <= i < j < entries.len() implies (#[trigger] entries[i]).0 != (
    #[trigger] entries[j]).0 by {
        assert(keys[i] != keys[j]);
    }
}

/// The document of the snapshot `dir_snapshot` taken at `now`, see
/// [`snapshot_document`] and [`build_metadata`].
pub open spec fn snapshot_at(
    now: Seq<char>,
    output_path: Seq<char>,
    existing: Option<Seq<char>>,
    note: Option<Seq<char>>,
    tree: ConfigTree,
    binary_files: Seq<Seq<char>>,
    files: nat,
    directories: nat,
) -> ConfigTree {
    snapshot_document(
        match created_in(existing) {
            Some(created) => created,
            None => now,
        },
        now,
        generated_comment(output_path, binary_files),
        note,
        files,
        directories,
        tree,
    )
}

fn text_pair(key: &str, text: String) -> (entry: (ConfigValue, ConfigValue))
    ensures
        (entry.0@, entry.1@) == text_entry(key@, text@),
{
    (ConfigValue::text(key), ConfigValue::Text(text))
}

/// Builds the document of a snapshot that is taken at `now`.
pub fn build_snapshot_at(
    now: &str,
    output_path: &str,
    existing: Option<&str>,
    user_note: Option<&str>,
    dir_snapshot: ConfigValue,
    binary_files: &[String],
    files_count: usize,
    dirs_count: usize,
) -> (document: ConfigValue)
    ensures
        document@ == snapshot_at(
            now@,
            output_path@,
            optional_text(existing),
            optional_text(user_note),
            dir_snapshot@,
            strings(binary_files@),
            files_count as nat,
            dirs_count as nat,
        ),
{
    let times = build_metadata(existing, now);
    let mut comment = String::from_str("Snapshot generated from folder: ");
    let shown = quoted(output_path);
    comment.append(shown.as_str());
    if binary_files.len() == 0 {
        comment.append("\nNo binary files detected.");
    } else {
        comment.append("\nBinary files detected (contents omitted): ");
        let list = quoted_list_of(binary_files);
        comment.append(list.as_str());
    }
    assert(comment@ =~= generated_comment(output_path@, strings(binary_files@)));
    let mut entries: Vec<(ConfigValue, ConfigValue)> = Vec::new();
    entries.push(text_pair("created", times.0));
    entries.push(text_pair("updated", times.1));
    entries.push(text_pair("generated_comments", comment));
    match user_note {
        Some(note) => {
            entries.push(text_pair("notes", String::from_str(note)));
        },
        None => {},
    }
    let mut stats: Vec<(ConfigValue, ConfigValue)> = Vec::new();
    stats.push((ConfigValue::text("files"), ConfigValue::Unsigned(files_count as u64)));
    stats.push((ConfigValue::text("directories"), ConfigValue::Unsigned(dirs_count as u64)));
    proof {
        lemma_mapping_view(stats);
        assert(entry_views(stats@) =~= stats_entry(
            files_count as nat,
            dirs_count as nat,
        ).1->Mapping_0);
    }
    entries.push((ConfigValue::text("stats"), ConfigValue::Mapping(stats)));
    entries.push((ConfigValue::text("directories"), dir_snapshot));
    proof {
        lemma_mapping_view(entries);
        assert(entry_views(entries@) =~= snapshot_at(
            now@,
            output_path@,
            optional_text(existing),
            optional_text(user_note),
            dir_snapshot@,
            strings(binary_files@),
            files_count as nat,
            dirs_count as nat,
        )->Mapping_0);
    }
    ConfigValue::Mapping(entries)
}

/// Builds a structured snapshot with metadata, taken at the time of the call.
pub fn build_snapshot(
    output_path: &str,
    existing: Option<&str>,
    user_note: Option<&str>,
    dir_snapshot: ConfigValue,
    binary_files: &[String],
    files_count: usize,
    dirs_count: usize,
) -> (document: ConfigValue)
    ensures
        exists|now: Seq<char>|
            utc_offset().is_suffix_of(now) && document@ == #[trigger] snapshot_at(
                now,
                output_path@,
                optional_text(existing),
                optional_text(user_note),
                dir_snapshot@,
                strings(binary_files@),
                files_count as nat,
                dirs_count as nat,
            ),
{
    let now = current_timestamp();
    build_snapshot_at(
        now.as_str(),
        output_path,
        existing,
        user_note,
        dir_snapshot,
        binary_files,
        files_count,
        dirs_count,
    )
}

/// What is said of the ignore patterns of a run: all of them where much is to be
/// said, else their number, and nothing where there are none.
pub open spec fn verbose_info(patterns: Seq<Seq<char>>, verbose: bool) -> Seq<Seq<char>> {
    if verbose {
        seq!["Loaded ignore patterns: "@ + quoted_list(patterns)] + Seq::new(
            patterns.len(),
            |i: int| "Added ignore pattern: "@ + patterns[i],
        )
    } else if patterns.len() > 0 {
        seq!["Using "@ + decimal(patterns.len()) + " ignore pattern(s)"@]
    } else {
        Seq::empty()
    }
}

/// Handles verbose information collection and display
pub fn prepare_verbose_info(ignore_patterns: &[String], verbose: bool) -> (info: Vec<String>)
    ensures
        strings(info@) == verbose_info(strings(ignore_patterns@), verbose),
{
    let ghost patterns = strings(ignore_patterns@);
    let mut info: Vec<String> = Vec::new();
    let n: usize = ignore_patterns.len();
    if verbose {
        let mut head = String::from_str("Loaded ignore patterns: ");
        let list = quoted_list_of(ignore_patterns);
        head.append(list.as_str());
        info.push(head);
        let ghost start = strings(info@);
        let mut i: usize = 0;
        assert(strings(info@) =~= start + Seq::new(
            0,
            |k: int| "Added ignore pattern: "@ + patterns[k],
        ));
        while i < n
            invariant
                n == ignore_patterns@.len(),
                i <= n,
                patterns == strings(ignore_patterns@),
                strings(info@) == start + Seq::new(
                    i as nat,
                    |k: int| "Added ignore pattern: "@ + patterns[k],
                ),
            decreases n - i,
        {
            let mut line = String::from_str("Added ignore pattern: ");
            line.append(ignore_patterns[i].as_str());
            proof {
                lemma_strings_push(info@, line);
                assert(strings(info@).push(line@) =~= start + Seq::new(
                    (i + 1) as nat,
                    |k: int| "Added ignore pattern: "@ + patterns[k],
                ));
            }
            info.push(line);
            i += 1;
        }
        assert(strings(info@) =~= verbose_info(patterns, verbose));
    } else if n > 0 {
        let mut line = String::from_str("Using ");
        let count = decimal_text(n as u64);
        line.append(count.as_str());
        line.append(" ignore pattern(s)");
        info.push(line);
        assert(strings(info@) =~= verbose_info(patterns, verbose));
    } else {
        assert(strings(info@) =~= verbose_info(patterns, verbose));
    }
    info
}

/// The operations that a snapshot tree stands for below `base`: a directory for
/// each mapping under a text key, followed by its operations, and a file without
/// content for each text.
pub open spec fn operations_of(base: PathView, entries: Seq<(ConfigTree, ConfigTree)>) -> Seq<
    TaskView,
>
    decreases entries,
{
    if entries.len() == 0 {
        Seq::empty()
    } else {
        let before = operations_of(base, entries.drop_last());
        match entries.last().0 {
            ConfigTree::Text(name) => {
                let child = base.child(name);
                match entries.last().1 {
                    ConfigTree::Mapping(inner) => before.push(TaskView::Dir(child)) + operations_of(
                        child,
                        inner,
                    ),
                    ConfigTree::Text(_) => before.push(TaskView::File(child, Seq::empty())),
                    _ => before,
                }
            },
            _ => before,
        }
    }
}

fn operations_below(base: &TreePath, tree: &ConfigValue, out: &mut Vec<Task>)
    ensures
        task_views(final(out)@) == task_views(old(out)@) + operations_of(
            base@,
            tree@.entries(),
        ),
    decreases tree,
{
    match tree {
        ConfigValue::Mapping(entries) => {
            proof {
                lemma_mapping_view(*entries);
            }
            let ghost all = entry_views(entries@);
            let ghost start = task_views(out@);
            let n: usize = entries.len();
            let mut i: usize = 0;
            assert(all.take(0).len() == 0);
            assert(start + operations_of(base@, all.take(0)) =~= start);
            while i < n
                invariant
                    n == entries.len(),
                    i <= n,
                    *tree == ConfigValue::Mapping(*entries),
                    all == entry_views(entries@),
                    task_views(out@) == start + operations_of(base@, all.take(i as int)),
                decreases n - i,
            {
                let ghost before = operations_of(base@, all.take(i as int));
                proof {
                    assert(all.take(i + 1).drop_last() == all.take(i as int));
                    assert(all.take(i + 1).last() == all[i as int]);
                    vstd::std_specs::vec::axiom_vec_index_decreases(*entries, i as int);
                    assert(tree is Mapping);
                    assert(tree->Mapping_0 == *entries);
                    assert(decreases_to!(*tree => tree->Mapping_0));
                    assert(decreases_to!(*entries => entries[i as int]));
                }
                let entry = &entries[i];
                match &entry.0 {
                    ConfigValue::Text(name) => {
                        let child = base.join(name.as_str());
                        match &entry.1 {
                            ConfigValue::Mapping(inner) => {
                                proof {
                                    lemma_mapping_view(*inner);
                                }
                                let task = Task::Dir(child.clone());
                                proof {
                                    assert(task_views(out@.push(task)) =~= task_views(out@).push(
                                        task@,
                                    ));
                                }
                                out.push(task);
                                operations_below(&child, &entry.1, out);
                                assert(task_views(out@) =~= start + (before.push(
                                    TaskView::Dir(child@),
                                ) + operations_of(child@, entry_views(inner@))));
                            },
                            ConfigValue::Text(_) => {
                                let task = Task::File(child, String::new());
                                proof {
                                    assert(task_views(out@.push(task)) =~= task_views(out@).push(
                                        task@,
                                    ));
                                    assert(task_views(out@).push(task@) =~= start + before.push(
                                        task@,
                                    ));
                                }
                                out.push(task);
                            },
                            _ => {},
                        }
                    },
                    _ => {},
                }
                i += 1;
            }
            assert(all.take(n as int) == all);
        },
        _ => {
            assert(task_views(out@) + Seq::<TaskView>::empty() =~= task_views(out@));
        },
    }
}

/// Convert snapshot directory structure to list of operations (tasks)
pub fn snapshot_to_operations(dir_snapshot: &ConfigValue, base_path: &str) -> (operations: Vec<
    Task,
>)
    ensures
        task_views(operations@) == operations_of(
            PathView::of_text(base_path@),
            dir_snapshot@.entries(),
        ),
{
    let base = TreePath::parse(base_path);
    let mut operations: Vec<Task> = Vec::new();
    assert(task_views(operations@) =~= Seq::<TaskView>::empty());
    operations_below(&base, dir_snapshot, &mut operations);
    assert(Seq::<TaskView>::empty() + operations_of(base@, dir_snapshot@.entries())
        =~= operations_of(base@, dir_snapshot@.entries()));
    operations
}

} // verus!
