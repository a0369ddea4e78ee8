//! From a directory on disk back to a configuration tree.
//!
//! The caller lists the directory; the engine puts the entries in order, leaves out
//! what the ignore patterns name, and tells text from binary content.

pub mod document;
pub mod ignore;
pub mod listing;
pub mod pruned;
pub mod restore;

pub use crate::snapshot::document::{
    build_metadata, build_snapshot, build_snapshot_at, prepare_verbose_info,
    snapshot_to_operations,
};

use crate::path::{PathView, TreePath};
use crate::snapshot::ignore::{ignores, IgnoreSpec, RuleView};
use crate::tasks::{is_safe_name, planned, TaskView};
use crate::text::{chars_of, lemma_strings_push, strings};
use crate::value::{lemma_mapping_view, ConfigTree, ConfigValue};
use vstd::prelude::*;
use vstd::string::*;
use vstd::utf8::{decode_utf8, valid_utf8};

verus! {

/// The order of names: character by character, a name before every longer name
/// that starts with it.
pub open spec fn name_le(a: Seq<char>, b: Seq<char>) -> bool
    decreases a.len(),
{
    if a.len() == 0 {
        true
    } else if b.len() == 0 {
        false
    } else if a[0] != b[0] {
        (a[0] as u32) < (b[0] as u32)
    } else {
        name_le(a.drop_first(), b.drop_first())
    }
}

/// Of two names one stands before the other, or they are the same.
pub proof fn lemma_name_le_is_total(a: Seq<char>, b: Seq<char>)
    ensures
        name_le(a, b) || name_le(b, a),
    decreases a.len(),
{
    if a.len() > 0 && b.len() > 0 {
        if a[0] == b[0] {
            lemma_name_le_is_total(a.drop_first(), b.drop_first());
        } else {
            vstd::utf8::char_u32_cast(a[0], a[0] as u32);
            vstd::utf8::char_u32_cast(b[0], b[0] as u32);
        }
    }
}

/// A name that stands before a second stands before every name that the second
/// stands before.
pub proof fn lemma_name_le_is_transitive(a: Seq<char>, b: Seq<char>, c: Seq<char>)
    requires
        name_le(a, b),
        name_le(b, c),
    ensures
        name_le(a, c),
    decreases a.len(),
{
    if a.len() > 0 && b.len() > 0 && c.len() > 0 && a[0] == b[0] && b[0] == c[0] {
        lemma_name_le_is_transitive(a.drop_first(), b.drop_first(), c.drop_first());
    }
}

fn chars_precede(x: &Vec<char>, y: &Vec<char>) -> (le: bool)
    ensures
        le == name_le(x@, y@),
{
    let mut i: usize = 0;
    assert(x@.skip(0) == x@);
    assert(y@.skip(0) == y@);
    while i < x.len() && i < y.len()
        invariant
            i <= x.len(),
            i <= y.len(),
            name_le(x@, y@) == name_le(x@.skip(i as int), y@.skip(i as int)),
        decreases x.len() - i,
    {
        proof {
            assert(x@.skip(i as int).drop_first() == x@.skip(i + 1));
            assert(y@.skip(i as int).drop_first() == y@.skip(i + 1));
        }
        if x[i] != y[i] {
            return (x[i] as u32) < (y[i] as u32);
        }
        i += 1;
    }
    i >= x.len()
}

/// Whether the name `a` stands before the name `b`, or is the same name.
pub fn name_precedes(a: &str, b: &str) -> (le: bool)
    ensures
        le == name_le(a@, b@),
{
    let x = chars_of(a);
    let y = chars_of(b);
    chars_precede(&x, &y)
}

/// Where the entry `x` goes into `order`, a list of entries in the order of their
/// names: behind the last entry whose name is not greater.
pub open spec fn slot(names: Seq<Seq<char>>, order: Seq<usize>, x: int) -> int
    decreases order.len(),
{
    if order.len() == 0 || name_le(names[order.last() as int], names[x]) {
        order.len() as int
    } else {
        slot(names, order.drop_last(), x)
    }
}

/// The first `n` entries of a listing in the order of their names; entries of one
/// name keep the order of the listing.
pub open spec fn name_order(names: Seq<Seq<char>>, n: nat) -> Seq<usize>
    decreases n,
{
    if n == 0 {
        Seq::empty()
    } else {
        let before = name_order(names, (n - 1) as nat);
        before.insert(slot(names, before, n - 1), (n - 1) as usize)
    }
}

/// The slot of a new entry lies within the order, or at its end.
pub proof fn lemma_slot_in_range(names: Seq<Seq<char>>, order: Seq<usize>, x: int)
    ensures
        0 <= slot(names, order, x) <= order.len(),
    decreases order.len(),
{
    if !(order.len() == 0 || name_le(names[order.last() as int], names[x])) {
        lemma_slot_in_range(names, order.drop_last(), x);
    }
}

/// The order holds each of the first `n` entries.
pub proof fn lemma_name_order_indices(names: Seq<Seq<char>>, n: nat)
    requires
        n <= usize::MAX,
    ensures
        name_order(names, n).len() == n,
        forall|k: int| 0 <= k < n ==> #[trigger] name_order(names, n)[k] < n,
    decreases n,
{
    if n > 0 {
        let before = name_order(names, (n - 1) as nat);
        lemma_name_order_indices(names, (n - 1) as nat);
        lemma_slot_in_range(names, before, n - 1);
    }
}

/// Around its slot the new entry fits: the entry before the slot is not greater, and
/// every entry from the slot on is greater.
pub proof fn lemma_slot_fits(names: Seq<Seq<char>>, order: Seq<usize>, x: int)
    ensures
        slot(names, order, x) > 0 ==> name_le(
            names[order[slot(names, order, x) - 1] as int],
            names[x],
        ),
        forall|q: int|
            slot(names, order, x) <= q < order.len() ==> !name_le(
                names[(#[trigger] order[q]) as int],
                names[x],
            ),
    decreases order.len(),
{
    if !(order.len() == 0 || name_le(names[order.last() as int], names[x])) {
        lemma_slot_fits(names, order.drop_last(), x);
        lemma_slot_in_range(names, order.drop_last(), x);
        let p = slot(names, order, x);
        assert forall|q: int| p <= q < order.len() implies !name_le(
            names[(#[trigger] order[q]) as int],
            names[x],
        ) by {
            if q < order.len() - 1 {
                assert(order.drop_last()[q] == order[q]);
            }
        }
        if p > 0 {
            assert(order.drop_last()[p - 1] == order[p - 1]);
        }
    }
}

/// Whether the entries stand in the order of their names.
pub open spec fn in_name_order(names: Seq<Seq<char>>, order: Seq<usize>) -> bool {
    forall|j: int, k: int|
        0 <= j < k < order.len() ==> name_le(
            names[(#[trigger] order[j]) as int],
            names[(#[trigger] order[k]) as int],
        )
}

/// The listing order is sorted: no entry stands before one of a smaller name.
pub proof fn lemma_name_order_is_sorted(names: Seq<Seq<char>>, n: nat)
    requires
        n <= usize::MAX,
    ensures
        in_name_order(names, name_order(names, n)),
    decreases n,
{
    if n > 0 {
        let before = name_order(names, (n - 1) as nat);
        let x = n - 1;
        let p = slot(names, before, x);
        let after = name_order(names, n);
        lemma_name_order_is_sorted(names, (n - 1) as nat);
        lemma_name_order_indices(names, (n - 1) as nat);
        lemma_slot_in_range(names, before, x);
        lemma_slot_fits(names, before, x);
        assert(after == before.insert(p, x as usize));
        assert forall|j: int, k: int| 0 <= j < k < after.len() implies name_le(
            names[(#[trigger] after[j]) as int],
            names[(#[trigger] after[k]) as int],
        ) by {
            if k < p {
                assert(after[j] == before[j] && after[k] == before[k]);
            } else if k == p {
                assert(after[j] == before[j]);
                assert(after[k] == x);
                if j < p - 1 {
                    lemma_name_le_is_transitive(
                        names[before[j] as int],
                        names[before[p - 1] as int],
                        names[x],
                    );
                }
            } else if j < p {
                assert(after[j] == before[j] && after[k] == before[k - 1]);
            } else if j == p {
                assert(after[j] == x);
                assert(after[k] == before[k - 1]);
                lemma_name_le_is_total(names[x], names[before[k - 1] as int]);
            } else {
                assert(after[j] == before[j - 1] && after[k] == before[k - 1]);
            }
        }
    }
}

/// The listing order holds every entry once.
pub proof fn lemma_name_order_is_permutation(names: Seq<Seq<char>>, n: nat)
    requires
        n <= usize::MAX,
    ensures
        name_order(names, n).no_duplicates(),
        forall|i: usize| i < n ==> #[trigger] name_order(names, n).contains(i),
    decreases n,
{
    if n > 0 {
        let before = name_order(names, (n - 1) as nat);
        let x = (n - 1) as usize;
        let p = slot(names, before, n - 1);
        let after = name_order(names, n);
        lemma_name_order_is_permutation(names, (n - 1) as nat);
        lemma_name_order_indices(names, (n - 1) as nat);
        lemma_slot_in_range(names, before, n - 1);
        assert(after == before.insert(p, x));
        assert forall|j: int, k: int| 0 <= j < after.len() && 0 <= k < after.len() && j
            != k implies after[j] != after[k] by {
            let a = if j < p {
                j
            } else {
                j - 1
            };
            let b = if k < p {
                k
            } else {
                k - 1
            };
            if j != p && k != p {
                assert(after[j] == before[a] && after[k] == before[b]);
            } else if j == p {
                assert(after[j] == x && after[k] == before[b]);
            } else {
                assert(after[k] == x && after[j] == before[a]);
            }
        }
        assert forall|i: usize| i < n implies #[trigger] after.contains(i) by {
            if i == n - 1 {
                assert(after[p] == x);
            } else {
                assert(before.contains(i));
                let k = choose|k: int| 0 <= k < before.len() && before[k] == i;
                if k < p {
                    assert(after[k] == before[k]);
                } else {
                    assert(after[k + 1] == before[k]);
                }
            }
        }
    }
}

/// What was read of a file.
#[derive(Debug, PartialEq, Eq)]
pub enum FileContent {
    /// No attempt was made to read the file.
    Unread,
    /// The bytes of the file.
    Bytes(Vec<u8>),
    /// The file could not be read.
    Unreadable,
}

/// The mathematical value of a [`FileContent`].
pub enum ContentView {
    Unread,
    Bytes(Seq<u8>),
    Unreadable,
}

impl View for FileContent {
    type V = ContentView;

    open spec fn view(&self) -> ContentView {
        match self {
            FileContent::Unread => ContentView::Unread,
            FileContent::Bytes(bytes) => ContentView::Bytes(bytes@),
            FileContent::Unreadable => ContentView::Unreadable,
        }
    }
}

/// One entry of a directory, as it was found on disk.
#[derive(Debug, PartialEq, Eq)]
pub enum SourceEntry {
    Directory { name: String, entries: Vec<SourceEntry> },
    File { name: String, content: FileContent },
}

/// The mathematical value of a [`SourceEntry`].
pub enum EntryView {
    Directory { name: Seq<char>, entries: Seq<EntryView> },
    File { name: Seq<char>, content: ContentView },
}

impl EntryView {
    pub open spec fn name(self) -> Seq<char> {
        match self {
            EntryView::Directory { name, .. } => name,
            EntryView::File { name, .. } => name,
        }
    }
}

impl SourceEntry {
    /// The mathematical value of this entry.
    pub open spec fn model(&self) -> EntryView
        decreases self,
    {
        match self {
            SourceEntry::Directory { name, entries } => EntryView::Directory {
                name: name@,
                entries: Seq::new(
                    entries@.len(),
                    |i: int|
                        if 0 <= i < entries@.len() {
                            entries@[i].model()
                        } else {
                            EntryView::File { name: Seq::empty(), content: ContentView::Unread }
                        },
                ),
            },
            SourceEntry::File { name, content } => EntryView::File { name: name@, content: content@ },
        }
    }

    pub fn name(&self) -> (name: &str)
        ensures
            name@ == self@.name(),
    {
        match self {
            SourceEntry::Directory { name, .. } => name.as_str(),
            SourceEntry::File { name, .. } => name.as_str(),
        }
    }
}

impl View for SourceEntry {
    type V = EntryView;

    open spec fn view(&self) -> EntryView {
        self.model()
    }
}

/// The values of the entries of a listing.
pub open spec fn listing_views(listing: Seq<SourceEntry>) -> Seq<EntryView> {
    Seq::new(listing.len(), |i: int| listing[i]@)
}

/// The names of the entries of a listing.
pub open spec fn names_of(listing: Seq<EntryView>) -> Seq<Seq<char>> {
    Seq::new(listing.len(), |i: int| listing[i].name())
}

/// The value of a directory entry holds the values of its entries.
pub proof fn lemma_directory_view(name: String, entries: Vec<SourceEntry>)
    ensures
        (SourceEntry::Directory { name, entries })@ == (EntryView::Directory {
            name: name@,
            entries: listing_views(entries@),
        }),
{
    reveal_with_fuel(SourceEntry::model, 2);
    assert((SourceEntry::Directory { name, entries })@->Directory_entries =~= listing_views(
        entries@,
    ));
}

/// The entries of a listing in the order of their names.
fn sorted_order(listing: &Vec<SourceEntry>) -> (order: Vec<usize>)
    ensures
        order@ == name_order(names_of(listing_views(listing@)), listing@.len()),
        order@.len() == listing@.len(),
        forall|k: int| 0 <= k < order@.len() ==> (#[trigger] order@[k]) < listing@.len(),
{
    let ghost names = names_of(listing_views(listing@));
    let n: usize = listing.len();
    let mut spelled: Vec<Vec<char>> = Vec::new();
    let mut i: usize = 0;
    while i < n
        invariant
            n == listing.len(),
            i <= n,
            names == names_of(listing_views(listing@)),
            spelled@.len() == i,
            forall|k: int| 0 <= k < i ==> (#[trigger] spelled@[k])@ == names[k],
        decreases n - i,
    {
        spelled.push(chars_of(listing[i].name()));
        i += 1;
    }
    let mut order: Vec<usize> = Vec::new();
    let mut x: usize = 0;
    while x < n
        invariant
            n == listing.len(),
            x <= n,
            names == names_of(listing_views(listing@)),
            spelled@.len() == n,
            forall|k: int| 0 <= k < n ==> (#[trigger] spelled@[k])@ == names[k],
            order@ == name_order(names, x as nat),
            order@.len() == x,
            forall|k: int| 0 <= k < order@.len() ==> (#[trigger] order@[k]) < x,
        decreases n - x,
    {
        let mut p: usize = order.len();
        assert(order@.take(p as int) == order@);
        while p > 0 && !chars_precede(&spelled[order[p - 1]], &spelled[x])
            invariant
                n == listing.len(),
                x < n,
                spelled@.len() == n,
                forall|k: int| 0 <= k < n ==> (#[trigger] spelled@[k])@ == names[k],
                p <= order@.len(),
                forall|k: int| 0 <= k < order@.len() ==> (#[trigger] order@[k]) < x,
                slot(names, order@, x as int) == slot(names, order@.take(p as int), x as int),
            decreases p,
        {
            assert(order@.take(p as int).drop_last() == order@.take(p - 1));
            p -= 1;
        }
        proof {
            lemma_name_order_indices(names, (x + 1) as nat);
        }
        order.insert(p, x);
        x += 1;
    }
    order
}

/// What becomes of a file in a snapshot.
pub enum Capture {
    /// The file is kept with this text.
    Text(Seq<char>),
    /// The file is kept without content, and listed as binary.
    Binary,
    /// The file is left out.
    Dropped,
}

/// What becomes of a file: without contents every file is kept with no text, and
/// nothing is asked of its bytes. With contents, bytes that are UTF-8 are kept as the
/// text they encode, other bytes make the file binary, and a file that could not be
/// read is left out.
pub open spec fn capture_of(content: ContentView, include_contents: bool) -> Capture {
    if !include_contents {
        Capture::Text(Seq::empty())
    } else {
        match content {
            ContentView::Unread => Capture::Text(Seq::empty()),
            ContentView::Bytes(bytes) => if valid_utf8(bytes) {
                Capture::Text(decode_utf8(bytes))
            } else {
                Capture::Binary
            },
            ContentView::Unreadable => Capture::Dropped,
        }
    }
}

/// The mathematical value of a snapshot: the entries of its tree, and the paths of
/// the binary files below the root.
pub struct SnapshotView {
    pub entries: Seq<(ConfigTree, ConfigTree)>,
    pub binaries: Seq<Seq<char>>,
}

/// What the entries `order` of a listing add up to, taken in that order. `base` is
/// the path of the listed directory below the root of the snapshot.
pub open spec fn captured(
    listing: Seq<EntryView>,
    order: Seq<usize>,
    base: PathView,
    include_contents: bool,
    rules: Seq<RuleView>,
) -> SnapshotView
    decreases listing, order.len(),
{
    if order.len() == 0 {
        SnapshotView { entries: Seq::empty(), binaries: Seq::empty() }
    } else {
        let before = captured(listing, order.drop_last(), base, include_contents, rules);
        let i = order.last() as int;
        if i >= listing.len() {
            before
        } else {
            let path = base.child(listing[i].name());
            if ignores(rules, path, listing[i] is Directory) {
                before
            } else {
                match listing[i] {
                    EntryView::Directory { name, entries } => {
                        let below = captured(
                            entries,
                            name_order(names_of(entries), entries.len()),
                            path,
                            include_contents,
                            rules,
                        );
                        SnapshotView {
                            entries: before.entries.push(
                                (ConfigTree::Text(name), ConfigTree::Mapping(below.entries)),
                            ),
                            binaries: before.binaries + below.binaries,
                        }
                    },
                    EntryView::File { name, content } => match capture_of(
                        content,
                        include_contents,
                    ) {
                        Capture::Text(text) => SnapshotView {
                            entries: before.entries.push(
                                (ConfigTree::Text(name), ConfigTree::Text(text)),
                            ),
                            ..before
                        },
                        Capture::Binary => SnapshotView {
                            entries: before.entries.push(
                                (ConfigTree::Text(name), ConfigTree::Text(Seq::empty())),
                            ),
                            binaries: before.binaries.push(path.relative_text()),
                        },
                        Capture::Dropped => before,
                    },
                }
            }
        }
    }
}

/// The snapshot of a listed directory: its entries in the order of their names,
/// without what the rules ignore.
pub open spec fn snapshot_of(
    listing: Seq<EntryView>,
    base: PathView,
    include_contents: bool,
    rules: Seq<RuleView>,
) -> SnapshotView {
    captured(
        listing,
        name_order(names_of(listing), listing.len()),
        base,
        include_contents,
        rules,
    )
}

/// Whether an entry of a snapshot stands for an entry of the listing that the rules
/// do not ignore.
pub open spec fn stands_for_kept(
    entry: (ConfigTree, ConfigTree),
    listing: Seq<EntryView>,
    base: PathView,
    rules: Seq<RuleView>,
) -> bool {
    exists|i: int|
        0 <= i < listing.len() && entry.0 == ConfigTree::Text((#[trigger] listing[i]).name())
            && !ignores(rules, base.child(listing[i].name()), listing[i] is Directory)
}

/// Whether a text names a file that the rules do not ignore.
pub open spec fn names_kept_file(text: Seq<char>, rules: Seq<RuleView>) -> bool {
    exists|path: PathView| text == #[trigger] path.relative_text() && !ignores(rules, path, false)
}

/// What the rules ignore is not in a snapshot: every entry of the snapshot stands
/// for an entry of the listing that is not ignored, and every file that is listed as
/// binary is a file that is not ignored. A path is ignored with every directory
/// above it, so this holds at every depth.
pub proof fn lemma_snapshot_leaves_out_what_is_ignored(
    listing: Seq<EntryView>,
    base: PathView,
    include_contents: bool,
    rules: Seq<RuleView>,
)
    ensures
        forall|k: int|
            0 <= k < snapshot_of(listing, base, include_contents, rules).entries.len()
                ==> stands_for_kept(
                #[trigger] snapshot_of(listing, base, include_contents, rules).entries[k],
                listing,
                base,
                rules,
            ),
        forall|k: int|
            0 <= k < snapshot_of(listing, base, include_contents, rules).binaries.len()
                ==> names_kept_file(
                #[trigger] snapshot_of(listing, base, include_contents, rules).binaries[k],
                rules,
            ),
{
    lemma_ignored_entries_are_left_out(
        listing,
        name_order(names_of(listing), listing.len()),
        base,
        include_contents,
        rules,
    );
}

/// What the rules ignore is not among the entries `order` of a snapshot.
pub proof fn lemma_ignored_entries_are_left_out(
    listing: Seq<EntryView>,
    order: Seq<usize>,
    base: PathView,
    include_contents: bool,
    rules: Seq<RuleView>,
)
    ensures
        forall|k: int|
            0 <= k < captured(listing, order, base, include_contents, rules).entries.len()
                ==> stands_for_kept(
                #[trigger] captured(listing, order, base, include_contents, rules).entries[k],
                listing,
                base,
                rules,
            ),
        forall|k: int|
            0 <= k < captured(listing, order, base, include_contents, rules).binaries.len()
                ==> names_kept_file(
                #[trigger] captured(listing, order, base, include_contents, rules).binaries[k],
                rules,
            ),
    decreases listing, order.len(),
{
    if order.len() > 0 {
        let all = captured(listing, order, base, include_contents, rules);
        let before = captured(listing, order.drop_last(), base, include_contents, rules);
        lemma_ignored_entries_are_left_out(
            listing,
            order.drop_last(),
            base,
            include_contents,
            rules,
        );
        let i = order.last() as int;
        if i < listing.len() {
            let path = base.child(listing[i].name());
            if !ignores(rules, path, listing[i] is Directory) {
                match listing[i] {
                    EntryView::Directory { name, entries } => {
                        let inner = name_order(names_of(entries), entries.len());
                        lemma_ignored_entries_are_left_out(
                            entries,
                            inner,
                            path,
                            include_contents,
                            rules,
                        );
                        let below = captured(entries, inner, path, include_contents, rules);
                        assert forall|k: int| 0 <= k < all.binaries.len() implies names_kept_file(
                            #[trigger] all.binaries[k],
                            rules,
                        ) by {
                            if k >= before.binaries.len() {
                                assert(all.binaries[k] == below.binaries[k - before.binaries.len()]);
                            }
                        }
                    },
                    EntryView::File { name, content } => {
                        assert(path.relative_text() == path.relative_text());
                    },
                }
                assert forall|k: int| 0 <= k < all.entries.len() implies stands_for_kept(
                    #[trigger] all.entries[k],
                    listing,
                    base,
                    rules,
                ) by {
                    if k < before.entries.len() {
                        assert(all.entries[k] == before.entries[k]);
                    } else {
                        assert(all.entries[k].0 == ConfigTree::Text(listing[i].name()));
                    }
                }
            }
        }
    }
}

/// Whether a tree holds an entry under the name, at any depth.
pub open spec fn holds_name(entries: Seq<(ConfigTree, ConfigTree)>, name: Seq<char>) -> bool
    decreases entries,
{
    exists|k: int|
        0 <= k < entries.len() && match #[trigger] entries[k] {
            (key, ConfigTree::Mapping(inner)) => key == ConfigTree::Text(name) || holds_name(
                inner,
                name,
            ),
            (key, _) => key == ConfigTree::Text(name),
        }
}

/// Whether a text names a file whose name is another than `name`.
pub open spec fn names_another_file(text: Seq<char>, name: Seq<char>) -> bool {
    exists|path: PathView|
        text == #[trigger] path.relative_text() && !(path.segments.len() > 0
            && path.segments.last() == name)
}

/// Where the glob of the last rule matches a name, and that rule is not negated,
/// holds for files too and is held against the last name of a path, no entry of that
/// name is among the entries `order` of a snapshot, nor anywhere below them, and no
/// file of that name is listed as binary. That the glob matches the name is for
/// `globset` to say.
pub proof fn lemma_matched_names_are_not_captured(
    listing: Seq<EntryView>,
    order: Seq<usize>,
    base: PathView,
    include_contents: bool,
    rules: Seq<RuleView>,
    name: Seq<char>,
)
    requires
        crate::path::is_segment(name),
        rules.len() > 0,
        !rules.last().negated,
        !rules.last().dir_only,
        !rules.last().anchored,
        crate::snapshot::ignore::glob_matches(rules.last().glob, name),
    ensures
        !holds_name(captured(listing, order, base, include_contents, rules).entries, name),
        forall|k: int|
            0 <= k < captured(listing, order, base, include_contents, rules).binaries.len()
                ==> names_another_file(
                #[trigger] captured(listing, order, base, include_contents, rules).binaries[k],
                name,
            ),
    decreases listing, order.len(),
{
    let all = captured(listing, order, base, include_contents, rules);
    lemma_ignored_entries_are_left_out(listing, order, base, include_contents, rules);
    assert forall|k: int| 0 <= k < all.binaries.len() implies names_another_file(
        #[trigger] all.binaries[k],
        name,
    ) by {
        assert(names_kept_file(all.binaries[k], rules));
        let path = choose|path: PathView|
            all.binaries[k] == #[trigger] path.relative_text() && !ignores(rules, path, false);
        if path.segments.len() > 0 && path.segments.last() == name {
            crate::snapshot::ignore::lemma_matched_name_is_ignored(rules, path, false);
        }
    }
    if order.len() > 0 {
        let before = captured(listing, order.drop_last(), base, include_contents, rules);
        lemma_matched_names_are_not_captured(
            listing,
            order.drop_last(),
            base,
            include_contents,
            rules,
            name,
        );
        let i = order.last() as int;
        if i < listing.len() {
            let path = base.child(listing[i].name());
            if listing[i].name() == name {
                crate::path::lemma_segment_names_itself(name);
                assert(path.segments.last() == name);
                crate::snapshot::ignore::lemma_matched_name_is_ignored(
                    rules,
                    path,
                    listing[i] is Directory,
                );
            }
            if !ignores(rules, path, listing[i] is Directory) {
                match listing[i] {
                    EntryView::Directory { name: dir, entries } => {
                        lemma_matched_names_are_not_captured(
                            entries,
                            name_order(names_of(entries), entries.len()),
                            path,
                            include_contents,
                            rules,
                            name,
                        );
                    },
                    EntryView::File { .. } => {},
                }
            }
        }
        assert forall|k: int| 0 <= k < all.entries.len() implies !match #[trigger] all.entries[k] {
            (key, ConfigTree::Mapping(inner)) => key == ConfigTree::Text(name) || holds_name(
                inner,
                name,
            ),
            (key, _) => key == ConfigTree::Text(name),
        } by {
            if k < before.entries.len() {
                assert(all.entries[k] == before.entries[k]);
            }
        }
    }
}

/// Where the glob of the last rule matches a name, and that rule is not negated,
/// holds for files too and is held against the last name of a path, a snapshot holds
/// no entry of that name at any depth, and lists no file of that name as binary.
pub proof fn lemma_snapshot_leaves_out_matched_names(
    listing: Seq<EntryView>,
    base: PathView,
    include_contents: bool,
    rules: Seq<RuleView>,
    name: Seq<char>,
)
    requires
        crate::path::is_segment(name),
        rules.len() > 0,
        !rules.last().negated,
        !rules.last().dir_only,
        !rules.last().anchored,
        crate::snapshot::ignore::glob_matches(rules.last().glob, name),
    ensures
        !holds_name(snapshot_of(listing, base, include_contents, rules).entries, name),
        forall|k: int|
            0 <= k < snapshot_of(listing, base, include_contents, rules).binaries.len()
                ==> names_another_file(
                #[trigger] snapshot_of(listing, base, include_contents, rules).binaries[k],
                name,
            ),
{
    lemma_matched_names_are_not_captured(
        listing,
        name_order(names_of(listing), listing.len()),
        base,
        include_contents,
        rules,
        name,
    );
}

/// Whether no directory of the listing, at any depth, holds more entries than a
/// machine word counts, or two entries of one name.
pub open spec fn names_are_unique(listing: Seq<EntryView>) -> bool
    decreases listing,
{
    &&& listing.len() <= usize::MAX
    &&& forall|i: int, j: int|
        0 <= i < j < listing.len() ==> (#[trigger] listing[i]).name() != (#[trigger] listing[j]).name()
    &&& forall|i: int|
        0 <= i < listing.len() ==> match #[trigger] listing[i] {
            EntryView::Directory { name, entries } => names_are_unique(entries),
            EntryView::File { .. } => true,
        }
}

/// Whether an entry of a snapshot carries the name of one of the entries `order`.
pub open spec fn is_named_after(
    entry: (ConfigTree, ConfigTree),
    listing: Seq<EntryView>,
    order: Seq<usize>,
) -> bool {
    exists|j: int|
        0 <= j < order.len() && (#[trigger] order[j]) < listing.len() && entry.0
            == ConfigTree::Text(listing[order[j] as int].name())
}

/// A snapshot of entries with unique names is a tree that can be written: its keys
/// are the names of entries, no two of them the same.
pub proof fn lemma_captured_is_writable(
    listing: Seq<EntryView>,
    order: Seq<usize>,
    base: PathView,
    include_contents: bool,
    rules: Seq<RuleView>,
)
    requires
        names_are_unique(listing),
        order.no_duplicates(),
    ensures
        ConfigTree::Mapping(
            captured(listing, order, base, include_contents, rules).entries,
        ).is_writable(),
        forall|k: int|
            0 <= k < captured(listing, order, base, include_contents, rules).entries.len()
                ==> is_named_after(
                #[trigger] captured(listing, order, base, include_contents, rules).entries[k],
                listing,
                order,
            ),
    decreases listing, order.len(),
{
    let all = captured(listing, order, base, include_contents, rules);
    if order.len() > 0 {
        let fewer = order.drop_last();
        let before = captured(listing, fewer, base, include_contents, rules);
        assert(fewer.no_duplicates()) by {
            assert forall|a: int, b: int| 0 <= a < fewer.len() && 0 <= b < fewer.len() && a
                != b implies fewer[a] != fewer[b] by {
                assert(fewer[a] == order[a] && fewer[b] == order[b]);
            }
        }
        lemma_captured_is_writable(listing, fewer, base, include_contents, rules);
        assert forall|k: int| 0 <= k < before.entries.len() implies is_named_after(
            #[trigger] before.entries[k],
            listing,
            order,
        ) by {
            let j = choose|j: int|
                0 <= j < fewer.len() && (#[trigger] fewer[j]) < listing.len()
                    && before.entries[k].0 == ConfigTree::Text(listing[fewer[j] as int].name());
            assert(order[j] == fewer[j]);
        }
        let i = order.last() as int;
        if i < listing.len() && all.entries.len() > before.entries.len() {
            let key = ConfigTree::Text(listing[i].name());
            assert(all.entries == before.entries.push(all.entries.last()));
            assert(all.entries.last().0 == key);
            assert(order[order.len() - 1] == order.last());
            match listing[i] {
                EntryView::Directory { name, entries } => {
                    let inner = name_order(names_of(entries), entries.len());
                    assert(names_are_unique(entries));
                    assert(entries.len() <= usize::MAX) by {
                        reveal_with_fuel(names_are_unique, 2);
                    }
                    lemma_name_order_is_permutation(names_of(entries), entries.len());
                    lemma_captured_is_writable(
                        entries,
                        inner,
                        base.child(name),
                        include_contents,
                        rules,
                    );
                },
                EntryView::File { .. } => {},
            }
            assert(all.entries.last().1.is_writable());
            assert forall|k: int| 0 <= k < before.entries.len() implies before.entries[k].0
                != key by {
                let j = choose|j: int|
                    0 <= j < fewer.len() && (#[trigger] fewer[j]) < listing.len()
                        && before.entries[k].0 == ConfigTree::Text(listing[fewer[j] as int].name());
                assert(order[j] == fewer[j]);
                assert(order[j] != order[order.len() - 1]);
                if (fewer[j] as int) < i {
                    assert(listing[fewer[j] as int].name() != listing[i].name());
                } else {
                    assert(listing[i].name() != listing[fewer[j] as int].name());
                }
            }
            assert forall|a: int, b: int| 0 <= a < b < all.entries.len() implies (
            #[trigger] all.entries[a]).0 != (#[trigger] all.entries[b]).0 by {
                if b < before.entries.len() {
                    assert(all.entries[a] == before.entries[a]);
                    assert(all.entries[b] == before.entries[b]);
                } else {
                    assert(all.entries[a] == before.entries[a]);
                }
            }
            assert forall|k: int| 0 <= k < all.entries.len() implies (#[trigger] all.entries[k]).0 is Text
                && all.entries[k].1.is_writable() by {
                if k < before.entries.len() {
                    assert(all.entries[k] == before.entries[k]);
                }
            }
            assert forall|k: int| 0 <= k < all.entries.len() implies is_named_after(
                #[trigger] all.entries[k],
                listing,
                order,
            ) by {
                if k < before.entries.len() {
                    assert(all.entries[k] == before.entries[k]);
                }
            }
        } else {
            assert(all.entries == before.entries);
        }
    }
}

/// The snapshot of a listing in which no directory holds two entries of one name is
/// a tree that can be written.
pub proof fn lemma_snapshot_is_writable(
    listing: Seq<EntryView>,
    base: PathView,
    include_contents: bool,
    rules: Seq<RuleView>,
)
    requires
        names_are_unique(listing),
    ensures
        ConfigTree::Mapping(
            snapshot_of(listing, base, include_contents, rules).entries,
        ).is_writable(),
{
    lemma_name_order_is_permutation(names_of(listing), listing.len());
    lemma_captured_is_writable(
        listing,
        name_order(names_of(listing), listing.len()),
        base,
        include_contents,
        rules,
    );
}

/// Whether every name of the entries `order` of a listing, and every name below
/// them, is safe to follow.
pub open spec fn names_are_safe(listing: Seq<EntryView>, order: Seq<usize>) -> bool
    decreases listing, order.len(),
{
    if order.len() == 0 {
        true
    } else {
        let i = order.last() as int;
        &&& names_are_safe(listing, order.drop_last())
        &&& i < listing.len() ==> is_safe_name(listing[i].name()) && match listing[i] {
            EntryView::Directory { name, entries } => names_are_safe(
                entries,
                name_order(names_of(entries), entries.len()),
            ),
            EntryView::File { .. } => true,
        }
    }
}

/// The tasks that bring the entries `order` of a listing back below `base`: for each
/// directory its task and then what lies in it, for each file that a snapshot keeps
/// a task with the text that the snapshot keeps of it.
pub open spec fn rebuilt(listing: Seq<EntryView>, order: Seq<usize>, base: PathView) -> Seq<
    TaskView,
>
    decreases listing, order.len(),
{
    if order.len() == 0 {
        Seq::empty()
    } else {
        let before = rebuilt(listing, order.drop_last(), base);
        let i = order.last() as int;
        if i >= listing.len() {
            before
        } else {
            let path = base.child(listing[i].name());
            match listing[i] {
                EntryView::Directory { name, entries } => before.push(TaskView::Dir(path))
                    + rebuilt(entries, name_order(names_of(entries), entries.len()), path),
                EntryView::File { name, content } => match capture_of(content, true) {
                    Capture::Text(text) => before.push(TaskView::File(path, text)),
                    Capture::Binary => before.push(TaskView::File(path, Seq::empty())),
                    Capture::Dropped => before,
                },
            }
        }
    }
}

/// The tasks of a snapshot bring the listing back: a snapshot with contents and
/// without ignore patterns, traversed below `target`, asks for exactly the
/// directories and files of the listing, in the order of their names, and for each
/// file with the text that its bytes encode.
pub proof fn lemma_snapshot_brings_the_listing_back(
    listing: Seq<EntryView>,
    base: PathView,
    target: PathView,
)
    requires
        names_are_safe(listing, name_order(names_of(listing), listing.len())),
    ensures
        planned(target, snapshot_of(listing, base, true, Seq::empty()).entries) == Ok::<
            Seq<TaskView>,
            Seq<char>,
        >(rebuilt(listing, name_order(names_of(listing), listing.len()), target)),
{
    lemma_captured_brings_the_entries_back(
        listing,
        name_order(names_of(listing), listing.len()),
        base,
        target,
    );
}

/// The tasks of the entries `order` of a snapshot bring these entries back.
pub proof fn lemma_captured_brings_the_entries_back(
    listing: Seq<EntryView>,
    order: Seq<usize>,
    base: PathView,
    target: PathView,
)
    requires
        names_are_safe(listing, order),
    ensures
        planned(target, captured(listing, order, base, true, Seq::empty()).entries) == Ok::<
            Seq<TaskView>,
            Seq<char>,
        >(rebuilt(listing, order, target)),
    decreases listing, order.len(),
{
    let rules = Seq::<RuleView>::empty();
    if order.len() > 0 {
        let all = captured(listing, order, base, true, rules);
        let before = captured(listing, order.drop_last(), base, true, rules);
        lemma_captured_brings_the_entries_back(listing, order.drop_last(), base, target);
        let i = order.last() as int;
        if i < listing.len() {
            let path = base.child(listing[i].name());
            crate::snapshot::ignore::lemma_no_rules_ignore_nothing(path, listing[i] is Directory);
            match listing[i] {
                EntryView::Directory { name, entries } => {
                    let inner = name_order(names_of(entries), entries.len());
                    lemma_captured_brings_the_entries_back(
                        entries,
                        inner,
                        path,
                        target.child(name),
                    );
                    assert(all.entries.drop_last() == before.entries);
                },
                EntryView::File { name, content } => {
                    match capture_of(content, true) {
                        Capture::Dropped => {},
                        _ => {
                            assert(all.entries.drop_last() == before.entries);
                        },
                    }
                },
            }
        }
    }
}

/// The text that a snapshot keeps of a file encodes to the bytes of the file.
pub proof fn lemma_kept_text_encodes_the_bytes(bytes: Seq<u8>)
    requires
        valid_utf8(bytes),
    ensures
        capture_of(ContentView::Bytes(bytes), true) == Capture::Text(decode_utf8(bytes)),
        vstd::utf8::encode_utf8(decode_utf8(bytes)) == bytes,
{
    vstd::utf8::decode_utf8_encode_utf8(bytes);
}

/// `String::from_utf8`: the text that the bytes encode where they are valid UTF-8,
/// and nothing where they are not.
#[verifier::external_body]
fn decode_text(bytes: &Vec<u8>) -> (text: Option<String>)
    ensures
        match text {
            Some(decoded) => valid_utf8(bytes@) && decoded@ == decode_utf8(bytes@),
            None => !valid_utf8(bytes@),
        },
{
    String::from_utf8(bytes.clone()).ok()
}

/// The rules of the ignore patterns, if there are any.
pub open spec fn rules_in(ignore: Option<&IgnoreSpec>) -> Seq<RuleView> {
    match ignore {
        Some(spec) => spec.rules(),
        None => Seq::empty(),
    }
}

proof fn lemma_entries_push(
    entries: Seq<(ConfigValue, ConfigValue)>,
    key: ConfigValue,
    value: ConfigValue,
)
    ensures
        crate::value::entry_views(entries.push((key, value))) == crate::value::entry_views(
            entries,
        ).push((key@, value@)),
{
    assert(crate::value::entry_views(entries.push((key, value))) =~= crate::value::entry_views(
        entries,
    ).push((key@, value@)));
}

/// Captures the listing of the directory at `base` below the root of the snapshot.
fn capture(
    listing: &Vec<SourceEntry>,
    base: &TreePath,
    include_contents: bool,
    ignore: Option<&IgnoreSpec>,
) -> (r: (Vec<(ConfigValue, ConfigValue)>, Vec<String>))
    ensures
        ({
            let snapshot = snapshot_of(
                listing_views(listing@),
                base@,
                include_contents,
                rules_in(ignore),
            );
            &&& crate::value::entry_views(r.0@) == snapshot.entries
            &&& strings(r.1@) == snapshot.binaries
        }),
    decreases listing,
{
    let ghost views = listing_views(listing@);
    let ghost rules = rules_in(ignore);
    let order = sorted_order(listing);
    let mut entries: Vec<(ConfigValue, ConfigValue)> = Vec::new();
    let mut binaries: Vec<String> = Vec::new();
    let n: usize = order.len();
    let mut k: usize = 0;
    assert(order@.take(0).len() == 0);
    assert(crate::value::entry_views(entries@) =~= Seq::empty());
    assert(strings(binaries@) =~= Seq::empty());
    while k < n
        invariant
            n == order@.len(),
            k <= n,
            views == listing_views(listing@),
            rules == rules_in(ignore),
            forall|j: int| 0 <= j < order@.len() ==> (#[trigger] order@[j]) < listing@.len(),
            crate::value::entry_views(entries@) == captured(
                views,
                order@.take(k as int),
                base@,
                include_contents,
                rules,
            ).entries,
            strings(binaries@) == captured(
                views,
                order@.take(k as int),
                base@,
                include_contents,
                rules,
            ).binaries,
        decreases n - k,
    {
        let i: usize = order[k];
        let entry = &listing[i];
        proof {
            assert(order@.take(k + 1).drop_last() == order@.take(k as int));
            assert(order@.take(k + 1).last() == i);
            assert(views[i as int] == entry@);
            vstd::std_specs::vec::axiom_vec_index_decreases(*listing, i as int);
        }
        let path = base.join(entry.name());
        let is_dir = match entry {
            SourceEntry::Directory { .. } => true,
            SourceEntry::File { .. } => false,
        };
        let ignored = match ignore {
            Some(spec) => spec.matches(&path, is_dir),
            None => {
                proof {
                    crate::snapshot::ignore::lemma_no_rules_ignore_nothing(path@, is_dir);
                }
                false
            },
        };
        if !ignored {
            match entry {
                SourceEntry::Directory { name, entries: inner } => {
                    proof {
                        lemma_directory_view(*name, *inner);
                        assert(entry is Directory);
                        assert(entry->Directory_entries == *inner);
                        assert(decreases_to!(*entry => entry->Directory_entries));
                    }
                    let below = capture(inner, &path, include_contents, ignore);
                    let mut below_binaries = below.1;
                    let key = ConfigValue::Text(name.clone());
                    let value = ConfigValue::Mapping(below.0);
                    proof {
                        lemma_mapping_view(below.0);
                        lemma_entries_push(entries@, key, value);
                        assert(strings(binaries@ + below_binaries@) =~= strings(binaries@)
                            + strings(below_binaries@));
                    }
                    entries.push((key, value));
                    binaries.append(&mut below_binaries);
                },
                SourceEntry::File { name, content } => {
                    let capture: Option<Option<String>> = if !include_contents {
                        Some(Some(String::new()))
                    } else {
                        match content {
                            FileContent::Unread => Some(Some(String::new())),
                            FileContent::Bytes(bytes) => Some(decode_text(bytes)),
                            FileContent::Unreadable => None,
                        }
                    };
                    match capture {
                        Some(Some(text)) => {
                            let key = ConfigValue::Text(name.clone());
                            let value = ConfigValue::Text(text);
                            proof {
                                lemma_entries_push(entries@, key, value);
                            }
                            entries.push((key, value));
                        },
                        Some(None) => {
                            let key = ConfigValue::Text(name.clone());
                            let value = ConfigValue::Text(String::new());
                            let listed = path.relative_text();
                            proof {
                                lemma_entries_push(entries@, key, value);
                                lemma_strings_push(binaries@, listed);
                            }
                            entries.push((key, value));
                            binaries.push(listed);
                        },
                        None => {},
                    }
                },
            }
        }
        k += 1;
    }
    assert(order@.take(n as int) == order@);
    (entries, binaries)
}

/// Turns the listing of a directory into a configuration tree, and lists the binary
/// files in it.
///
/// The entries are taken in the order of their names. An entry that the ignore
/// patterns name is left out with all that lies in it. A directory becomes a mapping.
/// A file becomes a text: its content where contents are asked for and the bytes are
/// UTF-8, else the empty text. A file whose bytes are not UTF-8 is listed as binary,
/// by its path below the root.
pub fn traverse_directory(
    listing: &Vec<SourceEntry>,
    include_contents: bool,
    ignore: Option<&IgnoreSpec>,
) -> (r: (ConfigValue, Vec<String>))
    ensures
        ({
            let snapshot = snapshot_of(
                listing_views(listing@),
                PathView { rooted: false, segments: Seq::empty() },
                include_contents,
                rules_in(ignore),
            );
            &&& r.0@ == ConfigTree::Mapping(snapshot.entries)
            &&& strings(r.1@) == snapshot.binaries
        }),
{
    let root = TreePath::here();
    let captured = capture(listing, &root, include_contents, ignore);
    proof {
        lemma_mapping_view(captured.0);
    }
    (ConfigValue::Mapping(captured.0), captured.1)
}

} // verus!
