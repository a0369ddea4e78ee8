//! What the rules ignore leaves no trace in a snapshot.
//!
//! The snapshot of a directory under ignore rules is the snapshot, without rules, of
//! the directory from which everything that the rules ignore was taken away. So it
//! has the statistics of that smaller directory too, and taking ignored files away
//! from a directory changes nothing in its snapshot.

use crate::path::PathView;
use crate::snapshot::ignore::{
    glob_matches, ignores, lemma_matched_name_is_ignored, lemma_no_rules_ignore_nothing, RuleView,
};
use crate::snapshot::listing::{lemma_snapshot_ignores_the_listing_order, same_entries};
use crate::snapshot::{
    captured, in_name_order, lemma_name_order_indices, lemma_name_order_is_sorted, name_le,
    name_order, names_are_unique, names_of, slot, snapshot_of, EntryView,
};
use crate::tasks::stats_of;
use crate::value::ConfigTree;
use vstd::prelude::*;

verus! {

/// What is left of the entries `order` of a listing of the directory `base` when
/// everything that `gone` names is taken away, at any depth. `gone` is asked of the
/// path of an entry and of whether it is a directory. The entries stand in the order
/// in which they are taken, those of a directory in the order of their names.
pub open spec fn entries_left(
    listing: Seq<EntryView>,
    order: Seq<usize>,
    base: PathView,
    gone: spec_fn(PathView, bool) -> bool,
) -> Seq<EntryView>
    decreases listing, order.len(),
{
    if order.len() == 0 {
        Seq::empty()
    } else {
        let before = entries_left(listing, order.drop_last(), base, gone);
        let i = order.last() as int;
        if i >= listing.len() {
            before
        } else {
            let path = base.child(listing[i].name());
            if gone(path, listing[i] is Directory) {
                before
            } else {
                match listing[i] {
                    EntryView::Directory { name, entries } => before.push(
                        EntryView::Directory {
                            name,
                            entries: entries_left(
                                entries,
                                name_order(names_of(entries), entries.len()),
                                path,
                                gone,
                            ),
                        },
                    ),
                    EntryView::File { .. } => before.push(listing[i]),
                }
            }
        }
    }
}

/// The directory `base` without what `gone` names, listed in the order of the names.
pub open spec fn without(
    listing: Seq<EntryView>,
    base: PathView,
    gone: spec_fn(PathView, bool) -> bool,
) -> Seq<EntryView> {
    entries_left(listing, name_order(names_of(listing), listing.len()), base, gone)
}

/// Names what the rules ignore.
pub open spec fn ignored_by(rules: Seq<RuleView>) -> spec_fn(PathView, bool) -> bool {
    |path: PathView, is_dir: bool| ignores(rules, path, is_dir)
}

/// Names the files of one name, wherever they lie.
pub open spec fn files_named(name: Seq<char>) -> spec_fn(PathView, bool) -> bool {
    |path: PathView, is_dir: bool| !is_dir && path.segments.len() > 0 && path.segments.last() == name
}

/// The directory `base` without what the rules ignore, listed in the order of the
/// names.
pub open spec fn without_ignored(
    listing: Seq<EntryView>,
    base: PathView,
    rules: Seq<RuleView>,
) -> Seq<EntryView> {
    without(listing, base, ignored_by(rules))
}

/// The directory `base` without the files of one name, at any depth, listed in the
/// order of the names.
pub open spec fn without_files_named(
    listing: Seq<EntryView>,
    base: PathView,
    name: Seq<char>,
) -> Seq<EntryView> {
    without(listing, base, files_named(name))
}

/// Whether `gone` names only what the rules ignore, and the rules `after` ignore of
/// the rest what the rules ignore.
pub open spec fn takes_only_ignored(
    gone: spec_fn(PathView, bool) -> bool,
    rules: Seq<RuleView>,
    after: Seq<RuleView>,
) -> bool {
    forall|path: PathView, is_dir: bool|
        if #[trigger] gone(path, is_dir) {
            ignores(rules, path, is_dir)
        } else {
            ignores(after, path, is_dir) == ignores(rules, path, is_dir)
        }
}

/// The first `n` entries, one after the other.
pub open spec fn counting(n: nat) -> Seq<usize> {
    Seq::new(n, |i: int| i as usize)
}

/// Names that stand in order are left as they stand.
pub proof fn lemma_ordered_names_stay(names: Seq<Seq<char>>, n: nat)
    requires
        n <= usize::MAX,
        n <= names.len(),
        forall|j: int, k: int|
            0 <= j < k < n ==> name_le(#[trigger] names[j], #[trigger] names[k]),
    ensures
        name_order(names, n) == counting(n),
    decreases n,
{
    if n > 0 {
        let before = name_order(names, (n - 1) as nat);
        lemma_ordered_names_stay(names, (n - 1) as nat);
        assert(before == counting((n - 1) as nat));
        if before.len() > 0 {
            assert(before.last() == (n - 2) as usize);
            assert(name_le(names[n - 2], names[n - 1]));
        }
        assert(slot(names, before, n - 1) == n - 1);
        assert(before.insert(n - 1, (n - 1) as usize) =~= counting(n));
    } else {
        assert(name_order(names, n) =~= counting(n));
    }
}

/// What is left of entries that stand in the order of their names stands in that
/// order too, and is no more than was there.
pub proof fn lemma_entries_left_are_ordered(
    listing: Seq<EntryView>,
    order: Seq<usize>,
    base: PathView,
    gone: spec_fn(PathView, bool) -> bool,
)
    requires
        in_name_order(names_of(listing), order),
        forall|k: int| 0 <= k < order.len() ==> #[trigger] order[k] < listing.len(),
    ensures
        entries_left(listing, order, base, gone).len() <= order.len(),
        forall|a: int|
            0 <= a < entries_left(listing, order, base, gone).len() ==> exists|p: int|
                0 <= p < order.len() && (#[trigger] entries_left(
                    listing,
                    order,
                    base,
                    gone,
                )[a]).name() == listing[#[trigger] order[p] as int].name(),
        forall|a: int, b: int|
            0 <= a < b < entries_left(listing, order, base, gone).len() ==> name_le(
                (#[trigger] entries_left(listing, order, base, gone)[a]).name(),
                (#[trigger] entries_left(listing, order, base, gone)[b]).name(),
            ),
    decreases order.len(),
{
    let all = entries_left(listing, order, base, gone);
    let names = names_of(listing);
    if order.len() > 0 {
        let fewer = order.drop_last();
        let before = entries_left(listing, fewer, base, gone);
        let last = order.len() - 1;
        assert forall|j: int, k: int| 0 <= j < k < fewer.len() implies name_le(
            names[(#[trigger] fewer[j]) as int],
            names[(#[trigger] fewer[k]) as int],
        ) by {
            assert(fewer[j] == order[j] && fewer[k] == order[k]);
        }
        assert forall|k: int| 0 <= k < fewer.len() implies #[trigger] fewer[k] < listing.len() by {
            assert(fewer[k] == order[k]);
        }
        lemma_entries_left_are_ordered(listing, fewer, base, gone);
        let i = order.last() as int;
        assert(order[last] == order.last());
        assert forall|a: int| 0 <= a < all.len() implies exists|p: int|
            0 <= p < order.len() && (#[trigger] all[a]).name() == listing[#[trigger] order[p] as int].name() by {
            if a < before.len() {
                assert(all[a] == before[a]);
                let p = choose|p: int|
                    0 <= p < fewer.len() && before[a].name() == listing[#[trigger] fewer[p] as int].name();
                assert(order[p] == fewer[p]);
            } else {
                assert(all[a].name() == listing[order[last] as int].name());
            }
        }
        assert forall|a: int, b: int| 0 <= a < b < all.len() implies name_le(
            (#[trigger] all[a]).name(),
            (#[trigger] all[b]).name(),
        ) by {
            assert(all[a] == before[a]);
            if b < before.len() {
                assert(all[b] == before[b]);
            } else {
                let p = choose|p: int|
                    0 <= p < fewer.len() && before[a].name() == listing[#[trigger] fewer[p] as int].name();
                assert(order[p] == fewer[p]);
                assert(name_le(names[order[p] as int], names[order[last] as int]));
                assert(all[b].name() == listing[i].name());
            }
        }
    }
}

/// What is left of a listing in the order of its names is listed in that order.
pub proof fn lemma_entries_left_stay_in_order(
    listing: Seq<EntryView>,
    base: PathView,
    gone: spec_fn(PathView, bool) -> bool,
)
    requires
        listing.len() <= usize::MAX,
    ensures
        name_order(names_of(without(listing, base, gone)), without(listing, base, gone).len())
            == counting(without(listing, base, gone).len()),
{
    let order = name_order(names_of(listing), listing.len());
    let left = without(listing, base, gone);
    lemma_name_order_indices(names_of(listing), listing.len());
    lemma_name_order_is_sorted(names_of(listing), listing.len());
    lemma_entries_left_are_ordered(listing, order, base, gone);
    let names = names_of(left);
    assert forall|j: int, k: int| 0 <= j < k < left.len() implies name_le(
        #[trigger] names[j],
        #[trigger] names[k],
    ) by {
        assert(name_le(left[j].name(), left[k].name()));
    }
    lemma_ordered_names_stay(names, left.len());
}

/// Whether two walks take the same entry at their step `k`.
pub open spec fn takes_the_same(
    a: Seq<EntryView>,
    first: Seq<usize>,
    b: Seq<EntryView>,
    second: Seq<usize>,
    k: int,
) -> bool {
    first[k] < a.len() && second[k] < b.len() && a[first[k] as int] == b[second[k] as int]
}

/// What is captured depends only on the entries that are taken, one after the other.
pub proof fn lemma_the_entries_taken_decide(
    a: Seq<EntryView>,
    first: Seq<usize>,
    b: Seq<EntryView>,
    second: Seq<usize>,
    base: PathView,
    include_contents: bool,
    rules: Seq<RuleView>,
)
    requires
        first.len() == second.len(),
        forall|k: int| 0 <= k < first.len() ==> #[trigger] takes_the_same(a, first, b, second, k),
    ensures
        captured(a, first, base, include_contents, rules) == captured(
            b,
            second,
            base,
            include_contents,
            rules,
        ),
    decreases first.len(),
{
    if first.len() > 0 {
        let fewer = first.drop_last();
        let others = second.drop_last();
        assert forall|k: int| 0 <= k < fewer.len() implies #[trigger] takes_the_same(
            a,
            fewer,
            b,
            others,
            k,
        ) by {
            assert(takes_the_same(a, first, b, second, k));
        }
        lemma_the_entries_taken_decide(a, fewer, b, others, base, include_contents, rules);
        let last = first.len() - 1;
        assert(takes_the_same(a, first, b, second, last));
    }
}

/// Where only ignored entries are taken away, what the entries `order` add up to
/// under the rules is what the entries that are left add up to under the rules
/// `after`.
pub proof fn lemma_captured_is_that_of_what_is_left(
    listing: Seq<EntryView>,
    order: Seq<usize>,
    base: PathView,
    include_contents: bool,
    rules: Seq<RuleView>,
    gone: spec_fn(PathView, bool) -> bool,
    after: Seq<RuleView>,
)
    requires
        names_are_unique(listing),
        order.len() <= usize::MAX,
        in_name_order(names_of(listing), order),
        forall|k: int| 0 <= k < order.len() ==> #[trigger] order[k] < listing.len(),
        takes_only_ignored(gone, rules, after),
    ensures
        captured(listing, order, base, include_contents, rules) == captured(
            entries_left(listing, order, base, gone),
            counting(entries_left(listing, order, base, gone).len()),
            base,
            include_contents,
            after,
        ),
    decreases listing, order.len(),
{
    let left = entries_left(listing, order, base, gone);
    if order.len() > 0 {
        let fewer = order.drop_last();
        let before = entries_left(listing, fewer, base, gone);
        let names = names_of(listing);
        assert forall|j: int, k: int| 0 <= j < k < fewer.len() implies name_le(
            names[(#[trigger] fewer[j]) as int],
            names[(#[trigger] fewer[k]) as int],
        ) by {
            assert(fewer[j] == order[j] && fewer[k] == order[k]);
        }
        assert forall|k: int| 0 <= k < fewer.len() implies #[trigger] fewer[k] < listing.len() by {
            assert(fewer[k] == order[k]);
        }
        lemma_captured_is_that_of_what_is_left(
            listing,
            fewer,
            base,
            include_contents,
            rules,
            gone,
            after,
        );
        let last = order.len() - 1;
        assert(order[last] == order.last());
        let i = order.last() as int;
        let path = base.child(listing[i].name());
        if !gone(path, listing[i] is Directory) {
            lemma_entries_left_are_ordered(listing, order, base, gone);
            let m = before.len();
            assert(left.len() == m + 1);
            assert(left.drop_last() == before);
            let steps = counting(left.len());
            assert(steps.drop_last() =~= counting(m));
            assert(steps.last() == m as usize);
            assert forall|k: int| 0 <= k < m implies #[trigger] takes_the_same(
                left,
                counting(m),
                before,
                counting(m),
                k,
            ) by {
                assert(left[k] == before[k]);
            }
            lemma_the_entries_taken_decide(
                left,
                counting(m),
                before,
                counting(m),
                base,
                include_contents,
                after,
            );
            assert(left[m as int].name() == listing[i].name());
            assert(ignores(after, path, listing[i] is Directory) == ignores(
                rules,
                path,
                listing[i] is Directory,
            ));
            match listing[i] {
                EntryView::Directory { name, entries } => {
                    let inner = name_order(names_of(entries), entries.len());
                    assert(names_are_unique(entries));
                    lemma_name_order_indices(names_of(entries), entries.len());
                    lemma_name_order_is_sorted(names_of(entries), entries.len());
                    lemma_captured_is_that_of_what_is_left(
                        entries,
                        inner,
                        path,
                        include_contents,
                        rules,
                        gone,
                        after,
                    );
                    lemma_entries_left_stay_in_order(entries, path, gone);
                    assert(left[m as int] == EntryView::Directory {
                        name,
                        entries: entries_left(entries, inner, path, gone),
                    });
                },
                EntryView::File { .. } => {
                    assert(left[m as int] == listing[i]);
                },
            }
        } else {
            assert(ignores(rules, path, listing[i] is Directory));
        }
    }
}

/// Where only ignored entries are taken away from a directory, the smaller
/// directory has, under the rules `after`, the snapshot that the whole directory has
/// under the rules.
pub proof fn lemma_snapshot_is_that_of_what_is_left(
    listing: Seq<EntryView>,
    base: PathView,
    include_contents: bool,
    rules: Seq<RuleView>,
    gone: spec_fn(PathView, bool) -> bool,
    after: Seq<RuleView>,
)
    requires
        names_are_unique(listing),
        takes_only_ignored(gone, rules, after),
    ensures
        snapshot_of(listing, base, include_contents, rules) == snapshot_of(
            without(listing, base, gone),
            base,
            include_contents,
            after,
        ),
{
    let order = name_order(names_of(listing), listing.len());
    lemma_name_order_indices(names_of(listing), listing.len());
    lemma_name_order_is_sorted(names_of(listing), listing.len());
    lemma_captured_is_that_of_what_is_left(
        listing,
        order,
        base,
        include_contents,
        rules,
        gone,
        after,
    );
    lemma_entries_left_stay_in_order(listing, base, gone);
}

/// The same holds however the smaller directory is listed: any listing of what is
/// left gives, under the rules `after`, the snapshot that the whole directory gives
/// under the rules.
pub proof fn lemma_any_listing_of_what_is_left_will_do(
    listing: Seq<EntryView>,
    smaller: Seq<EntryView>,
    base: PathView,
    include_contents: bool,
    rules: Seq<RuleView>,
    gone: spec_fn(PathView, bool) -> bool,
    after: Seq<RuleView>,
)
    requires
        names_are_unique(listing),
        takes_only_ignored(gone, rules, after),
        same_entries(smaller, without(listing, base, gone)),
    ensures
        snapshot_of(listing, base, include_contents, rules) == snapshot_of(
            smaller,
            base,
            include_contents,
            after,
        ),
{
    lemma_snapshot_is_that_of_what_is_left(listing, base, include_contents, rules, gone, after);
    lemma_snapshot_ignores_the_listing_order(
        smaller,
        without(listing, base, gone),
        base,
        include_contents,
        after,
    );
}

/// To take away what the rules ignore is to take away only what they ignore, and
/// of the rest no rule is needed to ignore nothing.
pub proof fn lemma_ignored_entries_may_go(rules: Seq<RuleView>)
    ensures
        takes_only_ignored(ignored_by(rules), rules, Seq::empty()),
{
    let gone = ignored_by(rules);
    let none = Seq::<RuleView>::empty();
    assert forall|path: PathView, is_dir: bool|
        if #[trigger] gone(path, is_dir) {
            ignores(rules, path, is_dir)
        } else {
            ignores(none, path, is_dir) == ignores(rules, path, is_dir)
        } by {
        lemma_no_rules_ignore_nothing(path, is_dir);
    }
}

/// Where the glob of the last rule matches a name, and that rule is not negated,
/// holds for files too and is held against the last name of a path, to take away
/// the files of that name is to take away only what the rules ignore. That the glob
/// matches the name is for `globset` to say.
pub proof fn lemma_matched_files_may_go(rules: Seq<RuleView>, name: Seq<char>)
    requires
        rules.len() > 0,
        !rules.last().negated,
        !rules.last().dir_only,
        !rules.last().anchored,
        glob_matches(rules.last().glob, name),
    ensures
        takes_only_ignored(files_named(name), rules, rules),
{
    let gone = files_named(name);
    assert forall|path: PathView, is_dir: bool|
        if #[trigger] gone(path, is_dir) {
            ignores(rules, path, is_dir)
        } else {
            ignores(rules, path, is_dir) == ignores(rules, path, is_dir)
        } by {
        if gone(path, is_dir) {
            lemma_matched_name_is_ignored(rules, path, is_dir);
        }
    }
}

/// Ignored entries leave no trace: the snapshot of a directory under ignore rules
/// is the snapshot, without rules, of the directory without what the rules
/// ignore. Both have the same tree, the same binary files and the same statistics.
pub proof fn lemma_snapshot_is_that_of_what_is_kept(
    listing: Seq<EntryView>,
    base: PathView,
    include_contents: bool,
    rules: Seq<RuleView>,
)
    requires
        names_are_unique(listing),
    ensures
        snapshot_of(listing, base, include_contents, rules) == snapshot_of(
            without_ignored(listing, base, rules),
            base,
            include_contents,
            Seq::empty(),
        ),
        stats_of(
            ConfigTree::Mapping(snapshot_of(listing, base, include_contents, rules).entries),
        ) == stats_of(
            ConfigTree::Mapping(
                snapshot_of(
                    without_ignored(listing, base, rules),
                    base,
                    include_contents,
                    Seq::empty(),
                ).entries,
            ),
        ),
{
    lemma_ignored_entries_may_go(rules);
    lemma_snapshot_is_that_of_what_is_left(
        listing,
        base,
        include_contents,
        rules,
        ignored_by(rules),
        Seq::empty(),
    );
}

/// Files that the rules ignore add nothing. Where the glob of the last rule matches
/// a name, and that rule is not negated, holds for files too and is held against
/// the last name of a path, a directory and the same directory without its files of
/// that name have one snapshot under the rules: the same tree, the same binary
/// files and the same statistics.
pub proof fn lemma_matched_files_add_nothing(
    listing: Seq<EntryView>,
    base: PathView,
    include_contents: bool,
    rules: Seq<RuleView>,
    name: Seq<char>,
)
    requires
        names_are_unique(listing),
        rules.len() > 0,
        !rules.last().negated,
        !rules.last().dir_only,
        !rules.last().anchored,
        glob_matches(rules.last().glob, name),
    ensures
        snapshot_of(listing, base, include_contents, rules) == snapshot_of(
            without_files_named(listing, base, name),
            base,
            include_contents,
            rules,
        ),
        stats_of(
            ConfigTree::Mapping(snapshot_of(listing, base, include_contents, rules).entries),
        ) == stats_of(
            ConfigTree::Mapping(
                snapshot_of(
                    without_files_named(listing, base, name),
                    base,
                    include_contents,
                    rules,
                ).entries,
            ),
        ),
{
    lemma_matched_files_may_go(rules, name);
    lemma_snapshot_is_that_of_what_is_left(
        listing,
        base,
        include_contents,
        rules,
        files_named(name),
        rules,
    );
}

} // verus!
