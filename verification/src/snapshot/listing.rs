//! A snapshot does not depend on the order in which the host lists a directory.
//!
//! Two listings of one directory hold the same entries, in whatever order. The
//! entries are put in the order of their names before anything else is done, so both
//! give the same snapshot.

use crate::path::PathView;
use crate::snapshot::ignore::RuleView;
use crate::snapshot::{
    captured, lemma_name_order_indices, lemma_name_order_is_permutation,
    lemma_name_order_is_sorted, name_le, name_order, names_of, snapshot_of, EntryView,
};
use vstd::prelude::*;

verus! {

/// Two names of which each stands before the other are one name.
pub proof fn lemma_name_le_is_antisymmetric(a: Seq<char>, b: Seq<char>)
    requires
        name_le(a, b),
        name_le(b, a),
    ensures
        a == b,
    decreases a.len(),
{
    if a.len() > 0 && b.len() > 0 {
        lemma_name_le_is_antisymmetric(a.drop_first(), b.drop_first());
        assert(a =~= seq![a[0]] + a.drop_first());
        assert(b =~= seq![b[0]] + b.drop_first());
    } else {
        assert(a =~= b);
    }
}

/// Whether no two entries of the listing have one name.
pub open spec fn has_unique_names(listing: Seq<EntryView>) -> bool {
    forall|i: int, j: int|
        0 <= i < j < listing.len() ==> (#[trigger] listing[i]).name() != (#[trigger] listing[j]).name()
}

/// Whether two entries are the same but for the order in which the directories in
/// them are listed.
pub open spec fn same_entry(x: EntryView, y: EntryView) -> bool
    decreases x,
{
    match x {
        EntryView::Directory { name, entries } => y matches EntryView::Directory {
            name: other,
            entries: others,
        } && name == other && same_entries(entries, others),
        EntryView::File { name, content } => y matches EntryView::File {
            name: other,
            content: kept,
        } && name == other && content == kept,
    }
}

/// Whether two listings hold the same entries, at every depth, in whatever order.
pub open spec fn same_entries(a: Seq<EntryView>, b: Seq<EntryView>) -> bool
    decreases a,
{
    &&& a.len() == b.len()
    &&& a.len() <= usize::MAX
    &&& has_unique_names(a)
    &&& has_unique_names(b)
    &&& forall|i: int|
        0 <= i < a.len() ==> exists|j: int|
            0 <= j < b.len() && same_entry(#[trigger] a[i], #[trigger] b[j])
}

/// Whether the names stand in order, none of them twice.
pub open spec fn strictly_ordered(names: Seq<Seq<char>>) -> bool {
    forall|j: int, k: int|
        0 <= j < k < names.len() ==> name_le(#[trigger] names[j], #[trigger] names[k]) && names[j]
            != names[k]
}

/// There is one way to put names in order: two lists of the same names, each in
/// order, are one list.
pub proof fn lemma_ordered_names_are_one_list(x: Seq<Seq<char>>, y: Seq<Seq<char>>)
    requires
        strictly_ordered(x),
        strictly_ordered(y),
        forall|name: Seq<char>| x.contains(name) <==> y.contains(name),
    ensures
        x == y,
    decreases x.len(),
{
    if x.len() == 0 {
        if y.len() > 0 {
            assert(y.contains(y[0]));
        }
        assert(x =~= y);
    } else {
        let top = x.last();
        assert(x.contains(top));
        assert(y.contains(top));
        let m = choose|m: int| 0 <= m < y.len() && y[m] == top;
        let other = y.last();
        assert(y.contains(other));
        assert(x.contains(other));
        let k = choose|k: int| 0 <= k < x.len() && x[k] == other;
        if k < x.len() - 1 {
            assert(name_le(x[k], x[x.len() - 1]));
            if m < y.len() - 1 {
                assert(name_le(y[m], y[y.len() - 1]));
                lemma_name_le_is_antisymmetric(top, other);
            }
            assert(y[m] == y[y.len() - 1]);
            assert(x[k] != x[x.len() - 1]);
        }
        assert(top == other);
        let fewer = x.drop_last();
        let others = y.drop_last();
        assert forall|name: Seq<char>| fewer.contains(name) <==> others.contains(name) by {
            if fewer.contains(name) {
                let j = choose|j: int| 0 <= j < fewer.len() && fewer[j] == name;
                assert(x[j] == name);
                assert(x.contains(name));
                assert(x[j] != x[x.len() - 1]);
                let i = choose|i: int| 0 <= i < y.len() && y[i] == name;
                assert(others[i] == name);
            }
            if others.contains(name) {
                let j = choose|j: int| 0 <= j < others.len() && others[j] == name;
                assert(y[j] == name);
                assert(y.contains(name));
                assert(y[j] != y[y.len() - 1]);
                let i = choose|i: int| 0 <= i < x.len() && x[i] == name;
                assert(fewer[i] == name);
            }
        }
        assert forall|j: int, k: int| 0 <= j < k < fewer.len() implies name_le(
            #[trigger] fewer[j],
            #[trigger] fewer[k],
        ) && fewer[j] != fewer[k] by {
            assert(fewer[j] == x[j] && fewer[k] == x[k]);
        }
        assert forall|j: int, k: int| 0 <= j < k < others.len() implies name_le(
            #[trigger] others[j],
            #[trigger] others[k],
        ) && others[j] != others[k] by {
            assert(others[j] == y[j] && others[k] == y[k]);
        }
        lemma_ordered_names_are_one_list(fewer, others);
        assert(x =~= fewer.push(top));
        assert(y =~= others.push(other));
    }
}

/// The names of a listing in the order of the names.
pub open spec fn ordered_names(listing: Seq<EntryView>) -> Seq<Seq<char>> {
    let order = name_order(names_of(listing), listing.len());
    Seq::new(order.len(), |k: int| listing[order[k] as int].name())
}

/// The ordered names of a listing are its names, each once, in order.
pub proof fn lemma_ordered_names(listing: Seq<EntryView>)
    requires
        listing.len() <= usize::MAX,
        has_unique_names(listing),
    ensures
        ordered_names(listing).len() == listing.len(),
        strictly_ordered(ordered_names(listing)),
        forall|name: Seq<char>|
            ordered_names(listing).contains(name) <==> names_of(listing).contains(name),
{
    let names = names_of(listing);
    let order = name_order(names, listing.len());
    let ordered = ordered_names(listing);
    lemma_name_order_indices(names, listing.len());
    lemma_name_order_is_sorted(names, listing.len());
    lemma_name_order_is_permutation(names, listing.len());
    assert forall|j: int, k: int| 0 <= j < k < ordered.len() implies name_le(
        #[trigger] ordered[j],
        #[trigger] ordered[k],
    ) && ordered[j] != ordered[k] by {
        assert(ordered[j] == names[order[j] as int]);
        assert(ordered[k] == names[order[k] as int]);
        assert(order[j] != order[k]);
        if order[j] < order[k] {
            assert(listing[order[j] as int].name() != listing[order[k] as int].name());
        } else {
            assert(listing[order[k] as int].name() != listing[order[j] as int].name());
        }
    }
    assert forall|name: Seq<char>| ordered.contains(name) <==> names.contains(name) by {
        if ordered.contains(name) {
            let k = choose|k: int| 0 <= k < ordered.len() && ordered[k] == name;
            assert(names[order[k] as int] == name);
        }
        if names.contains(name) {
            let i = choose|i: int| 0 <= i < names.len() && names[i] == name;
            assert(order.contains(i as usize));
            let k = choose|k: int| 0 <= k < order.len() && order[k] == i as usize;
            assert(ordered[k] == name);
        }
    }
}

/// Two listings that hold the same entries hold the same names.
pub proof fn lemma_same_entries_have_the_same_names(a: Seq<EntryView>, b: Seq<EntryView>)
    requires
        same_entries(a, b),
    ensures
        forall|name: Seq<char>| names_of(a).contains(name) <==> names_of(b).contains(name),
{
    let na = names_of(a);
    let nb = names_of(b);
    // Every entry of `a` has its like in `b`; the likes are as many as the entries of
    // `b`, so every entry of `b` is the like of one of `a`.
    let like = |i: int| choose|j: int| 0 <= j < b.len() && same_entry(a[i], b[j]);
    assert forall|i: int| 0 <= i < a.len() implies 0 <= #[trigger] like(i) < b.len() && b[like(
        i,
    )].name() == a[i].name() by {
        let j = choose|j: int| 0 <= j < b.len() && same_entry(#[trigger] a[i], #[trigger] b[j]);
        assert(same_entry(a[i], b[j]));
    }
    assert forall|name: Seq<char>| na.contains(name) implies nb.contains(name) by {
        let i = choose|i: int| 0 <= i < na.len() && na[i] == name;
        assert(nb[like(i)] == name);
    }
    let likes = Seq::new(a.len(), |i: int| like(i));
    assert(likes.no_duplicates()) by {
        assert forall|i: int, j: int| 0 <= i < likes.len() && 0 <= j < likes.len() && i
            != j implies likes[i] != likes[j] by {
            if i < j {
                assert(a[i].name() != a[j].name());
            } else {
                assert(a[j].name() != a[i].name());
            }
        }
    }
    lemma_every_index_is_taken(likes, b.len() as int);
    assert forall|name: Seq<char>| nb.contains(name) implies na.contains(name) by {
        let j = choose|j: int| 0 <= j < nb.len() && nb[j] == name;
        assert(likes.contains(j));
        let i = choose|i: int| 0 <= i < likes.len() && likes[i] == j;
        assert(na[i] == name);
    }
}

/// A list of `n` different numbers below `n` holds every number below `n`.
pub proof fn lemma_every_index_is_taken(taken: Seq<int>, n: int)
    requires
        taken.len() == n,
        taken.no_duplicates(),
        forall|i: int| 0 <= i < taken.len() ==> 0 <= #[trigger] taken[i] < n,
    ensures
        forall|j: int| 0 <= j < n ==> taken.contains(j),
{
    let all = Set::new(|j: int| 0 <= j < n);
    let hit = taken.to_set();
    vstd::set_lib::lemma_int_range(0, n);
    assert(all =~= vstd::set_lib::set_int_range(0, n));
    taken.unique_seq_to_set();
    assert(hit.subset_of(all)) by {
        assert forall|j: int| hit.contains(j) implies all.contains(j) by {
            let i = choose|i: int| 0 <= i < taken.len() && taken[i] == j;
        }
    }
    vstd::set_lib::lemma_subset_equality(hit, all);
    assert forall|j: int| 0 <= j < n implies taken.contains(j) by {
        assert(all.contains(j));
        assert(hit.contains(j));
    }
}

/// Whether two walks take the same entry at step `k`.
pub open spec fn same_step(
    a: Seq<EntryView>,
    first: Seq<usize>,
    b: Seq<EntryView>,
    second: Seq<usize>,
    k: int,
) -> bool {
    first[k] < a.len() && second[k] < b.len() && same_entry(
        a[first[k] as int],
        b[second[k] as int],
    )
}

/// Where the entries that two walks take are the same, one after the other, the
/// walks capture the same.
pub proof fn lemma_same_walk_captures_the_same(
    a: Seq<EntryView>,
    first: Seq<usize>,
    b: Seq<EntryView>,
    second: Seq<usize>,
    base: PathView,
    include_contents: bool,
    rules: Seq<RuleView>,
)
    requires
        first.len() == second.len(),
        forall|k: int| 0 <= k < first.len() ==> #[trigger] same_step(a, first, b, second, k),
    ensures
        captured(a, first, base, include_contents, rules) == captured(
            b,
            second,
            base,
            include_contents,
            rules,
        ),
    decreases a, first.len(),
{
    if first.len() > 0 {
        let fewer = first.drop_last();
        let others = second.drop_last();
        assert forall|k: int| 0 <= k < fewer.len() implies #[trigger] same_step(
            a,
            fewer,
            b,
            others,
            k,
        ) by {
            assert(same_step(a, first, b, second, k));
        }
        lemma_same_walk_captures_the_same(a, fewer, b, others, base, include_contents, rules);
        let i = first.last() as int;
        let j = second.last() as int;
        assert(same_step(a, first, b, second, first.len() - 1));
        match a[i] {
            EntryView::Directory { name, entries } => {
                let others = b[j]->Directory_entries;
                lemma_snapshot_ignores_the_listing_order(
                    entries,
                    others,
                    base.child(name),
                    include_contents,
                    rules,
                );
            },
            EntryView::File { .. } => {},
        }
    }
}

/// The snapshot of a directory does not depend on the order in which its entries,
/// or the entries of the directories in it, are listed.
pub proof fn lemma_snapshot_ignores_the_listing_order(
    a: Seq<EntryView>,
    b: Seq<EntryView>,
    base: PathView,
    include_contents: bool,
    rules: Seq<RuleView>,
)
    requires
        same_entries(a, b),
    ensures
        snapshot_of(a, base, include_contents, rules) == snapshot_of(
            b,
            base,
            include_contents,
            rules,
        ),
    decreases a, a.len() + 1,
{
    let first = name_order(names_of(a), a.len());
    let second = name_order(names_of(b), b.len());
    lemma_name_order_indices(names_of(a), a.len());
    lemma_name_order_indices(names_of(b), b.len());
    lemma_ordered_names(a);
    lemma_ordered_names(b);
    lemma_same_entries_have_the_same_names(a, b);
    lemma_ordered_names_are_one_list(ordered_names(a), ordered_names(b));
    assert forall|k: int| 0 <= k < first.len() implies #[trigger] same_step(
        a,
        first,
        b,
        second,
        k,
    ) by {
        let i = first[k] as int;
        let j = choose|j: int| 0 <= j < b.len() && same_entry(#[trigger] a[i], #[trigger] b[j]);
        assert(same_entry(a[i], b[j]));
        assert(ordered_names(a)[k] == a[i].name());
        assert(ordered_names(b)[k] == b[second[k] as int].name());
        let other = second[k] as int;
        if j < other {
            assert(b[j].name() != b[other].name());
        } else if other < j {
            assert(b[other].name() != b[j].name());
        }
    }
    lemma_same_walk_captures_the_same(a, first, b, second, base, include_contents, rules);
}

} // verus!
