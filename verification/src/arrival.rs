//! The arrangement of a tree does not depend on the order in which the
//! entries arrive.

use crate::engine::arranged_roots;
use crate::flags::sorting::{SortColumn, Sorting};
use crate::flags::{Flags, Layout};
use crate::meta::MetaView;
use crate::sort::{
    lemma_sort_each, lemma_sort_level_ignores_arrival_order, sort_each, sort_forest, sort_level,
    sort_tree,
};
use crate::stable::{lemma_picked_permutation, picked};
use crate::tree::{
    by_depth, children_below, forest_of, lemma_by_depth_ordered, lemma_child_is_longer,
    lemma_hangs_iff_parent_present, parent_at, parent_slot, parents_of, path_parent, room,
    roots_below, subtree, EntryView,
};
use vstd::prelude::*;

verus! {

/// Whether the parent path of `x` is the path of an entry of `es`.
pub open spec fn has_parent_in(es: Seq<EntryView>, x: EntryView) -> bool {
    exists|k: int|
        0 <= k < es.len() && path_parent(x.meta.path) == Some((#[trigger] es[k]).meta.path)
}

/// Whether `x` and `y` end up in one list: below one parent, or among the roots.
pub open spec fn same_place(es: Seq<EntryView>, x: EntryView, y: EntryView) -> bool {
    if has_parent_in(es, x) {
        path_parent(x.meta.path) == path_parent(y.meta.path)
    } else {
        !has_parent_in(es, y)
    }
}

/// Whether the entries are those of one run over a hierarchy: no entry
/// comes twice and no two have one path, nothing lies below a record
/// yet, every parent path is shorter than the path it is the parent of, as
/// `Path::parent` gives it, and no two entries that end up in one list
/// have one name.
pub open spec fn regular(es: Seq<EntryView>) -> bool {
    &&& es.len() <= usize::MAX
    &&& es.no_duplicates()
    &&& forall|x: EntryView|
        #[trigger] es.contains(x) ==> x.meta.content is None || x.meta.content->0.len() == 0
    &&& forall|x: EntryView, y: EntryView|
        #![trigger es.contains(x), es.contains(y)]
        es.contains(x) && es.contains(y) && x.meta.path == y.meta.path ==> x == y
    &&& forall|x: EntryView|
        #[trigger] es.contains(x) ==> (path_parent(x.meta.path) matches Some(p) ==> p.len()
            < x.meta.path.len())
    &&& forall|x: EntryView, y: EntryView|
        #![trigger es.contains(x), es.contains(y)]
        es.contains(x) && es.contains(y) && x != y && same_place(es, x, y) ==> x.meta.name
            != y.meta.name
}

/// Lists with the same entries have the same entries for parents.
pub proof fn lemma_has_parent_in(s: Seq<EntryView>, t: Seq<EntryView>, x: EntryView)
    requires
        s.to_multiset() == t.to_multiset(),
    ensures
        has_parent_in(s, x) == has_parent_in(t, x),
{
    broadcast use vstd::seq_lib::group_to_multiset_ensures;

    if has_parent_in(s, x) {
        let k = choose|k: int|
            0 <= k < s.len() && path_parent(x.meta.path) == Some((#[trigger] s[k]).meta.path);
        assert(s.contains(s[k]));
        assert(s.to_multiset().count(s[k]) > 0);
        assert(t.contains(s[k]));
        let q = choose|q: int| 0 <= q < t.len() && t[q] == s[k];
        assert(path_parent(x.meta.path) == Some(t[q].meta.path));
    }
    if has_parent_in(t, x) {
        let k = choose|k: int|
            0 <= k < t.len() && path_parent(x.meta.path) == Some((#[trigger] t[k]).meta.path);
        assert(t.contains(t[k]));
        assert(t.to_multiset().count(t[k]) > 0);
        assert(s.contains(t[k]));
        let q = choose|q: int| 0 <= q < s.len() && s[q] == t[k];
        assert(path_parent(x.meta.path) == Some(s[q].meta.path));
    }
}

/// The entries of a regular list are regular in every order.
pub proof fn lemma_regular_arrangement(s: Seq<EntryView>, t: Seq<EntryView>)
    requires
        regular(s),
        s.to_multiset() == t.to_multiset(),
    ensures
        regular(t),
        t.len() == s.len(),
        forall|x: EntryView| s.contains(x) == t.contains(x),
{
    broadcast use vstd::seq_lib::group_to_multiset_ensures;

    vstd::seq_lib::to_multiset_len(s);
    vstd::seq_lib::to_multiset_len(t);
    s.lemma_multiset_has_no_duplicates();
    t.lemma_multiset_has_no_duplicates_conv();
    assert forall|x: EntryView| s.contains(x) == t.contains(x) by {
        assert(s.contains(x) == (s.to_multiset().count(x) > 0));
        assert(t.contains(x) == (t.to_multiset().count(x) > 0));
    }
    assert forall|x: EntryView, y: EntryView|
        #![trigger t.contains(x), t.contains(y)]
        t.contains(x) && t.contains(y) && x != y && same_place(t, x, y) implies x.meta.name
        != y.meta.name by {
        lemma_has_parent_in(s, t, x);
        lemma_has_parent_in(s, t, y);
        assert(s.contains(x) && s.contains(y));
    }
    assert forall|x: EntryView, y: EntryView|
        #![trigger t.contains(x), t.contains(y)]
        t.contains(x) && t.contains(y) && x.meta.path == y.meta.path implies x == y by {
        assert(s.contains(x) && s.contains(y));
    }
    assert forall|x: EntryView| #[trigger] t.contains(x) implies (path_parent(
        x.meta.path,
    ) matches Some(p) ==> p.len() < x.meta.path.len()) by {
        assert(s.contains(x));
    }
}

/// In a regular list the parent path of an entry is the one that
/// `Path::parent` gives.
pub proof fn lemma_parent_at(es: Seq<EntryView>, k: int)
    requires
        regular(es),
        0 <= k < es.len(),
    ensures
        parent_at(es, parents_of(es), k) == path_parent(es[k].meta.path),
{
    assert(es.contains(es[k]));
    assert(parents_of(es)[k] == path_parent(es[k].meta.path));
}

/// In a regular list an entry hangs under the entry that has its parent
/// path, and has less room than that entry.
pub proof fn lemma_slot_of_child(es: Seq<EntryView>, k: int, i: int)
    requires
        regular(es),
        0 <= k < es.len(),
        0 <= i < es.len(),
        path_parent(es[k].meta.path) == Some(es[i].meta.path),
    ensures
        parent_slot(es, parents_of(es), k) == Some(i),
        0 <= room(es, k) < room(es, i),
{
    let ps = parents_of(es);
    lemma_parent_at(es, k);
    lemma_hangs_iff_parent_present(es, ps, k);
    let at = parent_slot(es, ps, k)->0;
    assert(es.contains(es[at]) && es.contains(es[i]));
    assert(es[at] == es[i]);
    lemma_child_is_longer(es, ps, k);
}

/// In a regular list, the entry under which another hangs has its parent path.
pub proof fn lemma_slot_is_parent(es: Seq<EntryView>, k: int)
    requires
        regular(es),
        0 <= k < es.len(),
        parent_slot(es, parents_of(es), k) is Some,
    ensures
        0 <= parent_slot(es, parents_of(es), k)->0 < es.len(),
        path_parent(es[k].meta.path) == Some(
            es[parent_slot(es, parents_of(es), k)->0].meta.path,
        ),
{
    lemma_parent_at(es, k);
    lemma_child_is_longer(es, parents_of(es), k);
}

/// In a regular list the roots are the entries whose parent path no entry has.
pub proof fn lemma_slot_of_root(es: Seq<EntryView>, k: int)
    requires
        regular(es),
        0 <= k < es.len(),
    ensures
        parent_slot(es, parents_of(es), k) is None <==> !has_parent_in(es, es[k]),
{
    if has_parent_in(es, es[k]) {
        let i = choose|i: int|
            0 <= i < es.len() && path_parent(es[k].meta.path) == Some(
                (#[trigger] es[i]).meta.path,
            );
        lemma_slot_of_child(es, k, i);
    }
    if parent_slot(es, parents_of(es), k) is Some {
        lemma_slot_is_parent(es, k);
        let j = parent_slot(es, parents_of(es), k)->0;
        assert(path_parent(es[k].meta.path) == Some(es[j].meta.path));
    }
}

/// The position of an entry in a list.
pub open spec fn position_of(es: Seq<EntryView>, x: EntryView) -> int {
    choose|k: int| 0 <= k < es.len() && es[k] == x
}

/// Whether an entry has the parent path `p`.
pub open spec fn child_of(p: Seq<char>) -> spec_fn(EntryView) -> bool {
    |x: EntryView| path_parent(x.meta.path) == Some(p)
}

/// Whether no entry of `es` has the parent path of an entry.
pub open spec fn parentless(es: Seq<EntryView>) -> spec_fn(EntryView) -> bool {
    |x: EntryView| !has_parent_in(es, x)
}

/// Orders the levels below a record.
pub open spec fn tree_sorter(sorting: Sorting) -> spec_fn(MetaView) -> MetaView {
    |m: MetaView| sort_tree(sorting, m)
}

/// The record of an entry with everything that hangs under it in the
/// forest of `es`, every level ordered.
pub open spec fn arranged_entry(sorting: Sorting, es: Seq<EntryView>) -> spec_fn(
    EntryView,
) -> MetaView {
    |x: EntryView| sort_tree(sorting, subtree(es, parents_of(es), position_of(es, x)))
}

/// In a list without doubles every entry has one position.
pub proof fn lemma_position_of(es: Seq<EntryView>, k: int)
    requires
        es.no_duplicates(),
        0 <= k < es.len(),
    ensures
        position_of(es, es[k]) == k,
{
}

/// What is kept of a list without doubles has no doubles.
pub proof fn lemma_filter_no_duplicates<T>(s: Seq<T>, keep: spec_fn(T) -> bool)
    requires
        s.no_duplicates(),
    ensures
        s.filter(keep).no_duplicates(),
    decreases s.len(),
{
    if s.len() == 0 {
        assert(s.filter(keep).len() == 0) by {
            reveal(Seq::filter);
        }
    } else {
        let front = s.drop_last();
        let x = s.last();
        assert(s =~= front.push(x));
        lemma_filter_no_duplicates(front, keep);
        front.lemma_filter_push(x, keep);
        if keep(x) {
            let kept = front.filter(keep);
            assert forall|i: int| 0 <= i < kept.len() implies kept[i] != x by {
                if kept[i] == x {
                    assert(kept.contains(x));
                    front.lemma_filter_contains_rev(keep, x);
                    let q = choose|q: int| 0 <= q < front.len() && front[q] == x;
                    assert(s[q] == s[s.len() - 1]);
                }
            }
        }
    }
}

/// The ordered levels of a record that has been handed subtrees: the
/// record with the subtrees, each ordered, in the order of the comparator.
pub proof fn lemma_sort_tree_with_children(sorting: Sorting, m: MetaView, kids: Seq<MetaView>)
    requires
        m.content is None || m.content->0.len() == 0,
    ensures
        sort_tree(sorting, m.with_children(kids)) == (if kids.len() == 0 {
            m
        } else {
            m.with_content(
                Some(sort_level(sorting, kids.map_values(tree_sorter(sorting)))),
            )
        }),
{
    if kids.len() == 0 {
        if m.content is Some {
            let held = m.content->0;
            assert(sort_each(sorting, held, held.len()) =~= Seq::empty());
            assert(sort_forest(sorting, held) =~= held);
        }
    } else {
        let grown = m.with_children(kids);
        assert(grown.content->0 =~= kids);
        lemma_sort_each(sorting, kids, kids.len());
        assert(kids.take(kids.len() as int) =~= kids);
        assert(kids.map_values(|r: MetaView| sort_tree(sorting, r)) =~= kids.map_values(
            tree_sorter(sorting),
        ));
    }
}

/// The subtrees that hang under an entry, each ordered, are the arranged
/// records of the entries that have its path for their parent path.
pub proof fn lemma_children_picked(sorting: Sorting, es: Seq<EntryView>, i: int, upto: nat)
    requires
        regular(es),
        0 <= i < es.len(),
        upto <= es.len(),
    ensures
        children_below(es, parents_of(es), i, upto).map_values(tree_sorter(sorting))
            == picked(
            es.take(upto as int),
            child_of(es[i].meta.path),
            arranged_entry(sorting, es),
        ),
    decreases upto,
{
    let ps = parents_of(es);
    let keep = child_of(es[i].meta.path);
    let image = arranged_entry(sorting, es);
    let sorter = tree_sorter(sorting);
    if upto == 0 {
        assert(es.take(0).filter(keep).len() == 0) by {
            reveal(Seq::filter);
        }
        assert(children_below(es, ps, i, 0).map_values(sorter) =~= picked(
            es.take(0),
            keep,
            image,
        ));
    } else {
        let k = (upto - 1) as int;
        let before = es.take(k);
        lemma_children_picked(sorting, es, i, k as nat);
        assert(es.take(upto as int) =~= before.push(es[k]));
        before.lemma_filter_push(es[k], keep);
        lemma_position_of(es, k);
        if keep(es[k]) {
            lemma_slot_of_child(es, k, i);
        }
        if parent_slot(es, ps, k) == Some(i) {
            lemma_slot_is_parent(es, k);
        }
        let rest = children_below(es, ps, i, k as nat);
        if keep(es[k]) {
            assert(rest.push(subtree(es, ps, k)).map_values(sorter) =~= rest.map_values(
                sorter,
            ).push(image(es[k])));
            assert(before.filter(keep).push(es[k]).map_values(image) =~= before.filter(
                keep,
            ).map_values(image).push(image(es[k])));
        }
    }
}

/// The roots, each ordered, are the arranged records of the entries whose
/// parent path no entry has.
pub proof fn lemma_roots_picked(sorting: Sorting, es: Seq<EntryView>, upto: nat)
    requires
        regular(es),
        upto <= es.len(),
    ensures
        roots_below(es, parents_of(es), upto).map_values(tree_sorter(sorting)) == picked(
            es.take(upto as int),
            parentless(es),
            arranged_entry(sorting, es),
        ),
    decreases upto,
{
    let ps = parents_of(es);
    let keep = parentless(es);
    let image = arranged_entry(sorting, es);
    let sorter = tree_sorter(sorting);
    if upto == 0 {
        assert(es.take(0).filter(keep).len() == 0) by {
            reveal(Seq::filter);
        }
        assert(roots_below(es, ps, 0).map_values(sorter) =~= picked(es.take(0), keep, image));
    } else {
        let k = (upto - 1) as int;
        let before = es.take(k);
        lemma_roots_picked(sorting, es, k as nat);
        assert(es.take(upto as int) =~= before.push(es[k]));
        before.lemma_filter_push(es[k], keep);
        lemma_position_of(es, k);
        lemma_slot_of_root(es, k);
        let rest = roots_below(es, ps, k as nat);
        if keep(es[k]) {
            assert(rest.push(subtree(es, ps, k)).map_values(sorter) =~= rest.map_values(
                sorter,
            ).push(image(es[k])));
            assert(before.filter(keep).push(es[k]).map_values(image) =~= before.filter(
                keep,
            ).map_values(image).push(image(es[k])));
        }
    }
}

/// The arranged records of entries that end up in one list have
/// pairwise different names.
pub proof fn lemma_picked_names(
    sorting: Sorting,
    es: Seq<EntryView>,
    keep: spec_fn(EntryView) -> bool,
)
    requires
        regular(es),
        forall|x: EntryView, y: EntryView|
            #![trigger keep(x), keep(y)]
            es.contains(x) && es.contains(y) && keep(x) && keep(y) ==> same_place(es, x, y),
    ensures
        forall|a: int, b: int|
            0 <= a < b < picked(es, keep, arranged_entry(sorting, es)).len() ==> (
            #[trigger] picked(es, keep, arranged_entry(sorting, es))[a]).name != (
            #[trigger] picked(es, keep, arranged_entry(sorting, es))[b]).name,
{
    let image = arranged_entry(sorting, es);
    let kept = es.filter(keep);
    let out = picked(es, keep, image);
    lemma_filter_no_duplicates(es, keep);
    assert forall|a: int, b: int| 0 <= a < b < out.len() implies (#[trigger] out[a]).name != (
    #[trigger] out[b]).name by {
        let x = kept[a];
        let y = kept[b];
        assert(kept.contains(x) && kept.contains(y));
        es.lemma_filter_contains_rev(keep, x);
        es.lemma_filter_contains_rev(keep, y);
        es.lemma_filter_pred(keep, a);
        es.lemma_filter_pred(keep, b);
        assert(x != y);
        assert(same_place(es, x, y));
        let p = position_of(es, x);
        let q = position_of(es, y);
        assert(out[a] == image(x) && out[b] == image(y));
        assert(image(x).name == es[p].meta.name);
        assert(image(y).name == es[q].meta.name);
    }
}

/// The arranged record of an entry does not depend on the order of the list.
pub proof fn lemma_arranged_entry_ignores_order(
    sorting: Sorting,
    e: Seq<EntryView>,
    f: Seq<EntryView>,
    i: int,
)
    requires
        sorting.column != SortColumn::NoSort,
        regular(e),
        regular(f),
        e.to_multiset() == f.to_multiset(),
        0 <= i < e.len(),
    ensures
        arranged_entry(sorting, e)(e[i]) == arranged_entry(sorting, f)(e[i]),
    decreases room(e, i),
{
    let x = e[i];
    lemma_regular_arrangement(e, f);
    assert(e.contains(x));
    let j = position_of(f, x);
    lemma_position_of(e, i);
    let keep = child_of(x.meta.path);
    let in_e = arranged_entry(sorting, e);
    let in_f = arranged_entry(sorting, f);
    let kids_e = children_below(e, parents_of(e), i, e.len());
    let kids_f = children_below(f, parents_of(f), j, f.len());
    lemma_position_of(f, j);
    lemma_children_picked(sorting, e, i, e.len());
    lemma_children_picked(sorting, f, j, f.len());
    assert(e.take(e.len() as int) =~= e);
    assert(f.take(f.len() as int) =~= f);
    let kept = f.filter(keep);
    assert forall|t: int| 0 <= t < kept.len() implies in_f(kept[t]) == in_e(kept[t]) by {
        let y = kept[t];
        assert(kept.contains(y));
        f.lemma_filter_contains_rev(keep, y);
        f.lemma_filter_pred(keep, t);
        assert(e.contains(y));
        let k = position_of(e, y);
        lemma_slot_of_child(e, k, i);
        lemma_arranged_entry_ignores_order(sorting, e, f, k);
    }
    assert(picked(f, keep, in_f) =~= picked(f, keep, in_e));
    lemma_picked_permutation(e, f, keep, in_e);
    assert forall|a: EntryView, b: EntryView|
        #![trigger keep(a), keep(b)]
        e.contains(a) && e.contains(b) && keep(a) && keep(b) implies same_place(e, a, b) by {
        assert(path_parent(a.meta.path) == Some(e[i].meta.path));
    }
    lemma_picked_names(sorting, e, keep);
    lemma_sort_level_ignores_arrival_order(
        sorting,
        picked(e, keep, in_e),
        picked(f, keep, in_e),
    );
    lemma_sort_tree_with_children(sorting, x.meta, kids_e);
    lemma_sort_tree_with_children(sorting, x.meta, kids_f);
    vstd::seq_lib::to_multiset_len(picked(e, keep, in_e));
    vstd::seq_lib::to_multiset_len(picked(f, keep, in_e));
}

/// The arrangement of a tree does not depend on the order of arrival:
/// the entries of one run over a hierarchy, ordered by a column, give one
/// forest, in whichever order the traversal yields them.
pub proof fn lemma_tree_ignores_arrival_order(
    flags: Flags,
    s: Seq<EntryView>,
    t: Seq<EntryView>,
)
    requires
        flags.layout == Layout::Tree,
        flags.sorting.column != SortColumn::NoSort,
        regular(s),
        s.to_multiset() == t.to_multiset(),
    ensures
        arranged_roots(flags, s) == arranged_roots(flags, t),
{
    let sorting = flags.sorting;
    let e = by_depth(s);
    let f = by_depth(t);
    lemma_by_depth_ordered(s);
    lemma_by_depth_ordered(t);
    lemma_regular_arrangement(s, e);
    lemma_regular_arrangement(s, f);
    let in_e = arranged_entry(sorting, e);
    let in_f = arranged_entry(sorting, f);
    let sorter = tree_sorter(sorting);
    let roots_e = forest_of(e, parents_of(e));
    let roots_f = forest_of(f, parents_of(f));
    lemma_roots_picked(sorting, e, e.len());
    lemma_roots_picked(sorting, f, f.len());
    assert(e.take(e.len() as int) =~= e);
    assert(f.take(f.len() as int) =~= f);
    assert(parentless(f) =~= parentless(e)) by {
        assert forall|x: EntryView| #[trigger] parentless(f)(x) == parentless(e)(x) by {
            lemma_has_parent_in(e, f, x);
        }
    }
    let keep = parentless(e);
    let kept = f.filter(keep);
    assert forall|k: int| 0 <= k < kept.len() implies in_f(kept[k]) == in_e(kept[k]) by {
        let y = kept[k];
        assert(kept.contains(y));
        f.lemma_filter_contains_rev(keep, y);
        assert(e.contains(y));
        lemma_arranged_entry_ignores_order(sorting, e, f, position_of(e, y));
    }
    assert(picked(f, keep, in_f) =~= picked(f, keep, in_e));
    lemma_picked_permutation(e, f, keep, in_e);
    lemma_picked_names(sorting, e, keep);
    lemma_sort_level_ignores_arrival_order(
        sorting,
        picked(e, keep, in_e),
        picked(f, keep, in_e),
    );
    lemma_sort_each(sorting, roots_e, roots_e.len());
    lemma_sort_each(sorting, roots_f, roots_f.len());
    assert(roots_e.take(roots_e.len() as int) =~= roots_e);
    assert(roots_f.take(roots_f.len() as int) =~= roots_f);
    assert(roots_e.map_values(|r: MetaView| sort_tree(sorting, r)) =~= roots_e.map_values(sorter));
    assert(roots_f.map_values(|r: MetaView| sort_tree(sorting, r)) =~= roots_f.map_values(sorter));
}

} // verus!
