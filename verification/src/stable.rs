//! Stable sorting: what it is, stated for any relation that says which of
//! two values comes first, the laws that hold of it, and a merge sort that
//! computes it.

use vstd::prelude::*;

verus! {

/// The place at which `x` enters the list `out`: behind the last value
/// that it does not come before.
pub open spec fn insert_position<T>(before: spec_fn(T, T) -> bool, out: Seq<T>, x: T) -> int
    decreases out.len(),
{
    if out.len() == 0 || !before(x, out.last()) {
        out.len() as int
    } else {
        insert_position(before, out.drop_last(), x)
    }
}

/// The list `out` with `x` entered at its place.
pub open spec fn insert_sorted<T>(before: spec_fn(T, T) -> bool, out: Seq<T>, x: T) -> Seq<T> {
    out.insert(insert_position(before, out, x), x)
}

/// The values of `s`, each in turn entered into the list of those before it.
pub open spec fn stable_sort<T>(before: spec_fn(T, T) -> bool, s: Seq<T>) -> Seq<T>
    decreases s.len(),
{
    if s.len() == 0 {
        s
    } else {
        insert_sorted(before, stable_sort(before, s.drop_last()), s.last())
    }
}

/// Whether no value of `s` comes before an earlier one.
pub open spec fn ordered<T>(before: spec_fn(T, T) -> bool, s: Seq<T>) -> bool {
    forall|i: int, j: int| 0 <= i < j < s.len() ==> !before(#[trigger] s[j], #[trigger] s[i])
}

/// Whether `before` ranks values as an order by a key does: of two values
/// at most one comes before the other, and "does not come after" is
/// transitive.
pub open spec fn weak_order<T>(before: spec_fn(T, T) -> bool) -> bool {
    &&& forall|a: T, b: T| #![trigger before(a, b)] before(a, b) ==> !before(b, a)
    &&& forall|a: T, b: T, c: T|
        #![trigger before(b, a), before(c, b)]
        !before(b, a) && !before(c, b) ==> !before(c, a)
}

/// Whether a value is tied with `r`: neither comes before the other.
pub open spec fn tied_with<T>(before: spec_fn(T, T) -> bool, r: T) -> spec_fn(T) -> bool {
    |x: T| !before(x, r) && !before(r, x)
}

/// Whether `g` changes nothing that `before` reads.
pub open spec fn preserves<T>(before: spec_fn(T, T) -> bool, g: spec_fn(T) -> T) -> bool {
    forall|a: T, b: T| #![trigger before(g(a), g(b))] before(g(a), g(b)) == before(a, b)
}

/// Where a value enters: it comes before every value behind that place
/// and not before the one directly in front of it.
pub proof fn lemma_insert_position<T>(before: spec_fn(T, T) -> bool, out: Seq<T>, x: T)
    ensures
        0 <= insert_position(before, out, x) <= out.len(),
        forall|k: int| insert_position(before, out, x) <= k < out.len() ==> before(x, out[k]),
        insert_position(before, out, x) > 0 ==> !before(
            x,
            out[insert_position(before, out, x) - 1],
        ),
    decreases out.len(),
{
    if out.len() == 0 || !before(x, out.last()) {
    } else {
        let front = out.drop_last();
        let p = insert_position(before, front, x);
        lemma_insert_position(before, front, x);
        assert forall|k: int| p <= k < out.len() implies before(x, out[k]) by {
            if k < front.len() {
                assert(out[k] == front[k]);
            }
        }
        if p > 0 {
            assert(out[p - 1] == front[p - 1]);
        }
    }
}

/// Sorting keeps the length.
pub proof fn lemma_stable_sort_len<T>(before: spec_fn(T, T) -> bool, s: Seq<T>)
    ensures
        stable_sort(before, s).len() == s.len(),
    decreases s.len(),
{
    if s.len() > 0 {
        lemma_stable_sort_len(before, s.drop_last());
        lemma_insert_position(before, stable_sort(before, s.drop_last()), s.last());
    }
}

/// Sorting permutes: every value stays, as often as it occurred.
pub proof fn lemma_stable_sort_permutes<T>(before: spec_fn(T, T) -> bool, s: Seq<T>)
    ensures
        stable_sort(before, s).to_multiset() == s.to_multiset(),
    decreases s.len(),
{
    broadcast use vstd::seq_lib::group_to_multiset_ensures;

    if s.len() > 0 {
        let sorted = stable_sort(before, s.drop_last());
        lemma_stable_sort_permutes(before, s.drop_last());
        lemma_insert_position(before, sorted, s.last());
        assert(s =~= s.drop_last().push(s.last()));
        assert(stable_sort(before, s).to_multiset() =~= s.to_multiset());
    }
}

/// Entering a value into an ordered list leaves it ordered.
pub proof fn lemma_insert_ordered<T>(before: spec_fn(T, T) -> bool, out: Seq<T>, x: T)
    requires
        weak_order(before),
        ordered(before, out),
    ensures
        ordered(before, insert_sorted(before, out, x)),
{
    let p = insert_position(before, out, x);
    let r = insert_sorted(before, out, x);
    lemma_insert_position(before, out, x);
    assert forall|i: int, j: int| 0 <= i < j < r.len() implies !before(
        #[trigger] r[j],
        #[trigger] r[i],
    ) by {
        if j < p {
            assert(r[i] == out[i] && r[j] == out[j]);
        } else if j == p {
            assert(r[i] == out[i] && r[j] == x);
            if i < p - 1 {
                assert(!before(out[p - 1], out[i]));
                assert(!before(x, out[p - 1]));
            }
        } else if i < p {
            assert(r[i] == out[i] && r[j] == out[j - 1]);
        } else if i == p {
            assert(r[i] == x && r[j] == out[j - 1]);
            assert(before(x, out[j - 1]));
        } else {
            assert(r[i] == out[i - 1] && r[j] == out[j - 1]);
        }
    }
}

/// A sorted list is ordered.
pub proof fn lemma_stable_sort_ordered<T>(before: spec_fn(T, T) -> bool, s: Seq<T>)
    requires
        weak_order(before),
    ensures
        ordered(before, stable_sort(before, s)),
    decreases s.len(),
{
    if s.len() > 0 {
        lemma_stable_sort_ordered(before, s.drop_last());
        lemma_insert_ordered(before, stable_sort(before, s.drop_last()), s.last());
    }
}

/// The sort is stable: the values that are tied with `r` leave in the
/// order in which they came.
pub proof fn lemma_stable_sort_stable<T>(before: spec_fn(T, T) -> bool, s: Seq<T>, r: T)
    requires
        weak_order(before),
    ensures
        stable_sort(before, s).filter(tied_with(before, r)) == s.filter(tied_with(before, r)),
    decreases s.len(),
{
    let tied = tied_with(before, r);
    if s.len() > 0 {
        let x = s.last();
        let sorted = stable_sort(before, s.drop_last());
        let p = insert_position(before, sorted, x);
        lemma_stable_sort_stable(before, s.drop_last(), r);
        lemma_insert_position(before, sorted, x);
        let front = sorted.subrange(0, p);
        let back = sorted.subrange(p, sorted.len() as int);
        assert(sorted =~= front + back);
        assert(s =~= s.drop_last().push(x));
        s.drop_last().lemma_filter_push(x, tied);
        front.lemma_filter_push(x, tied);
        Seq::filter_distributes_over_add(front, back, tied);
        Seq::filter_distributes_over_add(front.push(x), back, tied);
        if tied(x) {
            assert forall|k: int| 0 <= k < back.len() implies !tied(#[trigger] back[k]) by {
                let y = back[k];
                assert(y == sorted[p + k]);
                assert(before(x, y));
                if tied(y) {
                    assert(!before(r, y) && !before(x, r));
                }
            }
            assert(back.all(|y: T| !tied(y)));
            back.lemma_all_neg_filter_empty(tied);
            assert(back.filter(tied) =~= Seq::empty());
            assert(sorted.filter(tied) =~= front.filter(tied));
            assert(stable_sort(before, s).filter(tied) =~= front.filter(tied).push(x));
        } else {
            assert(stable_sort(before, s).filter(tied) =~= sorted.filter(tied));
        }
    } else {
        assert(stable_sort(before, s) =~= s);
    }
}

/// A list that is ordered already leaves as it came.
pub proof fn lemma_stable_sort_keeps_ordered<T>(before: spec_fn(T, T) -> bool, s: Seq<T>)
    requires
        ordered(before, s),
    ensures
        stable_sort(before, s) == s,
    decreases s.len(),
{
    if s.len() > 0 {
        let front = s.drop_last();
        assert forall|i: int, j: int| 0 <= i < j < front.len() implies !before(
            #[trigger] front[j],
            #[trigger] front[i],
        ) by {
            assert(front[i] == s[i] && front[j] == s[j]);
        }
        lemma_stable_sort_keeps_ordered(before, front);
        if front.len() > 0 {
            assert(front.last() == s[s.len() - 2]);
            assert(!before(s[s.len() - 1], s[s.len() - 2]));
        }
        assert(stable_sort(before, s) =~= s);
    }
}

/// Whether `g` carries the order `before` over to the order `after`:
/// the images of two values are ranked as the values are.
pub open spec fn carries<T, U>(
    before: spec_fn(T, T) -> bool,
    after: spec_fn(U, U) -> bool,
    g: spec_fn(T) -> U,
) -> bool {
    forall|a: T, b: T| #![trigger after(g(a), g(b))] after(g(a), g(b)) == before(a, b)
}

/// Sorting and mapping can be exchanged where the map carries the order over.
pub proof fn lemma_stable_sort_maps<T, U>(
    before: spec_fn(T, T) -> bool,
    after: spec_fn(U, U) -> bool,
    g: spec_fn(T) -> U,
    s: Seq<T>,
)
    requires
        carries(before, after, g),
    ensures
        stable_sort(after, s.map_values(g)) == stable_sort(before, s).map_values(g),
    decreases s.len(),
{
    if s.len() > 0 {
        let front = s.drop_last();
        let sorted = stable_sort(before, front);
        lemma_stable_sort_maps(before, after, g, front);
        assert(s.map_values(g).drop_last() =~= front.map_values(g));
        assert(s.map_values(g).last() == g(s.last()));
        lemma_insert_position_maps(before, after, g, sorted, s.last());
        lemma_insert_position(before, sorted, s.last());
        let p = insert_position(before, sorted, s.last());
        assert(sorted.map_values(g).insert(p, g(s.last())) =~= sorted.insert(
            p,
            s.last(),
        ).map_values(g));
    } else {
        assert(stable_sort(after, s.map_values(g)) =~= stable_sort(before, s).map_values(g));
    }
}

/// A value and its image enter at the same place.
pub proof fn lemma_insert_position_maps<T, U>(
    before: spec_fn(T, T) -> bool,
    after: spec_fn(U, U) -> bool,
    g: spec_fn(T) -> U,
    out: Seq<T>,
    x: T,
)
    requires
        carries(before, after, g),
    ensures
        insert_position(after, out.map_values(g), g(x)) == insert_position(before, out, x),
    decreases out.len(),
{
    if out.len() > 0 {
        assert(out.map_values(g).last() == g(out.last()));
        assert(after(g(x), g(out.last())) == before(x, out.last()));
        assert(out.map_values(g).drop_last() =~= out.drop_last().map_values(g));
        lemma_insert_position_maps(before, after, g, out.drop_last(), x);
    }
}

/// The order of the result is decided by what `before` reads alone: a
/// change `g` that `before` does not see can be made before the sort or
/// after it.
pub proof fn lemma_stable_sort_commutes<T>(
    before: spec_fn(T, T) -> bool,
    g: spec_fn(T) -> T,
    s: Seq<T>,
)
    requires
        preserves(before, g),
    ensures
        stable_sort(before, s.map_values(g)) == stable_sort(before, s).map_values(g),
{
    lemma_stable_sort_maps(before, before, g, s);
}

/// Whether `out` holds the values of `s`, those that are tied in the
/// order in which `s` has them.
pub open spec fn stable_arrangement<T>(
    before: spec_fn(T, T) -> bool,
    s: Seq<T>,
    out: Seq<T>,
) -> bool {
    &&& out.to_multiset() == s.to_multiset()
    &&& forall|r: T|
        out.filter(#[trigger] tied_with(before, r)) == s.filter(tied_with(before, r))
}

/// Two ordered lists that are stable arrangements of each other are equal.
pub proof fn lemma_ordered_arrangement_is_unique<T>(
    before: spec_fn(T, T) -> bool,
    a: Seq<T>,
    b: Seq<T>,
)
    requires
        weak_order(before),
        ordered(before, a),
        ordered(before, b),
        stable_arrangement(before, a, b),
    ensures
        a == b,
    decreases a.len(),
{
    broadcast use vstd::seq_lib::group_to_multiset_ensures;

    assert(a.len() == b.len()) by {
        assert(a.to_multiset().len() == b.to_multiset().len());
    }
    if a.len() == 0 {
        assert(a =~= b);
    } else {
        let x = a.last();
        let y = b.last();
        let front = a.drop_last();
        let back = b.drop_last();
        assert(a =~= front.push(x));
        assert(b =~= back.push(y));
        // the last value of each list is among the values of the other
        assert(b.contains(x)) by {
            assert(a.contains(x));
            assert(a.to_multiset().count(x) > 0);
        }
        assert(a.contains(y)) by {
            assert(b.contains(y));
            assert(b.to_multiset().count(y) > 0);
        }
        let i = choose|i: int| 0 <= i < a.len() && a[i] == y;
        let j = choose|j: int| 0 <= j < b.len() && b[j] == x;
        assert(!before(x, y)) by {
            if i < a.len() - 1 {
                assert(!before(a[a.len() - 1], a[i]));
            }
        }
        assert(!before(y, x)) by {
            if j < b.len() - 1 {
                assert(!before(b[b.len() - 1], b[j]));
            }
        }
        let tied = tied_with(before, x);
        assert(tied(x) && tied(y));
        front.lemma_filter_push(x, tied);
        back.lemma_filter_push(y, tied);
        assert(b.filter(tied) == a.filter(tied));
        assert(x == y) by {
            assert(front.filter(tied).push(x).last() == x);
            assert(back.filter(tied).push(y).last() == y);
        }
        assert(front.to_multiset() =~= back.to_multiset()) by {
            assert(a.to_multiset() =~= front.to_multiset().insert(x));
            assert(b.to_multiset() =~= back.to_multiset().insert(x));
            assert forall|v: T| front.to_multiset().count(v) == back.to_multiset().count(v) by {
                assert(front.to_multiset().insert(x).count(v) == back.to_multiset().insert(
                    x,
                ).count(v));
            }
        }
        assert forall|r: T|
            back.filter(#[trigger] tied_with(before, r)) == front.filter(
                tied_with(before, r),
            ) by {
            let class = tied_with(before, r);
            front.lemma_filter_push(x, class);
            back.lemma_filter_push(x, class);
            assert(b.filter(class) == a.filter(class));
            if class(x) {
                assert(front.filter(class).push(x).drop_last() =~= front.filter(class));
                assert(back.filter(class).push(x).drop_last() =~= back.filter(class));
            }
        }
        assert(ordered(before, front)) by {
            assert forall|p: int, q: int| 0 <= p < q < front.len() implies !before(
                #[trigger] front[q],
                #[trigger] front[p],
            ) by {
                assert(front[p] == a[p] && front[q] == a[q]);
            }
        }
        assert(ordered(before, back)) by {
            assert forall|p: int, q: int| 0 <= p < q < back.len() implies !before(
                #[trigger] back[q],
                #[trigger] back[p],
            ) by {
                assert(back[p] == b[p] && back[q] == b[q]);
            }
        }
        lemma_ordered_arrangement_is_unique(before, front, back);
    }
}

/// The stable sort is the one ordered list that holds the values of `s`
/// with those that are tied in the order in which they came.
pub proof fn lemma_stable_sort_is_unique<T>(before: spec_fn(T, T) -> bool, s: Seq<T>, out: Seq<T>)
    requires
        weak_order(before),
        ordered(before, out),
        stable_arrangement(before, s, out),
    ensures
        out == stable_sort(before, s),
{
    let sorted = stable_sort(before, s);
    lemma_stable_sort_ordered(before, s);
    lemma_stable_sort_permutes(before, s);
    assert forall|r: T|
        out.filter(#[trigger] tied_with(before, r)) == sorted.filter(tied_with(before, r)) by {
        lemma_stable_sort_stable(before, s, r);
    }
    lemma_ordered_arrangement_is_unique(before, sorted, out);
}

/// Whether no two values of `s` are tied: of any two, one comes before the other.
pub open spec fn untied<T>(before: spec_fn(T, T) -> bool, s: Seq<T>) -> bool {
    forall|i: int, j: int|
        0 <= i < j < s.len() ==> before(#[trigger] s[i], #[trigger] s[j]) || before(s[j], s[i])
}

/// Among values of which no two are tied, at most one is tied with `r`.
pub proof fn lemma_untied_class<T>(before: spec_fn(T, T) -> bool, s: Seq<T>, r: T)
    requires
        weak_order(before),
        untied(before, s),
    ensures
        s.filter(tied_with(before, r)).len() <= 1,
        forall|i: int|
            0 <= i < s.len() && tied_with(before, r)(#[trigger] s[i]) ==> s.filter(
                tied_with(before, r),
            ) == seq![s[i]],
        s.filter(tied_with(before, r)).len() == 1 ==> s.contains(
            s.filter(tied_with(before, r))[0],
        ) && tied_with(before, r)(s.filter(tied_with(before, r))[0]),
    decreases s.len(),
{
    let class = tied_with(before, r);
    if s.len() == 0 {
        assert(s.filter(class).len() == 0) by {
            reveal(Seq::filter);
        }
    } else {
        let front = s.drop_last();
        let x = s.last();
        assert(s =~= front.push(x));
        assert(untied(before, front)) by {
            assert forall|i: int, j: int| 0 <= i < j < front.len() implies before(
                #[trigger] front[i],
                #[trigger] front[j],
            ) || before(front[j], front[i]) by {
                assert(front[i] == s[i] && front[j] == s[j]);
            }
        }
        lemma_untied_class(before, front, r);
        front.lemma_filter_push(x, class);
        if class(x) {
            assert forall|i: int| 0 <= i < front.len() implies !class(#[trigger] front[i]) by {
                let y = front[i];
                assert(y == s[i]);
                assert(before(s[i], s[s.len() - 1]) || before(s[s.len() - 1], s[i]));
                if class(y) {
                    assert(!before(y, r) && !before(r, x));
                    assert(!before(x, r) && !before(r, y));
                }
            }
            assert(front.filter(class).len() == 0) by {
                if front.filter(class).len() == 1 {
                    let y = front.filter(class)[0];
                    let i = choose|i: int| 0 <= i < front.len() && front[i] == y;
                    assert(class(front[i]));
                }
            }
            assert(s.filter(class) =~= seq![x]);
            assert(s.contains(x));
        } else {
            assert forall|i: int| 0 <= i < s.len() && class(#[trigger] s[i]) implies s.filter(
                class,
            ) == seq![s[i]] by {
                assert(front[i] == s[i]);
            }
            if s.filter(class).len() == 1 {
                let y = front.filter(class)[0];
                let i = choose|i: int| 0 <= i < front.len() && front[i] == y;
                assert(s[i] == y);
            }
        }
    }
}

/// Values of which no two are tied, arranged like values that are known
/// to be untied, are untied themselves.
pub proof fn lemma_untied_arrangement<T>(before: spec_fn(T, T) -> bool, s: Seq<T>, t: Seq<T>)
    requires
        weak_order(before),
        untied(before, s),
        s.to_multiset() == t.to_multiset(),
    ensures
        untied(before, t),
{
    broadcast use vstd::seq_lib::group_to_multiset_ensures;

    assert(s.no_duplicates()) by {
        assert forall|i: int, j: int| 0 <= i < s.len() && 0 <= j < s.len() && i != j implies s[i]
            != s[j] by {
            if i < j {
                assert(before(s[i], s[j]) || before(s[j], s[i]));
            } else {
                assert(before(s[j], s[i]) || before(s[i], s[j]));
            }
        }
    }
    s.lemma_multiset_has_no_duplicates();
    t.lemma_multiset_has_no_duplicates_conv();
    assert forall|i: int, j: int| 0 <= i < j < t.len() implies before(
        #[trigger] t[i],
        #[trigger] t[j],
    ) || before(t[j], t[i]) by {
        assert(t.contains(t[i]) && t.contains(t[j]));
        assert(t.to_multiset().count(t[i]) > 0 && t.to_multiset().count(t[j]) > 0);
        assert(s.contains(t[i]) && s.contains(t[j]));
        let p = choose|p: int| 0 <= p < s.len() && s[p] == t[i];
        let q = choose|q: int| 0 <= q < s.len() && s[q] == t[j];
        assert(t[i] != t[j]);
        if p < q {
            assert(before(s[p], s[q]) || before(s[q], s[p]));
        } else {
            assert(before(s[q], s[p]) || before(s[p], s[q]));
        }
    }
}

/// The order of arrival does not matter where no two values are tied: the
/// same values leave in the same order, however they came.
pub proof fn lemma_stable_sort_ignores_arrival_order<T>(
    before: spec_fn(T, T) -> bool,
    s: Seq<T>,
    t: Seq<T>,
)
    requires
        weak_order(before),
        untied(before, s),
        s.to_multiset() == t.to_multiset(),
    ensures
        stable_sort(before, s) == stable_sort(before, t),
{
    broadcast use vstd::seq_lib::group_to_multiset_ensures;

    let a = stable_sort(before, s);
    let b = stable_sort(before, t);
    lemma_untied_arrangement(before, s, t);
    lemma_stable_sort_ordered(before, s);
    lemma_stable_sort_ordered(before, t);
    lemma_stable_sort_permutes(before, s);
    lemma_stable_sort_permutes(before, t);
    assert forall|r: T|
        b.filter(#[trigger] tied_with(before, r)) == a.filter(tied_with(before, r)) by {
        let class = tied_with(before, r);
        lemma_stable_sort_stable(before, s, r);
        lemma_stable_sort_stable(before, t, r);
        lemma_untied_class(before, s, r);
        lemma_untied_class(before, t, r);
        if s.filter(class).len() == 1 {
            let x = s.filter(class)[0];
            assert(s.to_multiset().count(x) > 0);
            assert(t.contains(x));
            let i = choose|i: int| 0 <= i < t.len() && t[i] == x;
            assert(class(t[i]));
            assert(s.filter(class) =~= seq![x]);
        } else if t.filter(class).len() == 1 {
            let x = t.filter(class)[0];
            assert(t.to_multiset().count(x) > 0);
            assert(s.contains(x));
            let i = choose|i: int| 0 <= i < s.len() && s[i] == x;
            assert(class(s[i]));
        } else {
            assert(s.filter(class) =~= t.filter(class));
        }
    }
    lemma_ordered_arrangement_is_unique(before, a, b);
}

/// The images under `f` of the values of `s` that `keep` keeps, in order.
pub open spec fn picked<T, U>(s: Seq<T>, keep: spec_fn(T) -> bool, f: spec_fn(T) -> U) -> Seq<U> {
    s.filter(keep).map_values(f)
}

/// What is picked from two lists in a row is what is picked from each.
pub proof fn lemma_picked_concat<T, U>(
    a: Seq<T>,
    b: Seq<T>,
    keep: spec_fn(T) -> bool,
    f: spec_fn(T) -> U,
)
    ensures
        picked(a + b, keep, f) == picked(a, keep, f) + picked(b, keep, f),
{
    Seq::filter_distributes_over_add(a, b, keep);
    assert((a.filter(keep) + b.filter(keep)).map_values(f) =~= a.filter(keep).map_values(f)
        + b.filter(keep).map_values(f));
}

/// What is picked from a list does not depend, but for its order, on the
/// order of the list.
pub proof fn lemma_picked_permutation<T, U>(
    s: Seq<T>,
    t: Seq<T>,
    keep: spec_fn(T) -> bool,
    f: spec_fn(T) -> U,
)
    requires
        s.to_multiset() == t.to_multiset(),
    ensures
        picked(s, keep, f).to_multiset() == picked(t, keep, f).to_multiset(),
    decreases s.len(),
{
    broadcast use {vstd::seq_lib::group_to_multiset_ensures, vstd::multiset::group_multiset_axioms};

    vstd::seq_lib::to_multiset_len(s);
    vstd::seq_lib::to_multiset_len(t);
    if s.len() == 0 {
        assert(s =~= t);
    } else {
        let x = s.last();
        let front = s.drop_last();
        assert(s =~= front + seq![x]);
        assert(s.contains(x));
        assert(s.to_multiset().count(x) > 0);
        assert(t.contains(x));
        let q = choose|q: int| 0 <= q < t.len() && t[q] == x;
        let rest = t.remove(q);
        let head = t.subrange(0, q);
        let tail = t.subrange(q + 1, t.len() as int);
        assert(t =~= head + seq![x] + tail);
        assert(rest =~= head + tail);
        vstd::seq_lib::to_multiset_remove(t, q);
        vstd::seq_lib::to_multiset_build(front, x);
        assert(s =~= front.push(x));
        assert(front.to_multiset() =~= rest.to_multiset()) by {
            assert(front.to_multiset() =~= s.to_multiset().remove(x));
        }
        lemma_picked_permutation(front, rest, keep, f);
        lemma_picked_concat(front, seq![x], keep, f);
        lemma_picked_concat(head, seq![x], keep, f);
        lemma_picked_concat(head + seq![x], tail, keep, f);
        lemma_picked_concat(head, tail, keep, f);
        let one = picked(seq![x], keep, f);
        vstd::seq_lib::lemma_multiset_commutative(picked(front, keep, f), one);
        vstd::seq_lib::lemma_multiset_commutative(picked(head, keep, f), one);
        vstd::seq_lib::lemma_multiset_commutative(picked(head, keep, f) + one, picked(tail, keep, f));
        vstd::seq_lib::lemma_multiset_commutative(picked(head, keep, f), picked(tail, keep, f));
        assert(picked(s, keep, f).to_multiset() =~= picked(t, keep, f).to_multiset());
    }
}

/// What holds of every two kept values of a list, the earlier first,
/// holds of every two values of what is kept.
pub proof fn lemma_filter_keeps_pairs<T>(
    s: Seq<T>,
    keep: spec_fn(T) -> bool,
    rel: spec_fn(T, T) -> bool,
)
    requires
        forall|i: int, j: int|
            #![trigger s[i], s[j]]
            0 <= i < j < s.len() && keep(s[i]) && keep(s[j]) ==> rel(s[i], s[j]),
    ensures
        forall|i: int, j: int|
            #![trigger s.filter(keep)[i], s.filter(keep)[j]]
            0 <= i < j < s.filter(keep).len() ==> rel(s.filter(keep)[i], s.filter(keep)[j]),
    decreases s.len(),
{
    if s.len() == 0 {
        assert(s.filter(keep).len() == 0) by {
            reveal(Seq::filter);
        }
    } else {
        let front = s.drop_last();
        let x = s.last();
        let kept = front.filter(keep);
        assert(s =~= front.push(x));
        assert forall|i: int, j: int|
            #![trigger front[i], front[j]]
            0 <= i < j < front.len() && keep(front[i]) && keep(front[j]) implies rel(
            front[i],
            front[j],
        ) by {
            assert(front[i] == s[i] && front[j] == s[j]);
        }
        lemma_filter_keeps_pairs(front, keep, rel);
        front.lemma_filter_push(x, keep);
        if keep(x) {
            assert forall|i: int| 0 <= i < kept.len() implies rel(#[trigger] kept[i], x) by {
                assert(kept.contains(kept[i]));
                front.lemma_filter_contains_rev(keep, kept[i]);
                front.lemma_filter_pred(keep, i);
                let p = choose|p: int| 0 <= p < front.len() && front[p] == kept[i];
                assert(s[p] == kept[i] && s[s.len() - 1] == x);
            }
            let out = s.filter(keep);
            assert forall|i: int, j: int|
                #![trigger out[i], out[j]]
                0 <= i < j < out.len() implies rel(out[i], out[j]) by {
                if j < kept.len() {
                    assert(out[i] == kept[i] && out[j] == kept[j]);
                } else {
                    assert(out[i] == kept[i] && out[j] == x);
                }
            }
        }
    }
}

/// Ordered lists of the same values, of which no two are tied, are one list.
pub proof fn lemma_untied_order_is_unique<T>(before: spec_fn(T, T) -> bool, a: Seq<T>, b: Seq<T>)
    requires
        weak_order(before),
        ordered(before, a),
        ordered(before, b),
        untied(before, a),
        a.to_multiset() == b.to_multiset(),
    ensures
        a == b,
{
    lemma_stable_sort_keeps_ordered(before, a);
    lemma_stable_sort_keeps_ordered(before, b);
    lemma_stable_sort_ignores_arrival_order(before, a, b);
}

/// A way of ranking values that can be computed.
pub trait Ranking<T> {
    /// Whether `a` comes before `b`.
    spec fn before(&self, a: T, b: T) -> bool;

    /// The ranking is that of an order by a key.
    proof fn lemma_ranking_is_weak_order(&self)
        ensures
            weak_order(|a: T, b: T| self.before(a, b)),
    ;

    /// Tells whether `a` comes before `b`.
    fn comes_before(&self, a: &T, b: &T) -> (r: bool)
        ensures
            r == self.before(*a, *b),
    ;
}

/// The relation of a ranking.
pub open spec fn relation<T, R: Ranking<T>>(ranking: &R) -> spec_fn(T, T) -> bool {
    |a: T, b: T| ranking.before(a, b)
}

/// Turns a list around.
pub fn reverse<T>(list: Vec<T>) -> (r: Vec<T>)
    ensures
        r@ == list@.reverse(),
{
    let mut list = list;
    let ghost all = list@;
    let mut r: Vec<T> = Vec::new();
    while list.len() > 0
        invariant
            list.len() <= all.len(),
            r.len() == all.len() - list.len(),
            list@ == all.take(list.len() as int),
            forall|k: int| 0 <= k < r.len() ==> r@[k] == all[all.len() - 1 - k],
        decreases list.len(),
    {
        let last = list.pop();
        match last {
            Some(value) => {
                r.push(value);
            },
            None => {},
        }
    }
    proof {
        assert(r@ =~= all.reverse());
    }
    r
}

/// Merges two ordered lists into one: the smaller head goes first, and
/// that of `a` where the heads are tied.
fn merge<T, R: Ranking<T>>(ranking: &R, a: Vec<T>, b: Vec<T>) -> (out: Vec<T>)
    requires
        ordered(relation(ranking), a@),
        ordered(relation(ranking), b@),
    ensures
        ordered(relation(ranking), out@),
        stable_arrangement(relation(ranking), a@ + b@, out@),
{
    broadcast use {vstd::seq_lib::group_to_multiset_ensures, vstd::multiset::group_multiset_axioms};

    let ghost before = relation(ranking);
    let ghost aa = a@;
    let ghost bb = b@;
    let mut ra = reverse(a);
    let mut rb = reverse(b);
    let mut out: Vec<T> = Vec::new();
    let ghost mut i: int = 0;
    let ghost mut j: int = 0;
    proof {
        ranking.lemma_ranking_is_weak_order();
        assert(aa.take(0) =~= Seq::empty());
        assert(bb.take(0) =~= Seq::empty());
        assert(out@.to_multiset() =~= aa.take(0).to_multiset().add(bb.take(0).to_multiset()));
        assert forall|r: T|
            out@.filter(#[trigger] tied_with(before, r)) == aa.take(0).filter(
                tied_with(before, r),
            ) + bb.take(0).filter(tied_with(before, r)) by {
            let class = tied_with(before, r);
            assert(out@.filter(class) =~= aa.take(0).filter(class) + bb.take(0).filter(class)) by {
                reveal(Seq::filter);
            }
        }
    }
    while ra.len() > 0 || rb.len() > 0
        invariant
            before == relation(ranking),
            weak_order(before),
            ordered(before, aa),
            ordered(before, bb),
            0 <= i <= aa.len(),
            0 <= j <= bb.len(),
            ra.len() == aa.len() - i,
            rb.len() == bb.len() - j,
            forall|k: int| 0 <= k < ra.len() ==> ra@[k] == aa[aa.len() - 1 - k],
            forall|k: int| 0 <= k < rb.len() ==> rb@[k] == bb[bb.len() - 1 - k],
            out@.len() == i + j,
            out@.to_multiset() == aa.take(i).to_multiset().add(bb.take(j).to_multiset()),
            forall|r: T|
                out@.filter(#[trigger] tied_with(before, r)) == aa.take(i).filter(
                    tied_with(before, r),
                ) + bb.take(j).filter(tied_with(before, r)),
            ordered(before, out@),
            forall|k: int|
                0 <= k < out@.len() && i < aa.len() ==> !before(aa[i], #[trigger] out@[k]),
            forall|k: int|
                0 <= k < out@.len() && j < bb.len() ==> !before(bb[j], #[trigger] out@[k]),
            forall|k: int| 0 <= k < j && i < aa.len() ==> before(#[trigger] bb[k], aa[i]),
        decreases ra.len() + rb.len(),
    {
        let ghost held = out@;
        let take_b = if rb.len() == 0 {
            false
        } else if ra.len() == 0 {
            true
        } else {
            ranking.comes_before(&rb[rb.len() - 1], &ra[ra.len() - 1])
        };
        if take_b {
            let next = rb.pop();
            match next {
                Some(value) => {
                    out.push(value);
                },
                None => {},
            }
            proof {
                let y = bb[j];
                assert(out@ == held.push(y));
                assert(bb.take(j + 1) =~= bb.take(j).push(y));
                vstd::seq_lib::to_multiset_build(held, y);
                vstd::seq_lib::to_multiset_build(bb.take(j), y);
                assert(out@.to_multiset() =~= aa.take(i).to_multiset().add(
                    bb.take(j + 1).to_multiset(),
                ));
                assert forall|r: T|
                    out@.filter(#[trigger] tied_with(before, r)) == aa.take(i).filter(
                        tied_with(before, r),
                    ) + bb.take(j + 1).filter(tied_with(before, r)) by {
                    let class = tied_with(before, r);
                    held.lemma_filter_push(y, class);
                    bb.take(j).lemma_filter_push(y, class);
                    assert(held.filter(class) == aa.take(i).filter(class) + bb.take(j).filter(
                        class,
                    ));
                    assert(out@.filter(class) =~= aa.take(i).filter(class) + bb.take(
                        j + 1,
                    ).filter(class));
                }
                assert forall|p: int, q: int| 0 <= p < q < out@.len() implies !before(
                    #[trigger] out@[q],
                    #[trigger] out@[p],
                ) by {
                    if q < held.len() {
                        assert(out@[p] == held[p] && out@[q] == held[q]);
                    } else {
                        assert(out@[p] == held[p]);
                    }
                }
                assert forall|k: int| 0 <= k < out@.len() && i < aa.len() implies !before(
                    aa[i],
                    #[trigger] out@[k],
                ) by {
                    if k < held.len() {
                        assert(out@[k] == held[k]);
                    } else {
                        assert(before(y, aa[i]));
                    }
                }
                assert forall|k: int| 0 <= k < out@.len() && j + 1 < bb.len() implies !before(
                    bb[j + 1],
                    #[trigger] out@[k],
                ) by {
                    assert(!before(bb[j + 1], bb[j]));
                    if k < held.len() {
                        assert(out@[k] == held[k]);
                        assert(!before(bb[j], held[k]));
                    }
                }
                assert forall|k: int| 0 <= k < j + 1 && i < aa.len() implies before(
                    #[trigger] bb[k],
                    aa[i],
                ) by {
                    if k == j {
                        assert(before(y, aa[i]));
                    }
                }
                j = j + 1;
            }
        } else {
            let next = ra.pop();
            match next {
                Some(value) => {
                    out.push(value);
                },
                None => {},
            }
            proof {
                let x = aa[i];
                assert(out@ == held.push(x));
                assert(aa.take(i + 1) =~= aa.take(i).push(x));
                vstd::seq_lib::to_multiset_build(held, x);
                vstd::seq_lib::to_multiset_build(aa.take(i), x);
                assert(out@.to_multiset() =~= aa.take(i + 1).to_multiset().add(
                    bb.take(j).to_multiset(),
                ));
                assert forall|r: T|
                    out@.filter(#[trigger] tied_with(before, r)) == aa.take(i + 1).filter(
                        tied_with(before, r),
                    ) + bb.take(j).filter(tied_with(before, r)) by {
                    let class = tied_with(before, r);
                    held.lemma_filter_push(x, class);
                    aa.take(i).lemma_filter_push(x, class);
                    assert(held.filter(class) == aa.take(i).filter(class) + bb.take(j).filter(
                        class,
                    ));
                    if class(x) {
                        let taken = bb.take(j);
                        assert forall|k: int| 0 <= k < taken.len() implies !class(
                            #[trigger] taken[k],
                        ) by {
                            assert(taken[k] == bb[k]);
                            assert(before(bb[k], x));
                            if class(bb[k]) {
                                assert(!before(bb[k], r) && !before(r, x));
                            }
                        }
                        assert(taken.all(|v: T| !class(v)));
                        taken.lemma_all_neg_filter_empty(class);
                        assert(taken.filter(class) =~= Seq::empty());
                    }
                    assert(out@.filter(class) =~= aa.take(i + 1).filter(class) + bb.take(
                        j,
                    ).filter(class));
                }
                assert forall|p: int, q: int| 0 <= p < q < out@.len() implies !before(
                    #[trigger] out@[q],
                    #[trigger] out@[p],
                ) by {
                    if q < held.len() {
                        assert(out@[p] == held[p] && out@[q] == held[q]);
                    } else {
                        assert(out@[p] == held[p]);
                    }
                }
                assert forall|k: int| 0 <= k < out@.len() && i + 1 < aa.len() implies !before(
                    aa[i + 1],
                    #[trigger] out@[k],
                ) by {
                    assert(!before(aa[i + 1], aa[i]));
                    if k < held.len() {
                        assert(out@[k] == held[k]);
                        assert(!before(aa[i], held[k]));
                    }
                }
                assert forall|k: int| 0 <= k < out@.len() && j < bb.len() implies !before(
                    bb[j],
                    #[trigger] out@[k],
                ) by {
                    if k < held.len() {
                        assert(out@[k] == held[k]);
                    } else {
                        assert(!before(bb[j], x));
                    }
                }
                assert forall|k: int| 0 <= k < j && i + 1 < aa.len() implies before(
                    #[trigger] bb[k],
                    aa[i + 1],
                ) by {
                    assert(before(bb[k], aa[i]));
                    assert(!before(aa[i + 1], aa[i]));
                }
                i = i + 1;
            }
        }
    }
    proof {
        assert(aa.take(i) =~= aa);
        assert(bb.take(j) =~= bb);
        vstd::seq_lib::lemma_multiset_commutative(aa, bb);
        assert forall|r: T|
            out@.filter(#[trigger] tied_with(before, r)) == (aa + bb).filter(
                tied_with(before, r),
            ) by {
            Seq::filter_distributes_over_add(aa, bb, tied_with(before, r));
        }
    }
    out
}

/// Sorts a list: the result is ordered by the ranking, and values that
/// are tied stay in the order in which they came.
pub fn merge_sort<T, R: Ranking<T>>(ranking: &R, items: Vec<T>) -> (out: Vec<T>)
    ensures
        out@ == stable_sort(relation(ranking), items@),
    decreases items@.len(),
{
    broadcast use vstd::seq_lib::group_to_multiset_ensures;

    let ghost before = relation(ranking);
    let ghost all = items@;
    let n = items.len();
    proof {
        ranking.lemma_ranking_is_weak_order();
    }
    if n <= 1 {
        proof {
            lemma_stable_sort_keeps_ordered(before, all);
        }
        return items;
    }
    let mut left = items;
    let right = left.split_off(n / 2);
    let ghost first = left@;
    let ghost second = right@;
    let a = merge_sort(ranking, left);
    let b = merge_sort(ranking, right);
    proof {
        lemma_stable_sort_ordered(before, first);
        lemma_stable_sort_ordered(before, second);
    }
    let out = merge(ranking, a, b);
    proof {
        assert(all =~= first + second);
        lemma_stable_sort_permutes(before, first);
        lemma_stable_sort_permutes(before, second);
        vstd::seq_lib::lemma_multiset_commutative(a@, b@);
        vstd::seq_lib::lemma_multiset_commutative(first, second);
        assert forall|r: T|
            out@.filter(#[trigger] tied_with(before, r)) == all.filter(tied_with(before, r)) by {
            let class = tied_with(before, r);
            lemma_stable_sort_stable(before, first, r);
            lemma_stable_sort_stable(before, second, r);
            Seq::filter_distributes_over_add(a@, b@, class);
            Seq::filter_distributes_over_add(first, second, class);
        }
        lemma_stable_sort_is_unique(before, all, out@);
    }
    out
}

} // verus!
