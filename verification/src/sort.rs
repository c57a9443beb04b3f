//! The sort engine: one comparator, built from the sorting flags, and a
//! stable sort that applies it to every level of a forest.

use crate::flags::sorting::{DirGrouping, SortColumn, SortOrder, Sorting};
use crate::meta::{
    count_all, lemma_content_views, lemma_paths_all_push, paths_all, views, Meta, MetaView,
};
use crate::natural::{natural_key, natural_key_of};
use crate::order::{
    chained, compare_bytes, compare_numbers, int_order, ints, lemma_lex_antisymmetric,
    lemma_lex_equal, lemma_lex_reflexive, lemma_lex_transitive, lex, lex_option, Rank,
};
use crate::stable::{
    carries, insert_position, lemma_filter_keeps_pairs, lemma_insert_position,
    lemma_picked_permutation, lemma_stable_sort_commutes,
    lemma_stable_sort_ignores_arrival_order, lemma_stable_sort_keeps_ordered,
    lemma_stable_sort_len, lemma_stable_sort_maps, lemma_stable_sort_ordered,
    lemma_stable_sort_permutes, lemma_stable_sort_stable, lemma_untied_arrangement,
    lemma_untied_order_is_unique, merge_sort, ordered, picked, relation, reverse, stable_sort,
    tied_with, untied, weak_order, Ranking,
};
use vstd::prelude::*;
use vstd::utf8::encode_utf8;

verus! {

/// What `str::to_lowercase` makes of a string.
pub uninterp spec fn lowercase(s: Seq<char>) -> Seq<char>;

/// What `Path::extension` finds in a file name.
pub uninterp spec fn extension(name: Seq<char>) -> Option<Seq<char>>;

/// Calls `str::to_lowercase` of the standard library. Taken on trust: the
/// call returns, and what it returns depends on the characters of `s`
/// alone, so that it has the name `lowercase(s@)`. Nothing is claimed of
/// the characters that it holds.
#[verifier::external_body]
fn to_lowercase(s: &str) -> (r: String)
    ensures
        r@ == lowercase(s@),
{
    s.to_lowercase()
}

/// Calls `Path::extension` of the standard library on a file name. Taken
/// on trust: the call returns, and whether it finds an extension and
/// which depends on the characters of `name` alone, so that the result has
/// the name `extension(name@)`. Nothing is claimed of where the extension
/// starts. The extension of a name is a part of it, so that it is a
/// string as the name is.
#[verifier::external_body]
fn file_extension(name: &str) -> (r: Option<String>)
    ensures
        r is Some <==> extension(name@) is Some,
        r matches Some(e) ==> extension(name@) == Some(e@),
{
    match std::path::Path::new(name).extension() {
        Some(e) => Some(e.to_string_lossy().into_owned()),
        None => None,
    }
}

/// The UTF-8 bytes of a string, as integers.
pub open spec fn code(s: Seq<char>) -> Seq<int> {
    ints(encode_utf8(s))
}

/// The bytes of a string that may be absent.
pub open spec fn code_option(s: Option<Seq<char>>) -> Option<Seq<int>> {
    match s {
        Some(t) => Some(code(t)),
        None => None,
    }
}

/// The order of two flags: `false` before `true`.
pub open spec fn bool_order(x: bool, y: bool) -> Rank {
    int_order(if x { 1 } else { 0 }, if y { 1 } else { 0 })
}

/// The order in which the larger number comes first and an absent one
/// before all others.
pub open spec fn descending_order(x: Option<int>, y: Option<int>) -> Rank {
    match (x, y) {
        (Some(p), Some(q)) => int_order(q, p),
        (Some(_), None) => Rank::Greater,
        (None, Some(_)) => Rank::Less,
        (None, None) => Rank::Equal,
    }
}

/// The place of a record's git state: none before any, then by the state
/// in the index, then by that in the working directory.
pub open spec fn git_key(m: MetaView) -> int {
    match m.git_status {
        Some(g) => g.index.rank() * 10 + g.workdir.rank(),
        None => -1,
    }
}

/// Directories before or after the other records, or neither.
pub open spec fn grouping_order(grouping: DirGrouping, a: MetaView, b: MetaView) -> Rank {
    match grouping {
        DirGrouping::Ungrouped => Rank::Equal,
        DirGrouping::First => bool_order(b.is_dir, a.is_dir),
        DirGrouping::Last => bool_order(a.is_dir, b.is_dir),
    }
}

/// The order of the names, byte by byte.
pub open spec fn exact_order(a: MetaView, b: MetaView) -> Rank {
    lex(code(a.name), code(b.name))
}

/// The order of the names without regard to case.
pub open spec fn name_order(a: MetaView, b: MetaView) -> Rank {
    lex(code(lowercase(a.name)), code(lowercase(b.name)))
}

/// The order of the extensions; a name without one comes first.
pub open spec fn extension_order(a: MetaView, b: MetaView) -> Rank {
    lex_option(code_option(extension(a.name)), code_option(extension(b.name)))
}

/// Newest first; a record whose time could not be read comes before all.
pub open spec fn time_order(a: MetaView, b: MetaView) -> Rank {
    descending_order(
        match a.modified {
            Some(t) => Some(t as int),
            None => None,
        },
        match b.modified {
            Some(t) => Some(t as int),
            None => None,
        },
    )
}

/// Largest first; a record whose size could not be read comes before all.
pub open spec fn size_order(a: MetaView, b: MetaView) -> Rank {
    descending_order(
        match a.size {
            Some(t) => Some(t as int),
            None => None,
        },
        match b.size {
            Some(t) => Some(t as int),
            None => None,
        },
    )
}

/// The natural order of the names, in which runs of digits count as numbers.
pub open spec fn version_order(a: MetaView, b: MetaView) -> Rank {
    lex(natural_key(code(a.name)), natural_key(code(b.name)))
}

/// The order of the git states.
pub open spec fn git_order(a: MetaView, b: MetaView) -> Rank {
    int_order(git_key(a), git_key(b))
}

/// The order that a column gives. Every column but `NoSort` falls back to
/// the exact order of the names where it leaves two records tied.
pub open spec fn column_order(column: SortColumn, a: MetaView, b: MetaView) -> Rank {
    match column {
        SortColumn::NoSort => Rank::Equal,
        SortColumn::Extension => extension_order(a, b).or(exact_order(a, b)),
        SortColumn::Name => name_order(a, b).or(exact_order(a, b)),
        SortColumn::Time => time_order(a, b).or(exact_order(a, b)),
        SortColumn::Size => size_order(a, b).or(exact_order(a, b)),
        SortColumn::Version => version_order(a, b).or(exact_order(a, b)),
        SortColumn::GitStatus => git_order(a, b).or(exact_order(a, b)),
    }
}

/// The column's order in the direction asked for.
pub open spec fn directed_order(sorting: Sorting, a: MetaView, b: MetaView) -> Rank {
    match sorting.order {
        SortOrder::Default => column_order(sorting.column, a, b),
        SortOrder::Reverse => column_order(sorting.column, a, b).reversed(),
    }
}

/// The comparator: directory grouping decides first, then the column in
/// its direction. Reversing never moves a record across the grouping.
#[verifier::opaque]
pub open spec fn compare(sorting: Sorting, a: MetaView, b: MetaView) -> Rank {
    grouping_order(sorting.dir_grouping, a, b).or(directed_order(sorting, a, b))
}

/// Orders two flags: `false` before `true`.
fn exec_bool_order(x: bool, y: bool) -> (r: Rank)
    ensures
        r == bool_order(x, y),
{
    if x == y {
        Rank::Equal
    } else if y {
        Rank::Less
    } else {
        Rank::Greater
    }
}

/// Orders two records by the bytes of their names.
fn by_exact_name(a: &Meta, b: &Meta) -> (r: Rank)
    ensures
        r == exact_order(a@, b@),
{
    compare_bytes(a.name.as_str().as_bytes(), b.name.as_str().as_bytes())
}

/// Orders two records by their names without regard to case.
fn by_name(a: &Meta, b: &Meta) -> (r: Rank)
    ensures
        r == name_order(a@, b@),
{
    let la = to_lowercase(a.name.as_str());
    let lb = to_lowercase(b.name.as_str());
    compare_bytes(la.as_str().as_bytes(), lb.as_str().as_bytes())
}

/// Orders two extensions as `Path::extension` gave them.
pub fn order_extensions(a: &Option<String>, b: &Option<String>) -> (r: Rank)
    ensures
        r == lex_option(
            code_option(
                match a {
                    Some(s) => Some(s@),
                    None => None,
                },
            ),
            code_option(
                match b {
                    Some(s) => Some(s@),
                    None => None,
                },
            ),
        ),
{
    match (a, b) {
        (None, None) => Rank::Equal,
        (None, Some(_)) => Rank::Less,
        (Some(_), None) => Rank::Greater,
        (Some(x), Some(y)) => compare_bytes(x.as_str().as_bytes(), y.as_str().as_bytes()),
    }
}

/// Orders two records by the extensions of their names.
fn by_extension(a: &Meta, b: &Meta) -> (r: Rank)
    ensures
        r == extension_order(a@, b@),
{
    let ea = file_extension(a.name.as_str());
    let eb = file_extension(b.name.as_str());
    order_extensions(&ea, &eb)
}

/// Orders two records by their modification times, newest first.
fn by_time(a: &Meta, b: &Meta) -> (r: Rank)
    ensures
        r == time_order(a@, b@),
{
    match (a.modified, b.modified) {
        (Some(p), Some(q)) => if q < p {
            Rank::Less
        } else if q > p {
            Rank::Greater
        } else {
            Rank::Equal
        },
        (Some(_), None) => Rank::Greater,
        (None, Some(_)) => Rank::Less,
        (None, None) => Rank::Equal,
    }
}

/// Orders two records by their sizes, largest first.
fn by_size(a: &Meta, b: &Meta) -> (r: Rank)
    ensures
        r == size_order(a@, b@),
{
    match (a.size, b.size) {
        (Some(p), Some(q)) => if q < p {
            Rank::Less
        } else if q > p {
            Rank::Greater
        } else {
            Rank::Equal
        },
        (Some(_), None) => Rank::Greater,
        (None, Some(_)) => Rank::Less,
        (None, None) => Rank::Equal,
    }
}

/// Orders two records by the natural keys of their names.
fn by_version(a: &Meta, b: &Meta) -> (r: Rank)
    ensures
        r == version_order(a@, b@),
{
    let ka = natural_key_of(a.name.as_str().as_bytes());
    let kb = natural_key_of(b.name.as_str().as_bytes());
    compare_numbers(&ka, &kb)
}

/// Computes the place of a record's git state.
fn git_key_of(m: &Meta) -> (k: i32)
    ensures
        k == git_key(m@),
{
    match m.git_status {
        Some(g) => {
            let index: i32 = g.index.rank_of() as i32;
            let workdir: i32 = g.workdir.rank_of() as i32;
            index * 10 + workdir
        },
        None => -1,
    }
}

/// Orders two records by their git states.
fn by_git_status(a: &Meta, b: &Meta) -> (r: Rank)
    ensures
        r == git_order(a@, b@),
{
    let ka = git_key_of(a);
    let kb = git_key_of(b);
    if ka < kb {
        Rank::Less
    } else if ka > kb {
        Rank::Greater
    } else {
        Rank::Equal
    }
}

/// Orders two records by a column, ties by the bytes of their names.
fn by_column(column: SortColumn, a: &Meta, b: &Meta) -> (r: Rank)
    ensures
        r == column_order(column, a@, b@),
{
    let first = match column {
        SortColumn::NoSort => {
            return Rank::Equal;
        },
        SortColumn::Extension => by_extension(a, b),
        SortColumn::Name => by_name(a, b),
        SortColumn::Time => by_time(a, b),
        SortColumn::Size => by_size(a, b),
        SortColumn::Version => by_version(a, b),
        SortColumn::GitStatus => by_git_status(a, b),
    };
    if first.is_equal() {
        by_exact_name(a, b)
    } else {
        first
    }
}

/// Compares two records as the sorting flags ask.
pub fn by_meta(sorting: &Sorting, a: &Meta, b: &Meta) -> (r: Rank)
    ensures
        r == compare(*sorting, a@, b@),
{
    proof {
        reveal(compare);
    }
    let group = match sorting.dir_grouping {
        DirGrouping::Ungrouped => Rank::Equal,
        DirGrouping::First => exec_bool_order(b.is_dir, a.is_dir),
        DirGrouping::Last => exec_bool_order(a.is_dir, b.is_dir),
    };
    if !group.is_equal() {
        return group;
    }
    let column = by_column(sorting.column, a, b);
    match sorting.order {
        SortOrder::Default => column,
        SortOrder::Reverse => column.reverse(),
    }
}

/// Every record is tied with itself.
pub proof fn lemma_compare_reflexive(sorting: Sorting, a: MetaView)
    ensures
        compare(sorting, a, a) == Rank::Equal,
{
    reveal(compare);
    lemma_lex_reflexive(code(a.name));
    lemma_lex_reflexive(code(lowercase(a.name)));
    lemma_lex_reflexive(natural_key(code(a.name)));
    if extension(a.name) is Some {
        lemma_lex_reflexive(code(extension(a.name)->0));
    }
}

/// Exchanging the two records reverses the outcome.
pub proof fn lemma_compare_antisymmetric(sorting: Sorting, a: MetaView, b: MetaView)
    ensures
        compare(sorting, b, a) == compare(sorting, a, b).reversed(),
{
    reveal(compare);
    lemma_lex_antisymmetric(code(a.name), code(b.name));
    lemma_lex_antisymmetric(code(lowercase(a.name)), code(lowercase(b.name)));
    lemma_lex_antisymmetric(natural_key(code(a.name)), natural_key(code(b.name)));
    if extension(a.name) is Some && extension(b.name) is Some {
        lemma_lex_antisymmetric(code(extension(a.name)->0), code(extension(b.name)->0));
    }
}

/// The column orders are transitive.
pub proof fn lemma_column_transitive(column: SortColumn, a: MetaView, b: MetaView, c: MetaView)
    ensures
        chained(column_order(column, a, b), column_order(column, b, c), column_order(column, a, c)),
{
    lemma_lex_transitive(code(a.name), code(b.name), code(c.name));
    match column {
        SortColumn::Name => {
            lemma_lex_transitive(
                code(lowercase(a.name)),
                code(lowercase(b.name)),
                code(lowercase(c.name)),
            );
        },
        SortColumn::Version => {
            lemma_lex_transitive(
                natural_key(code(a.name)),
                natural_key(code(b.name)),
                natural_key(code(c.name)),
            );
        },
        SortColumn::Extension => {
            if extension(a.name) is Some && extension(b.name) is Some && extension(c.name) is Some {
                lemma_lex_transitive(
                    code(extension(a.name)->0),
                    code(extension(b.name)->0),
                    code(extension(c.name)->0),
                );
            }
        },
        _ => {},
    }
}

/// The comparator is transitive.
pub proof fn lemma_compare_transitive(sorting: Sorting, a: MetaView, b: MetaView, c: MetaView)
    ensures
        chained(compare(sorting, a, b), compare(sorting, b, c), compare(sorting, a, c)),
{
    reveal(compare);
    lemma_column_transitive(sorting.column, a, b, c);
}

/// The comparator reads nothing of what lies below a record.
pub proof fn lemma_compare_ignores_content(
    sorting: Sorting,
    a: MetaView,
    b: MetaView,
    below_a: Option<Seq<MetaView>>,
    below_b: Option<Seq<MetaView>>,
)
    ensures
        compare(sorting, a.with_content(below_a), b.with_content(below_b)) == compare(
            sorting,
            a,
            b,
        ),
{
    reveal(compare);
}

/// Grouping takes precedence: where it ranks two records, it decides,
/// whatever the column and the direction are, so that with directories
/// first a directory comes before any other record; reversing the
/// direction reverses the outcome within one group only.
pub proof fn lemma_grouping_precedence(sorting: Sorting, a: MetaView, b: MetaView)
    ensures
        grouping_order(sorting.dir_grouping, a, b) != Rank::Equal ==> compare(sorting, a, b)
            == grouping_order(sorting.dir_grouping, a, b),
        sorting.dir_grouping == DirGrouping::First && a.is_dir && !b.is_dir ==> compare(
            sorting,
            a,
            b,
        ) == Rank::Less,
        sorting.dir_grouping == DirGrouping::First && !a.is_dir && b.is_dir ==> compare(
            sorting,
            a,
            b,
        ) == Rank::Greater,
        sorting.dir_grouping == DirGrouping::Last && a.is_dir && !b.is_dir ==> compare(
            sorting,
            a,
            b,
        ) == Rank::Greater,
        sorting.dir_grouping == DirGrouping::Last && !a.is_dir && b.is_dir ==> compare(
            sorting,
            a,
            b,
        ) == Rank::Less,
        grouping_order(sorting.dir_grouping, a, b) == Rank::Equal ==> compare(
            Sorting { order: SortOrder::Reverse, ..sorting },
            a,
            b,
        ) == compare(Sorting { order: SortOrder::Default, ..sorting }, a, b).reversed(),
{
    reveal(compare);
}

/// Names with the same bytes are the same name.
pub proof fn lemma_code_is_injective(a: Seq<char>, b: Seq<char>)
    requires
        code(a) == code(b),
    ensures
        a == b,
{
    let x = encode_utf8(a);
    let y = encode_utf8(b);
    assert(x.len() == y.len()) by {
        assert(code(a).len() == x.len());
        assert(code(b).len() == y.len());
    }
    assert forall|i: int| 0 <= i < x.len() implies x[i] == y[i] by {
        assert(code(a)[i] == x[i] as int);
        assert(code(b)[i] == y[i] as int);
    }
    assert(x =~= y);
    vstd::utf8::encode_utf8_decode_utf8(a);
    vstd::utf8::encode_utf8_decode_utf8(b);
}

/// The order is deterministic: under every column but `NoSort`, only
/// records of one name are left tied.
pub proof fn lemma_tied_records_share_name(sorting: Sorting, a: MetaView, b: MetaView)
    requires
        sorting.column != SortColumn::NoSort,
        compare(sorting, a, b) == Rank::Equal,
    ensures
        a.name == b.name,
{
    reveal(compare);
    assert(exact_order(a, b) == Rank::Equal);
    lemma_lex_equal(code(a.name), code(b.name));
    lemma_code_is_injective(a.name, b.name);
}

/// Whether the comparator puts `a` before `b`.
pub open spec fn comes_before(sorting: Sorting) -> spec_fn(MetaView, MetaView) -> bool {
    |a: MetaView, b: MetaView| compare(sorting, a, b) == Rank::Less
}

/// Whether the comparator leaves a record tied with `r`.
pub open spec fn tied(sorting: Sorting, r: MetaView) -> spec_fn(MetaView) -> bool {
    |x: MetaView| compare(sorting, x, r) == Rank::Equal
}

/// The records of one level in the order of the comparator, records that
/// are tied in the order in which they came.
pub open spec fn sort_level(sorting: Sorting, s: Seq<MetaView>) -> Seq<MetaView> {
    stable_sort(comes_before(sorting), s)
}

/// A record with every level below it ordered.
pub open spec fn sort_tree(sorting: Sorting, m: MetaView) -> MetaView
    decreases m,
{
    match m.content {
        Some(below) => m.with_content(Some(sort_forest(sorting, below))),
        None => m,
    }
}

/// The records of a level, each with every level below it ordered, in the
/// order of the comparator.
pub open spec fn sort_forest(sorting: Sorting, s: Seq<MetaView>) -> Seq<MetaView>
    decreases s, s.len() + 1,
{
    sort_level(sorting, sort_each(sorting, s, s.len()))
}

/// The first `n` records of a level, each with every level below it ordered.
pub open spec fn sort_each(sorting: Sorting, s: Seq<MetaView>, n: nat) -> Seq<MetaView>
    decreases s, n,
{
    if n == 0 || n > s.len() {
        Seq::empty()
    } else {
        sort_each(sorting, s, (n - 1) as nat).push(sort_tree(sorting, s[n - 1]))
    }
}

/// Whether two records differ at most in what lies below them.
pub open spec fn same_attributes(a: MetaView, b: MetaView) -> bool {
    a.with_content(None) == b.with_content(None)
}

/// The comparator ranks records as an order by a key does.
pub proof fn lemma_comes_before_weak_order(sorting: Sorting)
    ensures
        weak_order(comes_before(sorting)),
{
    let before = comes_before(sorting);
    assert forall|a: MetaView, b: MetaView| #![trigger before(a, b)] before(a, b) implies !before(
        b,
        a,
    ) by {
        lemma_compare_antisymmetric(sorting, a, b);
    }
    assert forall|a: MetaView, b: MetaView, c: MetaView|
        #![trigger before(b, a), before(c, b)]
        !before(b, a) && !before(c, b) implies !before(c, a) by {
        lemma_compare_antisymmetric(sorting, a, b);
        lemma_compare_antisymmetric(sorting, b, c);
        lemma_compare_antisymmetric(sorting, a, c);
        lemma_compare_transitive(sorting, a, b, c);
    }
}

/// Ordering a level keeps its length.
pub proof fn lemma_sort_level_len(sorting: Sorting, s: Seq<MetaView>)
    ensures
        sort_level(sorting, s).len() == s.len(),
{
    lemma_stable_sort_len(comes_before(sorting), s);
}

/// Ordering a level permutes it: every record stays, with all that lies
/// below it, as often as it occurred.
pub proof fn lemma_sort_level_permutes(sorting: Sorting, s: Seq<MetaView>)
    ensures
        sort_level(sorting, s).to_multiset() == s.to_multiset(),
{
    lemma_stable_sort_permutes(comes_before(sorting), s);
}

/// In an ordered level no record comes after a later one.
pub proof fn lemma_sort_level_ordered(sorting: Sorting, s: Seq<MetaView>)
    ensures
        forall|i: int, j: int|
            0 <= i < j < sort_level(sorting, s).len() ==> compare(
                sorting,
                #[trigger] sort_level(sorting, s)[i],
                #[trigger] sort_level(sorting, s)[j],
            ) != Rank::Greater,
{
    let out = sort_level(sorting, s);
    let before = comes_before(sorting);
    lemma_comes_before_weak_order(sorting);
    lemma_stable_sort_ordered(before, s);
    assert forall|i: int, j: int| 0 <= i < j < out.len() implies compare(
        sorting,
        #[trigger] out[i],
        #[trigger] out[j],
    ) != Rank::Greater by {
        assert(!before(out[j], out[i]));
        lemma_compare_antisymmetric(sorting, out[i], out[j]);
    }
}

/// The sort is stable: the records that the comparator leaves tied with
/// `r` leave in the order in which they came.
pub proof fn lemma_sort_level_stable(sorting: Sorting, s: Seq<MetaView>, r: MetaView)
    ensures
        sort_level(sorting, s).filter(tied(sorting, r)) == s.filter(tied(sorting, r)),
{
    let before = comes_before(sorting);
    lemma_comes_before_weak_order(sorting);
    lemma_stable_sort_stable(before, s, r);
    assert forall|x: MetaView| #[trigger] tied(sorting, r)(x) == tied_with(before, r)(x) by {
        lemma_compare_antisymmetric(sorting, x, r);
    }
    assert(tied(sorting, r) =~= tied_with(before, r));
}

/// Without a column and without grouping, a level leaves as it came.
pub proof fn lemma_sort_level_keeps_unsorted(sorting: Sorting, s: Seq<MetaView>)
    requires
        sorting.column == SortColumn::NoSort,
        sorting.dir_grouping == DirGrouping::Ungrouped,
    ensures
        sort_level(sorting, s) == s,
{
    let before = comes_before(sorting);
    assert forall|i: int, j: int| 0 <= i < j < s.len() implies !before(
        #[trigger] s[j],
        #[trigger] s[i],
    ) by {
        reveal(compare);
    }
    lemma_stable_sort_keeps_ordered(before, s);
}

/// Under every column but `NoSort`, records of pairwise different names
/// leave in one order, in whichever order they arrived.
pub proof fn lemma_sort_level_ignores_arrival_order(
    sorting: Sorting,
    s: Seq<MetaView>,
    t: Seq<MetaView>,
)
    requires
        sorting.column != SortColumn::NoSort,
        forall|i: int, j: int| 0 <= i < j < s.len() ==> (#[trigger] s[i]).name != (#[trigger] s[j]).name,
        s.to_multiset() == t.to_multiset(),
    ensures
        sort_level(sorting, s) == sort_level(sorting, t),
{
    let before = comes_before(sorting);
    lemma_comes_before_weak_order(sorting);
    assert forall|i: int, j: int| 0 <= i < j < s.len() implies before(
        #[trigger] s[i],
        #[trigger] s[j],
    ) || before(s[j], s[i]) by {
        lemma_compare_antisymmetric(sorting, s[i], s[j]);
        if compare(sorting, s[i], s[j]) == Rank::Equal {
            lemma_tied_records_share_name(sorting, s[i], s[j]);
        }
    }
    lemma_stable_sort_ignores_arrival_order(before, s, t);
}

/// With directories first, no directory leaves behind another record,
/// whatever the column and the direction are.
pub proof fn lemma_sort_level_dirs_first(sorting: Sorting, s: Seq<MetaView>)
    requires
        sorting.dir_grouping == DirGrouping::First,
    ensures
        forall|i: int, j: int|
            0 <= i < j < sort_level(sorting, s).len() ==> !(!(#[trigger] sort_level(
                sorting,
                s,
            )[i]).is_dir && (#[trigger] sort_level(sorting, s)[j]).is_dir),
{
    let out = sort_level(sorting, s);
    lemma_sort_level_ordered(sorting, s);
    assert forall|i: int, j: int| 0 <= i < j < out.len() implies !(!(#[trigger] out[i]).is_dir && (
    #[trigger] out[j]).is_dir) by {
        lemma_grouping_precedence(sorting, out[i], out[j]);
        assert(compare(sorting, out[i], out[j]) != Rank::Greater);
    }
}

/// Whether a record belongs to the directories, or to the other records.
pub open spec fn in_group(dirs: bool) -> spec_fn(MetaView) -> bool {
    |m: MetaView| m.is_dir == dirs
}

/// Reversing the direction reverses each group: where no two records of a
/// group are tied, the records of that group leave the reversed sort in
/// the order in which they leave the other sort, turned around.
pub proof fn lemma_reverse_reverses_each_group(sorting: Sorting, s: Seq<MetaView>, dirs: bool)
    requires
        forall|i: int, j: int|
            #![trigger s[i], s[j]]
            0 <= i < j < s.len() && s[i].is_dir == dirs && s[j].is_dir == dirs ==> compare(
                sorting,
                s[i],
                s[j],
            ) != Rank::Equal,
    ensures
        sort_level(Sorting { order: SortOrder::Reverse, ..sorting }, s).filter(in_group(dirs))
            == sort_level(Sorting { order: SortOrder::Default, ..sorting }, s).filter(
            in_group(dirs),
        ).reverse(),
{
    let onward = Sorting { order: SortOrder::Default, ..sorting };
    let back = Sorting { order: SortOrder::Reverse, ..sorting };
    let group = in_group(dirs);
    let before = comes_before(back);
    let there = sort_level(onward, s);
    let here = sort_level(back, s);
    let x = here.filter(group);
    let kept = there.filter(group);
    let y = kept.reverse();
    let same = |m: MetaView| m;
    lemma_comes_before_weak_order(back);
    lemma_comes_before_weak_order(onward);
    assert(sorting == onward || sorting == back);
    // within the group the two directions are each other's reverse
    assert forall|a: MetaView, b: MetaView| group(a) && group(b) implies #[trigger] compare(
        back,
        a,
        b,
    ) == compare(onward, b, a) by {
        lemma_grouping_precedence(sorting, a, b);
        lemma_compare_antisymmetric(onward, a, b);
    }
    // no two records of the group are tied
    let apart = |a: MetaView, b: MetaView| before(a, b) || before(b, a);
    assert forall|i: int, j: int|
        #![trigger s[i], s[j]]
        0 <= i < j < s.len() && group(s[i]) && group(s[j]) implies apart(s[i], s[j]) by {
        lemma_compare_antisymmetric(back, s[i], s[j]);
        lemma_compare_antisymmetric(onward, s[i], s[j]);
        assert(compare(back, s[i], s[j]) == compare(onward, s[j], s[i]));
    }
    lemma_filter_keeps_pairs(s, group, apart);
    let chosen = s.filter(group);
    assert(untied(before, chosen)) by {
        assert forall|i: int, j: int| 0 <= i < j < chosen.len() implies before(
            #[trigger] chosen[i],
            #[trigger] chosen[j],
        ) || before(chosen[j], chosen[i]) by {
            assert(apart(chosen[i], chosen[j]));
        }
    }
    // the same records in all three lists
    lemma_sort_level_permutes(back, s);
    lemma_sort_level_permutes(onward, s);
    lemma_picked_permutation(s, here, group, same);
    lemma_picked_permutation(s, there, group, same);
    assert(picked(s, group, same) =~= chosen);
    assert(picked(here, group, same) =~= x);
    assert(picked(there, group, same) =~= kept);
    kept.lemma_reverse_to_multiset();
    lemma_untied_arrangement(before, chosen, x);
    // both lists are ordered in the reversed direction
    lemma_stable_sort_ordered(before, s);
    let not_after = |a: MetaView, b: MetaView| !before(b, a);
    assert forall|i: int, j: int|
        #![trigger here[i], here[j]]
        0 <= i < j < here.len() && group(here[i]) && group(here[j]) implies not_after(
        here[i],
        here[j],
    ) by {
        assert(!before(here[j], here[i]));
    }
    lemma_filter_keeps_pairs(here, group, not_after);
    assert(ordered(before, x)) by {
        assert forall|i: int, j: int| 0 <= i < j < x.len() implies !before(
            #[trigger] x[j],
            #[trigger] x[i],
        ) by {
            assert(not_after(x[i], x[j]));
        }
    }
    let onward_before = comes_before(onward);
    lemma_stable_sort_ordered(onward_before, s);
    let not_behind = |a: MetaView, b: MetaView| !onward_before(b, a);
    assert forall|i: int, j: int|
        #![trigger there[i], there[j]]
        0 <= i < j < there.len() && group(there[i]) && group(there[j]) implies not_behind(
        there[i],
        there[j],
    ) by {
        assert(!onward_before(there[j], there[i]));
    }
    lemma_filter_keeps_pairs(there, group, not_behind);
    assert(ordered(before, y)) by {
        assert forall|i: int, j: int| 0 <= i < j < y.len() implies !before(
            #[trigger] y[j],
            #[trigger] y[i],
        ) by {
            let p = kept.len() - 1 - j;
            let q = kept.len() - 1 - i;
            assert(y[i] == kept[q] && y[j] == kept[p]);
            assert(not_behind(kept[p], kept[q]));
            there.lemma_filter_pred(group, p);
            there.lemma_filter_pred(group, q);
            assert(compare(back, kept[p], kept[q]) == compare(onward, kept[q], kept[p]));
        }
    }
    lemma_untied_order_is_unique(before, x, y);
}

/// With directories last, no other record leaves behind a directory,
/// whatever the column and the direction are.
pub proof fn lemma_sort_level_dirs_last(sorting: Sorting, s: Seq<MetaView>)
    requires
        sorting.dir_grouping == DirGrouping::Last,
    ensures
        forall|i: int, j: int|
            0 <= i < j < sort_level(sorting, s).len() ==> !((#[trigger] sort_level(
                sorting,
                s,
            )[i]).is_dir && !(#[trigger] sort_level(sorting, s)[j]).is_dir),
{
    let out = sort_level(sorting, s);
    lemma_sort_level_ordered(sorting, s);
    assert forall|i: int, j: int| 0 <= i < j < out.len() implies !((#[trigger] out[i]).is_dir && !(
    #[trigger] out[j]).is_dir) by {
        lemma_grouping_precedence(sorting, out[i], out[j]);
        assert(compare(sorting, out[i], out[j]) != Rank::Greater);
    }
}

/// The comparator gives records with the same attributes the same outcome.
pub proof fn lemma_compare_same_attributes(
    sorting: Sorting,
    a: MetaView,
    b: MetaView,
    c: MetaView,
    d: MetaView,
)
    requires
        same_attributes(a, c),
        same_attributes(b, d),
    ensures
        compare(sorting, a, b) == compare(sorting, c, d),
{
    lemma_compare_ignores_content(sorting, a, b, None, None);
    lemma_compare_ignores_content(sorting, c, d, None, None);
}

/// The order of a level is decided by the attributes of its own records
/// alone: a change `g` to what lies below the records can be made before
/// the level is ordered or after it, and no list below a record is
/// reordered by ordering the level.
pub proof fn lemma_sort_level_ignores_content(
    sorting: Sorting,
    g: spec_fn(MetaView) -> MetaView,
    s: Seq<MetaView>,
)
    requires
        forall|m: MetaView| same_attributes(#[trigger] g(m), m),
    ensures
        sort_level(sorting, s.map_values(g)) == sort_level(sorting, s).map_values(g),
{
    let before = comes_before(sorting);
    assert forall|a: MetaView, b: MetaView| #![trigger before(g(a), g(b))] before(g(a), g(b))
        == before(a, b) by {
        lemma_compare_same_attributes(sorting, g(a), g(b), a, b);
    }
    lemma_stable_sort_commutes(before, g, s);
}

/// Ordering a record's levels changes nothing but what lies below it.
pub proof fn lemma_sort_tree_same_attributes(sorting: Sorting, m: MetaView)
    ensures
        same_attributes(sort_tree(sorting, m), m),
{
}

/// A forest is ordered level by level: its top level is ordered as that
/// level alone would be, and every record carries its own ordered levels.
pub proof fn lemma_sort_forest_by_level(sorting: Sorting, s: Seq<MetaView>)
    ensures
        sort_forest(sorting, s) == sort_level(sorting, s).map_values(
            |m: MetaView| sort_tree(sorting, m),
        ),
{
    let g = |m: MetaView| sort_tree(sorting, m);
    lemma_sort_each(sorting, s, s.len());
    assert(s.take(s.len() as int) =~= s);
    assert forall|m: MetaView| same_attributes(#[trigger] g(m), m) by {
        lemma_sort_tree_same_attributes(sorting, m);
    }
    lemma_sort_level_ignores_content(sorting, g, s);
}

/// The first `n` records, each with its levels ordered.
pub proof fn lemma_sort_each(sorting: Sorting, s: Seq<MetaView>, n: nat)
    requires
        n <= s.len(),
    ensures
        sort_each(sorting, s, n) == s.take(n as int).map_values(
            |m: MetaView| sort_tree(sorting, m),
        ),
    decreases n,
{
    let g = |m: MetaView| sort_tree(sorting, m);
    if n > 0 {
        lemma_sort_each(sorting, s, (n - 1) as nat);
        assert(s.take(n - 1).map_values(g).push(g(s[n - 1])) =~= s.take(n as int).map_values(g));
    } else {
        assert(sort_each(sorting, s, n) =~= s.take(n as int).map_values(g));
    }
}

/// The ranking of records that the sorting flags give.
pub struct ByFlags {
    pub sorting: Sorting,
}

impl Ranking<Meta> for ByFlags {
    /// A record comes before another where the comparator says `Less`.
    open spec fn before(&self, a: Meta, b: Meta) -> bool {
        compare(self.sorting, a@, b@) == Rank::Less
    }

    proof fn lemma_ranking_is_weak_order(&self) {
        let before = |a: Meta, b: Meta| self.before(a, b);
        assert forall|a: Meta, b: Meta| #![trigger before(a, b)] before(a, b) implies !before(
            b,
            a,
        ) by {
            lemma_compare_antisymmetric(self.sorting, a@, b@);
        }
        assert forall|a: Meta, b: Meta, c: Meta|
            #![trigger before(b, a), before(c, b)]
            !before(b, a) && !before(c, b) implies !before(c, a) by {
            lemma_compare_antisymmetric(self.sorting, a@, b@);
            lemma_compare_antisymmetric(self.sorting, b@, c@);
            lemma_compare_antisymmetric(self.sorting, a@, c@);
            lemma_compare_transitive(self.sorting, a@, b@, c@);
        }
    }

    fn comes_before(&self, a: &Meta, b: &Meta) -> (r: bool) {
        by_meta(&self.sorting, a, b).is_less()
    }
}

/// Orders the records of one level and leaves what lies below them as it is.
pub fn sort_level_records(sorting: &Sorting, metas: Vec<Meta>) -> (out: Vec<Meta>)
    ensures
        views(out@) == sort_level(*sorting, views(metas@)),
{
    let ghost all = metas@;
    let ranking = ByFlags { sorting: *sorting };
    let out = merge_sort(&ranking, metas);
    proof {
        let value = |m: Meta| m@;
        assert(carries(relation(&ranking), comes_before(*sorting), value));
        lemma_stable_sort_maps(relation(&ranking), comes_before(*sorting), value, all);
        assert(views(all) =~= all.map_values(value));
        assert(views(out@) =~= out@.map_values(value));
    }
    out
}

/// Orders one record's levels: the record stays, every level below it is ordered.
pub fn sort_record(sorting: &Sorting, m: Meta) -> (r: Meta)
    ensures
        r@ == sort_tree(*sorting, m@),
    decreases m,
{
    proof {
        lemma_content_views(m);
    }
    let ghost before = m;
    let Meta { path, name, is_dir, size, modified, git_status, content } = m;
    let r = match content {
        Some(below) => {
            proof {
                assert(decreases_to!(before.content => before.content->0));
            }
            let sorted = sort_records(sorting, below);
            Meta { path, name, is_dir, size, modified, git_status, content: Some(sorted) }
        },
        None => Meta { path, name, is_dir, size, modified, git_status, content: None },
    };
    proof {
        lemma_content_views(r);
    }
    r
}

/// Orders a forest: every level of it, from the given records down, with
/// the comparator that the sorting flags give.
pub fn sort_records(sorting: &Sorting, metas: Vec<Meta>) -> (out: Vec<Meta>)
    ensures
        views(out@) == sort_forest(*sorting, views(metas@)),
    decreases metas,
{
    let ghost all = metas@;
    let ghost level = views(all);
    let n = metas.len();
    let mut rest = reverse(metas);
    let mut each: Vec<Meta> = Vec::new();
    let mut done: usize = 0;
    proof {
        assert(views(each@) =~= sort_each(*sorting, level, 0));
    }
    while done < n
        invariant
            done <= n,
            n == all.len(),
            all == metas@,
            level == views(all),
            rest.len() == n - done,
            forall|k: int| 0 <= k < rest.len() ==> rest@[k] == all[n - 1 - k],
            views(each@) == sort_each(*sorting, level, done as nat),
        decreases n - done,
    {
        let ghost before = views(each@);
        let next = rest.pop();
        match next {
            Some(m) => {
                proof {
                    assert(m == all[done as int]);
                    assert(decreases_to!(metas => metas[done as int]));
                    assert(level[done as int] == m@);
                }
                let sorted = sort_record(sorting, m);
                each.push(sorted);
                proof {
                    assert(views(each@) =~= before.push(sort_tree(*sorting, level[done as int])));
                }
            },
            None => {},
        }
        done += 1;
    }
    sort_level_records(sorting, each)
}

/// A list with one more subtree in it has the paths of both.
pub proof fn lemma_paths_all_insert(s: Seq<MetaView>, p: int, x: MetaView)
    requires
        0 <= p <= s.len(),
    ensures
        paths_all(s.insert(p, x)) == paths_all(s).add(x.paths()),
        count_all(s.insert(p, x)) == count_all(s) + x.count(),
    decreases s.len() - p,
{
    if p == s.len() {
        assert(s.insert(p, x) =~= s.push(x));
        lemma_paths_all_push(s, x);
    } else {
        let front = s.drop_last();
        lemma_paths_all_insert(front, p, x);
        assert(s.insert(p, x).drop_last() =~= front.insert(p, x));
        assert(s.insert(p, x).last() == s.last());
        assert(paths_all(s.insert(p, x)) =~= paths_all(s).add(x.paths()));
    }
}

/// Ordering a level keeps every record of it and of what lies below.
pub proof fn lemma_sort_level_keeps_every_record(sorting: Sorting, s: Seq<MetaView>)
    ensures
        paths_all(sort_level(sorting, s)) == paths_all(s),
        count_all(sort_level(sorting, s)) == count_all(s),
    decreases s.len(),
{
    if s.len() > 0 {
        let sorted = sort_level(sorting, s.drop_last());
        lemma_sort_level_keeps_every_record(sorting, s.drop_last());
        lemma_insert_position(comes_before(sorting), sorted, s.last());
        lemma_paths_all_insert(sorted, insert_position(comes_before(sorting), sorted, s.last()), s.last());
    }
}

/// Ordering the levels below a record keeps every record.
pub proof fn lemma_sort_tree_keeps_every_record(sorting: Sorting, m: MetaView)
    ensures
        sort_tree(sorting, m).paths() == m.paths(),
        sort_tree(sorting, m).count() == m.count(),
    decreases m,
{
    match m.content {
        Some(below) => {
            lemma_sort_forest_keeps_every_record(sorting, below);
        },
        None => {},
    }
}

/// Ordering a forest keeps every record: each stays exactly as often as
/// it occurred.
pub proof fn lemma_sort_forest_keeps_every_record(sorting: Sorting, s: Seq<MetaView>)
    ensures
        paths_all(sort_forest(sorting, s)) == paths_all(s),
        count_all(sort_forest(sorting, s)) == count_all(s),
    decreases s, s.len() + 1,
{
    lemma_sort_each_keeps_every_record(sorting, s, s.len());
    lemma_sort_level_keeps_every_record(sorting, sort_each(sorting, s, s.len()));
    assert(s.take(s.len() as int) =~= s);
}

/// Ordering the levels below the first `n` records keeps every record.
pub proof fn lemma_sort_each_keeps_every_record(sorting: Sorting, s: Seq<MetaView>, n: nat)
    requires
        n <= s.len(),
    ensures
        paths_all(sort_each(sorting, s, n)) == paths_all(s.take(n as int)),
        count_all(sort_each(sorting, s, n)) == count_all(s.take(n as int)),
    decreases s, n,
{
    if n > 0 {
        lemma_sort_each_keeps_every_record(sorting, s, (n - 1) as nat);
        lemma_sort_tree_keeps_every_record(sorting, s[n - 1]);
        lemma_paths_all_push(sort_each(sorting, s, (n - 1) as nat), sort_tree(sorting, s[n - 1]));
        assert(s.take(n as int).drop_last() =~= s.take(n - 1));
        assert(s.take(n as int).last() == s[n - 1]);
    } else {
        assert(s.take(0) =~= Seq::empty());
    }
}

} // verus!
