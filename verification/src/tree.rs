//! The tree reconstruction engine: from flat records, each with a path and
//! the depth at which it was found, to a forest in which every record
//! hangs under the record that holds its parent path.

use crate::meta::{
    count_all, lemma_content_views, lemma_count_all_is_paths_len, lemma_paths_all_push,
    lemma_paths_with_children, paths_all, views, Meta, MetaView,
};
use crate::stable::{
    carries, insert_position, lemma_insert_position, lemma_stable_sort_len,
    lemma_stable_sort_maps, lemma_stable_sort_ordered, lemma_stable_sort_permutes, merge_sort,
    relation, reverse, stable_sort, weak_order, Ranking,
};
use vstd::hash_map::StringHashMap;
use vstd::multiset::Multiset;
use vstd::prelude::*;
use vstd::string::StrSliceExecFns;

verus! {

/// A record together with the depth at which it was found: 0 for a path
/// that was asked for, `n` for one that lies `n` levels below such a path.
#[derive(Debug, Clone, PartialEq, Eq)]
pub struct Entry {
    pub depth: usize,
    pub meta: Meta,
}

/// The mathematical value of an [`Entry`].
pub struct EntryView {
    pub depth: nat,
    pub meta: MetaView,
}

impl View for Entry {
    type V = EntryView;

    open spec fn view(&self) -> EntryView {
        EntryView { depth: self.depth as nat, meta: self.meta@ }
    }
}

/// The values of a list of entries, in order.
pub open spec fn entry_views(s: Seq<Entry>) -> Seq<EntryView> {
    Seq::new(s.len(), |i: int| s[i]@)
}

/// A record that was found below depth 1 and became a root because no
/// record holds its parent path: its own path and that parent path.
#[derive(Debug, Clone, PartialEq, Eq)]
pub struct Orphan {
    pub path: String,
    pub parent: String,
}

/// The mathematical value of an [`Orphan`].
pub struct OrphanView {
    pub path: Seq<char>,
    pub parent: Seq<char>,
}

impl View for Orphan {
    type V = OrphanView;

    open spec fn view(&self) -> OrphanView {
        OrphanView { path: self.path@, parent: self.parent@ }
    }
}

/// The values of a list of orphans, in order.
pub open spec fn orphan_views(s: Seq<Orphan>) -> Seq<OrphanView> {
    Seq::new(s.len(), |i: int| s[i]@)
}

/// What reconstruction hands on: the roots of the forest, and the orphans
/// among them.
#[derive(Debug, Clone, PartialEq, Eq)]
pub struct Forest {
    pub roots: Vec<Meta>,
    pub orphans: Vec<Orphan>,
}

/// What `Path::parent` makes of a path.
pub uninterp spec fn path_parent(path: Seq<char>) -> Option<Seq<char>>;

/// Calls `Path::parent` of the standard library. Taken on trust: the call
/// returns; whether the path has a parent and which depends on the
/// characters of `path` alone, so that the result has the name
/// `path_parent(path@)`; and the parent, being the path without its last
/// component, is shorter than the path. Nothing else is claimed of where
/// the parent ends. The parent of a path is a part of it, so that it is a
/// string as the path is.
#[verifier::external_body]
fn parent_of(path: &str) -> (r: Option<String>)
    ensures
        r is Some <==> path_parent(path@) is Some,
        r matches Some(p) ==> path_parent(path@) == Some(p@) && p@.len() < path@.len(),
{
    match std::path::Path::new(path).parent() {
        Some(p) => Some(p.to_string_lossy().into_owned()),
        None => None,
    }
}

/// Whether an entry was found deeper than another.
pub open spec fn deeper() -> spec_fn(EntryView, EntryView) -> bool {
    |a: EntryView, b: EntryView| a.depth > b.depth
}

/// The entries with the deepest first, entries of one depth in the order
/// in which they were found.
pub open spec fn by_depth(s: Seq<EntryView>) -> Seq<EntryView> {
    stable_sort(deeper(), s)
}

/// The parent paths of the entries, as `Path::parent` gives them.
pub open spec fn parents_of(es: Seq<EntryView>) -> Seq<Option<Seq<char>>> {
    Seq::new(es.len(), |i: int| path_parent(es[i].meta.path))
}

/// Whether every parent path is shorter than the path it is the parent of,
/// as every parent is that `Path::parent` gives.
pub open spec fn proper(es: Seq<EntryView>, parents: Seq<Option<Seq<char>>>) -> bool {
    forall|i: int|
        0 <= i < es.len() && i < parents.len() ==> ((#[trigger] parents[i]) matches Some(p)
            ==> p.len() < es[i].meta.path.len())
}

/// The parent path of entry `i`: the one handed in for it, if one is
/// handed in and is shorter than the path of the entry. A path at least as
/// long as the entry's own is no parent path.
pub open spec fn parent_at(
    es: Seq<EntryView>,
    parents: Seq<Option<Seq<char>>>,
    i: int,
) -> Option<Seq<char>> {
    if 0 <= i < es.len() && i < parents.len() {
        match parents[i] {
            Some(p) => if p.len() < es[i].meta.path.len() {
                Some(p)
            } else {
                None
            },
            None => None,
        }
    } else {
        None
    }
}

/// The index of the first `n` entries by path: each path with the position
/// of the last entry that has it.
pub open spec fn path_index(es: Seq<EntryView>, n: nat) -> Map<Seq<char>, int>
    decreases n,
{
    if n == 0 || n > es.len() {
        Map::empty()
    } else {
        path_index(es, (n - 1) as nat).insert(es[n - 1].meta.path, n - 1)
    }
}

/// The position of the entry under which entry `i` hangs: the entry that
/// the index holds for the parent path of `i`. `None` for a root: an entry
/// without a parent path, or one whose parent path no entry has.
pub open spec fn parent_slot(
    es: Seq<EntryView>,
    parents: Seq<Option<Seq<char>>>,
    i: int,
) -> Option<int> {
    match parent_at(es, parents, i) {
        Some(p) => {
            let index = path_index(es, es.len());
            if index.contains_key(p) {
                Some(index[p])
            } else {
                None
            }
        },
        None => None,
    }
}

/// The length of the longest path among the first `n` entries.
pub open spec fn longest(es: Seq<EntryView>, n: nat) -> nat
    decreases n,
{
    if n == 0 || n > es.len() {
        0
    } else {
        let before = longest(es, (n - 1) as nat);
        if es[n - 1].meta.path.len() > before {
            es[n - 1].meta.path.len()
        } else {
            before
        }
    }
}

/// How much longer than the path of entry `i` the longest path is. An
/// entry has less room than the entry under which it hangs.
pub open spec fn room(es: Seq<EntryView>, i: int) -> int {
    longest(es, es.len()) - es[i].meta.path.len()
}

/// The record of entry `i` with the subtrees of the entries that hang
/// under it, in the order of the entries.
pub open spec fn subtree(es: Seq<EntryView>, parents: Seq<Option<Seq<char>>>, i: int) -> MetaView
    decreases room(es, i), es.len() + 1,
{
    es[i].meta.with_children(children_below(es, parents, i, es.len()))
}

/// The subtrees of the entries before position `upto` that hang under
/// entry `j`, in order.
pub open spec fn children_below(
    es: Seq<EntryView>,
    parents: Seq<Option<Seq<char>>>,
    j: int,
    upto: nat,
) -> Seq<MetaView>
    decreases room(es, j), upto,
{
    if upto == 0 || upto > es.len() {
        Seq::empty()
    } else {
        let rest = children_below(es, parents, j, (upto - 1) as nat);
        if parent_slot(es, parents, upto - 1) == Some(j) {
            proof {
                lemma_child_is_longer(es, parents, upto - 1);
            }
            rest.push(subtree(es, parents, upto - 1))
        } else {
            rest
        }
    }
}

/// The subtrees of the entries before position `upto` that hang under no
/// other entry, in order.
pub open spec fn roots_below(
    es: Seq<EntryView>,
    parents: Seq<Option<Seq<char>>>,
    upto: nat,
) -> Seq<MetaView>
    decreases upto,
{
    if upto == 0 {
        Seq::empty()
    } else {
        let rest = roots_below(es, parents, (upto - 1) as nat);
        if parent_slot(es, parents, upto - 1) is None {
            rest.push(subtree(es, parents, upto - 1))
        } else {
            rest
        }
    }
}

/// The forest of the entries `es` with the parent paths `parents`: every
/// entry whose parent path some entry has hangs under that entry, and
/// every other entry is a root; roots and the entries under one parent
/// stand in the order of `es`.
pub open spec fn forest_of(es: Seq<EntryView>, parents: Seq<Option<Seq<char>>>) -> Seq<MetaView> {
    roots_below(es, parents, es.len())
}

/// Whether entry `i` is an orphan: it was found below depth 1 and has a
/// parent path that no entry has.
pub open spec fn is_orphan(es: Seq<EntryView>, parents: Seq<Option<Seq<char>>>, i: int) -> bool {
    &&& es[i].depth > 1
    &&& parent_at(es, parents, i) is Some
    &&& parent_slot(es, parents, i) is None
}

/// The orphans among the entries before position `upto`, in order.
pub open spec fn orphans_below(
    es: Seq<EntryView>,
    parents: Seq<Option<Seq<char>>>,
    upto: nat,
) -> Seq<OrphanView>
    decreases upto,
{
    if upto == 0 {
        Seq::empty()
    } else {
        let rest = orphans_below(es, parents, (upto - 1) as nat);
        if is_orphan(es, parents, upto - 1) {
            rest.push(
                OrphanView {
                    path: es[upto - 1].meta.path,
                    parent: parent_at(es, parents, upto - 1)->0,
                },
            )
        } else {
            rest
        }
    }
}

/// The orphans among the entries, in order.
pub open spec fn orphans_of(es: Seq<EntryView>, parents: Seq<Option<Seq<char>>>) -> Seq<
    OrphanView,
> {
    orphans_below(es, parents, es.len())
}

/// The characters of each parent path of a list.
pub open spec fn parent_views(s: Seq<Option<String>>) -> Seq<Option<Seq<char>>> {
    Seq::new(
        s.len(),
        |i: int|
            match s[i] {
                Some(p) => Some(p@),
                None => None,
            },
    )
}

/// The index holds positions of entries, each with the path it stands for.
pub proof fn lemma_path_index(es: Seq<EntryView>, n: nat, p: Seq<char>)
    requires
        n <= es.len(),
        path_index(es, n).contains_key(p),
    ensures
        0 <= path_index(es, n)[p] < n,
        es[path_index(es, n)[p]].meta.path == p,
    decreases n,
{
    if n > 0 {
        if es[n - 1].meta.path != p {
            lemma_path_index(es, (n - 1) as nat, p);
        }
    }
}

/// The index holds every path of the entries.
pub proof fn lemma_path_index_complete(es: Seq<EntryView>, n: nat, k: int)
    requires
        0 <= k < n <= es.len(),
    ensures
        path_index(es, n).contains_key(es[k].meta.path),
    decreases n,
{
    if k < n - 1 {
        lemma_path_index_complete(es, (n - 1) as nat, k);
    }
}

/// No path among the first `n` entries is longer than the longest.
pub proof fn lemma_longest(es: Seq<EntryView>, n: nat, k: int)
    requires
        0 <= k < n <= es.len(),
    ensures
        es[k].meta.path.len() <= longest(es, n),
    decreases n,
{
    if k < n - 1 {
        lemma_longest(es, (n - 1) as nat, k);
    }
}

/// The entry under which an entry hangs has its parent path, which is
/// shorter than its own path.
pub proof fn lemma_child_is_longer(es: Seq<EntryView>, parents: Seq<Option<Seq<char>>>, k: int)
    requires
        0 <= k < es.len(),
        parent_slot(es, parents, k) is Some,
    ensures
        0 <= parent_slot(es, parents, k)->0 < es.len(),
        parent_at(es, parents, k) == Some(es[parent_slot(es, parents, k)->0].meta.path),
        es[parent_slot(es, parents, k)->0].meta.path.len() < es[k].meta.path.len(),
        0 <= room(es, k) < room(es, parent_slot(es, parents, k)->0),
{
    let p = parent_at(es, parents, k)->0;
    lemma_path_index(es, es.len(), p);
    lemma_longest(es, es.len(), k);
}

/// The ranking of entries by depth: the deeper one comes first.
pub struct ByDepth {}

impl Ranking<Entry> for ByDepth {
    open spec fn before(&self, a: Entry, b: Entry) -> bool {
        a.depth > b.depth
    }

    proof fn lemma_ranking_is_weak_order(&self) {
    }

    fn comes_before(&self, a: &Entry, b: &Entry) -> (r: bool) {
        a.depth > b.depth
    }
}

/// Puts the entries in the order of reconstruction: deepest first, entries
/// of one depth in the order in which they were found.
pub fn order_by_depth(entries: Vec<Entry>) -> (out: Vec<Entry>)
    ensures
        entry_views(out@) == by_depth(entry_views(entries@)),
{
    let ghost all = entries@;
    let ranking = ByDepth {  };
    let out = merge_sort(&ranking, entries);
    proof {
        let value = |e: Entry| e@;
        assert(carries(relation(&ranking), deeper(), value));
        lemma_stable_sort_maps(relation(&ranking), deeper(), value, all);
        assert(entry_views(all) =~= all.map_values(value));
        assert(entry_views(out@) =~= out@.map_values(value));
    }
    out
}

/// Appending children in two steps is appending them all at once.
pub proof fn lemma_with_children_push(m: MetaView, more: Seq<MetaView>, child: MetaView)
    ensures
        m.with_children(more).with_children(seq![child]) == m.with_children(more.push(child)),
{
    let once = m.with_children(more.push(child));
    let twice = m.with_children(more).with_children(seq![child]);
    assert(twice.content->0 =~= once.content->0);
}

/// Hangs a record under another one, behind the records that hang there.
pub fn attach(parent: Meta, child: Meta) -> (r: Meta)
    ensures
        r@ == parent@.with_children(seq![child@]),
{
    proof {
        lemma_content_views(parent);
    }
    let ghost held = child@;
    let Meta { path, name, is_dir, size, modified, git_status, content } = parent;
    let mut below = match content {
        Some(list) => list,
        None => Vec::new(),
    };
    let ghost before = views(below@);
    below.push(child);
    let r = Meta { path, name, is_dir, size, modified, git_status, content: Some(below) };
    proof {
        lemma_content_views(r);
        assert(views(below@) =~= before + seq![held]);
        assert(r@.content->0 =~= parent@.with_children(seq![held]).content->0);
    }
    r
}

/// Whether a table holds the index: the same paths, each with the same position.
pub open spec fn mirrors(table: Map<Seq<char>, usize>, index: Map<Seq<char>, int>) -> bool {
    forall|p: Seq<char>|
        #![trigger table.contains_key(p)]
        #![trigger index.contains_key(p)]
        table.contains_key(p) == index.contains_key(p) && (table.contains_key(p) ==> table[p]
            == index[p])
}

/// Whether a list holds the positions under which the entries hang.
pub open spec fn slots_of(
    slots: Seq<Option<usize>>,
    es: Seq<EntryView>,
    parents: Seq<Option<Seq<char>>>,
) -> bool {
    &&& slots.len() == es.len()
    &&& forall|k: int|
        0 <= k < es.len() ==> match #[trigger] slots[k] {
            Some(j) => parent_slot(es, parents, k) == Some(j as int),
            None => parent_slot(es, parents, k) is None,
        }
}

/// Builds the index of the entries by path.
fn index_paths(entries: &Vec<Entry>) -> (index: StringHashMap<usize>)
    ensures
        mirrors(index@, path_index(entry_views(entries@), entries.len() as nat)),
{
    let ghost es = entry_views(entries@);
    let mut index: StringHashMap<usize> = StringHashMap::new();
    let mut i: usize = 0;
    while i < entries.len()
        invariant
            i <= entries.len(),
            es == entry_views(entries@),
            mirrors(index@, path_index(es, i as nat)),
        decreases entries.len() - i,
    {
        proof {
            assert(es[i as int].meta.path == entries[i as int].meta.path@);
        }
        index.insert(entries[i].meta.path.clone(), i);
        i += 1;
    }
    index
}

/// Finds for each entry the entry under which it hangs, and lists the orphans.
fn place(
    entries: &Vec<Entry>,
    parents: &Vec<Option<String>>,
    index: &StringHashMap<usize>,
) -> (r: (Vec<Option<usize>>, Vec<Orphan>))
    requires
        mirrors(index@, path_index(entry_views(entries@), entries.len() as nat)),
    ensures
        slots_of(r.0@, entry_views(entries@), parent_views(parents@)),
        orphan_views(r.1@) == orphans_of(entry_views(entries@), parent_views(parents@)),
{
    let ghost es = entry_views(entries@);
    let ghost ps = parent_views(parents@);
    let mut slots: Vec<Option<usize>> = Vec::new();
    let mut orphans: Vec<Orphan> = Vec::new();
    let mut i: usize = 0;
    proof {
        assert(orphan_views(orphans@) =~= orphans_below(es, ps, 0));
    }
    while i < entries.len()
        invariant
            i <= entries.len(),
            es == entry_views(entries@),
            ps == parent_views(parents@),
            mirrors(index@, path_index(es, es.len())),
            slots.len() == i,
            forall|k: int|
                0 <= k < i ==> match #[trigger] slots@[k] {
                    Some(j) => parent_slot(es, ps, k) == Some(j as int),
                    None => parent_slot(es, ps, k) is None,
                },
            orphan_views(orphans@) == orphans_below(es, ps, i as nat),
        decreases entries.len() - i,
    {
        let mut slot: Option<usize> = None;
        let mut lost: Option<String> = None;
        proof {
            assert(es[i as int].depth == entries[i as int].depth);
            assert(es[i as int].meta.path == entries[i as int].meta.path@);
        }
        if i < parents.len() {
            match &parents[i] {
                Some(p) => {
                    if p.as_str().unicode_len() < entries[i].meta.path.as_str().unicode_len() {
                        match index.get(p.as_str()) {
                            Some(j) => {
                                slot = Some(*j);
                            },
                            None => {
                                lost = Some(p.clone());
                            },
                        }
                    }
                },
                None => {},
            }
        }
        proof {
            assert(match slot {
                Some(j) => parent_slot(es, ps, i as int) == Some(j as int),
                None => parent_slot(es, ps, i as int) is None,
            });
            assert(match lost {
                Some(p) => parent_at(es, ps, i as int) == Some(p@) && slot is None,
                None => !(parent_at(es, ps, i as int) is Some && slot is None),
            });
        }
        match lost {
            Some(parent) => {
                if entries[i].depth > 1 {
                    let ghost before = orphan_views(orphans@);
                    orphans.push(Orphan { path: entries[i].meta.path.clone(), parent });
                    proof {
                        assert(orphan_views(orphans@) =~= before.push(
                            OrphanView {
                                path: es[i as int].meta.path,
                                parent: parent_at(es, ps, i as int)->0,
                            },
                        ));
                    }
                }
            },
            None => {},
        }
        slots.push(slot);
        i += 1;
    }
    (slots, orphans)
}

/// The positions of the entries before position `upto` that hang under
/// entry `j`, in order.
pub open spec fn kid_list(
    es: Seq<EntryView>,
    parents: Seq<Option<Seq<char>>>,
    j: int,
    upto: nat,
) -> Seq<int>
    decreases upto,
{
    if upto == 0 || upto > es.len() {
        Seq::empty()
    } else {
        let rest = kid_list(es, parents, j, (upto - 1) as nat);
        if parent_slot(es, parents, upto - 1) == Some(j) {
            rest.push(upto - 1)
        } else {
            rest
        }
    }
}

/// The positions of a list as integers.
pub open spec fn positions(list: Seq<usize>) -> Seq<int> {
    Seq::new(list.len(), |t: int| list[t] as int)
}

/// Whether a table holds, for every entry, the positions of the entries
/// before position `upto` that hang under it.
pub open spec fn kids_of(
    kids: Seq<Vec<usize>>,
    es: Seq<EntryView>,
    parents: Seq<Option<Seq<char>>>,
    upto: nat,
) -> bool {
    &&& kids.len() == es.len()
    &&& forall|j: int|
        0 <= j < es.len() ==> positions((#[trigger] kids[j])@) == kid_list(es, parents, j, upto)
}

/// Every position in the list of an entry is that of an entry that hangs under it.
pub proof fn lemma_kid_list(
    es: Seq<EntryView>,
    parents: Seq<Option<Seq<char>>>,
    j: int,
    upto: nat,
    t: int,
)
    requires
        0 <= t < kid_list(es, parents, j, upto).len(),
    ensures
        0 <= kid_list(es, parents, j, upto)[t] < upto,
        kid_list(es, parents, j, upto)[t] < es.len(),
        parent_slot(es, parents, kid_list(es, parents, j, upto)[t]) == Some(j),
    decreases upto,
{
    let rest = kid_list(es, parents, j, (upto - 1) as nat);
    if t < rest.len() {
        lemma_kid_list(es, parents, j, (upto - 1) as nat, t);
    }
}

/// The subtrees that hang under an entry are those of the positions in its list.
pub proof fn lemma_children_of_kid_list(
    es: Seq<EntryView>,
    parents: Seq<Option<Seq<char>>>,
    j: int,
    upto: nat,
)
    ensures
        children_below(es, parents, j, upto) == kid_list(es, parents, j, upto).map_values(
            |k: int| subtree(es, parents, k),
        ),
    decreases upto,
{
    let sub = |k: int| subtree(es, parents, k);
    if upto == 0 || upto > es.len() {
        assert(children_below(es, parents, j, upto) =~= kid_list(es, parents, j, upto).map_values(
            sub,
        ));
    } else {
        lemma_children_of_kid_list(es, parents, j, (upto - 1) as nat);
        assert(children_below(es, parents, j, upto) =~= kid_list(es, parents, j, upto).map_values(
            sub,
        ));
    }
}

/// Puts a value into a place of a list and hands out what the place held.
fn exchange<T>(list: &mut Vec<T>, i: usize, value: T) -> (held: T)
    requires
        i < old(list).len(),
    ensures
        final(list)@ == old(list)@.update(i as int, value),
        held == old(list)@[i as int],
{
    list.push(value);
    let held = list.swap_remove(i);
    proof {
        assert(list@ =~= old(list)@.update(i as int, value));
    }
    held
}

/// Lists for every entry the positions of the entries that hang under it.
fn list_kids(
    slots: &Vec<Option<usize>>,
    Ghost(es): Ghost<Seq<EntryView>>,
    Ghost(parents): Ghost<Seq<Option<Seq<char>>>>,
) -> (kids: Vec<Vec<usize>>)
    requires
        slots_of(slots@, es, parents),
    ensures
        kids_of(kids@, es, parents, es.len()),
{
    let n = slots.len();
    let mut kids: Vec<Vec<usize>> = Vec::new();
    let mut j: usize = 0;
    while j < n
        invariant
            j <= n,
            n == es.len(),
            kids.len() == j,
            forall|i: int| 0 <= i < j ==> (#[trigger] kids@[i])@.len() == 0,
        decreases n - j,
    {
        kids.push(Vec::new());
        j += 1;
    }
    proof {
        assert forall|i: int| 0 <= i < es.len() implies positions((#[trigger] kids@[i])@)
            == kid_list(es, parents, i, 0) by {
            assert(positions(kids@[i]@) =~= kid_list(es, parents, i, 0));
        }
    }
    let mut k: usize = 0;
    while k < n
        invariant
            k <= n,
            n == es.len(),
            slots_of(slots@, es, parents),
            kids_of(kids@, es, parents, k as nat),
        decreases n - k,
    {
        let ghost before = kids@;
        match slots[k] {
            Some(j) => {
                proof {
                    assert(parent_slot(es, parents, k as int) == Some(j as int));
                    lemma_child_is_longer(es, parents, k as int);
                }
                let mut list = exchange(&mut kids, j, Vec::new());
                list.push(k);
                let gone = exchange(&mut kids, j, list);
                proof {
                    assert forall|i: int| 0 <= i < es.len() implies positions(
                        (#[trigger] kids@[i])@,
                    ) == kid_list(es, parents, i, (k + 1) as nat) by {
                        if i == j {
                            assert(positions(kids@[i]@) =~= positions(before[i]@).push(k as int));
                        } else {
                            assert(kids@[i] == before[i]);
                        }
                    }
                }
            },
            None => {
                proof {
                    assert(parent_slot(es, parents, k as int) is None);
                    assert forall|i: int| 0 <= i < es.len() implies positions(
                        (#[trigger] kids@[i])@,
                    ) == kid_list(es, parents, i, (k + 1) as nat) by {}
                }
            },
        }
        k += 1;
    }
    kids
}

/// Builds the subtree of an entry: its record with the subtrees of the
/// entries that hang under it.
fn build(
    entries: &Vec<Entry>,
    kids: &Vec<Vec<usize>>,
    i: usize,
    Ghost(parents): Ghost<Seq<Option<Seq<char>>>>,
) -> (r: Meta)
    requires
        i < entries.len(),
        kids_of(kids@, entry_views(entries@), parents, entries.len() as nat),
    ensures
        r@ == subtree(entry_views(entries@), parents, i as int),
    decreases room(entry_views(entries@), i as int),
{
    let ghost es = entry_views(entries@);
    let ghost sub = |k: int| subtree(es, parents, k);
    let ghost all = kid_list(es, parents, i as int, es.len());
    let list = &kids[i];
    let mut r = entries[i].meta.clone();
    let mut t: usize = 0;
    proof {
        assert(es[i as int].meta == entries[i as int].meta@);
        assert(positions(list@) == all);
        assert(all.take(0).map_values(sub) =~= Seq::empty());
    }
    while t < list.len()
        invariant
            t <= list.len(),
            i < entries.len(),
            es == entry_views(entries@),
            sub == |k: int| subtree(es, parents, k),
            all == kid_list(es, parents, i as int, es.len()),
            positions(list@) == all,
            kids_of(kids@, es, parents, es.len()),
            r@ == es[i as int].meta.with_children(all.take(t as int).map_values(sub)),
        decreases list.len() - t,
    {
        let k = list[t];
        proof {
            assert(all[t as int] == k as int);
            lemma_kid_list(es, parents, i as int, es.len(), t as int);
            lemma_child_is_longer(es, parents, k as int);
            lemma_with_children_push(
                es[i as int].meta,
                all.take(t as int).map_values(sub),
                subtree(es, parents, k as int),
            );
            assert(all.take(t + 1).map_values(sub) =~= all.take(t as int).map_values(sub).push(
                subtree(es, parents, k as int),
            ));
        }
        let child = build(entries, kids, k, Ghost(parents));
        r = attach(r, child);
        t += 1;
    }
    proof {
        assert(all.take(t as int) =~= all);
        lemma_children_of_kid_list(es, parents, i as int, es.len());
    }
    r
}

/// Builds the subtrees of the entries that hang under no other entry.
fn gather(
    entries: &Vec<Entry>,
    slots: &Vec<Option<usize>>,
    kids: &Vec<Vec<usize>>,
    Ghost(parents): Ghost<Seq<Option<Seq<char>>>>,
) -> (roots: Vec<Meta>)
    requires
        slots_of(slots@, entry_views(entries@), parents),
        kids_of(kids@, entry_views(entries@), parents, entries.len() as nat),
    ensures
        views(roots@) == forest_of(entry_views(entries@), parents),
{
    let ghost es = entry_views(entries@);
    let mut roots: Vec<Meta> = Vec::new();
    let mut k: usize = 0;
    proof {
        assert(views(roots@) =~= roots_below(es, parents, 0));
    }
    while k < entries.len()
        invariant
            k <= entries.len(),
            es == entry_views(entries@),
            slots_of(slots@, es, parents),
            kids_of(kids@, es, parents, es.len()),
            views(roots@) == roots_below(es, parents, k as nat),
        decreases entries.len() - k,
    {
        let ghost before = views(roots@);
        if slots[k].is_none() {
            let root = build(entries, kids, k, Ghost(parents));
            roots.push(root);
            proof {
                assert(views(roots@) =~= before.push(subtree(es, parents, k as int)));
            }
        }
        k += 1;
    }
    roots
}

/// Rebuilds the hierarchy from entries, each with the parent path that
/// `parents` gives for it: every entry whose parent path some entry has
/// hangs under that entry, whatever the depths are, and every other entry
/// is a root. Roots and the entries under one parent stand in the order
/// of `entries`.
pub fn assemble(entries: Vec<Entry>, parents: &Vec<Option<String>>) -> (forest: Forest)
    ensures
        views(forest.roots@) == forest_of(entry_views(entries@), parent_views(parents@)),
        orphan_views(forest.orphans@) == orphans_of(
            entry_views(entries@),
            parent_views(parents@),
        ),
{
    let ghost ps = parent_views(parents@);
    let index = index_paths(&entries);
    let (slots, orphans) = place(&entries, parents, &index);
    let kids = list_kids(&slots, Ghost(entry_views(entries@)), Ghost(ps));
    let roots = gather(&entries, &slots, &kids, Ghost(ps));
    Forest { roots, orphans }
}

/// Asks `Path::parent` for the parent path of every entry.
fn find_parents(entries: &Vec<Entry>) -> (parents: Vec<Option<String>>)
    ensures
        parent_views(parents@) == parents_of(entry_views(entries@)),
        proper(entry_views(entries@), parents_of(entry_views(entries@))),
{
    let ghost es = entry_views(entries@);
    let mut parents: Vec<Option<String>> = Vec::new();
    let mut i: usize = 0;
    while i < entries.len()
        invariant
            i <= entries.len(),
            es == entry_views(entries@),
            parents.len() == i,
            forall|k: int|
                0 <= k < i ==> #[trigger] parent_views(parents@)[k] == path_parent(
                    es[k].meta.path,
                ),
            forall|k: int|
                0 <= k < i ==> ((#[trigger] parents_of(es)[k]) matches Some(p) ==> p.len()
                    < es[k].meta.path.len()),
        decreases entries.len() - i,
    {
        proof {
            assert(es[i as int].meta.path == entries[i as int].meta.path@);
        }
        let ghost before = parent_views(parents@);
        let parent = parent_of(entries[i].meta.path.as_str());
        parents.push(parent);
        proof {
            assert forall|k: int| 0 <= k < i + 1 implies #[trigger] parent_views(parents@)[k]
                == path_parent(es[k].meta.path) by {
                if k < i {
                    assert(parent_views(parents@)[k] == before[k]);
                }
            }
            assert(parents_of(es)[i as int] == path_parent(es[i as int].meta.path));
        }
        i += 1;
    }
    proof {
        assert(parent_views(parents@) =~= parents_of(es));
    }
    parents
}

/// Rebuilds the hierarchy from the entries of one run: every entry hangs
/// under the entry that has its parent path, and an entry whose parent
/// path no entry has is a root. Roots and the entries under one parent
/// stand deepest first, entries of one depth in the order in which they
/// were found. Every parent path that `Path::parent` gives counts.
pub fn build_forest(entries: Vec<Entry>) -> (forest: Forest)
    ensures
        views(forest.roots@) == forest_of(
            by_depth(entry_views(entries@)),
            parents_of(by_depth(entry_views(entries@))),
        ),
        orphan_views(forest.orphans@) == orphans_of(
            by_depth(entry_views(entries@)),
            parents_of(by_depth(entry_views(entries@))),
        ),
        proper(by_depth(entry_views(entries@)), parents_of(by_depth(entry_views(entries@)))),
        forall|t: int|
            0 <= t < forest.orphans@.len() ==> path_parent((#[trigger] forest.orphans@[t]).path@)
                == Some(forest.orphans@[t].parent@),
{
    let sorted = order_by_depth(entries);
    let parents = find_parents(&sorted);
    let forest = assemble(sorted, &parents);
    proof {
        let es = entry_views(sorted@);
        assert forall|t: int| 0 <= t < forest.orphans@.len() implies path_parent(
            (#[trigger] forest.orphans@[t]).path@,
        ) == Some(forest.orphans@[t].parent@) by {
            assert(orphan_views(forest.orphans@)[t] == forest.orphans@[t]@);
            lemma_orphans_name_their_parent(es, t);
        }
    }
    forest
}

/// The paths of the records of the first `m` entries, with all that lies
/// below them, each as often as it occurs.
pub open spec fn entry_paths(es: Seq<EntryView>, m: nat) -> Multiset<Seq<char>>
    decreases m,
{
    if m == 0 {
        Multiset::empty()
    } else {
        entry_paths(es, (m - 1) as nat).add(es[m - 1].meta.paths())
    }
}

/// The paths of the subtrees of the first `m` entries.
pub open spec fn tree_paths(
    es: Seq<EntryView>,
    parents: Seq<Option<Seq<char>>>,
    m: nat,
) -> Multiset<Seq<char>>
    decreases m,
{
    if m == 0 {
        Multiset::empty()
    } else {
        tree_paths(es, parents, (m - 1) as nat).add(subtree(es, parents, m - 1).paths())
    }
}

/// The paths of the subtrees of those of the first `m` entries that hang
/// under another entry.
pub open spec fn hung_paths(
    es: Seq<EntryView>,
    parents: Seq<Option<Seq<char>>>,
    m: nat,
) -> Multiset<Seq<char>>
    decreases m,
{
    if m == 0 {
        Multiset::empty()
    } else {
        let rest = hung_paths(es, parents, (m - 1) as nat);
        if parent_slot(es, parents, m - 1) is Some {
            rest.add(subtree(es, parents, m - 1).paths())
        } else {
            rest
        }
    }
}

/// The paths of what the first `m` entries hand to the first `width` entries.
pub open spec fn kids_paths(
    es: Seq<EntryView>,
    parents: Seq<Option<Seq<char>>>,
    width: nat,
    m: nat,
) -> Multiset<Seq<char>>
    decreases width,
{
    if width == 0 {
        Multiset::empty()
    } else {
        kids_paths(es, parents, (width - 1) as nat, m).add(
            paths_all(children_below(es, parents, width - 1, m)),
        )
    }
}

/// Every subtree is that of a root or that of an entry that hangs under another.
proof fn lemma_tree_paths_split(es: Seq<EntryView>, parents: Seq<Option<Seq<char>>>, m: nat)
    ensures
        tree_paths(es, parents, m) == paths_all(roots_below(es, parents, m)).add(
            hung_paths(es, parents, m),
        ),
    decreases m,
{
    broadcast use vstd::multiset::group_multiset_axioms;

    if m > 0 {
        lemma_tree_paths_split(es, parents, (m - 1) as nat);
        if parent_slot(es, parents, m - 1) is None {
            lemma_paths_all_push(
                roots_below(es, parents, (m - 1) as nat),
                subtree(es, parents, m - 1),
            );
        }
    }
    assert(tree_paths(es, parents, m) =~= paths_all(roots_below(es, parents, m)).add(
        hung_paths(es, parents, m),
    ));
}

/// Every subtree holds the paths of its own record and of what was handed to it.
proof fn lemma_tree_paths_own(es: Seq<EntryView>, parents: Seq<Option<Seq<char>>>, m: nat)
    ensures
        tree_paths(es, parents, m) == entry_paths(es, m).add(
            kids_paths(es, parents, m, es.len()),
        ),
    decreases m,
{
    broadcast use vstd::multiset::group_multiset_axioms;

    if m > 0 {
        lemma_tree_paths_own(es, parents, (m - 1) as nat);
        lemma_paths_with_children(
            es[m - 1].meta,
            children_below(es, parents, m - 1, es.len()),
        );
    }
    assert(tree_paths(es, parents, m) =~= entry_paths(es, m).add(
        kids_paths(es, parents, m, es.len()),
    ));
}

/// An entry is handed to one entry at most: what entry `m` adds to what
/// the first `width` entries were handed.
proof fn lemma_kids_paths_step(
    es: Seq<EntryView>,
    parents: Seq<Option<Seq<char>>>,
    width: nat,
    m: nat,
)
    requires
        m < es.len(),
    ensures
        kids_paths(es, parents, width, m + 1) == (match parent_slot(es, parents, m as int) {
            Some(j) => if 0 <= j < width {
                kids_paths(es, parents, width, m).add(subtree(es, parents, m as int).paths())
            } else {
                kids_paths(es, parents, width, m)
            },
            None => kids_paths(es, parents, width, m),
        }),
    decreases width,
{
    broadcast use vstd::multiset::group_multiset_axioms;

    if width > 0 {
        let i = (width - 1) as int;
        lemma_kids_paths_step(es, parents, (width - 1) as nat, m);
        if parent_slot(es, parents, m as int) == Some(i) {
            lemma_paths_all_push(
                children_below(es, parents, i, m),
                subtree(es, parents, m as int),
            );
        }
        let gone = subtree(es, parents, m as int).paths();
        match parent_slot(es, parents, m as int) {
            Some(j) => {
                if 0 <= j < width {
                    assert(kids_paths(es, parents, width, m + 1) =~= kids_paths(
                        es,
                        parents,
                        width,
                        m,
                    ).add(gone));
                } else {
                    assert(kids_paths(es, parents, width, m + 1) =~= kids_paths(
                        es,
                        parents,
                        width,
                        m,
                    ));
                }
            },
            None => {
                assert(kids_paths(es, parents, width, m + 1) =~= kids_paths(
                    es,
                    parents,
                    width,
                    m,
                ));
            },
        }
    }
}

/// What the entries were handed is the subtrees of the entries that hang
/// under another.
proof fn lemma_kids_paths(es: Seq<EntryView>, parents: Seq<Option<Seq<char>>>, m: nat)
    requires
        m <= es.len(),
    ensures
        kids_paths(es, parents, es.len(), m) == hung_paths(es, parents, m),
    decreases m,
{
    broadcast use vstd::multiset::group_multiset_axioms;

    if m == 0 {
        lemma_kids_paths_none(es, parents, es.len());
    } else {
        let k = (m - 1) as nat;
        lemma_kids_paths(es, parents, k);
        lemma_kids_paths_step(es, parents, es.len(), k);
        if parent_slot(es, parents, k as int) is Some {
            lemma_child_is_longer(es, parents, k as int);
        }
    }
}

/// Before any entry is looked at, none was handed anything.
proof fn lemma_kids_paths_none(es: Seq<EntryView>, parents: Seq<Option<Seq<char>>>, width: nat)
    ensures
        kids_paths(es, parents, width, 0) == Multiset::<Seq<char>>::empty(),
    decreases width,
{
    broadcast use vstd::multiset::group_multiset_axioms;

    if width > 0 {
        lemma_kids_paths_none(es, parents, (width - 1) as nat);
        assert(kids_paths(es, parents, width, 0) =~= Multiset::<Seq<char>>::empty());
    }
}

/// Reconstruction is a re-partitioning, never a filter: the forest holds
/// the records of the entries, with all that lay below them, each exactly
/// as often as it came.
pub proof fn lemma_forest_keeps_every_record(
    es: Seq<EntryView>,
    parents: Seq<Option<Seq<char>>>,
)
    ensures
        paths_all(forest_of(es, parents)) == entry_paths(es, es.len()),
        count_all(forest_of(es, parents)) == entry_paths(es, es.len()).len(),
{
    broadcast use vstd::multiset::group_multiset_axioms;

    let roots = paths_all(forest_of(es, parents));
    let hung = hung_paths(es, parents, es.len());
    let own = entry_paths(es, es.len());
    lemma_tree_paths_split(es, parents, es.len());
    lemma_tree_paths_own(es, parents, es.len());
    lemma_kids_paths(es, parents, es.len());
    assert(roots.add(hung) == own.add(hung));
    assert forall|v: Seq<char>| roots.count(v) == own.count(v) by {
        assert(roots.add(hung).count(v) == own.add(hung).count(v));
    }
    assert(roots =~= own);
    lemma_count_all_is_paths_len(forest_of(es, parents));
}

/// Whether nothing lies below the record of any entry yet.
pub open spec fn childless(es: Seq<EntryView>) -> bool {
    forall|k: int|
        0 <= k < es.len() ==> (#[trigger] es[k]).meta.content is None
            || es[k].meta.content->0.len() == 0
}

/// Entries with nothing below them have one path each.
pub proof fn lemma_entry_paths_len(es: Seq<EntryView>, m: nat)
    requires
        m <= es.len(),
        childless(es),
    ensures
        entry_paths(es, m).len() == m,
    decreases m,
{
    if m > 0 {
        lemma_entry_paths_len(es, (m - 1) as nat);
        let one = es[m - 1];
        assert(one.meta.paths().len() == 1) by {
            if one.meta.content is Some {
                assert(paths_all(one.meta.content->0) =~= Multiset::empty());
            }
        }
    }
}

/// From N records that have nothing below them yet comes a forest of
/// exactly N records.
pub proof fn lemma_forest_counts_every_record(
    es: Seq<EntryView>,
    parents: Seq<Option<Seq<char>>>,
)
    requires
        childless(es),
    ensures
        count_all(forest_of(es, parents)) == es.len(),
{
    lemma_forest_keeps_every_record(es, parents);
    lemma_entry_paths_len(es, es.len());
}

/// The depths rank the entries as an order by a key does.
pub proof fn lemma_deeper_weak_order()
    ensures
        weak_order(deeper()),
{
}

/// In the order of reconstruction no entry stands behind a less deep one.
pub proof fn lemma_by_depth_ordered(s: Seq<EntryView>)
    ensures
        by_depth(s).len() == s.len(),
        by_depth(s).to_multiset() == s.to_multiset(),
        forall|i: int, j: int|
            0 <= i < j < by_depth(s).len() ==> (#[trigger] by_depth(s)[i]).depth >= (
            #[trigger] by_depth(s)[j]).depth,
{
    let out = by_depth(s);
    lemma_deeper_weak_order();
    lemma_stable_sort_ordered(deeper(), s);
    lemma_stable_sort_len(deeper(), s);
    lemma_stable_sort_permutes(deeper(), s);
    assert forall|i: int, j: int| 0 <= i < j < out.len() implies (#[trigger] out[i]).depth >= (
    #[trigger] out[j]).depth by {
        assert(!deeper()(out[j], out[i]));
    }
}

/// A list with one more entry in it has the paths of both.
proof fn lemma_entry_paths_insert(es: Seq<EntryView>, p: int, x: EntryView)
    requires
        0 <= p <= es.len(),
    ensures
        entry_paths(es.insert(p, x), es.len() + 1) == entry_paths(es, es.len()).add(
            x.meta.paths(),
        ),
    decreases es.len() - p,
{
    let wide = es.insert(p, x);
    if p == es.len() {
        assert(wide.last() == x);
        lemma_entry_paths_prefix(wide, es, es.len());
    } else {
        let front = es.drop_last();
        lemma_entry_paths_insert(front, p, x);
        assert(wide.last() == es.last());
        lemma_entry_paths_prefix(wide, front.insert(p, x), es.len());
        lemma_entry_paths_prefix(es, front, front.len());
        assert(entry_paths(wide, es.len() + 1) =~= entry_paths(es, es.len()).add(x.meta.paths()));
    }
}

/// Lists that agree on their first `m` entries have the same paths there.
proof fn lemma_entry_paths_prefix(a: Seq<EntryView>, b: Seq<EntryView>, m: nat)
    requires
        m <= a.len(),
        m <= b.len(),
        forall|k: int| 0 <= k < m ==> a[k] == b[k],
    ensures
        entry_paths(a, m) == entry_paths(b, m),
    decreases m,
{
    if m > 0 {
        lemma_entry_paths_prefix(a, b, (m - 1) as nat);
    }
}

/// Taking the entries deepest first loses and adds no record.
pub proof fn lemma_by_depth_keeps_every_record(s: Seq<EntryView>)
    ensures
        by_depth(s).len() == s.len(),
        entry_paths(by_depth(s), s.len()) == entry_paths(s, s.len()),
    decreases s.len(),
{
    lemma_stable_sort_len(deeper(), s);
    if s.len() > 0 {
        let front = s.drop_last();
        let sorted = by_depth(front);
        lemma_by_depth_keeps_every_record(front);
        lemma_stable_sort_len(deeper(), front);
        lemma_insert_position(deeper(), sorted, s.last());
        lemma_entry_paths_insert(sorted, insert_position(deeper(), sorted, s.last()), s.last());
        lemma_entry_paths_prefix(s, front, front.len());
    }
}

/// Reconstruction completeness: the forest that is built from the entries
/// of a run holds every record of them exactly once, as a root or below
/// one, whatever the order in which they came.
pub proof fn lemma_build_forest_keeps_every_record(s: Seq<EntryView>)
    ensures
        paths_all(forest_of(by_depth(s), parents_of(by_depth(s)))) == entry_paths(s, s.len()),
        childless(s) ==> count_all(forest_of(by_depth(s), parents_of(by_depth(s)))) == s.len(),
{
    let es = by_depth(s);
    lemma_by_depth_keeps_every_record(s);
    lemma_forest_keeps_every_record(es, parents_of(es));
    if childless(s) {
        lemma_entry_paths_len(s, s.len());
    }
}

/// An entry hangs under another exactly if some entry has its parent
/// path, whatever the depths of the two are; the entry under which it
/// hangs has that path.
pub proof fn lemma_hangs_iff_parent_present(
    es: Seq<EntryView>,
    parents: Seq<Option<Seq<char>>>,
    i: int,
)
    requires
        0 <= i < es.len(),
    ensures
        parent_slot(es, parents, i) is Some <==> (parent_at(es, parents, i) matches Some(p)
            && exists|j: int| 0 <= j < es.len() && (#[trigger] es[j]).meta.path == p),
        parent_slot(es, parents, i) matches Some(at) ==> 0 <= at < es.len() && Some(
            es[at].meta.path,
        ) == parent_at(es, parents, i),
{
    if parent_slot(es, parents, i) is Some {
        lemma_child_is_longer(es, parents, i);
        let at = parent_slot(es, parents, i)->0;
        assert(es[at].meta.path == parent_at(es, parents, i)->0);
    }
    if parent_at(es, parents, i) is Some {
        let p = parent_at(es, parents, i)->0;
        if exists|j: int| 0 <= j < es.len() && (#[trigger] es[j]).meta.path == p {
            let j = choose|j: int| 0 <= j < es.len() && (#[trigger] es[j]).meta.path == p;
            lemma_path_index_complete(es, es.len(), j);
        }
    }
}

/// Under an entry hang the subtrees of entries whose parent path is its
/// path, never that of a more distant ancestor.
pub proof fn lemma_children_have_the_parent_path(
    es: Seq<EntryView>,
    parents: Seq<Option<Seq<char>>>,
    j: int,
    upto: nat,
    t: int,
)
    requires
        0 <= t < children_below(es, parents, j, upto).len(),
    ensures
        exists|k: int|
            0 <= k < upto && k < es.len() && #[trigger] subtree(es, parents, k) == children_below(
                es,
                parents,
                j,
                upto,
            )[t] && parent_at(es, parents, k) == Some(es[j].meta.path) && children_below(
                es,
                parents,
                j,
                upto,
            )[t].path == es[k].meta.path,
    decreases upto,
{
    let rest = children_below(es, parents, j, (upto - 1) as nat);
    let child = children_below(es, parents, j, upto)[t];
    if t < rest.len() {
        lemma_children_have_the_parent_path(es, parents, j, (upto - 1) as nat, t);
        let k = choose|k: int|
            0 <= k < upto - 1 && k < es.len() && #[trigger] subtree(es, parents, k) == rest[t]
                && parent_at(es, parents, k) == Some(es[j].meta.path) && rest[t].path
                == es[k].meta.path;
        assert(subtree(es, parents, k) == child);
    } else {
        let k = upto - 1;
        lemma_child_is_longer(es, parents, k);
        assert(subtree(es, parents, k) == child);
    }
}

/// The parent paths that `Path::parent` gives all count, where they are
/// shorter than the paths they are the parents of.
pub proof fn lemma_proper_parents_count(es: Seq<EntryView>, i: int)
    requires
        0 <= i < es.len(),
        proper(es, parents_of(es)),
    ensures
        parent_at(es, parents_of(es), i) == path_parent(es[i].meta.path),
{
    assert(parents_of(es)[i] == path_parent(es[i].meta.path));
}

/// The subtree of every entry that hangs under no other one is a root.
pub proof fn lemma_root_in_forest(
    es: Seq<EntryView>,
    parents: Seq<Option<Seq<char>>>,
    i: int,
    upto: nat,
)
    requires
        0 <= i < upto,
        parent_slot(es, parents, i) is None,
    ensures
        roots_below(es, parents, upto).contains(subtree(es, parents, i)),
    decreases upto,
{
    let roots = roots_below(es, parents, upto);
    if i == upto - 1 {
        assert(roots.last() == subtree(es, parents, i));
    } else {
        lemma_root_in_forest(es, parents, i, (upto - 1) as nat);
        let before = roots_below(es, parents, (upto - 1) as nat);
        let at = choose|t: int| 0 <= t < before.len() && before[t] == subtree(es, parents, i);
        assert(roots[at] == subtree(es, parents, i));
    }
}

/// Depth-1 silence: every orphan that is named is an entry below depth 1
/// that has a parent path which no entry has, with that parent path.
pub proof fn lemma_orphans_are_deep(
    es: Seq<EntryView>,
    parents: Seq<Option<Seq<char>>>,
    upto: nat,
    t: int,
)
    requires
        0 <= t < orphans_below(es, parents, upto).len(),
    ensures
        exists|i: int|
            0 <= i < upto && is_orphan(es, parents, i) && #[trigger] es[i].meta.path
                == orphans_below(es, parents, upto)[t].path && parent_at(es, parents, i)
                == Some(orphans_below(es, parents, upto)[t].parent),
    decreases upto,
{
    let before = orphans_below(es, parents, (upto - 1) as nat);
    let named = orphans_below(es, parents, upto)[t];
    if t < before.len() {
        lemma_orphans_are_deep(es, parents, (upto - 1) as nat, t);
        let i = choose|i: int|
            0 <= i < upto - 1 && is_orphan(es, parents, i) && #[trigger] es[i].meta.path
                == before[t].path && parent_at(es, parents, i) == Some(before[t].parent);
        assert(es[i].meta.path == named.path);
    } else {
        assert(is_orphan(es, parents, upto - 1));
        assert(es[upto - 1].meta.path == named.path);
    }
}

/// Beside every orphan stands the parent path that `Path::parent` gives
/// for its path.
pub proof fn lemma_orphans_name_their_parent(es: Seq<EntryView>, t: int)
    requires
        proper(es, parents_of(es)),
        0 <= t < orphans_of(es, parents_of(es)).len(),
    ensures
        path_parent(orphans_of(es, parents_of(es))[t].path) == Some(
            orphans_of(es, parents_of(es))[t].parent,
        ),
{
    let parents = parents_of(es);
    lemma_orphans_are_deep(es, parents, es.len(), t);
    let named = orphans_of(es, parents)[t];
    let i = choose|i: int|
        0 <= i < es.len() && is_orphan(es, parents, i) && #[trigger] es[i].meta.path
            == named.path && parent_at(es, parents, i) == Some(named.parent);
    lemma_proper_parents_count(es, i);
}

/// No orphan is dropped and none goes unnamed: an entry below depth 1
/// that has a parent path which no entry has is a root of the forest, and
/// it is named among the orphans with that parent path.
pub proof fn lemma_orphan_is_listed(
    es: Seq<EntryView>,
    parents: Seq<Option<Seq<char>>>,
    i: int,
    upto: nat,
)
    requires
        0 <= i < upto,
        is_orphan(es, parents, i),
    ensures
        orphans_below(es, parents, upto).contains(
            OrphanView { path: es[i].meta.path, parent: parent_at(es, parents, i)->0 },
        ),
        roots_below(es, parents, upto).contains(subtree(es, parents, i)),
    decreases upto,
{
    lemma_root_in_forest(es, parents, i, upto);
    let listed = orphans_below(es, parents, upto);
    let named = OrphanView { path: es[i].meta.path, parent: parent_at(es, parents, i)->0 };
    if i == upto - 1 {
        assert(listed.last() == named);
    } else {
        lemma_orphan_is_listed(es, parents, i, (upto - 1) as nat);
        let before = orphans_below(es, parents, (upto - 1) as nat);
        let at = choose|t: int| 0 <= t < before.len() && before[t] == named;
        assert(listed[at] == named);
    }
}

/// The records of the entries, in order.
pub open spec fn records_of(es: Seq<EntryView>) -> Seq<MetaView> {
    Seq::new(es.len(), |i: int| es[i].meta)
}

/// Takes the records out of the entries, in order.
pub fn records(entries: Vec<Entry>) -> (metas: Vec<Meta>)
    ensures
        views(metas@) == records_of(entry_views(entries@)),
{
    let ghost es = entry_views(entries@);
    let n = entries.len();
    let mut rest = reverse(entries);
    let mut metas: Vec<Meta> = Vec::new();
    let mut done: usize = 0;
    while done < n
        invariant
            done <= n,
            n == es.len(),
            rest.len() == n - done,
            forall|k: int| 0 <= k < rest.len() ==> (#[trigger] rest@[k])@ == es[n - 1 - k],
            metas.len() == done,
            forall|k: int| 0 <= k < done ==> (#[trigger] metas@[k])@ == es[k].meta,
        decreases n - done,
    {
        let next = rest.pop();
        match next {
            Some(e) => {
                let Entry { depth, meta } = e;
                metas.push(meta);
                done += 1;
            },
            None => {
                done = n;
            },
        }
    }
    proof {
        assert(views(metas@) =~= records_of(es));
    }
    metas
}

} // verus!
