//! The display record: one listed entry with the attributes that ordering
//! reads, and the entries nested below it.

use vstd::multiset::Multiset;
use vstd::prelude::*;

verus! {

/// The state of a file in one of git's two areas.
#[derive(Debug, Clone, Copy, PartialEq, Eq, Structural)]
pub enum GitStatus {
    Default,
    Unmodified,
    Ignored,
    NewInIndex,
    NewInWorkdir,
    Typechange,
    Deleted,
    Renamed,
    Modified,
    Conflicted,
}

impl GitStatus {
    /// The position of a status in the order that git sorting follows.
    pub open spec fn rank(self) -> int {
        match self {
            GitStatus::Default => 0,
            GitStatus::Unmodified => 1,
            GitStatus::Ignored => 2,
            GitStatus::NewInIndex => 3,
            GitStatus::NewInWorkdir => 4,
            GitStatus::Typechange => 5,
            GitStatus::Deleted => 6,
            GitStatus::Renamed => 7,
            GitStatus::Modified => 8,
            GitStatus::Conflicted => 9,
        }
    }

    /// Computes the position of the status in the order that git sorting follows.
    pub fn rank_of(&self) -> (r: u8)
        ensures
            r == self.rank(),
    {
        match self {
            GitStatus::Default => 0,
            GitStatus::Unmodified => 1,
            GitStatus::Ignored => 2,
            GitStatus::NewInIndex => 3,
            GitStatus::NewInWorkdir => 4,
            GitStatus::Typechange => 5,
            GitStatus::Deleted => 6,
            GitStatus::Renamed => 7,
            GitStatus::Modified => 8,
            GitStatus::Conflicted => 9,
        }
    }
}

/// The git state of a file: in the index and in the working directory.
#[derive(Debug, Clone, Copy, PartialEq, Eq, Structural)]
pub struct GitFileStatus {
    pub index: GitStatus,
    pub workdir: GitStatus,
}

/// One listed entry.
///
/// `content` is `None` for an entry that is no directory or was not expanded,
/// and `Some` of a possibly empty list for a directory.
#[derive(Debug, PartialEq, Eq)]
pub struct Meta {
    /// The identity of the entry: two records stand for one entry exactly
    /// if their paths hold the same characters.
    pub path: String,
    /// The file name that is shown and ordered by.
    pub name: String,
    /// Whether the entry is a directory or a link to one.
    pub is_dir: bool,
    /// The size in bytes, where it could be read.
    pub size: Option<u64>,
    /// The modification time in seconds since the epoch, where it could be read.
    pub modified: Option<i64>,
    /// The git state, where the entry lies in a repository.
    pub git_status: Option<GitFileStatus>,
    /// The entries directly below this one.
    pub content: Option<Vec<Meta>>,
}

/// The mathematical value of a [`Meta`].
pub struct MetaView {
    pub path: Seq<char>,
    pub name: Seq<char>,
    pub is_dir: bool,
    pub size: Option<u64>,
    pub modified: Option<i64>,
    pub git_status: Option<GitFileStatus>,
    pub content: Option<Seq<MetaView>>,
}

impl View for Meta {
    type V = MetaView;

    open spec fn view(&self) -> MetaView
        decreases self,
    {
        MetaView {
            path: self.path@,
            name: self.name@,
            is_dir: self.is_dir,
            size: self.size,
            modified: self.modified,
            git_status: self.git_status,
            content: match self.content {
                Some(v) => Some(views_upto(v@, v@.len())),
                None => None,
            },
        }
    }
}

/// The values of the first `n` records of a list.
pub open spec fn views_upto(s: Seq<Meta>, n: nat) -> Seq<MetaView>
    decreases s, n,
{
    if n == 0 || n > s.len() {
        Seq::empty()
    } else {
        views_upto(s, (n - 1) as nat).push(s[n - 1].view())
    }
}

impl Clone for Meta {
    /// A copy of the record with all that lies below it.
    fn clone(&self) -> (r: Meta)
        ensures
            r@ == self@,
        decreases self,
    {
        let content = match &self.content {
            Some(below) => {
                let mut copies: Vec<Meta> = Vec::new();
                let mut i: usize = 0;
                while i < below.len()
                    invariant
                        i <= below.len(),
                        copies.len() == i,
                        self.content == Some(*below),
                        forall|k: int| 0 <= k < i ==> copies@[k]@ == below@[k]@,
                    decreases below.len() - i,
                {
                    proof {
                        assert(decreases_to!(self.content => self.content->0));
                        assert(self.content->0 == *below);
                    }
                    let copy = below[i].clone();
                    copies.push(copy);
                    i += 1;
                }
                proof {
                    assert(views(copies@) =~= views(below@));
                }
                Some(copies)
            },
            None => None,
        };
        let r = Meta {
            path: self.path.clone(),
            name: self.name.clone(),
            is_dir: self.is_dir,
            size: self.size,
            modified: self.modified,
            git_status: self.git_status,
            content,
        };
        proof {
            lemma_content_views(*self);
            lemma_content_views(r);
        }
        r
    }
}

/// The values of a list of records, in order.
pub open spec fn views(s: Seq<Meta>) -> Seq<MetaView> {
    Seq::new(s.len(), |i: int| s[i]@)
}

/// The values of the first `n` records are the first `n` values.
pub proof fn lemma_views_upto(s: Seq<Meta>, n: nat)
    requires
        n <= s.len(),
    ensures
        views_upto(s, n) == views(s).take(n as int),
    decreases n,
{
    if n > 0 {
        lemma_views_upto(s, (n - 1) as nat);
        assert(views_upto(s, n) == views_upto(s, (n - 1) as nat).push(s[n - 1].view()));
        assert(views(s)[n - 1] == s[n - 1]@);
        assert(views(s).take(n - 1).push(s[n - 1]@) =~= views(s).take(n as int));
    } else {
        assert(views_upto(s, n) =~= views(s).take(n as int));
    }
}

/// The value of a record's content is the list of its children's values.
pub proof fn lemma_content_views(m: Meta)
    ensures
        m.content is Some ==> m@.content == Some(views(m.content->0@)),
        m.content is None ==> m@.content is None,
{
    if m.content is Some {
        let v = m.content->0;
        lemma_views_upto(v@, v@.len());
        assert(views(v@).take(v@.len() as int) =~= views(v@));
    }
}

impl MetaView {
    /// This record with `more` appended to its children; the list is created
    /// when the record had none.
    pub open spec fn with_children(self, more: Seq<MetaView>) -> MetaView {
        if more.len() == 0 {
            self
        } else {
            MetaView {
                content: Some(
                    match self.content {
                        Some(s) => s + more,
                        None => more,
                    },
                ),
                ..self
            }
        }
    }

    /// The same record with another list of children.
    pub open spec fn with_content(self, content: Option<Seq<MetaView>>) -> MetaView {
        MetaView { content, ..self }
    }

    /// The number of records in this record's subtree, itself included.
    pub open spec fn count(self) -> nat
        decreases self,
    {
        match self.content {
            Some(s) => 1 + count_all(s),
            None => 1,
        }
    }

    /// The paths of all records in this record's subtree, each as often as it occurs.
    pub open spec fn paths(self) -> Multiset<Seq<char>>
        decreases self,
    {
        match self.content {
            Some(s) => paths_all(s).insert(self.path),
            None => Multiset::singleton(self.path),
        }
    }
}

/// The number of records in a list of subtrees.
pub open spec fn count_all(s: Seq<MetaView>) -> nat
    decreases s,
{
    if s.len() == 0 {
        0
    } else {
        count_all(s.drop_last()) + s.last().count()
    }
}

/// The paths of all records in a list of subtrees.
pub open spec fn paths_all(s: Seq<MetaView>) -> Multiset<Seq<char>>
    decreases s,
{
    if s.len() == 0 {
        Multiset::empty()
    } else {
        paths_all(s.drop_last()).add(s.last().paths())
    }
}

/// The paths of a list with one more subtree at its end.
pub proof fn lemma_paths_all_push(s: Seq<MetaView>, m: MetaView)
    ensures
        paths_all(s.push(m)) == paths_all(s).add(m.paths()),
        count_all(s.push(m)) == count_all(s) + m.count(),
{
    assert(s.push(m).drop_last() =~= s);
}

/// The paths of two lists in a row are the paths of both.
pub proof fn lemma_paths_all_concat(s: Seq<MetaView>, t: Seq<MetaView>)
    ensures
        paths_all(s + t) == paths_all(s).add(paths_all(t)),
        count_all(s + t) == count_all(s) + count_all(t),
    decreases t.len(),
{
    if t.len() == 0 {
        assert(s + t =~= s);
        assert(paths_all(s).add(paths_all(t)) =~= paths_all(s));
    } else {
        lemma_paths_all_concat(s, t.drop_last());
        assert((s + t).drop_last() =~= s + t.drop_last());
        assert((s + t).last() == t.last());
        assert(paths_all(s + t) =~= paths_all(s).add(paths_all(t)));
    }
}

/// A record with more children has its own paths and those of the new children.
pub proof fn lemma_paths_with_children(m: MetaView, more: Seq<MetaView>)
    ensures
        m.with_children(more).paths() == m.paths().add(paths_all(more)),
        m.with_children(more).count() == m.count() + count_all(more),
{
    if more.len() == 0 {
        assert(m.paths().add(paths_all(more)) =~= m.paths());
    } else {
        match m.content {
            Some(s) => {
                lemma_paths_all_concat(s, more);
                assert(m.with_children(more).paths() =~= m.paths().add(paths_all(more)));
            },
            None => {
                assert(m.with_children(more).paths() =~= m.paths().add(paths_all(more)));
            },
        }
    }
}

/// A subtree has as many records as paths.
pub proof fn lemma_count_is_paths_len(m: MetaView)
    ensures
        m.count() == m.paths().len(),
    decreases m,
{
    match m.content {
        Some(s) => {
            lemma_count_all_is_paths_len(s);
        },
        None => {},
    }
}

/// A list of subtrees has as many records as paths.
pub proof fn lemma_count_all_is_paths_len(s: Seq<MetaView>)
    ensures
        count_all(s) == paths_all(s).len(),
    decreases s,
{
    if s.len() > 0 {
        lemma_count_all_is_paths_len(s.drop_last());
        lemma_count_is_paths_len(s.last());
    }
}

} // verus!
