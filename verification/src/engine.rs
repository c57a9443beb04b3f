//! The orchestrator: which roots are listed, how deep the traversal goes,
//! what becomes of each entry that the traversal yields, and in which
//! arrangement the records are handed on.

use crate::flags::{Flags, HyperlinkOption, Layout, Literal};
use crate::meta::{count_all, paths_all, views, Meta, MetaView};
use crate::sort::{
    lemma_sort_forest_keeps_every_record, lemma_sort_level_permutes, sort_forest, sort_level,
    sort_level_records, sort_records,
};
use crate::tree::{
    build_forest, by_depth, childless, entry_paths, entry_views, forest_of,
    lemma_build_forest_keeps_every_record, orphan_views, orphans_of, parents_of, path_parent,
    proper, records, records_of, Entry, EntryView, Orphan,
};
use crate::ExitCode;
use vstd::prelude::*;

verus! {

/// The options of a run, settled for the output at hand.
#[derive(Debug, Clone, PartialEq, Eq)]
pub struct Core {
    pub flags: Flags,
}

/// What a run has taken in so far: the roots that exist, the entries that
/// the traversal has yielded, and how badly it has gone.
#[derive(Debug, Clone, PartialEq, Eq)]
pub struct Run {
    pub exit_code: ExitCode,
    pub roots: Vec<String>,
    pub entries: Vec<Entry>,
}

/// The arrangement that is handed to the renderer.
#[derive(Debug, Clone, PartialEq, Eq)]
pub enum Listing {
    /// No root exists: there is nothing to show.
    Nothing,
    /// The records of one level, in order.
    Flat(Vec<Meta>),
    /// The roots of the forest, every level in order, and the orphans
    /// among the records, each with the parent path that no record has.
    Tree { roots: Vec<Meta>, orphans: Vec<Orphan> },
}

/// The options as they hold for an output that is a terminal or is none:
/// hyperlinks on `Auto` are shown on a terminal only; an output that is no
/// terminal gets one entry per line, unless a tree is asked for, and
/// literal names.
pub open spec fn adjusted(flags: Flags, tty_available: bool) -> Flags {
    Flags {
        hyperlink: if flags.hyperlink == HyperlinkOption::Auto {
            if tty_available {
                HyperlinkOption::Always
            } else {
                HyperlinkOption::Never
            }
        } else {
            flags.hyperlink
        },
        layout: if !tty_available && flags.layout != Layout::Tree {
            Layout::OneLine
        } else {
            flags.layout
        },
        literal: if !tty_available {
            Literal(true)
        } else {
            flags.literal
        },
        ..flags
    }
}

/// How many levels the traversal goes down: a tree goes as deep as the
/// recursion depth allows; another layout does so only where recursion is
/// enabled, and shows one level otherwise.
pub open spec fn depth_bound(flags: Flags) -> usize {
    if flags.layout == Layout::Tree {
        flags.recursion.depth
    } else if flags.recursion.enabled {
        flags.recursion.depth
    } else {
        1
    }
}

/// The arrangement of the entries `es` of a run with at least one root.
pub open spec fn arranged_roots(flags: Flags, es: Seq<EntryView>) -> Seq<MetaView> {
    if flags.layout == Layout::Tree {
        sort_forest(flags.sorting, forest_of(by_depth(es), parents_of(by_depth(es))))
    } else {
        sort_level(flags.sorting, records_of(es))
    }
}

impl Core {
    /// Settles the options for the output at hand.
    pub fn new(flags: Flags, tty_available: bool) -> (core: Core)
        ensures
            core.flags == adjusted(flags, tty_available),
    {
        let mut flags = flags;
        match flags.hyperlink {
            HyperlinkOption::Auto => {
                if tty_available {
                    flags.hyperlink = HyperlinkOption::Always;
                } else {
                    flags.hyperlink = HyperlinkOption::Never;
                }
            },
            _ => {},
        }
        if !tty_available {
            match flags.layout {
                Layout::Tree => {},
                _ => {
                    flags.layout = Layout::OneLine;
                },
            }
            flags.literal = Literal(true);
        }
        Core { flags }
    }

    /// How many levels the traversal goes down.
    pub fn depth(&self) -> (depth: usize)
        ensures
            depth == depth_bound(self.flags),
    {
        match self.flags.layout {
            Layout::Tree => self.flags.recursion.depth,
            _ => if self.flags.recursion.enabled {
                self.flags.recursion.depth
            } else {
                1
            },
        }
    }

    /// Orders a forest in place: every level of it, with the comparator of
    /// the sorting flags.
    pub fn sort(&self, metas: &mut Vec<Meta>)
        ensures
            views(final(metas)@) == sort_forest(self.flags.sorting, views(old(metas)@)),
    {
        let mut taken: Vec<Meta> = Vec::new();
        std::mem::swap(metas, &mut taken);
        let sorted = sort_records(&self.flags.sorting, taken);
        *metas = sorted;
    }

    /// Arranges what a run has taken in. Without a root there is nothing
    /// to show. A tree is rebuilt from the entries and ordered on every
    /// level; any other layout is the records in one ordered level.
    pub fn arrange(&self, run: Run) -> (r: (Listing, ExitCode))
        ensures
            r.1 == run.exit_code,
            run.roots@.len() == 0 ==> r.0 is Nothing,
            run.roots@.len() > 0 && self.flags.layout == Layout::Tree ==> r.0 is Tree && views(
                r.0->roots@,
            ) == arranged_roots(self.flags, entry_views(run.entries@)) && orphan_views(
                r.0->orphans@,
            ) == orphans_of(
                by_depth(entry_views(run.entries@)),
                parents_of(by_depth(entry_views(run.entries@))),
            ) && proper(
                by_depth(entry_views(run.entries@)),
                parents_of(by_depth(entry_views(run.entries@))),
            ) && forall|t: int|
                0 <= t < r.0->orphans@.len() ==> path_parent((#[trigger] r.0->orphans@[t]).path@)
                    == Some(r.0->orphans@[t].parent@),
            run.roots@.len() > 0 && self.flags.layout != Layout::Tree ==> r.0 is Flat && views(
                r.0->0@,
            ) == arranged_roots(self.flags, entry_views(run.entries@)),
    {
        let Run { exit_code, roots, entries } = run;
        if roots.len() == 0 {
            return (Listing::Nothing, exit_code);
        }
        match self.flags.layout {
            Layout::Tree => {
                let forest = build_forest(entries);
                let sorted = sort_records(&self.flags.sorting, forest.roots);
                (Listing::Tree { roots: sorted, orphans: forest.orphans }, exit_code)
            },
            _ => {
                let metas = records(entries);
                let sorted = sort_level_records(&self.flags.sorting, metas);
                (Listing::Flat(sorted), exit_code)
            },
        }
    }
}

impl Run {
    /// A run that has taken in nothing.
    pub fn new() -> (run: Run)
        ensures
            run.exit_code == ExitCode::OK,
            run.roots@.len() == 0,
            run.entries@.len() == 0,
    {
        Run { exit_code: ExitCode::OK, roots: Vec::new(), entries: Vec::new() }
    }

    /// Takes in a path that was asked for. One that exists is listed; one
    /// that does not is left out and makes the run a minor issue. The
    /// result says whether the path is listed.
    pub fn add_root(&mut self, path: String, exists: bool) -> (listed: bool)
        ensures
            listed == exists,
            final(self).entries == old(self).entries,
            exists ==> final(self).roots@ == old(self).roots@.push(path) && final(self).exit_code
                == old(self).exit_code,
            !exists ==> final(self).roots == old(self).roots && final(self).exit_code == old(
                self,
            ).exit_code.max(ExitCode::MinorIssue),
    {
        if exists {
            self.roots.push(path);
        } else {
            self.exit_code.set_if_greater(ExitCode::MinorIssue);
        }
        exists
    }

    /// Whether any root is listed, so that the traversal is worth starting.
    pub fn has_roots(&self) -> (r: bool)
        ensures
            r == (self.roots@.len() > 0),
    {
        self.roots.len() > 0
    }

    /// Takes in what the traversal yields next. An entry is kept. A
    /// failure is handed back for the diagnostic and makes the run a
    /// minor issue; the run goes on.
    pub fn accept(&mut self, found: Result<Entry, String>) -> (failure: Option<String>)
        ensures
            final(self).roots == old(self).roots,
            match found {
                Ok(entry) => failure is None && final(self).entries@ == old(self).entries@.push(
                    entry,
                ) && final(self).exit_code == old(self).exit_code,
                Err(message) => failure == Some(message) && final(self).entries == old(
                    self,
                ).entries && final(self).exit_code == old(self).exit_code.max(
                    ExitCode::MinorIssue,
                ),
            },
    {
        match found {
            Ok(entry) => {
                self.entries.push(entry);
                None
            },
            Err(message) => {
                self.exit_code.set_if_greater(ExitCode::MinorIssue);
                Some(message)
            },
        }
    }
}

/// Nothing is lost on the way to the renderer. A tree holds every record
/// of the entries exactly once, as a root or below one; from N entries
/// with nothing below them it has exactly N records. A flat listing is a
/// permutation of the records.
pub proof fn lemma_arrangement_keeps_every_record(flags: Flags, es: Seq<EntryView>)
    ensures
        flags.layout == Layout::Tree ==> paths_all(arranged_roots(flags, es)) == entry_paths(
            es,
            es.len(),
        ),
        flags.layout == Layout::Tree && childless(es) ==> count_all(arranged_roots(flags, es))
            == es.len(),
        flags.layout != Layout::Tree ==> arranged_roots(flags, es).to_multiset() == records_of(
            es,
        ).to_multiset(),
{
    if flags.layout == Layout::Tree {
        let forest = forest_of(by_depth(es), parents_of(by_depth(es)));
        lemma_build_forest_keeps_every_record(es);
        lemma_sort_forest_keeps_every_record(flags.sorting, forest);
    } else {
        lemma_sort_level_permutes(flags.sorting, records_of(es));
    }
}

} // verus!
