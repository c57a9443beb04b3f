//! Arranging discovered filesystem entries for listing: rebuilding the
//! directory hierarchy from flat path records, ordering every level with a
//! configurable comparator, and folding failures into one exit status.

pub mod app;
pub mod arrival;
pub mod config_file;
pub mod engine;
pub mod flags;
pub mod meta;
pub mod natural;
pub mod order;
pub mod sort;
pub mod stable;
pub mod text;
pub mod tree;

pub use crate::app::Cli;
pub use crate::config_file::Config;
pub use crate::engine::{Core, Listing, Run};
pub use crate::flags::{
    DirGrouping, Display, Flags, Header, HyperlinkOption, Indicators, Layout, Literal,
    PermissionFlag, Recursion, SizeFlag, SortColumn, SortOrder, Sorting, SymlinkArrow,
    TruncateOwner,
};
pub use crate::meta::{GitFileStatus, GitStatus, Meta};
pub use crate::tree::{Entry, Forest, Orphan};

use vstd::prelude::*;

verus! {

/// How badly a run went. The levels are totally ordered by `level`.
#[derive(Debug, PartialEq, Eq, PartialOrd, Copy, Clone, Structural)]
pub enum ExitCode {
    /// Everything was listed.
    OK,
    /// Some paths or entries failed, but output was produced.
    MinorIssue,
    /// The run could not start, for instance on invalid arguments.
    MajorIssue,
}

impl ExitCode {
    /// The process exit status that stands for this code.
    pub open spec fn level(self) -> int {
        match self {
            ExitCode::OK => 0,
            ExitCode::MinorIssue => 1,
            ExitCode::MajorIssue => 2,
        }
    }

    /// The more severe of two codes.
    pub open spec fn max(self, other: ExitCode) -> ExitCode {
        if self.level() < other.level() {
            other
        } else {
            self
        }
    }

    /// Raises `self` to `code` when `code` is the more severe one.
    pub fn set_if_greater(&mut self, code: ExitCode)
        ensures
            *final(self) == old(self).max(code),
            final(self).level() >= old(self).level(),
            final(self).level() >= code.level(),
    {
        let current: i32 = self.as_i32();
        let other: i32 = code.as_i32();
        if current < other {
            *self = code;
        }
    }

    /// The exit status as a small integer.
    pub fn as_i32(&self) -> (status: i32)
        ensures
            status == self.level(),
    {
        match self {
            ExitCode::OK => 0,
            ExitCode::MinorIssue => 1,
            ExitCode::MajorIssue => 2,
        }
    }
}

impl From<ExitCode> for i32 {
    /// The process exit status that stands for the code.
    fn from(code: ExitCode) -> (status: i32) {
        code.as_i32()
    }
}

impl vstd::std_specs::convert::FromSpecImpl<ExitCode> for i32 {
    open spec fn obeys_from_spec() -> bool {
        true
    }

    open spec fn from_spec(code: ExitCode) -> i32 {
        code.level() as i32
    }
}

/// The code that a run ends with when it starts at `start` and is raised
/// by each of `updates` in turn.
pub open spec fn accumulate(start: ExitCode, updates: Seq<ExitCode>) -> ExitCode
    decreases updates.len(),
{
    if updates.len() == 0 {
        start
    } else {
        accumulate(start, updates.drop_last()).max(updates.last())
    }
}

/// The accumulated code is the most severe of the start and all updates.
pub proof fn lemma_severity_is_maximum(start: ExitCode, updates: Seq<ExitCode>)
    ensures
        accumulate(start, updates).level() >= start.level(),
        forall|i: int|
            0 <= i < updates.len() ==> accumulate(start, updates).level() >= (
            #[trigger] updates[i]).level(),
        accumulate(start, updates) == start || exists|i: int|
            0 <= i < updates.len() && #[trigger] updates[i] == accumulate(start, updates),
    decreases updates.len(),
{
    if updates.len() > 0 {
        let before = updates.drop_last();
        lemma_severity_is_maximum(start, before);
        let total = accumulate(start, updates);
        assert forall|i: int| 0 <= i < updates.len() implies total.level() >= (
        #[trigger] updates[i]).level() by {
            if i < before.len() {
                assert(before[i] == updates[i]);
            }
        }
        if total != start {
            if total == updates.last() {
                assert(updates[updates.len() - 1] == total);
            } else {
                let i = choose|i: int|
                    0 <= i < before.len() && #[trigger] before[i] == accumulate(start, before);
                assert(updates[i] == total);
            }
        }
    }
}

/// The accumulated code never decreases: after more updates it is at
/// least as severe as after fewer.
pub proof fn lemma_severity_never_decreases(start: ExitCode, updates: Seq<ExitCode>, k: int)
    requires
        0 <= k <= updates.len(),
    ensures
        accumulate(start, updates.take(k)).level() <= accumulate(start, updates).level(),
    decreases updates.len(),
{
    if k == updates.len() {
        assert(updates.take(k) =~= updates);
    } else {
        let before = updates.drop_last();
        lemma_severity_never_decreases(start, before, k);
        assert(before.take(k) =~= updates.take(k));
    }
}

} // verus!
