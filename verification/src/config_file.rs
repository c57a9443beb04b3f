//! The settings of the configuration file, as the flags read them.

use crate::flags::display::Display;
use crate::flags::hyperlink::HyperlinkOption;
use crate::flags::layout::Layout;
use crate::flags::permission::PermissionFlag;
use crate::flags::size::SizeFlag;
use crate::flags::sorting::{DirGrouping, SortColumn};
use vstd::prelude::*;
use vstd::string::StringExecFns;

verus! {

/// The settings of a configuration file; each may be absent.
#[derive(Debug, Clone, PartialEq, Eq)]
pub struct Config {
    pub classic: Option<bool>,
    pub display: Option<Display>,
    pub header: Option<bool>,
    pub hyperlink: Option<HyperlinkOption>,
    pub indicators: Option<bool>,
    pub layout: Option<Layout>,
    pub literal: Option<bool>,
    pub permission: Option<PermissionFlag>,
    pub recursion: Option<Recursion>,
    pub size: Option<SizeFlag>,
    pub sorting: Option<Sorting>,
    pub symlink_arrow: Option<String>,
    pub truncate_owner: Option<TruncateOwner>,
}

/// The settings on recursion.
#[derive(Debug, Clone, Copy, PartialEq, Eq, Structural)]
pub struct Recursion {
    pub enabled: Option<bool>,
    pub depth: Option<usize>,
}

/// The settings on sorting.
#[derive(Debug, Clone, Copy, PartialEq, Eq, Structural)]
pub struct Sorting {
    pub column: Option<SortColumn>,
    pub reverse: Option<bool>,
    pub dir_grouping: Option<DirGrouping>,
}

/// The settings on how owner names are cut.
#[derive(Debug, Clone, PartialEq, Eq)]
pub struct TruncateOwner {
    pub after: Option<usize>,
    pub marker: Option<String>,
}

impl Config {
    /// Whether no setting is present.
    pub open spec fn is_empty(&self) -> bool {
        &&& self.classic is None
        &&& self.display is None
        &&& self.header is None
        &&& self.hyperlink is None
        &&& self.indicators is None
        &&& self.layout is None
        &&& self.literal is None
        &&& self.permission is None
        &&& self.recursion is None
        &&& self.size is None
        &&& self.sorting is None
        &&& self.symlink_arrow is None
        &&& self.truncate_owner is None
    }

    /// The configuration in which no setting is present.
    pub fn with_none() -> (r: Config)
        ensures
            r.is_empty(),
    {
        Config {
            classic: None,
            display: None,
            header: None,
            hyperlink: None,
            indicators: None,
            layout: None,
            literal: None,
            permission: None,
            recursion: None,
            size: None,
            sorting: None,
            symlink_arrow: None,
            truncate_owner: None,
        }
    }

    /// The configuration that is built in: every option at its default,
    /// spelled out.
    pub fn builtin() -> (r: Config)
        ensures
            r.classic == Some(false),
            r.display is None,
            r.header == Some(false),
            r.hyperlink == Some(HyperlinkOption::Never),
            r.indicators == Some(false),
            r.layout == Some(Layout::Grid),
            r.literal == Some(false),
            r.permission == Some(PermissionFlag::Rwx),
            r.recursion == Some(Recursion { enabled: Some(false), depth: None }),
            r.size == Some(SizeFlag::Default),
            r.sorting == Some(
                Sorting {
                    column: Some(SortColumn::Name),
                    reverse: Some(false),
                    dir_grouping: Some(DirGrouping::Ungrouped),
                },
            ),
            r.symlink_arrow matches Some(arrow) && arrow@ == "\u{21d2}"@,
            r.truncate_owner matches Some(cut) && cut.after is None && cut.marker is None,
    {
        Config {
            classic: Some(false),
            display: None,
            header: Some(false),
            hyperlink: Some(HyperlinkOption::Never),
            indicators: Some(false),
            layout: Some(Layout::Grid),
            literal: Some(false),
            permission: Some(PermissionFlag::Rwx),
            recursion: Some(Recursion { enabled: Some(false), depth: None }),
            size: Some(SizeFlag::Default),
            sorting: Some(
                Sorting {
                    column: Some(SortColumn::Name),
                    reverse: Some(false),
                    dir_grouping: Some(DirGrouping::Ungrouped),
                },
            ),
            symlink_arrow: Some(String::from_str("\u{21d2}")),
            truncate_owner: Some(TruncateOwner { after: None, marker: None }),
        }
    }
}

} // verus!
