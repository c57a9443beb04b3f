//! The arguments of the command line, as the flags read them.

use crate::flags::hyperlink::HyperlinkOption;
use crate::flags::permission::PermissionFlag;
use crate::flags::size::SizeFlag;
use crate::flags::sorting::DirGrouping;
use vstd::prelude::*;

verus! {

/// The parsed command line.
#[derive(Debug, Clone)]
pub struct Cli {
    /// The paths to list.
    pub inputs: Vec<String>,
    pub all: bool,
    pub almost_all: bool,
    pub classic: bool,
    pub config_file: Option<String>,
    pub context: bool,
    pub depth: Option<usize>,
    pub directory_only: bool,
    pub extensionsort: bool,
    pub gitsort: bool,
    pub group_dirs: Option<String>,
    pub group_directories_first: bool,
    pub header: bool,
    pub hyperlink: Option<String>,
    pub ignore_config: bool,
    pub indicators: bool,
    pub inode: bool,
    pub literal: bool,
    pub long: bool,
    pub no_sort: bool,
    pub oneline: bool,
    pub permission: Option<String>,
    pub recursive: bool,
    pub reverse: bool,
    pub size: Option<String>,
    pub sizesort: bool,
    pub sort: Option<String>,
    pub system_protected: bool,
    pub timesort: bool,
    pub tree: bool,
    pub truncate_owner_after: Option<usize>,
    pub truncate_owner_marker: Option<String>,
    pub versionsort: bool,
    pub blocks: Vec<String>,
}

impl Cli {
    /// Whether every argument that takes one of a few words holds one of them.
    pub open spec fn well_formed(&self) -> bool {
        &&& self.group_dirs matches Some(v) ==> DirGrouping::is_arg(v@)
        &&& self.size matches Some(v) ==> SizeFlag::is_arg(v@)
        &&& self.permission matches Some(v) ==> PermissionFlag::is_arg(v@)
        &&& self.hyperlink matches Some(v) ==> HyperlinkOption::is_arg(v@)
    }

    /// Tests whether every argument that takes one of a few words holds one of them.
    pub fn is_well_formed(&self) -> (r: bool)
        ensures
            r == self.well_formed(),
    {
        let group_dirs = match &self.group_dirs {
            Some(v) => DirGrouping::accepts(v.as_str()),
            None => true,
        };
        let size = match &self.size {
            Some(v) => SizeFlag::accepts(v.as_str()),
            None => true,
        };
        let permission = match &self.permission {
            Some(v) => PermissionFlag::accepts(v.as_str()),
            None => true,
        };
        let hyperlink = match &self.hyperlink {
            Some(v) => HyperlinkOption::accepts(v.as_str()),
            None => true,
        };
        group_dirs && size && permission && hyperlink
    }
}

impl Default for Cli {
    /// The command line without any argument.
    fn default() -> (r: Cli)
        ensures
            r.well_formed(),
            r.inputs@.len() == 0,
            r.blocks@.len() == 0,
            !r.all && !r.almost_all && !r.classic && !r.context && !r.directory_only,
            !r.extensionsort && !r.gitsort && !r.group_directories_first && !r.header,
            !r.ignore_config && !r.indicators && !r.inode && !r.literal && !r.long,
            !r.no_sort && !r.oneline && !r.recursive && !r.reverse && !r.sizesort,
            !r.system_protected && !r.timesort && !r.tree && !r.versionsort,
            r.config_file is None && r.depth is None && r.group_dirs is None,
            r.hyperlink is None && r.permission is None && r.size is None && r.sort is None,
            r.truncate_owner_after is None && r.truncate_owner_marker is None,
    {
        Cli {
            inputs: Vec::new(),
            all: false,
            almost_all: false,
            classic: false,
            config_file: None,
            context: false,
            depth: None,
            directory_only: false,
            extensionsort: false,
            gitsort: false,
            group_dirs: None,
            group_directories_first: false,
            header: false,
            hyperlink: None,
            ignore_config: false,
            indicators: false,
            inode: false,
            literal: false,
            long: false,
            no_sort: false,
            oneline: false,
            permission: None,
            recursive: false,
            reverse: false,
            size: None,
            sizesort: false,
            sort: None,
            system_protected: false,
            timesort: false,
            tree: false,
            truncate_owner_after: None,
            truncate_owner_marker: None,
            versionsort: false,
            blocks: Vec::new(),
        }
    }
}

} // verus!
