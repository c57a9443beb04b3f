//! How the output is ordered.

use crate::app::Cli;
use crate::config_file::Config;
use crate::flags::Configurable;
use crate::text::{is_word, same, word_is};
use vstd::prelude::*;

verus! {

/// The flags on how to order the output.
#[derive(Clone, Debug, Copy, PartialEq, Eq, Structural)]
pub struct Sorting {
    pub column: SortColumn,
    pub order: SortOrder,
    pub dir_grouping: DirGrouping,
}

impl Sorting {
    /// The flags as the command line and the configuration file settle them.
    pub open spec fn configured(cli: &Cli, config: &Config) -> Sorting {
        Sorting {
            column: match SortColumn::cli_choice(cli) {
                Some(choice) => choice,
                None => match SortColumn::config_choice(config) {
                    Some(choice) => choice,
                    None => SortColumn::Name,
                },
            },
            order: match SortOrder::cli_choice(cli) {
                Some(choice) => choice,
                None => match SortOrder::config_choice(config) {
                    Some(choice) => choice,
                    None => SortOrder::Default,
                },
            },
            dir_grouping: match DirGrouping::cli_choice(cli) {
                Some(choice) => choice,
                None => match DirGrouping::config_choice(config) {
                    Some(choice) => choice,
                    None => DirGrouping::Ungrouped,
                },
            },
        }
    }

    /// Settles the flags from the command line and the configuration file.
    pub fn configure_from(cli: &Cli, config: &Config) -> (r: Sorting)
        requires
            DirGrouping::understands(cli),
        ensures
            r == Self::configured(cli, config),
    {
        let column = SortColumn::configure_from(cli, config);
        let order = SortOrder::configure_from(cli, config);
        let dir_grouping = DirGrouping::configure_from(cli, config);
        Sorting { column, order, dir_grouping }
    }
}

impl Default for Sorting {
    /// By name, in the default direction, without grouping.
    fn default() -> (r: Sorting)
        ensures
            r == (Sorting {
                column: SortColumn::Name,
                order: SortOrder::Default,
                dir_grouping: DirGrouping::Ungrouped,
            }),
    {
        Sorting {
            column: SortColumn::Name,
            order: SortOrder::Default,
            dir_grouping: DirGrouping::Ungrouped,
        }
    }
}

/// Which column the output is ordered by.
#[derive(Clone, Debug, Copy, PartialEq, Eq, Structural)]
pub enum SortColumn {
    /// Keep the order in which the entries were found.
    NoSort,
    Extension,
    Name,
    Time,
    Size,
    Version,
    GitStatus,
}

impl Default for SortColumn {
    fn default() -> (r: SortColumn)
        ensures
            r == SortColumn::Name,
    {
        SortColumn::Name
    }
}

impl Configurable<SortColumn> for SortColumn {
    /// Every word of `--sort` is read; one that names no column sets none.
    open spec fn understands(cli: &Cli) -> bool {
        true
    }

    /// The first of these that the command line holds decides, each as its
    /// own flag or as the word of `--sort`: time, size, extension,
    /// version, git, none.
    open spec fn cli_choice(cli: &Cli) -> Option<SortColumn> {
        if cli.timesort || is_word(cli.sort, "time"@) {
            Some(SortColumn::Time)
        } else if cli.sizesort || is_word(cli.sort, "size"@) {
            Some(SortColumn::Size)
        } else if cli.extensionsort || is_word(cli.sort, "extension"@) {
            Some(SortColumn::Extension)
        } else if cli.versionsort || is_word(cli.sort, "version"@) {
            Some(SortColumn::Version)
        } else if cli.gitsort || is_word(cli.sort, "git"@) {
            Some(SortColumn::GitStatus)
        } else if cli.no_sort || is_word(cli.sort, "none"@) {
            Some(SortColumn::NoSort)
        } else {
            None
        }
    }

    /// As the configuration file sets it, if it does.
    open spec fn config_choice(config: &Config) -> Option<SortColumn> {
        match config.sorting {
            Some(sorting) => sorting.column,
            None => None,
        }
    }

    open spec fn is_default(value: SortColumn) -> bool {
        value == SortColumn::Name
    }

    fn from_cli(cli: &Cli) -> (r: Option<SortColumn>) {
        if cli.timesort || word_is(&cli.sort, "time") {
            Some(SortColumn::Time)
        } else if cli.sizesort || word_is(&cli.sort, "size") {
            Some(SortColumn::Size)
        } else if cli.extensionsort || word_is(&cli.sort, "extension") {
            Some(SortColumn::Extension)
        } else if cli.versionsort || word_is(&cli.sort, "version") {
            Some(SortColumn::Version)
        } else if cli.gitsort || word_is(&cli.sort, "git") {
            Some(SortColumn::GitStatus)
        } else if cli.no_sort || word_is(&cli.sort, "none") {
            Some(SortColumn::NoSort)
        } else {
            None
        }
    }

    fn from_config(config: &Config) -> (r: Option<SortColumn>) {
        match &config.sorting {
            Some(sorting) => sorting.column,
            None => None,
        }
    }

    fn fallback() -> (r: SortColumn) {
        SortColumn::Name
    }
}

/// In which direction the column is ordered.
#[derive(Clone, Debug, Copy, PartialEq, Eq, Structural)]
pub enum SortOrder {
    Default,
    Reverse,
}

impl Default for SortOrder {
    fn default() -> (r: SortOrder)
        ensures
            r == SortOrder::Default,
    {
        SortOrder::Default
    }
}

impl Configurable<SortOrder> for SortOrder {
    /// The option reads no word of the command line.
    open spec fn understands(cli: &Cli) -> bool {
        true
    }

    /// `Reverse` where the command line holds `--reverse`, unset otherwise.
    open spec fn cli_choice(cli: &Cli) -> Option<SortOrder> {
        if cli.reverse {
            Some(SortOrder::Reverse)
        } else {
            None
        }
    }

    /// `Reverse` or `Default` as the configuration file sets `reverse`, if it does.
    open spec fn config_choice(config: &Config) -> Option<SortOrder> {
        match config.sorting {
            Some(sorting) => match sorting.reverse {
                Some(true) => Some(SortOrder::Reverse),
                Some(false) => Some(SortOrder::Default),
                None => None,
            },
            None => None,
        }
    }

    open spec fn is_default(value: SortOrder) -> bool {
        value == SortOrder::Default
    }

    fn from_cli(cli: &Cli) -> (r: Option<SortOrder>) {
        if cli.reverse {
            Some(SortOrder::Reverse)
        } else {
            None
        }
    }

    fn from_config(config: &Config) -> (r: Option<SortOrder>) {
        match &config.sorting {
            Some(sorting) => match sorting.reverse {
                Some(true) => Some(SortOrder::Reverse),
                Some(false) => Some(SortOrder::Default),
                None => None,
            },
            None => None,
        }
    }

    fn fallback() -> (r: SortOrder) {
        SortOrder::Default
    }
}

/// Where directories are placed.
#[derive(Clone, Debug, Copy, PartialEq, Eq, Structural)]
pub enum DirGrouping {
    /// Directories are placed like any other entry.
    Ungrouped,
    First,
    Last,
}

impl DirGrouping {
    /// Whether `value` is a word that the argument takes: `first`, `last`, `none`.
    pub open spec fn is_arg(value: Seq<char>) -> bool {
        value == "first"@ || value == "last"@ || value == "none"@
    }

    /// The variant that a word of the argument stands for.
    pub open spec fn of_arg(value: Seq<char>) -> DirGrouping {
        if value == "first"@ {
            DirGrouping::First
        } else if value == "last"@ {
            DirGrouping::Last
        } else {
            DirGrouping::Ungrouped
        }
    }

    /// Tests whether `value` is a word that the argument takes.
    pub fn accepts(value: &str) -> (r: bool)
        ensures
            r == Self::is_arg(value@),
    {
        same(value, "first") || same(value, "last") || same(value, "none")
    }

    /// The variant that a word of the argument stands for.
    pub fn from_arg_str(value: &str) -> (r: DirGrouping)
        requires
            Self::is_arg(value@),
        ensures
            r == Self::of_arg(value@),
    {
        if same(value, "first") {
            DirGrouping::First
        } else if same(value, "last") {
            DirGrouping::Last
        } else {
            DirGrouping::Ungrouped
        }
    }
}

impl Default for DirGrouping {
    fn default() -> (r: DirGrouping)
        ensures
            r == DirGrouping::Ungrouped,
    {
        DirGrouping::Ungrouped
    }
}

impl Configurable<DirGrouping> for DirGrouping {
    /// Where `--group-dirs` is read, its word is one that the argument takes.
    open spec fn understands(cli: &Cli) -> bool {
        cli.classic || cli.group_directories_first || (cli.group_dirs matches Some(mode)
            ==> Self::is_arg(mode@))
    }

    /// `Ungrouped` in classic mode; else `First` with
    /// `--group-directories-first`; else the variant that `--group-dirs`
    /// names, if it is given.
    open spec fn cli_choice(cli: &Cli) -> Option<DirGrouping> {
        if cli.classic {
            Some(DirGrouping::Ungrouped)
        } else if cli.group_directories_first {
            Some(DirGrouping::First)
        } else {
            match cli.group_dirs {
                Some(mode) => Some(Self::of_arg(mode@)),
                None => None,
            }
        }
    }

    /// `Ungrouped` in classic mode; else as the configuration file sets it, if it does.
    open spec fn config_choice(config: &Config) -> Option<DirGrouping> {
        if config.classic == Some(true) {
            Some(DirGrouping::Ungrouped)
        } else {
            match config.sorting {
                Some(sorting) => sorting.dir_grouping,
                None => None,
            }
        }
    }

    open spec fn is_default(value: DirGrouping) -> bool {
        value == DirGrouping::Ungrouped
    }

    fn from_cli(cli: &Cli) -> (r: Option<DirGrouping>) {
        if cli.classic {
            return Some(DirGrouping::Ungrouped);
        }
        if cli.group_directories_first {
            return Some(DirGrouping::First);
        }
        if let Some(mode) = &cli.group_dirs {
            return Some(Self::from_arg_str(mode.as_str()));
        }
        None
    }

    fn from_config(config: &Config) -> (r: Option<DirGrouping>) {
        match config.classic {
            Some(true) => Some(DirGrouping::Ungrouped),
            _ => match &config.sorting {
                Some(sorting) => sorting.dir_grouping,
                None => None,
            },
        }
    }

    fn fallback() -> (r: DirGrouping) {
        DirGrouping::Ungrouped
    }
}

} // verus!
