//! The options that steer a listing, each settled from the command line,
//! the configuration file and its default, in that order.

pub mod display;
pub mod header;
pub mod hyperlink;
pub mod indicators;
pub mod layout;
pub mod literal;
pub mod permission;
pub mod recursion;
pub mod size;
pub mod sorting;
pub mod symlink_arrow;
pub mod truncate_owner;

pub use display::Display;
pub use header::Header;
pub use hyperlink::HyperlinkOption;
pub use indicators::Indicators;
pub use layout::Layout;
pub use literal::Literal;
pub use permission::PermissionFlag;
pub use recursion::Recursion;
pub use size::SizeFlag;
pub use sorting::{DirGrouping, SortColumn, SortOrder, Sorting};
pub use symlink_arrow::SymlinkArrow;
pub use truncate_owner::TruncateOwner;

use crate::app::Cli;
use crate::config_file::Config;
use vstd::prelude::*;

verus! {

/// An option that can be set on the command line and in the configuration file.
pub trait Configurable<T> {
    /// Whether the command line holds, where the option reads a word of
    /// it, a word that the option knows.
    spec fn understands(cli: &Cli) -> bool;

    /// What the command line says of the option.
    spec fn cli_choice(cli: &Cli) -> Option<T>;

    /// What the configuration file says of the option.
    spec fn config_choice(config: &Config) -> Option<T>;

    /// Whether `value` is the value of the option where nothing sets it.
    spec fn is_default(value: T) -> bool;

    /// The option as the command line sets it, if it does.
    fn from_cli(cli: &Cli) -> (r: Option<T>)
        requires
            Self::understands(cli),
        ensures
            r == Self::cli_choice(cli),
    ;

    /// The option as the configuration file sets it, if it does.
    fn from_config(config: &Config) -> (r: Option<T>)
        ensures
            r == Self::config_choice(config),
    ;

    /// The option as the environment sets it: no option is set there.
    fn from_environment() -> (r: Option<T>)
        ensures
            r is None,
    {
        None
    }

    /// The value of the option where nothing sets it.
    fn fallback() -> (r: T)
        ensures
            Self::is_default(r),
    ;

    /// The option as the first of these sets it: the command line, the
    /// environment, the configuration file; its default where none does.
    fn configure_from(cli: &Cli, config: &Config) -> (r: T)
        requires
            Self::understands(cli),
        ensures
            match Self::cli_choice(cli) {
                Some(value) => r == value,
                None => match Self::config_choice(config) {
                    Some(value) => r == value,
                    None => Self::is_default(r),
                },
            },
    {
        if let Some(value) = Self::from_cli(cli) {
            return value;
        }
        if let Some(value) = Self::from_environment() {
            return value;
        }
        if let Some(value) = Self::from_config(config) {
            return value;
        }
        Self::fallback()
    }
}

/// Whether `value` is what the command line, the configuration file and
/// the default settle for the option `C`: the first of them that sets it decides.
pub open spec fn settled<T, C: Configurable<T>>(cli: &Cli, config: &Config, value: T) -> bool {
    match C::cli_choice(cli) {
        Some(choice) => value == choice,
        None => match C::config_choice(config) {
            Some(choice) => value == choice,
            None => C::is_default(value),
        },
    }
}

/// A command line that is well formed is understood by every option.
pub proof fn lemma_well_formed_is_understood(cli: &Cli)
    requires
        cli.well_formed(),
    ensures
        Flags::understands(cli),
{
}

/// The options of one run.
#[derive(Debug, Clone, PartialEq, Eq)]
pub struct Flags {
    pub display: Display,
    pub header: Header,
    pub hyperlink: HyperlinkOption,
    pub indicators: Indicators,
    pub layout: Layout,
    pub literal: Literal,
    pub permission: PermissionFlag,
    pub recursion: Recursion,
    pub size: SizeFlag,
    pub sorting: Sorting,
    pub symlink_arrow: SymlinkArrow,
    pub truncate_owner: TruncateOwner,
}

impl Flags {
    /// Whether every option understands the command line. A command line
    /// that is well formed is understood.
    pub open spec fn understands(cli: &Cli) -> bool {
        &&& DirGrouping::understands(cli)
        &&& HyperlinkOption::understands(cli)
        &&& PermissionFlag::understands(cli)
        &&& SizeFlag::understands(cli)
    }

    /// Settles every option from the command line and the configuration file.
    pub fn configure_from(cli: &Cli, config: &Config) -> (r: Flags)
        requires
            Self::understands(cli),
        ensures
            settled::<Display, Display>(cli, config, r.display),
            settled::<Header, Header>(cli, config, r.header),
            settled::<HyperlinkOption, HyperlinkOption>(cli, config, r.hyperlink),
            settled::<Indicators, Indicators>(cli, config, r.indicators),
            settled::<Layout, Layout>(cli, config, r.layout),
            settled::<Literal, Literal>(cli, config, r.literal),
            settled::<PermissionFlag, PermissionFlag>(cli, config, r.permission),
            r.recursion == Recursion::configured(cli, config),
            settled::<SizeFlag, SizeFlag>(cli, config, r.size),
            r.sorting == Sorting::configured(cli, config),
            settled::<SymlinkArrow, SymlinkArrow>(cli, config, r.symlink_arrow),
            settled::<TruncateOwner, TruncateOwner>(cli, config, r.truncate_owner),
    {
        Flags {
            display: Display::configure_from(cli, config),
            header: Header::configure_from(cli, config),
            hyperlink: HyperlinkOption::configure_from(cli, config),
            indicators: Indicators::configure_from(cli, config),
            layout: Layout::configure_from(cli, config),
            literal: Literal::configure_from(cli, config),
            permission: PermissionFlag::configure_from(cli, config),
            recursion: Recursion::configure_from(cli, config),
            size: SizeFlag::configure_from(cli, config),
            sorting: Sorting::configure_from(cli, config),
            symlink_arrow: SymlinkArrow::configure_from(cli, config),
            truncate_owner: TruncateOwner::configure_from(cli, config),
        }
    }
}

} // verus!
