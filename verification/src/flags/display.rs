//! Which entries of a directory are shown.

use crate::app::Cli;
use crate::config_file::Config;
use crate::flags::Configurable;
use vstd::prelude::*;

verus! {

/// Which entries of a directory are shown.
#[derive(Clone, Debug, Copy, PartialEq, Eq, Structural)]
pub enum Display {
    /// Also the files that the system protects.
    SystemProtected,
    /// All entries.
    All,
    /// All entries but `.` and `..`.
    AlmostAll,
    /// The directory itself, not what it holds.
    DirectoryOnly,
    /// The entries that are not hidden.
    VisibleOnly,
}

impl Default for Display {
    fn default() -> (r: Display)
        ensures
            r == Display::VisibleOnly,
    {
        Display::VisibleOnly
    }
}

impl Configurable<Display> for Display {
    /// The option reads no word of the command line.
    open spec fn understands(cli: &Cli) -> bool {
        true
    }

    /// The first of these that the command line holds decides:
    /// `--directory-only`, `--almost-all`, `--all`, `--system-protected`.
    open spec fn cli_choice(cli: &Cli) -> Option<Display> {
        if cli.directory_only {
            Some(Display::DirectoryOnly)
        } else if cli.almost_all {
            Some(Display::AlmostAll)
        } else if cli.all {
            Some(Display::All)
        } else if cli.system_protected {
            Some(Display::All)
        } else {
            None
        }
    }

    /// As the configuration file sets it, if it does.
    open spec fn config_choice(config: &Config) -> Option<Display> {
        config.display
    }

    open spec fn is_default(value: Display) -> bool {
        value == (Display::VisibleOnly)
    }

    fn from_cli(cli: &Cli) -> (r: Option<Display>) {
        if cli.directory_only {
            Some(Display::DirectoryOnly)
        } else if cli.almost_all {
            Some(Display::AlmostAll)
        } else if cli.all {
            Some(Display::All)
        } else if cli.system_protected {
            Some(Display::All)
        } else {
            None
        }
    }

    fn from_config(config: &Config) -> (r: Option<Display>) {
        config.display
    }

    fn fallback() -> (r: Display) {
        Display::VisibleOnly
    }
}

} // verus!
