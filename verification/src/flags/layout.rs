//! In which layout the output is printed.

use crate::app::Cli;
use crate::config_file::Config;
use crate::flags::Configurable;
use vstd::prelude::*;

verus! {

/// In which layout the output is printed.
#[derive(Clone, Debug, Copy, PartialEq, Eq, Structural)]
pub enum Layout {
    Grid,
    Tree,
    OneLine,
}

impl Default for Layout {
    fn default() -> (r: Layout)
        ensures
            r == Layout::Grid,
    {
        Layout::Grid
    }
}

impl Configurable<Layout> for Layout {
    /// The option reads no word of the command line.
    open spec fn understands(cli: &Cli) -> bool {
        true
    }

    /// `Tree` with `--tree`; else `OneLine` with `--long`, `--oneline`,
    /// `--inode`, `--context` or more than one block; else unset.
    open spec fn cli_choice(cli: &Cli) -> Option<Layout> {
        if cli.tree {
            Some(Layout::Tree)
        } else if cli.long || cli.oneline || cli.inode || cli.context || cli.blocks@.len() > 1 {
            Some(Layout::OneLine)
        } else {
            None
        }
    }

    /// As the configuration file sets it, if it does.
    open spec fn config_choice(config: &Config) -> Option<Layout> {
        config.layout
    }

    open spec fn is_default(value: Layout) -> bool {
        value == (Layout::Grid)
    }

    fn from_cli(cli: &Cli) -> (r: Option<Layout>) {
        if cli.tree {
            Some(Layout::Tree)
        } else if cli.long || cli.oneline || cli.inode || cli.context || cli.blocks.len() > 1 {
            Some(Layout::OneLine)
        } else {
            None
        }
    }

    fn from_config(config: &Config) -> (r: Option<Layout>) {
        config.layout
    }

    fn fallback() -> (r: Layout) {
        Layout::Grid
    }
}

} // verus!
