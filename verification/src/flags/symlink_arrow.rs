//! The arrow between a symbolic link and its target.

use crate::app::Cli;
use crate::config_file::Config;
use crate::flags::Configurable;
use vstd::prelude::*;
use vstd::string::StringExecFns;

verus! {

/// The arrow between a symbolic link and its target.
#[derive(Clone, Debug, Eq, PartialEq)]
pub struct SymlinkArrow(pub String);

impl SymlinkArrow {
    /// The characters of the arrow.
    pub fn to_string(&self) -> (r: String)
        ensures
            r@ == self.0@,
    {
        self.0.clone()
    }
}

impl Default for SymlinkArrow {
    /// The arrow `\u{21d2}`.
    fn default() -> (r: SymlinkArrow)
        ensures
            r.0@ == "\u{21d2}"@,
    {
        SymlinkArrow(String::from_str("\u{21d2}"))
    }
}

impl Configurable<SymlinkArrow> for SymlinkArrow {
    /// The option reads no word of the command line.
    open spec fn understands(cli: &Cli) -> bool {
        true
    }

    /// The command line cannot set the arrow.
    open spec fn cli_choice(cli: &Cli) -> Option<SymlinkArrow> {
        None
    }

    /// As the configuration file sets it, if it does.
    open spec fn config_choice(config: &Config) -> Option<SymlinkArrow> {
        match config.symlink_arrow {
            Some(arrow) => Some(SymlinkArrow(arrow)),
            None => None,
        }
    }

    /// The default is the arrow `\u{21d2}`.
    open spec fn is_default(value: SymlinkArrow) -> bool {
        value.0@ == "\u{21d2}"@
    }

    fn from_cli(cli: &Cli) -> (r: Option<SymlinkArrow>) {
        None
    }

    fn from_config(config: &Config) -> (r: Option<SymlinkArrow>) {
        match &config.symlink_arrow {
            Some(arrow) => Some(SymlinkArrow(arrow.clone())),
            None => None,
        }
    }

    fn fallback() -> (r: SymlinkArrow) {
        SymlinkArrow::default()
    }
}

} // verus!
