//! Whether block headers are shown.

use crate::app::Cli;
use crate::config_file::Config;
use crate::flags::Configurable;
use vstd::prelude::*;

verus! {

/// Whether block headers are shown.
#[derive(Clone, Debug, Copy, PartialEq, Eq, Structural)]
pub struct Header(pub bool);

impl Default for Header {
    /// The flag is off.
    fn default() -> (r: Header)
        ensures
            r == Header(false),
    {
        Header(false)
    }
}

impl Configurable<Header> for Header {
    /// The option reads no word of the command line.
    open spec fn understands(cli: &Cli) -> bool {
        true
    }

    /// On where the command line holds `--header`, unset otherwise.
    open spec fn cli_choice(cli: &Cli) -> Option<Header> {
        if cli.header {
            Some(Header(true))
        } else {
            None
        }
    }

    /// As the configuration file sets it, if it does.
    open spec fn config_choice(config: &Config) -> Option<Header> {
        match config.header {
            Some(value) => Some(Header(value)),
            None => None,
        }
    }

    open spec fn is_default(value: Header) -> bool {
        value == (Header(false))
    }

    fn from_cli(cli: &Cli) -> (r: Option<Header>) {
        if cli.header {
            Some(Header(true))
        } else {
            None
        }
    }

    fn from_config(config: &Config) -> (r: Option<Header>) {
        match config.header {
            Some(value) => Some(Header(value)),
            None => None,
        }
    }

    fn fallback() -> (r: Header) {
        Header(false)
    }
}

} // verus!
