//! Whether file type indicators are shown.

use crate::app::Cli;
use crate::config_file::Config;
use crate::flags::Configurable;
use vstd::prelude::*;

verus! {

/// Whether file type indicators are shown.
#[derive(Clone, Debug, Copy, PartialEq, Eq, Structural)]
pub struct Indicators(pub bool);

impl Default for Indicators {
    /// The flag is off.
    fn default() -> (r: Indicators)
        ensures
            r == Indicators(false),
    {
        Indicators(false)
    }
}

impl Configurable<Indicators> for Indicators {
    /// The option reads no word of the command line.
    open spec fn understands(cli: &Cli) -> bool {
        true
    }

    /// On where the command line holds `--classify`, unset otherwise.
    open spec fn cli_choice(cli: &Cli) -> Option<Indicators> {
        if cli.indicators {
            Some(Indicators(true))
        } else {
            None
        }
    }

    /// As the configuration file sets it, if it does.
    open spec fn config_choice(config: &Config) -> Option<Indicators> {
        match config.indicators {
            Some(value) => Some(Indicators(value)),
            None => None,
        }
    }

    open spec fn is_default(value: Indicators) -> bool {
        value == (Indicators(false))
    }

    fn from_cli(cli: &Cli) -> (r: Option<Indicators>) {
        if cli.indicators {
            Some(Indicators(true))
        } else {
            None
        }
    }

    fn from_config(config: &Config) -> (r: Option<Indicators>) {
        match config.indicators {
            Some(value) => Some(Indicators(value)),
            None => None,
        }
    }

    fn fallback() -> (r: Indicators) {
        Indicators(false)
    }
}

} // verus!
