//! Whether file names are shown without quotes.

use crate::app::Cli;
use crate::config_file::Config;
use crate::flags::Configurable;
use vstd::prelude::*;

verus! {

/// Whether file names are shown without quotes.
#[derive(Clone, Debug, Copy, PartialEq, Eq, Structural)]
pub struct Literal(pub bool);

impl Default for Literal {
    /// The flag is off.
    fn default() -> (r: Literal)
        ensures
            r == Literal(false),
    {
        Literal(false)
    }
}

impl Configurable<Literal> for Literal {
    /// The option reads no word of the command line.
    open spec fn understands(cli: &Cli) -> bool {
        true
    }

    /// On where the command line holds `--literal`, unset otherwise.
    open spec fn cli_choice(cli: &Cli) -> Option<Literal> {
        if cli.literal {
            Some(Literal(true))
        } else {
            None
        }
    }

    /// As the configuration file sets it, if it does.
    open spec fn config_choice(config: &Config) -> Option<Literal> {
        match config.literal {
            Some(value) => Some(Literal(value)),
            None => None,
        }
    }

    open spec fn is_default(value: Literal) -> bool {
        value == (Literal(false))
    }

    fn from_cli(cli: &Cli) -> (r: Option<Literal>) {
        if cli.literal {
            Some(Literal(true))
        } else {
            None
        }
    }

    fn from_config(config: &Config) -> (r: Option<Literal>) {
        match config.literal {
            Some(value) => Some(Literal(value)),
            None => None,
        }
    }

    fn fallback() -> (r: Literal) {
        Literal(false)
    }
}

} // verus!
