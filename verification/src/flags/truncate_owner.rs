//! How the names of users and groups are cut.

use crate::app::Cli;
use crate::config_file::Config;
use crate::flags::Configurable;
use vstd::prelude::*;

verus! {

/// How the names of users and groups are cut.
#[derive(Clone, Debug, PartialEq, Eq)]
pub struct TruncateOwner {
    /// After how many characters.
    pub after: Option<usize>,
    /// What marks a name that was cut.
    pub marker: Option<String>,
}

impl Default for TruncateOwner {
    /// Names are not cut.
    fn default() -> (r: TruncateOwner)
        ensures
            r == (TruncateOwner { after: None, marker: None }),
    {
        TruncateOwner { after: None, marker: None }
    }
}

impl Configurable<TruncateOwner> for TruncateOwner {
    /// The option reads no word of the command line.
    open spec fn understands(cli: &Cli) -> bool {
        true
    }

    /// Unset where the command line gives neither length nor marker; else
    /// what it gives of the two.
    open spec fn cli_choice(cli: &Cli) -> Option<TruncateOwner> {
        if cli.truncate_owner_after is None && cli.truncate_owner_marker is None {
            None
        } else {
            Some(
                TruncateOwner {
                    after: cli.truncate_owner_after,
                    marker: cli.truncate_owner_marker,
                },
            )
        }
    }

    /// As the configuration file sets it, if it does.
    open spec fn config_choice(config: &Config) -> Option<TruncateOwner> {
        match config.truncate_owner {
            Some(c) => Some(TruncateOwner { after: c.after, marker: c.marker }),
            None => None,
        }
    }

    open spec fn is_default(value: TruncateOwner) -> bool {
        value == (TruncateOwner { after: None, marker: None })
    }

    fn from_cli(cli: &Cli) -> (r: Option<TruncateOwner>) {
        match (cli.truncate_owner_after, cli.truncate_owner_marker.clone()) {
            (None, None) => None,
            (after, marker) => Some(TruncateOwner { after, marker }),
        }
    }

    fn from_config(config: &Config) -> (r: Option<TruncateOwner>) {
        match &config.truncate_owner {
            Some(c) => Some(TruncateOwner { after: c.after, marker: c.marker.clone() }),
            None => None,
        }
    }

    fn fallback() -> (r: TruncateOwner) {
        TruncateOwner { after: None, marker: None }
    }
}

} // verus!
