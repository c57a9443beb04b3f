//! Whether and how far directories are descended into.

use crate::app::Cli;
use crate::config_file::Config;
use vstd::prelude::*;

verus! {

/// The options on recursion.
#[derive(Clone, Debug, Copy, PartialEq, Eq, Structural)]
pub struct Recursion {
    /// Whether directories are descended into.
    pub enabled: bool,
    /// How many levels down.
    pub depth: usize,
}

impl Recursion {
    /// Whether recursion is enabled: the command line decides where it
    /// holds `--recursive`, else the configuration file where it sets it;
    /// else it is off.
    pub open spec fn enabled_choice(cli: &Cli, config: &Config) -> bool {
        if cli.recursive {
            true
        } else {
            match config.recursion {
                Some(recursion) => match recursion.enabled {
                    Some(enabled) => enabled,
                    None => false,
                },
                None => false,
            }
        }
    }

    /// The depth: that of the command line where it gives one, else that
    /// of the configuration file where it gives one; else no limit.
    pub open spec fn depth_choice(cli: &Cli, config: &Config) -> usize {
        match cli.depth {
            Some(value) => value,
            None => match config.recursion {
                Some(recursion) => match recursion.depth {
                    Some(value) => value,
                    None => usize::MAX,
                },
                None => usize::MAX,
            },
        }
    }

    /// The options as the command line and the configuration file settle them.
    pub open spec fn configured(cli: &Cli, config: &Config) -> Recursion {
        Recursion {
            enabled: Self::enabled_choice(cli, config),
            depth: Self::depth_choice(cli, config),
        }
    }

    /// Settles the options from the command line and the configuration file.
    pub fn configure_from(cli: &Cli, config: &Config) -> (r: Recursion)
        ensures
            r == Self::configured(cli, config),
    {
        let enabled = Self::enabled_from(cli, config);
        let depth = Self::depth_from(cli, config);
        Recursion { enabled, depth }
    }

    /// Whether recursion is enabled.
    pub fn enabled_from(cli: &Cli, config: &Config) -> (r: bool)
        ensures
            r == Self::enabled_choice(cli, config),
    {
        if let Some(value) = Self::enabled_from_cli(cli) {
            return value;
        }
        if let Some(recursion) = &config.recursion {
            if let Some(enabled) = recursion.enabled {
                return enabled;
            }
        }
        false
    }

    /// `true` where the command line holds `--recursive`, unset otherwise.
    pub fn enabled_from_cli(cli: &Cli) -> (r: Option<bool>)
        ensures
            r == if cli.recursive {
                Some(true)
            } else {
                None
            },
    {
        if cli.recursive {
            Some(true)
        } else {
            None
        }
    }

    /// How many levels down directories are descended into.
    pub fn depth_from(cli: &Cli, config: &Config) -> (r: usize)
        ensures
            r == Self::depth_choice(cli, config),
    {
        if let Some(value) = cli.depth {
            return value;
        }
        if let Some(recursion) = &config.recursion {
            if let Some(value) = recursion.depth {
                return value;
            }
        }
        usize::MAX
    }
}

impl Default for Recursion {
    /// Recursion is off and has no limit.
    fn default() -> (r: Recursion)
        ensures
            r == (Recursion { enabled: false, depth: usize::MAX }),
    {
        Recursion { depth: usize::MAX, enabled: false }
    }
}

} // verus!
