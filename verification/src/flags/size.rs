//! In which units file sizes are shown.

use crate::app::Cli;
use crate::config_file::Config;
use crate::flags::Configurable;
use crate::text::same;
use vstd::prelude::*;

verus! {

/// In which units file sizes are shown.
#[derive(Clone, Debug, Copy, PartialEq, Eq, Structural)]
pub enum SizeFlag {
    /// With a unit prefix and a B for bytes.
    Default,
    /// With the unit prefix only.
    Short,
    /// In bytes.
    Bytes,
}

impl SizeFlag {
    /// Whether `value` is a word that the argument takes: `default`, `short`, `bytes`.
    pub open spec fn is_arg(value: Seq<char>) -> bool {
        value == "default"@ || value == "short"@ || value == "bytes"@
    }

    /// The variant that a word of the argument stands for.
    pub open spec fn of_arg(value: Seq<char>) -> SizeFlag {
        if value == "default"@ {
            SizeFlag::Default
        } else if value == "short"@ {
            SizeFlag::Short
        } else {
            SizeFlag::Bytes
        }
    }

    /// Tests whether `value` is a word that the argument takes.
    pub fn accepts(value: &str) -> (r: bool)
        ensures
            r == Self::is_arg(value@),
    {
        same(value, "default") || same(value, "short") || same(value, "bytes")
    }

    /// The variant that a word of the argument stands for.
    pub fn from_arg_str(value: &str) -> (r: SizeFlag)
        requires
            Self::is_arg(value@),
        ensures
            r == Self::of_arg(value@),
    {
        if same(value, "default") {
            SizeFlag::Default
        } else if same(value, "short") {
            SizeFlag::Short
        } else {
            SizeFlag::Bytes
        }
    }
}

impl Default for SizeFlag {
    fn default() -> (r: SizeFlag)
        ensures
            r == SizeFlag::Default,
    {
        SizeFlag::Default
    }
}

impl Configurable<SizeFlag> for SizeFlag {
    /// In classic mode the argument is not read; else its word, if one is
    /// given, is one that the argument takes.
    open spec fn understands(cli: &Cli) -> bool {
        cli.classic || (cli.size matches Some(value) ==> Self::is_arg(value@))
    }

    /// `Bytes` in classic mode; else the variant that the argument names, if it is given.
    open spec fn cli_choice(cli: &Cli) -> Option<SizeFlag> {
        if cli.classic {
            Some(SizeFlag::Bytes)
        } else {
            match cli.size {
                Some(value) => Some(Self::of_arg(value@)),
                None => None,
            }
        }
    }

    /// `Bytes` in classic mode; else as the configuration file sets it, if it does.
    open spec fn config_choice(config: &Config) -> Option<SizeFlag> {
        if config.classic == Some(true) {
            Some(SizeFlag::Bytes)
        } else {
            config.size
        }
    }

    open spec fn is_default(value: SizeFlag) -> bool {
        value == (SizeFlag::Default)
    }

    fn from_cli(cli: &Cli) -> (r: Option<SizeFlag>) {
        if cli.classic {
            Some(SizeFlag::Bytes)
        } else {
            match &cli.size {
                Some(value) => Some(Self::from_arg_str(value.as_str())),
                None => None,
            }
        }
    }

    fn from_config(config: &Config) -> (r: Option<SizeFlag>) {
        match config.classic {
            Some(true) => Some(SizeFlag::Bytes),
            _ => config.size,
        }
    }

    fn fallback() -> (r: SizeFlag) {
        SizeFlag::Default
    }
}

} // verus!
