//! In which form file permissions are shown.

use crate::app::Cli;
use crate::config_file::Config;
use crate::flags::Configurable;
use crate::text::same;
use vstd::prelude::*;

verus! {

/// In which form file permissions are shown.
#[derive(Clone, Debug, Copy, PartialEq, Eq, Structural)]
pub enum PermissionFlag {
    /// In rwx form.
    Rwx,
    /// In octal form.
    Octal,
    /// As file attributes.
    Attributes,
    /// Not at all.
    Disable,
}

impl PermissionFlag {
    /// Whether `value` is a word that the argument takes: `rwx`, `octal`, `attributes`, `disable`.
    pub open spec fn is_arg(value: Seq<char>) -> bool {
        value == "rwx"@ || value == "octal"@ || value == "attributes"@ || value == "disable"@
    }

    /// The variant that a word of the argument stands for.
    pub open spec fn of_arg(value: Seq<char>) -> PermissionFlag {
        if value == "rwx"@ {
            PermissionFlag::Rwx
        } else if value == "octal"@ {
            PermissionFlag::Octal
        } else if value == "attributes"@ {
            PermissionFlag::Attributes
        } else {
            PermissionFlag::Disable
        }
    }

    /// Tests whether `value` is a word that the argument takes.
    pub fn accepts(value: &str) -> (r: bool)
        ensures
            r == Self::is_arg(value@),
    {
        same(value, "rwx") || same(value, "octal") || same(value, "attributes") || same(value, "disable")
    }

    /// The variant that a word of the argument stands for.
    pub fn from_arg_str(value: &str) -> (r: PermissionFlag)
        requires
            Self::is_arg(value@),
        ensures
            r == Self::of_arg(value@),
    {
        if same(value, "rwx") {
            PermissionFlag::Rwx
        } else if same(value, "octal") {
            PermissionFlag::Octal
        } else if same(value, "attributes") {
            PermissionFlag::Attributes
        } else {
            PermissionFlag::Disable
        }
    }
}

impl Default for PermissionFlag {
    fn default() -> (r: PermissionFlag)
        ensures
            r == PermissionFlag::Rwx,
    {
        PermissionFlag::Rwx
    }
}

impl Configurable<PermissionFlag> for PermissionFlag {
    /// In classic mode the argument is not read; else its word, if one is
    /// given, is one that the argument takes.
    open spec fn understands(cli: &Cli) -> bool {
        cli.classic || (cli.permission matches Some(value) ==> Self::is_arg(value@))
    }

    /// `Rwx` in classic mode; else the variant that the argument names, if it is given.
    open spec fn cli_choice(cli: &Cli) -> Option<PermissionFlag> {
        if cli.classic {
            Some(PermissionFlag::Rwx)
        } else {
            match cli.permission {
                Some(value) => Some(Self::of_arg(value@)),
                None => None,
            }
        }
    }

    /// `Rwx` in classic mode; else as the configuration file sets it, if it does.
    open spec fn config_choice(config: &Config) -> Option<PermissionFlag> {
        if config.classic == Some(true) {
            Some(PermissionFlag::Rwx)
        } else {
            config.permission
        }
    }

    open spec fn is_default(value: PermissionFlag) -> bool {
        value == (PermissionFlag::Rwx)
    }

    fn from_cli(cli: &Cli) -> (r: Option<PermissionFlag>) {
        if cli.classic {
            Some(PermissionFlag::Rwx)
        } else {
            match &cli.permission {
                Some(value) => Some(Self::from_arg_str(value.as_str())),
                None => None,
            }
        }
    }

    fn from_config(config: &Config) -> (r: Option<PermissionFlag>) {
        match config.classic {
            Some(true) => Some(PermissionFlag::Rwx),
            _ => config.permission,
        }
    }

    fn fallback() -> (r: PermissionFlag) {
        PermissionFlag::Rwx
    }
}

} // verus!
