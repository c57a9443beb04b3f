//! When file names are shown as hyperlinks.

use crate::app::Cli;
use crate::config_file::Config;
use crate::flags::Configurable;
use crate::text::same;
use vstd::prelude::*;

verus! {

/// When file names are shown as hyperlinks.
#[derive(Clone, Debug, Copy, PartialEq, Eq, Structural)]
pub enum HyperlinkOption {
    /// Always.
    Always,
    /// Where the output is a terminal.
    Auto,
    /// Never.
    Never,
}

impl HyperlinkOption {
    /// Whether `value` is a word that the argument takes: `always`, `auto`, `never`.
    pub open spec fn is_arg(value: Seq<char>) -> bool {
        value == "always"@ || value == "auto"@ || value == "never"@
    }

    /// The variant that a word of the argument stands for.
    pub open spec fn of_arg(value: Seq<char>) -> HyperlinkOption {
        if value == "always"@ {
            HyperlinkOption::Always
        } else if value == "auto"@ {
            HyperlinkOption::Auto
        } else {
            HyperlinkOption::Never
        }
    }

    /// Tests whether `value` is a word that the argument takes.
    pub fn accepts(value: &str) -> (r: bool)
        ensures
            r == Self::is_arg(value@),
    {
        same(value, "always") || same(value, "auto") || same(value, "never")
    }

    /// The variant that a word of the argument stands for.
    pub fn from_arg_str(value: &str) -> (r: HyperlinkOption)
        requires
            Self::is_arg(value@),
        ensures
            r == Self::of_arg(value@),
    {
        if same(value, "always") {
            HyperlinkOption::Always
        } else if same(value, "auto") {
            HyperlinkOption::Auto
        } else {
            HyperlinkOption::Never
        }
    }
}

impl Default for HyperlinkOption {
    fn default() -> (r: HyperlinkOption)
        ensures
            r == HyperlinkOption::Never,
    {
        HyperlinkOption::Never
    }
}

impl Configurable<HyperlinkOption> for HyperlinkOption {
    /// In classic mode the argument is not read; else its word, if one is
    /// given, is one that the argument takes.
    open spec fn understands(cli: &Cli) -> bool {
        cli.classic || (cli.hyperlink matches Some(value) ==> Self::is_arg(value@))
    }

    /// `Never` in classic mode; else the variant that the argument names, if it is given.
    open spec fn cli_choice(cli: &Cli) -> Option<HyperlinkOption> {
        if cli.classic {
            Some(HyperlinkOption::Never)
        } else {
            match cli.hyperlink {
                Some(value) => Some(Self::of_arg(value@)),
                None => None,
            }
        }
    }

    /// `Never` in classic mode; else as the configuration file sets it, if it does.
    open spec fn config_choice(config: &Config) -> Option<HyperlinkOption> {
        if config.classic == Some(true) {
            Some(HyperlinkOption::Never)
        } else {
            config.hyperlink
        }
    }

    open spec fn is_default(value: HyperlinkOption) -> bool {
        value == (HyperlinkOption::Never)
    }

    fn from_cli(cli: &Cli) -> (r: Option<HyperlinkOption>) {
        if cli.classic {
            Some(HyperlinkOption::Never)
        } else {
            match &cli.hyperlink {
                Some(value) => Some(Self::from_arg_str(value.as_str())),
                None => None,
            }
        }
    }

    fn from_config(config: &Config) -> (r: Option<HyperlinkOption>) {
        match config.classic {
            Some(true) => Some(HyperlinkOption::Never),
            _ => config.hyperlink,
        }
    }

    fn fallback() -> (r: HyperlinkOption) {
        HyperlinkOption::Never
    }
}

} // verus!
