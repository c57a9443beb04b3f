use clap::error::ErrorKind;
use clap::{Arg, ArgAction, Command};
use kgls::app::Cli;
use kgls::config_file::{self, Config, Sorting};
use kgls::flags::display::Display;
use kgls::flags::header::Header;
use kgls::flags::hyperlink::HyperlinkOption;
use kgls::flags::indicators::Indicators;
use kgls::flags::layout::Layout;
use kgls::flags::literal::Literal;
use kgls::flags::permission::PermissionFlag;
use kgls::flags::size::SizeFlag;
use kgls::flags::sorting::{DirGrouping, SortColumn, SortOrder};
use kgls::flags::truncate_owner::TruncateOwner;
use kgls::flags::{Configurable, Recursion, SymlinkArrow};

fn flag(name: &'static str, short: Option<char>, long: &'static str) -> Arg {
    let arg = Arg::new(name).long(long).action(ArgAction::SetTrue);
    match short {
        Some(c) => arg.short(c),
        None => arg,
    }
}

fn word(name: &'static str, long: &'static str, words: &[&'static str]) -> Arg {
    Arg::new(name)
        .long(long)
        .action(ArgAction::Set)
        .value_parser(clap::builder::PossibleValuesParser::new(words.to_vec()))
}

fn command() -> Command {
    let sorts = ["timesort", "sizesort", "extensionsort", "versionsort", "gitsort", "no_sort", "sort"];
    Command::new("lsd")
        .args_override_self(true)
        .arg(Arg::new("inputs").action(ArgAction::Append).num_args(0..))
        .arg(flag("all", Some('a'), "all"))
        .arg(flag("almost_all", Some('A'), "almost-all"))
        .arg(flag("classic", None, "classic"))
        .arg(Arg::new("config_file").long("config-file").action(ArgAction::Set))
        .arg(flag("context", Some('Z'), "context"))
        .arg(
            Arg::new("depth")
                .long("depth")
                .action(ArgAction::Set)
                .value_parser(clap::builder::RangedU64ValueParser::<usize>::new()),
        )
        .arg(flag("directory_only", Some('d'), "directory-only"))
        .arg(flag("extensionsort", Some('X'), "extensionsort").overrides_with_all(sorts))
        .arg(flag("gitsort", Some('G'), "gitsort").overrides_with_all(sorts))
        .arg(word("group_dirs", "group-dirs", &["none", "first", "last"]))
        .arg(flag("group_directories_first", None, "group-directories-first"))
        .arg(flag("header", None, "header"))
        .arg(word("hyperlink", "hyperlink", &["always", "auto", "never"]))
        .arg(flag("ignore_config", None, "ignore-config"))
        .arg(flag("indicators", Some('F'), "classify"))
        .arg(flag("inode", Some('i'), "inode"))
        .arg(flag("literal", Some('N'), "literal"))
        .arg(flag("long", Some('l'), "long"))
        .arg(flag("no_sort", Some('U'), "no-sort").overrides_with_all(sorts))
        .arg(flag("oneline", Some('1'), "oneline"))
        .arg(word("permission", "permission", &["rwx", "octal", "attributes", "disable"]))
        .arg(flag("recursive", Some('R'), "recursive"))
        .arg(flag("reverse", Some('r'), "reverse"))
        .arg(word("size", "size", &["default", "short", "bytes"]))
        .arg(flag("sizesort", Some('S'), "sizesort").overrides_with_all(sorts))
        .arg(
            word("sort", "sort", &["size", "time", "version", "extension", "git", "none"])
                .overrides_with_all(sorts),
        )
        .arg(flag("system_protected", None, "system-protected"))
        .arg(flag("timesort", Some('t'), "timesort").overrides_with_all(sorts))
        .arg(flag("tree", None, "tree"))
        .arg(
            Arg::new("truncate_owner_after")
                .long("truncate-owner-after")
                .action(ArgAction::Set)
                .value_parser(clap::builder::RangedU64ValueParser::<usize>::new()),
        )
        .arg(Arg::new("truncate_owner_marker").long("truncate-owner-marker").action(ArgAction::Set))
        .arg(flag("versionsort", Some('v'), "versionsort").overrides_with_all(sorts))
        .arg(
            Arg::new("blocks")
                .long("blocks")
                .action(ArgAction::Append)
                .value_delimiter(','),
        )
}

fn try_parse_from(argv: &[&str]) -> Result<Cli, clap::Error> {
    let found = command().try_get_matches_from(argv.iter().copied())?;
    let text = |name: &str| found.get_one::<String>(name).cloned();
    let list = |name: &str| -> Vec<String> {
        match found.get_many::<String>(name) {
            Some(values) => values.cloned().collect(),
            None => Vec::new(),
        }
    };
    Ok(Cli {
        inputs: list("inputs"),
        all: found.get_flag("all"),
        almost_all: found.get_flag("almost_all"),
        classic: found.get_flag("classic"),
        config_file: text("config_file"),
        context: found.get_flag("context"),
        depth: found.get_one::<usize>("depth").copied(),
        directory_only: found.get_flag("directory_only"),
        extensionsort: found.get_flag("extensionsort"),
        gitsort: found.get_flag("gitsort"),
        group_dirs: text("group_dirs"),
        group_directories_first: found.get_flag("group_directories_first"),
        header: found.get_flag("header"),
        hyperlink: text("hyperlink"),
        ignore_config: found.get_flag("ignore_config"),
        indicators: found.get_flag("indicators"),
        inode: found.get_flag("inode"),
        literal: found.get_flag("literal"),
        long: found.get_flag("long"),
        no_sort: found.get_flag("no_sort"),
        oneline: found.get_flag("oneline"),
        permission: text("permission"),
        recursive: found.get_flag("recursive"),
        reverse: found.get_flag("reverse"),
        size: text("size"),
        sizesort: found.get_flag("sizesort"),
        sort: text("sort"),
        system_protected: found.get_flag("system_protected"),
        timesort: found.get_flag("timesort"),
        tree: found.get_flag("tree"),
        truncate_owner_after: found.get_one::<usize>("truncate_owner_after").copied(),
        truncate_owner_marker: text("truncate_owner_marker"),
        versionsort: found.get_flag("versionsort"),
        blocks: list("blocks"),
    })
}

#[test]
fn test_display_test_from_cli_none() {
    let argv = ["lsd"];
    let cli = try_parse_from(&argv).expect("Failed to parse CLI arguments for test_from_cli_none");
    assert_eq!(None, Display::from_cli(&cli));
}

#[test]
fn test_from_cli_system_protected() {
    let argv = ["lsd", "--system-protected"];
    let cli = try_parse_from(&argv).expect("Failed to parse CLI arguments for test_from_cli_system_protected");
    assert_eq!(Some(Display::All), Display::from_cli(&cli));
}

#[test]
fn test_from_cli_all() {
    let argv = ["lsd", "--all"];
    let cli = try_parse_from(&argv).expect("Failed to parse CLI arguments for test_from_cli_all");
    assert_eq!(Some(Display::All), Display::from_cli(&cli));
}

#[test]
fn test_from_cli_almost_all() {
    let argv = ["lsd", "--almost-all"];
    let cli = try_parse_from(&argv).expect("Failed to parse CLI arguments for test_from_cli_almost_all");
    assert_eq!(Some(Display::AlmostAll), Display::from_cli(&cli));
}

#[test]
fn test_from_cli_directory_only() {
    let argv = ["lsd", "--directory-only"];
    let cli = try_parse_from(&argv).expect("Failed to parse CLI arguments for test_from_cli_directory_only");
    assert_eq!(Some(Display::DirectoryOnly), Display::from_cli(&cli));
}

#[test]
fn test_display_test_from_config_none() {
    assert_eq!(None, Display::from_config(&Config::with_none()));
}

#[test]
fn test_from_config_all() {
    let mut c = Config::with_none();
    c.display = Some(Display::All);
    assert_eq!(Some(Display::All), Display::from_config(&c));
}

#[test]
fn test_from_config_almost_all() {
    let mut c = Config::with_none();
    c.display = Some(Display::AlmostAll);
    assert_eq!(Some(Display::AlmostAll), Display::from_config(&c));
}

#[test]
fn test_from_config_directory_only() {
    let mut c = Config::with_none();
    c.display = Some(Display::DirectoryOnly);
    assert_eq!(Some(Display::DirectoryOnly), Display::from_config(&c));
}

#[test]
fn test_from_config_visible_only() {
    let mut c = Config::with_none();
    c.display = Some(Display::VisibleOnly);
    assert_eq!(Some(Display::VisibleOnly), Display::from_config(&c));
}

#[test]
fn test_header_test_from_cli_none() {
    let argv = ["lsd"];
    let cli = try_parse_from(&argv).expect("Failed to parse CLI arguments for test_from_cli_none");
    assert_eq!(None, Header::from_cli(&cli));
}

#[test]
fn test_header_test_from_cli_true() {
    let argv = ["lsd", "--header"];
    let cli = try_parse_from(&argv).expect("Failed to parse CLI arguments for test_from_cli_true");
    assert_eq!(Some(Header(true)), Header::from_cli(&cli));
}

#[test]
fn test_header_test_from_config_none() {
    assert_eq!(None, Header::from_config(&Config::with_none()));
}

#[test]
fn test_header_test_from_config_true() {
    let mut c = Config::with_none();
    c.header = Some(true);
    assert_eq!(Some(Header(true)), Header::from_config(&c));
}

#[test]
fn test_header_test_from_config_false() {
    let mut c = Config::with_none();
    c.header = Some(false);
    assert_eq!(Some(Header(false)), Header::from_config(&c));
}

#[test]
fn test_hyperlink_test_from_cli_none() {
    let argv = ["lsd"];
    let cli = try_parse_from(&argv).unwrap();
    assert_eq!(None, HyperlinkOption::from_cli(&cli));
}

#[test]
fn test_hyperlink_test_from_cli_always() {
    let argv = ["lsd", "--hyperlink", "always"];
    let cli = try_parse_from(&argv).unwrap();
    assert_eq!(
        Some(HyperlinkOption::Always),
        HyperlinkOption::from_cli(&cli)
    );
}

#[test]
fn test_hyperlink_test_from_cli_auto() {
    let argv = ["lsd", "--hyperlink", "auto"];
    let cli = try_parse_from(&argv).unwrap();
    assert_eq!(Some(HyperlinkOption::Auto), HyperlinkOption::from_cli(&cli));
}

#[test]
fn test_hyperlink_test_from_cli_never() {
    let argv = ["lsd", "--hyperlink", "never"];
    let cli = try_parse_from(&argv).unwrap();
    assert_eq!(
        Some(HyperlinkOption::Never),
        HyperlinkOption::from_cli(&cli)
    );
}

#[test]
fn test_hyperlink_test_from_cli_classic_mode() {
    let argv = ["lsd", "--hyperlink", "always", "--classic"];
    let cli = try_parse_from(&argv).unwrap();
    assert_eq!(
        Some(HyperlinkOption::Never),
        HyperlinkOption::from_cli(&cli)
    );
}

#[test]
fn test_from_cli_hyperlink_when_multi() {
    let argv = ["lsd", "--hyperlink", "always", "--hyperlink", "never"];
    let cli = try_parse_from(&argv).unwrap();
    assert_eq!(
        Some(HyperlinkOption::Never),
        HyperlinkOption::from_cli(&cli)
    );
}

#[test]
fn test_hyperlink_test_from_config_none() {
    assert_eq!(None, HyperlinkOption::from_config(&Config::with_none()));
}

#[test]
fn test_hyperlink_test_from_config_always() {
    let mut c = Config::with_none();
    c.hyperlink = Some(HyperlinkOption::Always);
    assert_eq!(
        Some(HyperlinkOption::Always),
        HyperlinkOption::from_config(&c)
    );
}

#[test]
fn test_hyperlink_test_from_config_auto() {
    let mut c = Config::with_none();
    c.hyperlink = Some(HyperlinkOption::Auto);
    assert_eq!(
        Some(HyperlinkOption::Auto),
        HyperlinkOption::from_config(&c)
    );
}

#[test]
fn test_hyperlink_test_from_config_never() {
    let mut c = Config::with_none();
    c.hyperlink = Some(HyperlinkOption::Never);
    assert_eq!(
        Some(HyperlinkOption::Never),
        HyperlinkOption::from_config(&c)
    );
}

#[test]
fn test_hyperlink_test_from_config_classic_mode() {
    let mut c = Config::with_none();
    c.classic = Some(true);
    c.hyperlink = Some(HyperlinkOption::Always);
    assert_eq!(
        Some(HyperlinkOption::Never),
        HyperlinkOption::from_config(&c)
    );
}

#[test]
fn test_indicators_test_from_cli_none() {
    let argv = ["lsd"];
    let cli = try_parse_from(&argv).unwrap();
    assert_eq!(None, Indicators::from_cli(&cli));
}

#[test]
fn test_indicators_test_from_cli_true() {
    let argv = ["lsd", "--classify"];
    let cli = try_parse_from(&argv).unwrap();
    assert_eq!(Some(Indicators(true)), Indicators::from_cli(&cli));
}

#[test]
fn test_indicators_test_from_config_none() {
    assert_eq!(None, Indicators::from_config(&Config::with_none()));
}

#[test]
fn test_indicators_test_from_config_true() {
    let mut c = Config::with_none();
    c.indicators = Some(true);
    assert_eq!(Some(Indicators(true)), Indicators::from_config(&c));
}

#[test]
fn test_indicators_test_from_config_false() {
    let mut c = Config::with_none();
    c.indicators = Some(false);
    assert_eq!(Some(Indicators(false)), Indicators::from_config(&c));
}

#[test]
fn test_layout_test_from_cli_none() {
    let argv = ["lsd"];
    let cli = try_parse_from(&argv).unwrap();
    assert_eq!(None, Layout::from_cli(&cli));
}

#[test]
fn test_from_cli_tree() {
    let argv = ["lsd", "--tree"];
    let cli = try_parse_from(&argv).unwrap();
    assert_eq!(Some(Layout::Tree), Layout::from_cli(&cli));
}

#[test]
fn test_from_cli_oneline() {
    let argv = ["lsd", "--oneline"];
    let cli = try_parse_from(&argv).unwrap();
    assert_eq!(Some(Layout::OneLine), Layout::from_cli(&cli));
}

#[test]
fn test_from_cli_oneline_through_long() {
    let argv = ["lsd", "--long"];
    let cli = try_parse_from(&argv).unwrap();
    assert_eq!(Some(Layout::OneLine), Layout::from_cli(&cli));
}

#[test]
fn test_from_cli_oneline_through_blocks() {
    let argv = ["lsd", "--blocks", "permission,name"];
    let cli = try_parse_from(&argv).unwrap();
    assert_eq!(Some(Layout::OneLine), Layout::from_cli(&cli));
}

#[test]
fn test_layout_test_from_config_none() {
    assert_eq!(None, Layout::from_config(&Config::with_none()));
}

#[test]
fn test_from_config_tree() {
    let mut c = Config::with_none();
    c.layout = Some(Layout::Tree);
    assert_eq!(Some(Layout::Tree), Layout::from_config(&c));
}

#[test]
fn test_from_config_oneline() {
    let mut c = Config::with_none();
    c.layout = Some(Layout::OneLine);
    assert_eq!(Some(Layout::OneLine), Layout::from_config(&c));
}

#[test]
fn test_from_config_grid() {
    let mut c = Config::with_none();
    c.layout = Some(Layout::Grid);
    assert_eq!(Some(Layout::Grid), Layout::from_config(&c));
}

#[test]
fn test_literal_test_from_cli_none() {
    let argv = ["lsd"];
    let cli = try_parse_from(&argv).unwrap();
    assert_eq!(None, Literal::from_cli(&cli));
}

#[test]
fn test_from_cli_literal() {
    let argv = ["lsd", "--literal"];
    let cli = try_parse_from(&argv).unwrap();
    assert_eq!(Some(Literal(true)), Literal::from_cli(&cli));
}

#[test]
fn test_literal_test_from_config_none() {
    assert_eq!(None, Literal::from_config(&Config::with_none()));
}

#[test]
fn test_literal_test_from_config_true() {
    let mut c = Config::with_none();
    c.literal = Some(true);
    assert_eq!(Some(Literal(true)), Literal::from_config(&c));
}

#[test]
fn test_literal_test_from_config_false() {
    let mut c = Config::with_none();
    c.literal = Some(false);
    assert_eq!(Some(Literal(false)), Literal::from_config(&c));
}

#[test]
fn test_permission_test_default() {
    assert_eq!(PermissionFlag::Rwx, PermissionFlag::default());
}

#[test]
fn test_permission_test_from_cli_none() {
    let argv = ["lsd"];
    let cli = try_parse_from(&argv).unwrap();
    assert_eq!(None, PermissionFlag::from_cli(&cli));
}

#[test]
fn test_permission_test_from_cli_default() {
    let argv = ["lsd", "--permission", "rwx"];
    let cli = try_parse_from(&argv).unwrap();
    assert_eq!(Some(PermissionFlag::Rwx), PermissionFlag::from_cli(&cli));
}

#[test]
fn test_permission_test_from_cli_short() {
    let argv = ["lsd", "--permission", "octal"];
    let cli = try_parse_from(&argv).unwrap();
    assert_eq!(Some(PermissionFlag::Octal), PermissionFlag::from_cli(&cli));
}

#[test]
fn test_from_cli_attributes() {
    let argv = ["lsd", "--permission", "attributes"];
    let cli = try_parse_from(&argv).unwrap();
    assert_eq!(
        Some(PermissionFlag::Attributes),
        PermissionFlag::from_cli(&cli)
    );
}

#[test]
fn test_from_cli_permissions_disable() {
    let argv = ["lsd", "--permission", "disable"];
    let cli = try_parse_from(&argv).unwrap();
    assert_eq!(
        Some(PermissionFlag::Disable),
        PermissionFlag::from_cli(&cli)
    );
}

#[test]
#[should_panic]
fn test_permission_test_from_cli_unknown() {
    let argv = ["lsd", "--permission", "unknown"];
    let _ = try_parse_from(&argv).unwrap();
}
#[test]
fn test_from_cli_permissions_multi() {
    let argv = ["lsd", "--permission", "octal", "--permission", "rwx"];
    let cli = try_parse_from(&argv).unwrap();
    assert_eq!(Some(PermissionFlag::Rwx), PermissionFlag::from_cli(&cli));
}

#[test]
fn test_from_cli_permissions_classic() {
    let argv = ["lsd", "--permission", "rwx", "--classic"];
    let cli = try_parse_from(&argv).unwrap();
    assert_eq!(Some(PermissionFlag::Rwx), PermissionFlag::from_cli(&cli));
}

#[test]
fn test_permission_test_from_config_none() {
    assert_eq!(None, PermissionFlag::from_config(&Config::with_none()));
}

#[test]
fn test_from_config_rwx() {
    let mut c = Config::with_none();
    c.permission = Some(PermissionFlag::Rwx);
    assert_eq!(Some(PermissionFlag::Rwx), PermissionFlag::from_config(&c));
}

#[test]
fn test_from_config_octal() {
    let mut c = Config::with_none();
    c.permission = Some(PermissionFlag::Octal);
    assert_eq!(Some(PermissionFlag::Octal), PermissionFlag::from_config(&c));
}

#[test]
fn test_permission_test_from_config_classic_mode() {
    let mut c = Config::with_none();
    c.classic = Some(true);
    assert_eq!(Some(PermissionFlag::Rwx), PermissionFlag::from_config(&c));
}

#[test]
fn test_enabled_from_cli_empty() {
    let argv = ["lsd"];
    let cli = try_parse_from(&argv).expect("Failed to parse CLI arguments for test_enabled_from_cli_empty");
    assert_eq!(None, Recursion::enabled_from_cli(&cli));
}

#[test]
fn test_enabled_from_cli_true() {
    let argv = ["lsd", "--recursive"];
    let cli = try_parse_from(&argv).expect("Failed to parse CLI arguments for test_enabled_from_cli_true");
    assert_eq!(Some(true), Recursion::enabled_from_cli(&cli));
}

#[test]
fn test_enabled_from_empty_matches_and_config() {
    let argv = ["lsd"];
    assert!(!Recursion::enabled_from(
        &try_parse_from(&argv).expect("Failed to parse CLI arguments for test_enabled_from_empty_matches_and_config"),
        &Config::with_none()
    ));
}

#[test]
fn test_enabled_from_matches_empty_and_config_true() {
    let argv = ["lsd"];
    let mut c = Config::with_none();
    c.recursion = Some(config_file::Recursion {
        enabled: Some(true),
        depth: None,
    });
    assert!(Recursion::enabled_from(
        &try_parse_from(&argv).expect("Failed to parse CLI arguments for test_enabled_from_matches_empty_and_config_true"),
        &c
    ));
}

#[test]
fn test_enabled_from_matches_empty_and_config_false() {
    let argv = ["lsd"];
    let mut c = Config::with_none();
    c.recursion = Some(config_file::Recursion {
        enabled: Some(false),
        depth: None,
    });
    assert!(!Recursion::enabled_from(
        &try_parse_from(&argv).expect("Failed to parse CLI arguments for test_enabled_from_matches_empty_and_config_false"),
        &c
    ));
}

#[test]
fn test_depth_from_cli_empty() {
    let argv = ["lsd"];
    let cli = try_parse_from(&argv).expect("Failed to parse CLI arguments for test_depth_from_cli_empty");
    assert!(cli.depth.is_none());
}

#[test]
fn test_depth_from_cli_integer() {
    let argv = ["lsd", "--depth", "42"];
    let cli = try_parse_from(&argv).expect("Failed to parse CLI arguments for test_depth_from_cli_integer");
    assert!(matches!(cli.depth, Some(42)));
}

#[test]
fn test_depth_from_cli_depth_multi() {
    let argv = ["lsd", "--depth", "4", "--depth", "2"];
    let cli = try_parse_from(&argv).expect("Failed to parse CLI arguments for test_depth_from_cli_depth_multi");
    assert!(matches!(cli.depth, Some(2)));
}

#[test]
fn test_depth_from_cli_neg_int() {
    let argv = ["lsd", "--depth", "\\-42"];
    let cli = try_parse_from(&argv);
    assert!(matches!(cli, Err(e) if e.kind() == ErrorKind::ValueValidation));
}

#[test]
fn test_depth_from_cli_non_int() {
    let argv = ["lsd", "--depth", "foo"];
    let cli = try_parse_from(&argv);
    assert!(matches!(cli, Err(e) if e.kind() == ErrorKind::ValueValidation));
}

#[test]
fn test_depth_from_config_none_max() {
    let argv = ["lsd"];
    let cli = try_parse_from(&argv).expect("Failed to parse CLI arguments for test_depth_from_config_none_max");
    assert_eq!(
        usize::MAX,
        Recursion::depth_from(&cli, &Config::with_none())
    );
}

#[test]
fn test_depth_from_config_pos_integer() {
    let argv = ["lsd"];
    let mut c = Config::with_none();
    c.recursion = Some(config_file::Recursion {
        enabled: None,
        depth: Some(42),
    });
    assert_eq!(
        42,
        Recursion::depth_from(&try_parse_from(&argv).expect("Failed to parse CLI arguments for test_depth_from_config_pos_integer"), &c)
    );
}

#[test]
fn test_size_test_default() {
    assert_eq!(SizeFlag::Default, SizeFlag::default());
}

#[test]
fn test_size_test_from_cli_none() {
    let argv = ["lsd"];
    let cli = try_parse_from(&argv).unwrap();
    assert_eq!(None, SizeFlag::from_cli(&cli));
}

#[test]
fn test_size_test_from_cli_default() {
    let argv = ["lsd", "--size", "default"];
    let cli = try_parse_from(&argv).unwrap();
    assert_eq!(Some(SizeFlag::Default), SizeFlag::from_cli(&cli));
}

#[test]
fn test_size_test_from_cli_short() {
    let argv = ["lsd", "--size", "short"];
    let cli = try_parse_from(&argv).unwrap();
    assert_eq!(Some(SizeFlag::Short), SizeFlag::from_cli(&cli));
}

#[test]
fn test_from_cli_bytes() {
    let argv = ["lsd", "--size", "bytes"];
    let cli = try_parse_from(&argv).unwrap();
    assert_eq!(Some(SizeFlag::Bytes), SizeFlag::from_cli(&cli));
}

#[test]
#[should_panic]
fn test_size_test_from_cli_unknown() {
    let argv = ["lsd", "--size", "unknown"];
    let _ = try_parse_from(&argv).unwrap();
}
#[test]
fn test_from_cli_size_multi() {
    let argv = ["lsd", "--size", "bytes", "--size", "short"];
    let cli = try_parse_from(&argv).unwrap();
    assert_eq!(Some(SizeFlag::Short), SizeFlag::from_cli(&cli));
}

#[test]
fn test_from_cli_size_classic() {
    let argv = ["lsd", "--size", "short", "--classic"];
    let cli = try_parse_from(&argv).unwrap();
    assert_eq!(Some(SizeFlag::Bytes), SizeFlag::from_cli(&cli));
}

#[test]
fn test_size_test_from_config_none() {
    assert_eq!(None, SizeFlag::from_config(&Config::with_none()));
}

#[test]
fn test_size_test_from_config_default() {
    let mut c = Config::with_none();
    c.size = Some(SizeFlag::Default);
    assert_eq!(Some(SizeFlag::Default), SizeFlag::from_config(&c));
}

#[test]
fn test_from_config_short() {
    let mut c = Config::with_none();
    c.size = Some(SizeFlag::Short);
    assert_eq!(Some(SizeFlag::Short), SizeFlag::from_config(&c));
}

#[test]
fn test_from_config_bytes() {
    let mut c = Config::with_none();
    c.size = Some(SizeFlag::Bytes);
    assert_eq!(Some(SizeFlag::Bytes), SizeFlag::from_config(&c));
}

#[test]
fn test_size_test_from_config_classic_mode() {
    let mut c = Config::with_none();
    c.classic = Some(true);
    assert_eq!(Some(SizeFlag::Bytes), SizeFlag::from_config(&c));
}

#[test]
fn test_sorting_test_from_cli_none() {
    let argv = ["lsd"];
    let cli = try_parse_from(&argv).unwrap();
    assert_eq!(None, SortColumn::from_cli(&cli));
}

#[test]
fn test_from_cli_extension() {
    let argv = ["lsd", "--extensionsort"];
    let cli = try_parse_from(&argv).unwrap();
    assert_eq!(Some(SortColumn::Extension), SortColumn::from_cli(&cli));
}

#[test]
fn test_from_cli_time() {
    let argv = ["lsd", "--timesort"];
    let cli = try_parse_from(&argv).unwrap();
    assert_eq!(Some(SortColumn::Time), SortColumn::from_cli(&cli));
}

#[test]
fn test_from_cli_size() {
    let argv = ["lsd", "--sizesort"];
    let cli = try_parse_from(&argv).unwrap();
    assert_eq!(Some(SortColumn::Size), SortColumn::from_cli(&cli));
}

#[test]
fn test_from_cli_git() {
    let argv = ["lsd", "--gitsort"];
    let cli = try_parse_from(&argv).unwrap();
    assert_eq!(Some(SortColumn::GitStatus), SortColumn::from_cli(&cli));
}

#[test]
fn test_from_cli_version() {
    let argv = ["lsd", "--versionsort"];
    let cli = try_parse_from(&argv).unwrap();
    assert_eq!(Some(SortColumn::Version), SortColumn::from_cli(&cli));
}

#[test]
fn test_from_cli_no_sort() {
    let argv = ["lsd", "--no-sort"];
    let cli = try_parse_from(&argv).unwrap();
    assert_eq!(Some(SortColumn::NoSort), SortColumn::from_cli(&cli));
}

#[test]
fn test_from_cli_sort() {
    let argv = ["lsd", "--sort", "time"];
    let cli = try_parse_from(&argv).unwrap();
    assert_eq!(Some(SortColumn::Time), SortColumn::from_cli(&cli));

    let argv = ["lsd", "--sort", "size"];
    let cli = try_parse_from(&argv).unwrap();
    assert_eq!(Some(SortColumn::Size), SortColumn::from_cli(&cli));

    let argv = ["lsd", "--sort", "extension"];
    let cli = try_parse_from(&argv).unwrap();
    assert_eq!(Some(SortColumn::Extension), SortColumn::from_cli(&cli));

    let argv = ["lsd", "--sort", "version"];
    let cli = try_parse_from(&argv).unwrap();
    assert_eq!(Some(SortColumn::Version), SortColumn::from_cli(&cli));

    let argv = ["lsd", "--sort", "none"];
    let cli = try_parse_from(&argv).unwrap();
    assert_eq!(Some(SortColumn::NoSort), SortColumn::from_cli(&cli));
}

#[test]
fn test_from_arg_cli_sort_git() {
    let argv = ["lsd", "--sort", "git"];
    let cli = try_parse_from(&argv).unwrap();
    assert_eq!(Some(SortColumn::GitStatus), SortColumn::from_cli(&cli));
}

#[test]
fn test_multi_sort() {
    let argv = ["lsd", "--sort", "size", "--sort", "time"];
    let cli = try_parse_from(&argv).unwrap();
    assert_eq!(Some(SortColumn::Time), SortColumn::from_cli(&cli));
}

#[test]
fn test_multi_sort_use_last() {
    let argv = ["lsd", "--sort", "size", "-t", "-S", "-X", "--sort", "time"];
    let cli = try_parse_from(&argv).unwrap();
    assert_eq!(Some(SortColumn::Time), SortColumn::from_cli(&cli));
}

#[test]
fn test_sorting_test_from_config_empty() {
    assert_eq!(None, SortColumn::from_config(&Config::with_none()));
}

#[test]
fn test_from_config_empty_column() {
    let mut c = Config::with_none();
    c.sorting = Some(Sorting {
        column: None,
        reverse: None,
        dir_grouping: None,
    });

    assert_eq!(None, SortColumn::from_config(&c));
}

#[test]
fn test_from_config_extension() {
    let mut c = Config::with_none();
    c.sorting = Some(Sorting {
        column: Some(SortColumn::Extension),
        reverse: None,
        dir_grouping: None,
    });
    assert_eq!(Some(SortColumn::Extension), SortColumn::from_config(&c));
}

#[test]
fn test_from_config_name() {
    let mut c = Config::with_none();
    c.sorting = Some(Sorting {
        column: Some(SortColumn::Name),
        reverse: None,
        dir_grouping: None,
    });
    assert_eq!(Some(SortColumn::Name), SortColumn::from_config(&c));
}

#[test]
fn test_from_config_time() {
    let mut c = Config::with_none();
    c.sorting = Some(Sorting {
        column: Some(SortColumn::Time),
        reverse: None,
        dir_grouping: None,
    });
    assert_eq!(Some(SortColumn::Time), SortColumn::from_config(&c));
}

#[test]
fn test_from_config_size() {
    let mut c = Config::with_none();
    c.sorting = Some(Sorting {
        column: Some(SortColumn::Size),
        reverse: None,
        dir_grouping: None,
    });
    assert_eq!(Some(SortColumn::Size), SortColumn::from_config(&c));
}

#[test]
fn test_from_config_version() {
    let mut c = Config::with_none();
    c.sorting = Some(Sorting {
        column: Some(SortColumn::Version),
        reverse: None,
        dir_grouping: None,
    });
    assert_eq!(Some(SortColumn::Version), SortColumn::from_config(&c));
}

#[test]
fn test_from_config_git_status() {
    let mut c = Config::with_none();
    c.sorting = Some(Sorting {
        column: Some(SortColumn::GitStatus),
        reverse: None,
        dir_grouping: None,
    });
    assert_eq!(Some(SortColumn::GitStatus), SortColumn::from_config(&c));
}

#[test]
fn test_sort_order_test_from_cli_none() {
    let argv = ["lsd"];
    let cli = try_parse_from(&argv).unwrap();
    assert_eq!(None, SortOrder::from_cli(&cli));
}

#[test]
fn test_from_cli_reverse() {
    let argv = ["lsd", "--reverse"];
    let cli = try_parse_from(&argv).unwrap();
    assert_eq!(Some(SortOrder::Reverse), SortOrder::from_cli(&cli));
}

#[test]
fn test_sort_order_test_from_config_empty() {
    assert_eq!(None, SortOrder::from_config(&Config::with_none()));
}

#[test]
fn test_from_config_default_config() {
    assert_eq!(
        Some(SortOrder::default()),
        SortOrder::from_config(&Config::builtin())
    );
}

#[test]
fn test_from_config_empty_reverse() {
    let mut c = Config::with_none();
    c.sorting = Some(Sorting {
        column: None,
        reverse: None,
        dir_grouping: None,
    });
    assert_eq!(None, SortOrder::from_config(&c));
}

#[test]
fn test_from_config_reverse_true() {
    let mut c = Config::with_none();
    c.sorting = Some(Sorting {
        column: None,
        reverse: Some(true),
        dir_grouping: None,
    });
    assert_eq!(Some(SortOrder::Reverse), SortOrder::from_config(&c));
}

#[test]
fn test_from_config_reverse_false() {
    let mut c = Config::with_none();
    c.sorting = Some(Sorting {
        column: None,
        reverse: Some(false),
        dir_grouping: None,
    });
    assert_eq!(Some(SortOrder::Default), SortOrder::from_config(&c));
}

#[test]
fn test_dir_grouping_test_from_cli_none() {
    let argv = ["lsd"];
    let cli = try_parse_from(&argv).unwrap();
    assert_eq!(None, DirGrouping::from_cli(&cli));
}

#[test]
fn test_from_cli_first() {
    let argv = ["lsd", "--group-dirs", "first"];
    let cli = try_parse_from(&argv).unwrap();
    assert_eq!(Some(DirGrouping::First), DirGrouping::from_cli(&cli));
}

#[test]
fn test_from_cli_last() {
    let argv = ["lsd", "--group-dirs", "last"];
    let cli = try_parse_from(&argv).unwrap();
    assert_eq!(Some(DirGrouping::Last), DirGrouping::from_cli(&cli));
}

#[test]
fn test_from_cli_explicit_none() {
    let argv = ["lsd", "--group-dirs", "none"];
    let cli = try_parse_from(&argv).unwrap();
    assert_eq!(Some(DirGrouping::Ungrouped), DirGrouping::from_cli(&cli));
}

#[test]
fn test_sorting_test_from_cli_classic_mode() {
    let argv = ["lsd", "--group-dirs", "first", "--classic"];
    let cli = try_parse_from(&argv).unwrap();
    assert_eq!(Some(DirGrouping::Ungrouped), DirGrouping::from_cli(&cli));
}

#[test]
fn test_from_cli_group_dirs_multi() {
    let argv = ["lsd", "--group-dirs", "first", "--group-dirs", "last"];
    let cli = try_parse_from(&argv).unwrap();
    assert_eq!(Some(DirGrouping::Last), DirGrouping::from_cli(&cli));
}

#[test]
fn test_from_cli_group_directories_first() {
    let argv = ["lsd", "--group-directories-first"];
    let cli = try_parse_from(&argv).unwrap();
    assert_eq!(Some(DirGrouping::First), DirGrouping::from_cli(&cli));
}

#[test]
fn test_dir_grouping_test_from_config_empty() {
    assert_eq!(None, DirGrouping::from_config(&Config::with_none()));
}

#[test]
fn test_from_config_first() {
    let mut c = Config::with_none();
    c.sorting = Some(Sorting {
        column: None,
        reverse: None,
        dir_grouping: Some(DirGrouping::First),
    });
    assert_eq!(Some(DirGrouping::First), DirGrouping::from_config(&c));
}

#[test]
fn test_from_config_last() {
    let mut c = Config::with_none();
    c.sorting = Some(Sorting {
        column: None,
        reverse: None,
        dir_grouping: Some(DirGrouping::Last),
    });
    assert_eq!(Some(DirGrouping::Last), DirGrouping::from_config(&c));
}

#[test]
fn test_from_config_explicit_empty() {
    let mut c = Config::with_none();
    c.sorting = Some(Sorting {
        column: None,
        reverse: None,
        dir_grouping: None,
    });
    assert_eq!(None, DirGrouping::from_config(&c));
}

#[test]
fn test_sorting_test_from_config_classic_mode() {
    let mut c = Config::with_none();
    c.sorting = Some(Sorting {
        column: None,
        reverse: None,
        dir_grouping: Some(DirGrouping::Last),
    });
    c.classic = Some(true);
    assert_eq!(Some(DirGrouping::Ungrouped), DirGrouping::from_config(&c));
}

#[test]
fn test_symlink_arrow_from_config_utf8() {
    let mut c = Config::with_none();
    c.symlink_arrow = Some("↹".into());
    assert_eq!(
        Some(SymlinkArrow(String::from("\u{21B9}"))),
        SymlinkArrow::from_config(&c)
    );
}

#[test]
fn test_symlink_arrow_from_args_none() {
    let argv = ["lsd"];
    let cli = try_parse_from(&argv).unwrap();
    assert_eq!(None, SymlinkArrow::from_cli(&cli));
}

#[test]
fn test_symlink_arrow_default() {
    assert_eq!(
        SymlinkArrow(String::from("\u{21d2}")),
        SymlinkArrow::default()
    );
}

#[test]
fn test_symlink_display() {
    assert_eq!("⇒", SymlinkArrow::default().to_string());
}

#[test]
fn test_truncate_owner_test_from_cli_none() {
    let argv = ["lsd"];
    let cli = try_parse_from(&argv).unwrap();
    assert_eq!(None, TruncateOwner::from_cli(&cli));
}

#[test]
fn test_from_cli_after_some() {
    let argv = ["lsd", "--truncate-owner-after", "1"];
    let cli = try_parse_from(&argv).unwrap();
    assert_eq!(
        Some(TruncateOwner {
            after: Some(1),
            marker: None,
        }),
        TruncateOwner::from_cli(&cli)
    );
}

#[test]
fn test_from_cli_marker_some() {
    let argv = ["lsd", "--truncate-owner-marker", "…"];
    let cli = try_parse_from(&argv).unwrap();
    assert_eq!(
        Some(TruncateOwner {
            after: None,
            marker: Some("…".to_string()),
        }),
        TruncateOwner::from_cli(&cli)
    );
}

#[test]
fn test_truncate_owner_test_from_config_none() {
    assert_eq!(None, TruncateOwner::from_config(&Config::with_none()));
}

#[test]
fn test_from_config_all_fields_none() {
    let mut c = Config::with_none();
    c.truncate_owner = Some(config_file::TruncateOwner {
        after: None,
        marker: None,
    });
    assert_eq!(
        Some(TruncateOwner {
            after: None,
            marker: None,
        }),
        TruncateOwner::from_config(&c)
    );
}

#[test]
fn test_from_config_all_fields_some() {
    let mut c = Config::with_none();
    c.truncate_owner = Some(config_file::TruncateOwner {
        after: Some(1),
        marker: Some(">".to_string()),
    });
    assert_eq!(
        Some(TruncateOwner {
            after: Some(1),
            marker: Some(">".to_string()),
        }),
        TruncateOwner::from_config(&c)
    );
}
