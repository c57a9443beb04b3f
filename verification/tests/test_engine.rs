use kgls::flags::sorting::{DirGrouping, SortColumn, SortOrder, Sorting};
use kgls::flags::{
    Display, Flags, Header, HyperlinkOption, Indicators, Layout, Literal, PermissionFlag,
    Recursion, SizeFlag, SymlinkArrow, TruncateOwner,
};
use kgls::text::{same, word_is};
use kgls::{Cli, Config, Core, Entry, ExitCode, Listing, Meta, Orphan, Run};

fn flags() -> Flags {
    Flags::configure_from(&Cli::default(), &Config::with_none())
}

fn record(path: &str, is_dir: bool) -> Meta {
    let name = match path.rsplit('/').next() {
        Some(last) if !last.is_empty() => last.to_string(),
        _ => path.to_string(),
    };
    Meta {
        path: path.to_string(),
        name,
        is_dir,
        size: None,
        modified: None,
        git_status: None,
        content: if is_dir { Some(Vec::new()) } else { None },
    }
}

fn entry(path: &str, depth: usize, is_dir: bool) -> Entry {
    Entry { depth, meta: record(path, is_dir) }
}

fn names(metas: &[Meta]) -> Vec<String> {
    metas.iter().map(|m| m.name.clone()).collect()
}

#[test]
fn test_default_flags() {
    let f = flags();
    assert_eq!(f.display, Display::VisibleOnly);
    assert_eq!(f.header, Header(false));
    assert_eq!(f.hyperlink, HyperlinkOption::Never);
    assert_eq!(f.indicators, Indicators(false));
    assert_eq!(f.layout, Layout::Grid);
    assert_eq!(f.literal, Literal(false));
    assert_eq!(f.permission, PermissionFlag::Rwx);
    assert_eq!(f.recursion, Recursion { enabled: false, depth: usize::MAX });
    assert_eq!(f.size, SizeFlag::Default);
    assert_eq!(
        f.sorting,
        Sorting {
            column: SortColumn::Name,
            order: SortOrder::Default,
            dir_grouping: DirGrouping::Ungrouped
        }
    );
    assert_eq!(f.symlink_arrow, SymlinkArrow("\u{21d2}".to_string()));
    assert_eq!(f.truncate_owner, TruncateOwner { after: None, marker: None });
    assert_eq!(f.sorting, Sorting::default());
    assert_eq!(f.recursion, Recursion::default());
}

#[test]
fn test_command_line_beats_configuration() {
    let mut cli = Cli::default();
    cli.tree = true;
    cli.reverse = true;
    cli.size = Some("short".to_string());
    let mut config = Config::builtin();
    config.layout = Some(Layout::OneLine);
    config.size = Some(SizeFlag::Bytes);
    config.display = Some(Display::All);
    assert!(cli.is_well_formed());
    let f = Flags::configure_from(&cli, &config);
    assert_eq!(f.layout, Layout::Tree);
    assert_eq!(f.sorting.order, SortOrder::Reverse);
    assert_eq!(f.size, SizeFlag::Short);
    assert_eq!(f.display, Display::All);
    assert_eq!(f.sorting.column, SortColumn::Name);
}

#[test]
fn test_well_formed_command_line() {
    let mut cli = Cli::default();
    assert!(cli.is_well_formed());
    cli.group_dirs = Some("last".to_string());
    cli.hyperlink = Some("auto".to_string());
    cli.permission = Some("octal".to_string());
    cli.size = Some("bytes".to_string());
    assert!(cli.is_well_formed());
    cli.size = Some("huge".to_string());
    assert!(!cli.is_well_formed());
    cli.size = None;
    cli.group_dirs = Some("middle".to_string());
    assert!(!cli.is_well_formed());
    cli.group_dirs = None;
    cli.permission = Some("".to_string());
    assert!(!cli.is_well_formed());
    cli.permission = None;
    cli.hyperlink = Some("Always".to_string());
    assert!(!cli.is_well_formed());
}

#[test]
fn test_words_of_arguments() {
    assert_eq!(DirGrouping::from_arg_str("first"), DirGrouping::First);
    assert_eq!(DirGrouping::from_arg_str("last"), DirGrouping::Last);
    assert_eq!(DirGrouping::from_arg_str("none"), DirGrouping::Ungrouped);
    assert_eq!(SizeFlag::from_arg_str("default"), SizeFlag::Default);
    assert_eq!(SizeFlag::from_arg_str("short"), SizeFlag::Short);
    assert_eq!(SizeFlag::from_arg_str("bytes"), SizeFlag::Bytes);
    assert_eq!(PermissionFlag::from_arg_str("rwx"), PermissionFlag::Rwx);
    assert_eq!(PermissionFlag::from_arg_str("octal"), PermissionFlag::Octal);
    assert_eq!(PermissionFlag::from_arg_str("attributes"), PermissionFlag::Attributes);
    assert_eq!(PermissionFlag::from_arg_str("disable"), PermissionFlag::Disable);
    assert_eq!(HyperlinkOption::from_arg_str("always"), HyperlinkOption::Always);
    assert_eq!(HyperlinkOption::from_arg_str("auto"), HyperlinkOption::Auto);
    assert_eq!(HyperlinkOption::from_arg_str("never"), HyperlinkOption::Never);
    assert!(DirGrouping::accepts("none"));
    assert!(!DirGrouping::accepts("bad value"));
    assert!(!SizeFlag::accepts("Default"));
    assert!(!PermissionFlag::accepts("rw"));
    assert!(!HyperlinkOption::accepts(""));
}

#[test]
fn test_core_on_a_terminal_keeps_the_flags() {
    let mut f = flags();
    f.hyperlink = HyperlinkOption::Auto;
    let core = Core::new(f.clone(), true);
    assert_eq!(core.flags.hyperlink, HyperlinkOption::Always);
    assert_eq!(core.flags.layout, Layout::Grid);
    assert_eq!(core.flags.literal, Literal(false));
    assert_eq!(core.flags.sorting, f.sorting);
}

#[test]
fn test_core_without_a_terminal() {
    let mut f = flags();
    f.hyperlink = HyperlinkOption::Auto;
    let core = Core::new(f.clone(), false);
    assert_eq!(core.flags.hyperlink, HyperlinkOption::Never);
    assert_eq!(core.flags.layout, Layout::OneLine);
    assert_eq!(core.flags.literal, Literal(true));
    f.layout = Layout::Tree;
    f.hyperlink = HyperlinkOption::Always;
    let tree = Core::new(f, false);
    assert_eq!(tree.flags.layout, Layout::Tree);
    assert_eq!(tree.flags.hyperlink, HyperlinkOption::Always);
    assert_eq!(tree.flags.literal, Literal(true));
}

#[test]
fn test_depth_bound() {
    let mut f = flags();
    f.recursion = Recursion { enabled: false, depth: 7 };
    assert_eq!(Core::new(f.clone(), true).depth(), 1);
    f.recursion.enabled = true;
    assert_eq!(Core::new(f.clone(), true).depth(), 7);
    f.recursion.enabled = false;
    f.layout = Layout::Tree;
    assert_eq!(Core::new(f.clone(), true).depth(), 7);
    f.recursion.depth = usize::MAX;
    assert_eq!(Core::new(f.clone(), true).depth(), usize::MAX);
    f.layout = Layout::OneLine;
    assert_eq!(Core::new(f, true).depth(), 1);
}

#[test]
fn test_missing_roots_are_minor_issues() {
    let mut run = Run::new();
    assert_eq!(run.exit_code, ExitCode::OK);
    assert!(!run.has_roots());
    assert!(!run.add_root("/missing".to_string(), false));
    assert_eq!(run.exit_code, ExitCode::MinorIssue);
    assert!(!run.has_roots());
    assert!(run.add_root("/tmp/x".to_string(), true));
    assert!(run.has_roots());
    assert_eq!(run.roots, vec!["/tmp/x".to_string()]);
    assert_eq!(run.exit_code, ExitCode::MinorIssue);
}

#[test]
fn test_run_without_roots_shows_nothing() {
    let mut run = Run::new();
    run.add_root("/a".to_string(), false);
    run.add_root("/b".to_string(), false);
    let core = Core::new(flags(), true);
    assert_eq!(core.arrange(run), (Listing::Nothing, ExitCode::MinorIssue));
    assert_eq!(core.arrange(Run::new()), (Listing::Nothing, ExitCode::OK));
}

#[test]
fn test_failures_are_handed_back_and_the_run_goes_on() {
    let mut run = Run::new();
    run.add_root("/r".to_string(), true);
    assert_eq!(run.accept(Ok(entry("/r/a", 1, false))), None);
    assert_eq!(run.exit_code, ExitCode::OK);
    assert_eq!(run.accept(Err("permission denied".to_string())), Some("permission denied".to_string()));
    assert_eq!(run.exit_code, ExitCode::MinorIssue);
    assert_eq!(run.accept(Ok(entry("/r/b", 1, false))), None);
    assert_eq!(run.entries.len(), 2);
    assert_eq!(run.exit_code, ExitCode::MinorIssue);
    run.exit_code = ExitCode::MajorIssue;
    run.accept(Err("again".to_string()));
    assert_eq!(run.exit_code, ExitCode::MajorIssue);
}

#[test]
fn test_tree_of_a_directory_with_a_directory_and_a_file() {
    let mut f = flags();
    f.layout = Layout::Tree;
    f.sorting.dir_grouping = DirGrouping::First;
    f.sorting.column = SortColumn::Name;
    let core = Core::new(f, true);
    assert_eq!(core.depth(), usize::MAX);
    let mut run = Run::new();
    assert!(run.add_root("/tmp/x".to_string(), true));
    run.accept(Ok(entry("/tmp/x", 0, true)));
    run.accept(Ok(entry("/tmp/x/file1", 1, false)));
    run.accept(Ok(entry("/tmp/x/dir1", 1, true)));
    let (listing, code) = core.arrange(run);
    assert_eq!(code, ExitCode::OK);
    match listing {
        Listing::Tree { roots, orphans } => {
            assert!(orphans.is_empty());
            assert_eq!(names(&roots), vec!["x"]);
            let below = roots[0].content.as_ref().unwrap();
            assert_eq!(names(below), vec!["dir1", "file1"]);
            assert_eq!(below[0].content, Some(Vec::new()));
            assert_eq!(below[1].content, None);
        }
        other => panic!("no tree: {:?}", other),
    }
}

#[test]
fn test_tree_with_a_filtered_directory_keeps_the_leaf() {
    let mut f = flags();
    f.layout = Layout::Tree;
    let core = Core::new(f, true);
    let mut run = Run::new();
    run.add_root("/tmp/x".to_string(), true);
    run.accept(Ok(entry("/tmp/x", 0, true)));
    run.accept(Ok(entry("/tmp/x/sub/leaf.txt", 2, false)));
    let (listing, code) = core.arrange(run);
    assert_eq!(code, ExitCode::OK);
    match listing {
        Listing::Tree { roots, orphans } => {
            assert_eq!(names(&roots), vec!["leaf.txt", "x"]);
            assert_eq!(
                orphans,
                vec![Orphan {
                    path: "/tmp/x/sub/leaf.txt".to_string(),
                    parent: "/tmp/x/sub".to_string()
                }]
            );
        }
        other => panic!("no tree: {:?}", other),
    }
}

#[test]
fn test_flat_listing_is_one_sorted_level() {
    let core = Core::new(flags(), true);
    let mut run = Run::new();
    run.add_root("/r".to_string(), true);
    run.add_root("/nowhere".to_string(), false);
    run.accept(Ok(entry("/r/b", 1, false)));
    run.accept(Ok(entry("/r/C", 1, true)));
    run.accept(Err("unreadable".to_string()));
    run.accept(Ok(entry("/r/a", 1, false)));
    let (listing, code) = core.arrange(run);
    assert_eq!(code, ExitCode::MinorIssue);
    match listing {
        Listing::Flat(metas) => {
            assert_eq!(names(&metas), vec!["a", "b", "C"]);
            assert_eq!(metas[2].content, Some(Vec::new()));
        }
        other => panic!("no flat listing: {:?}", other),
    }
}

#[test]
fn test_core_sort_in_place() {
    let core = Core::new(flags(), true);
    let mut top = record("/r/top", true);
    top.content = Some(vec![record("/r/top/z", false), record("/r/top/y", false)]);
    let mut metas = vec![top, record("/r/a", false)];
    core.sort(&mut metas);
    assert_eq!(names(&metas), vec!["a", "top"]);
    assert_eq!(names(metas[1].content.as_ref().unwrap()), vec!["y", "z"]);
}

#[test]
fn test_severity_is_the_maximum_of_all_updates() {
    let levels = [ExitCode::OK, ExitCode::MinorIssue, ExitCode::MajorIssue];
    for a in levels {
        for b in levels {
            for c in levels {
                let mut code = ExitCode::OK;
                let mut highest = 0;
                for update in [a, b, c] {
                    let before = i32::from(code);
                    code.set_if_greater(update);
                    assert!(i32::from(code) >= before);
                    highest = highest.max(i32::from(update));
                    assert_eq!(i32::from(code), highest);
                }
            }
        }
    }
    assert_eq!(ExitCode::MajorIssue.as_i32(), 2);
}

#[test]
fn test_symlink_arrow_to_string() {
    assert_eq!(SymlinkArrow("->".to_string()).to_string(), "->");
}

#[test]
fn test_tree_does_not_depend_on_arrival_order() {
    let mut f = flags();
    f.layout = Layout::Tree;
    f.sorting.dir_grouping = DirGrouping::First;
    let core = Core::new(f, true);
    let found = vec![
        entry("/r", 0, true),
        entry("/r/b", 1, true),
        entry("/r/a.txt", 1, false),
        entry("/r/b/z", 2, false),
        entry("/r/b/y", 2, true),
        entry("/r/b/y/deep", 3, false),
        entry("/r/c", 1, true),
        entry("/lost/and/found", 3, false),
    ];
    let mut expected = None;
    let mut seed: u32 = 1;
    for _ in 0..20 {
        let mut order = found.clone();
        for i in (1..order.len()).rev() {
            seed = seed.wrapping_mul(1103515245).wrapping_add(12345);
            order.swap(i, ((seed >> 16) as usize) % (i + 1));
        }
        let mut run = Run::new();
        run.add_root("/r".to_string(), true);
        for e in order {
            run.accept(Ok(e));
        }
        let (listing, code) = core.arrange(run);
        assert_eq!(code, ExitCode::OK);
        match &listing {
            Listing::Tree { roots, orphans } => {
                assert_eq!(names(roots), vec!["r", "found"]);
                assert_eq!(
                    orphans,
                    &vec![Orphan {
                        path: "/lost/and/found".to_string(),
                        parent: "/lost/and".to_string()
                    }]
                );
                let below = roots[0].content.as_ref().unwrap();
                assert_eq!(names(below), vec!["b", "c", "a.txt"]);
                assert_eq!(names(below[0].content.as_ref().unwrap()), vec!["y", "z"]);
            }
            other => panic!("no tree: {:?}", other),
        }
        match &expected {
            None => expected = Some(listing),
            Some(first) => assert_eq!(first, &listing),
        }
    }
}

#[test]
fn test_words_are_compared_exactly() {
    assert!(same("", ""));
    assert!(same("time", "time"));
    assert!(!same("time", "Time"));
    assert!(!same("time", "times"));
    assert!(same("\u{21d2}", "\u{21d2}"));
    assert!(word_is(&Some("size".to_string()), "size"));
    assert!(!word_is(&Some("size".to_string()), "time"));
    assert!(!word_is(&None, ""));
}

#[test]
fn test_builtin_configuration() {
    let config = Config::builtin();
    assert_eq!(config.classic, Some(false));
    assert_eq!(config.display, None);
    assert_eq!(config.layout, Some(Layout::Grid));
    assert_eq!(config.size, Some(SizeFlag::Default));
    assert_eq!(config.symlink_arrow, Some("\u{21d2}".to_string()));
    assert_ne!(config, Config::with_none());
    let f = Flags::configure_from(&Cli::default(), &config);
    assert_eq!(f, flags());
}

#[test]
fn test_a_root_inside_another_root_hangs_under_it() {
    let mut f = flags();
    f.layout = Layout::Tree;
    let core = Core::new(f, true);
    let found = vec![
        entry("/a", 0, true),
        entry("/a/x", 1, false),
        entry("/a/b", 0, true),
        entry("/a/b/y", 1, false),
    ];
    for turn in 0..4 {
        let mut order = found.clone();
        order.rotate_left(turn);
        let mut run = Run::new();
        run.add_root("/a".to_string(), true);
        run.add_root("/a/b".to_string(), true);
        for e in order {
            run.accept(Ok(e));
        }
        match core.arrange(run) {
            (Listing::Tree { roots, orphans }, ExitCode::OK) => {
                assert!(orphans.is_empty());
                assert_eq!(names(&roots), vec!["a"]);
                let below = roots[0].content.as_ref().unwrap();
                assert_eq!(names(below), vec!["b", "x"]);
                assert_eq!(names(below[0].content.as_ref().unwrap()), vec!["y"]);
            }
            other => panic!("no tree: {:?}", other),
        }
    }
}
