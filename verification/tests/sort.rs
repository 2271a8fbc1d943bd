use rage::args::{RageCommands, RageOptions, RageSortOptions};
use rage::commands::grouping::{group_and_sort, prepare_atoms, Entry, Group, GroupingMode};
use rage::commands::listing::{sort_sources, source_before_or_equal};
use rage::commands::sort::{
    materialize, parse_lines, process_use_directory, process_use_file, render, write_to_file,
    FileAction, SourceFile,
};
use rage::portage::package::{PackageAtom, ParseError};
use rage::portage::version::VersionPattern;

fn atom(line: &str) -> PackageAtom<'_> {
    PackageAtom::try_from(line).unwrap()
}

fn entry<'a>(origin: &'a str, line: &'a str) -> Entry<'a> {
    Entry { origin, atom: atom(line) }
}

fn lines_of(group: &Group) -> Vec<String> {
    group.atoms.iter().map(|a| a.to_string()).collect()
}

fn options(pretend_mode: bool, remove_versions: bool, split: bool) -> RageSortOptions {
    RageSortOptions { pretend_mode, remove_versions, split }
}

#[test]
fn options_hold_what_they_were_given() {
    let opts = RageOptions { command: RageCommands::Sort(options(true, false, true)), verbose: true };
    assert!(opts.verbose);
    let RageCommands::Sort(sort) = opts.command;
    assert!(sort.pretend_mode);
    assert!(!sort.remove_versions);
    assert!(sort.split);
}

#[test]
fn grouping_by_category_gives_one_group_for_each_category() {
    let entries = vec![
        entry("a", "sys-apps/portage doc"),
        entry("a", "dev-libs/openssl asm"),
        entry("b", "sys-apps/coreutils -acl"),
        entry("b", "dev-libs/glib dbus"),
        entry("b", "sys-apps/acl"),
    ];
    let groups = group_and_sort(entries, GroupingMode::ByCategory, false);
    assert_eq!(groups.len(), 2);
    assert_eq!(groups[0].key, "sys-apps");
    assert_eq!(
        lines_of(&groups[0]),
        vec!["sys-apps/acl", "sys-apps/coreutils -acl", "sys-apps/portage doc"]
    );
    assert_eq!(groups[1].key, "dev-libs");
    assert_eq!(lines_of(&groups[1]), vec!["dev-libs/glib dbus", "dev-libs/openssl asm"]);
}

#[test]
fn grouping_by_file_sends_every_atom_back_to_its_file() {
    let entries = vec![
        entry("b", "sys-apps/portage doc"),
        entry("a", "dev-libs/openssl asm"),
        entry("b", "dev-libs/glib dbus"),
    ];
    let groups = group_and_sort(entries, GroupingMode::ByOriginFile, false);
    assert_eq!(groups.len(), 2);
    assert_eq!(groups[0].key, "b");
    assert_eq!(lines_of(&groups[0]), vec!["dev-libs/glib dbus", "sys-apps/portage doc"]);
    assert_eq!(groups[1].key, "a");
    assert_eq!(lines_of(&groups[1]), vec!["dev-libs/openssl asm"]);
}

#[test]
fn grouping_strips_versions_on_request() {
    let entries = vec![entry("a", "sys-apps/portage-3.0.55 doc"), entry("a", "sys-apps/acl-2")];
    let groups = group_and_sort(entries, GroupingMode::ByCategory, true);
    assert_eq!(lines_of(&groups[0]), vec!["sys-apps/acl", "sys-apps/portage doc"]);
    assert_eq!(groups[0].atoms[0].version, None);
    assert_eq!(groups[0].atoms[1].version, None);
}

#[test]
fn grouping_of_nothing_gives_no_group() {
    assert_eq!(group_and_sort(Vec::new(), GroupingMode::ByCategory, false), Vec::<Group>::new());
}

#[test]
fn grouping_neither_drops_nor_repeats_an_atom() {
    let lines = [
        "sys-apps/portage doc",
        "dev-libs/openssl asm",
        "sys-apps/portage doc",
        "x11-libs/gtk-3 X",
        "dev-libs/openssl -asm",
        "sys-apps/portage doc",
        "x11-libs/gtk-3 X",
    ];
    for mode in [GroupingMode::ByCategory, GroupingMode::ByOriginFile] {
        let entries: Vec<Entry> =
            lines.iter().enumerate().map(|(i, l)| entry(if i % 2 == 0 { "even" } else { "odd" }, l)).collect();
        let groups = group_and_sort(entries, mode, false);
        let mut all: Vec<String> = groups.iter().flat_map(|g| lines_of(g)).collect();
        assert_eq!(all.len(), lines.len());
        let mut given: Vec<String> = lines.iter().map(|l| l.to_string()).collect();
        all.sort();
        given.sort();
        assert_eq!(all, given);
    }
}

#[test]
fn grouping_twice_gives_the_same_groups() {
    let lines = ["b/x-1 f", "a/y", "b/x-1 f", "a/y-2 -g", "b/w", "a/y"];
    let make = || -> Vec<Entry> { lines.iter().map(|l| entry("file", l)).collect() };
    for mode in [GroupingMode::ByCategory, GroupingMode::ByOriginFile] {
        let first = group_and_sort(make(), mode, false);
        let second = group_and_sort(make(), mode, false);
        assert_eq!(first, second);
        let first_text: Vec<String> = first.iter().map(|g| render(&g.atoms)).collect();
        let second_text: Vec<String> = second.iter().map(|g| render(&g.atoms)).collect();
        assert_eq!(first_text, second_text);
    }
}

#[test]
fn prepare_atoms_takes_the_versions_off() {
    let atoms = vec![atom("a/b-1 x"), atom("a/c")];
    let kept = prepare_atoms(atoms.clone(), false);
    assert_eq!(kept, atoms);
    let stripped = prepare_atoms(atoms, true);
    assert_eq!(stripped[0].version, None);
    assert_eq!(stripped[0].to_string(), "a/b x");
    assert_eq!(stripped[1].to_string(), "a/c");
}

#[test]
fn render_joins_the_lines_with_line_feeds() {
    assert_eq!(render(&vec![atom("a/b-1 x"), atom("c/d"), atom("e/f -g")]), "a/b-1 x\nc/d\ne/f -g");
    assert_eq!(render(&vec![atom("a/b-1 x")]), "a/b-1 x");
    assert_eq!(render(&Vec::new()), "");
}

#[test]
fn write_to_file_writes_or_shows() {
    let atoms = vec![atom("a/b"), atom("c/d")];
    assert_eq!(
        write_to_file("/etc/portage/package.use", &atoms, false),
        FileAction::Write { destination: "/etc/portage/package.use", content: "a/b\nc/d".to_string() }
    );
    assert_eq!(
        write_to_file("/etc/portage/package.use", &atoms, true),
        FileAction::Preview { destination: "/etc/portage/package.use", content: "a/b\nc/d".to_string() }
    );
}

#[test]
fn materialize_removes_before_it_writes() {
    let groups = vec![
        Group { key: "sys-apps", atoms: vec![atom("sys-apps/acl"), atom("sys-apps/portage")] },
        Group { key: "dev-libs", atoms: vec![atom("dev-libs/glib")] },
    ];
    let plan = materialize(&groups, false, &vec!["one", "sys-apps"]);
    assert_eq!(
        plan,
        vec![
            FileAction::Remove { path: "one" },
            FileAction::Remove { path: "sys-apps" },
            FileAction::Write { destination: "sys-apps", content: "sys-apps/acl\nsys-apps/portage".to_string() },
            FileAction::Write { destination: "dev-libs", content: "dev-libs/glib".to_string() },
        ]
    );
}

#[test]
fn materialize_in_preview_touches_no_file() {
    let groups = vec![
        Group { key: "sys-apps", atoms: vec![atom("sys-apps/acl")] },
        Group { key: "dev-libs", atoms: vec![atom("dev-libs/glib")] },
    ];
    let plan = materialize(&groups, true, &vec!["one", "two"]);
    assert_eq!(
        plan,
        vec![
            FileAction::Preview { destination: "sys-apps", content: "sys-apps/acl".to_string() },
            FileAction::Preview { destination: "dev-libs", content: "dev-libs/glib".to_string() },
        ]
    );
    assert!(plan.iter().all(|action| matches!(action, FileAction::Preview { .. })));
}

#[test]
fn parse_lines_reads_every_line_that_holds_anything() {
    let pattern = VersionPattern::new();
    let atoms = parse_lines(&pattern, "b/c-1 x\n\n  a/b  -y \n").unwrap();
    assert_eq!(atoms, vec![atom("b/c-1 x"), atom("a/b -y")]);
    assert_eq!(parse_lines(&pattern, ""), Ok(Vec::new()));
}

#[test]
fn parse_lines_stops_at_the_first_line_that_is_no_atom() {
    let pattern = VersionPattern::new();
    assert_eq!(
        parse_lines(&pattern, "a/b\nnot an atom\nneither this\n"),
        Err(ParseError::MissingCategorySeparator { line: "not an atom" })
    );
    assert_eq!(parse_lines(&pattern, "a/b\n   \nc"), Err(ParseError::Empty));
}

#[test]
fn process_use_file_sorts_the_file_in_place() {
    let plan = process_use_file(
        &options(false, false, false),
        "/etc/portage/package.use",
        "sys-apps/portage-3.0.55 doc\n\ndev-libs/openssl   asm\n app-misc/jq\n",
    );
    assert_eq!(
        plan,
        Ok(vec![FileAction::Write {
            destination: "/etc/portage/package.use",
            content: "app-misc/jq\ndev-libs/openssl asm\nsys-apps/portage-3.0.55 doc".to_string(),
        }])
    );
}

#[test]
fn process_use_file_shows_and_strips_on_request() {
    let plan = process_use_file(&options(true, true, true), "file", "b/c-2 x\na/b-1\n");
    assert_eq!(
        plan,
        Ok(vec![FileAction::Preview { destination: "file", content: "a/b\nb/c x".to_string() }])
    );
}

#[test]
fn process_use_file_writes_an_empty_file_for_no_atoms() {
    let plan = process_use_file(&options(false, false, false), "file", "\n\n");
    assert_eq!(plan, Ok(vec![FileAction::Write { destination: "file", content: String::new() }]));
}

#[test]
fn process_use_file_does_nothing_for_a_line_that_is_no_atom() {
    let plan = process_use_file(&options(false, false, false), "file", "a/b\nrandom-package x\n");
    assert_eq!(plan, Err(ParseError::MissingCategorySeparator { line: "random-package x" }));
}

#[test]
fn split_gives_one_file_for_each_category() {
    let sources = vec![
        SourceFile { path: "one", content: "sys-apps/portage doc\ndev-libs/openssl asm\nsys-apps/acl\n" },
        SourceFile { path: "two", content: "dev-libs/glib dbus\nsys-apps/coreutils -acl\n" },
    ];
    let plan = process_use_directory(&options(false, false, true), &sources);
    assert_eq!(
        plan,
        Ok(vec![
            FileAction::Remove { path: "one" },
            FileAction::Remove { path: "two" },
            FileAction::Write {
                destination: "sys-apps",
                content: "sys-apps/acl\nsys-apps/coreutils -acl\nsys-apps/portage doc".to_string(),
            },
            FileAction::Write {
                destination: "dev-libs",
                content: "dev-libs/glib dbus\ndev-libs/openssl asm".to_string(),
            },
        ])
    );
}

#[test]
fn directory_without_split_sorts_every_file_in_place() {
    let sources = vec![
        SourceFile { path: "one", content: "sys-apps/portage doc\ndev-libs/openssl asm\n" },
        SourceFile { path: "empty", content: "\n" },
        SourceFile { path: "two", content: "dev-libs/glib-2 dbus\n" },
    ];
    let plan = process_use_directory(&options(false, true, false), &sources);
    assert_eq!(
        plan,
        Ok(vec![
            FileAction::Write {
                destination: "one",
                content: "dev-libs/openssl asm\nsys-apps/portage doc".to_string(),
            },
            FileAction::Write { destination: "two", content: "dev-libs/glib dbus".to_string() },
        ])
    );
}

#[test]
fn directory_in_preview_touches_no_file() {
    let sources = vec![
        SourceFile { path: "one", content: "sys-apps/portage doc\n" },
        SourceFile { path: "two", content: "dev-libs/glib dbus\n" },
    ];
    for split in [false, true] {
        let plan = process_use_directory(&options(true, false, split), &sources).unwrap();
        assert_eq!(plan.len(), 2);
        assert!(plan.iter().all(|action| matches!(action, FileAction::Preview { .. })));
    }
}

#[test]
fn directory_does_nothing_for_a_line_that_is_no_atom() {
    let sources = vec![
        SourceFile { path: "one", content: "sys-apps/portage doc\n" },
        SourceFile { path: "two", content: "dev-libs/glib dbus\nbroken line\nworse\n" },
        SourceFile { path: "zero", content: "   \n" },
    ];
    for split in [false, true] {
        let plan = process_use_directory(&options(false, false, split), &sources);
        assert_eq!(plan, Err(ParseError::MissingCategorySeparator { line: "broken line" }));
    }
}

#[test]
fn directory_reports_the_first_fault_in_the_order_of_the_paths() {
    let sources = vec![
        SourceFile { path: "b", content: "broken line\n" },
        SourceFile { path: "a", content: "cat/\n" },
    ];
    let plan = process_use_directory(&options(false, false, true), &sources);
    assert_eq!(plan, Err(ParseError::MissingName { line: "cat/" }));
}

#[test]
fn directory_plan_is_blind_to_the_order_of_the_listing() {
    let one = SourceFile { path: "one", content: "sys-apps/portage doc\ndev-libs/openssl asm\nsys-apps/acl\n" };
    let two = SourceFile { path: "two", content: "dev-libs/glib dbus\nsys-apps/portage doc\n" };
    let six = SourceFile { path: "six", content: "x11-libs/gtk-3 X\nsys-apps/portage doc\n" };
    let listings = [
        vec![one, two, six],
        vec![one, six, two],
        vec![two, one, six],
        vec![two, six, one],
        vec![six, one, two],
        vec![six, two, one],
    ];
    for pretend in [false, true] {
        for strip in [false, true] {
            for split in [false, true] {
                let opts = options(pretend, strip, split);
                let wanted = process_use_directory(&opts, &listings[0]);
                assert!(wanted.is_ok());
                for listing in &listings {
                    assert_eq!(process_use_directory(&opts, listing), wanted);
                }
            }
        }
    }
}

#[test]
fn split_removes_and_writes_in_the_order_of_the_paths() {
    let sources = vec![
        SourceFile { path: "two", content: "dev-libs/glib dbus\n" },
        SourceFile { path: "one", content: "sys-apps/portage doc\n" },
    ];
    let plan = process_use_directory(&options(false, false, true), &sources);
    assert_eq!(
        plan,
        Ok(vec![
            FileAction::Remove { path: "one" },
            FileAction::Remove { path: "two" },
            FileAction::Write { destination: "sys-apps", content: "sys-apps/portage doc".to_string() },
            FileAction::Write { destination: "dev-libs", content: "dev-libs/glib dbus".to_string() },
        ])
    );
}

#[test]
fn sources_are_ordered_by_path_and_then_by_text() {
    let a = SourceFile { path: "a", content: "z" };
    let ab = SourceFile { path: "ab", content: "" };
    let b1 = SourceFile { path: "b", content: "x" };
    let b2 = SourceFile { path: "b", content: "y" };
    assert_eq!(sort_sources(&vec![b2, ab, b1, a, b1]), vec![a, ab, b1, b1, b2]);
    assert_eq!(sort_sources(&Vec::new()), Vec::<SourceFile>::new());
    assert!(source_before_or_equal(&a, &ab));
    assert!(!source_before_or_equal(&ab, &a));
    assert!(source_before_or_equal(&b1, &b2));
    assert!(!source_before_or_equal(&b2, &b1));
    assert!(source_before_or_equal(&b1, &b1));
}

#[test]
fn directory_of_no_files_needs_nothing() {
    let plan = process_use_directory(&options(false, false, true), &Vec::new());
    assert_eq!(plan, Ok(Vec::new()));
}
