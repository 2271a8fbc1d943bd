use rage::portage::order::{sort_atoms, text_before_or_equal};
use rage::portage::package::{
    PackageAtom, ParseError, UseFlag, PORTAGE_CONFIGDIR, PORTAGE_PACKAGE_USE,
};
use rage::portage::syntax::{
    chars_of, is_ascii_digit, is_separator, is_token_break, is_white_space, same_text, split_lines,
    split_once, split_runs, split_tokens, trim, Separator,
};
use rage::portage::version::{VersionPattern, VERSION_DELIMITER};

#[test]
fn parse_package_atom_normal() {
    let Ok(atom) = PackageAtom::try_from("sys-apps/portage-3.0.55 doc") else {
        panic!("Unable to parse correct package atom");
    };
    assert_eq!(atom.category, "sys-apps");
    assert_eq!(atom.name, "portage");
    assert_eq!(atom.version.unwrap(), "3.0.55");
    assert_eq!(
        atom.flags.first().unwrap().to_string(),
        UseFlag::from("doc").to_string()
    );
}

#[test]
fn parse_package_atom_whitespace() {
    assert!(PackageAtom::try_from("\t\t    sys-apps/portage-3.0.55  \t  doc").is_ok());
}

#[test]
fn parse_package_atom_invalid() {
    assert!(PackageAtom::try_from("random-package some flags here").is_err());
}

#[test]
fn parse_gives_every_part_of_the_line() {
    let atom = PackageAtom::try_from("sys-apps/portage-3.0.55 doc").unwrap();
    assert_eq!(
        atom,
        PackageAtom {
            name: "portage",
            category: "sys-apps",
            version: Some("3.0.55"),
            flags: vec![UseFlag { name: "doc", enabled: true }],
        }
    );
}

#[test]
fn parse_is_blind_to_the_white_space_of_the_line() {
    let plain = PackageAtom::try_from("sys-apps/portage-3.0.55 doc").unwrap();
    let padded = PackageAtom::try_from("\t\t    sys-apps/portage-3.0.55  \t  doc").unwrap();
    assert_eq!(padded, plain);
}

#[test]
fn parse_reports_the_trimmed_line() {
    let parsed = PackageAtom::try_from("  random-package some flags here ");
    assert_eq!(
        parsed,
        Err(ParseError::MissingCategorySeparator { line: "random-package some flags here" })
    );
}

#[test]
fn parse_reports_a_line_without_tokens() {
    assert_eq!(PackageAtom::try_from("   \t "), Err(ParseError::Empty));
    assert_eq!(PackageAtom::try_from(""), Err(ParseError::Empty));
}

#[test]
fn parse_with_a_compiled_pattern_agrees_with_try_from() {
    let pattern = VersionPattern::new();
    let line = "dev-libs/openssl-3.1.4-r2 -bindist asm";
    assert_eq!(PackageAtom::parse(&pattern, line), PackageAtom::try_from(line));
}

#[test]
fn error_message_names_the_line() {
    let error = PackageAtom::try_from(" random-package some flags here").unwrap_err();
    assert_eq!(error.message(), "Invalid package atom: random-package some flags here");
    assert_eq!(ParseError::Empty.message(), "Invalid package atom: ");
    let error = PackageAtom::try_from(" /foo x").unwrap_err();
    assert_eq!(error.message(), "Invalid package atom: /foo x");
    let error = PackageAtom::try_from("cat/-1").unwrap_err();
    assert_eq!(error.message(), "Invalid package atom: cat/-1");
}

#[test]
fn version_starts_at_the_first_hyphen_with_a_digit_behind_it() {
    let atom = PackageAtom::try_from("x11-libs/gtk-plus-3.24.38-r1").unwrap();
    assert_eq!(atom.name, "gtk-plus");
    assert_eq!(atom.version, Some("3.24.38-r1"));
    assert!(atom.flags.is_empty());
}

#[test]
fn atom_without_a_version_keeps_the_whole_name() {
    let atom = PackageAtom::try_from("media-video/ffmpeg-compat x264 -x265").unwrap();
    assert_eq!(atom.name, "ffmpeg-compat");
    assert_eq!(atom.version, None);
}

#[test]
fn hyphen_at_the_end_of_the_name_is_no_version() {
    let atom = PackageAtom::try_from("a/b-").unwrap();
    assert_eq!(atom.name, "b-");
    assert_eq!(atom.version, None);
}

#[test]
fn name_must_not_be_empty() {
    assert_eq!(PackageAtom::try_from("a/-1"), Err(ParseError::MissingName { line: "a/-1" }));
    assert_eq!(
        PackageAtom::try_from("  cat/-1 doc "),
        Err(ParseError::MissingName { line: "cat/-1 doc" })
    );
}

#[test]
fn only_the_digits_zero_to_nine_start_a_version() {
    let atom = PackageAtom::try_from("a/b-\u{663}").unwrap();
    assert_eq!(atom.name, "b-\u{663}");
    assert_eq!(atom.version, None);
}

#[test]
fn category_ends_at_the_first_slash() {
    let atom = PackageAtom::try_from("a/b/c-1").unwrap();
    assert_eq!(atom.category, "a");
    assert_eq!(atom.name, "b/c");
    assert_eq!(atom.version, Some("1"));
}

#[test]
fn category_must_not_be_empty() {
    assert_eq!(PackageAtom::try_from("/"), Err(ParseError::MissingCategory { line: "/" }));
    assert_eq!(PackageAtom::try_from("/foo"), Err(ParseError::MissingCategory { line: "/foo" }));
    assert_eq!(PackageAtom::try_from("/-1"), Err(ParseError::MissingCategory { line: "/-1" }));
    assert_eq!(PackageAtom::try_from("cat/"), Err(ParseError::MissingName { line: "cat/" }));
    assert_eq!(
        PackageAtom::try_from("cat/ doc"),
        Err(ParseError::MissingName { line: "cat/ doc" })
    );
}

#[test]
fn atom_has_a_category_and_a_name() {
    let lines = ["a/b", "a/b-1", "a/-", "a/--1", "a//", "a/b/-1 x"];
    for line in lines {
        let atom = PackageAtom::try_from(line).unwrap();
        assert!(!atom.category.is_empty());
        assert!(!atom.name.is_empty());
        assert!(!atom.category.contains('/'));
        assert_ne!(atom.version, Some(""));
    }
}

#[test]
fn name_may_hold_characters_beyond_ascii() {
    let atom = PackageAtom::try_from("app-i18n/f\u{fc}r-\u{e9}t\u{e9}-2.0 \u{3b1}").unwrap();
    assert_eq!(atom.name, "f\u{fc}r-\u{e9}t\u{e9}");
    assert_eq!(atom.version, Some("2.0"));
    assert_eq!(atom.flags[0].name, "\u{3b1}");
}

#[test]
fn flags_keep_their_order_and_their_sign() {
    let atom = PackageAtom::try_from("net-misc/curl -ssl http2 -ldap").unwrap();
    assert_eq!(
        atom.flags,
        vec![
            UseFlag { name: "-ssl", enabled: false },
            UseFlag { name: "http2", enabled: true },
            UseFlag { name: "-ldap", enabled: false },
        ]
    );
    assert_eq!(atom.to_string(), "net-misc/curl -ssl http2 -ldap");
}

#[test]
fn flag_is_switched_off_by_a_leading_hyphen_only() {
    assert!(UseFlag::from("doc").enabled);
    assert!(!UseFlag::from("-doc").enabled);
    assert!(UseFlag::from("do-c").enabled);
    assert!(UseFlag::from("").enabled);
    assert!(!UseFlag::from("-").enabled);
}

#[test]
fn slices_convert_into_flags_and_atoms() {
    let flag: UseFlag = "-doc".into();
    assert_eq!(flag, UseFlag { name: "-doc", enabled: false });
    let atom: PackageAtom = "sys-apps/portage-3.0.55 doc".try_into().unwrap();
    assert_eq!(atom, PackageAtom::try_from("sys-apps/portage-3.0.55 doc").unwrap());
    let parsed: Result<PackageAtom, ParseError> = "random-package".try_into();
    assert_eq!(parsed, Err(ParseError::MissingCategorySeparator { line: "random-package" }));
}

#[test]
fn flag_keeps_its_token_as_it_is() {
    assert_eq!(UseFlag::from("-doc").name, "-doc");
    assert_eq!(UseFlag::from("-doc").to_string(), "-doc");
    assert_eq!(UseFlag::from("doc\u{a0}").name, "doc\u{a0}");
}

#[test]
fn to_string_writes_the_line_of_the_atom() {
    let atom = PackageAtom {
        name: "portage",
        category: "sys-apps",
        version: Some("3.0.55"),
        flags: vec![UseFlag::from("doc"), UseFlag::from("-ipc")],
    };
    assert_eq!(atom.to_string(), "sys-apps/portage-3.0.55 doc -ipc");
    let bare = PackageAtom { name: "portage", category: "sys-apps", version: None, flags: vec![] };
    assert_eq!(bare.to_string(), "sys-apps/portage");
}

#[test]
fn written_line_reads_back_as_the_same_atom() {
    let lines = [
        "sys-apps/portage-3.0.55 doc",
        "\t sys-apps/portage-3.0.55 \t doc  -ipc\r",
        "dev-libs/openssl",
        "x11-libs/gtk-plus-3.24.38-r1 wayland -X",
        "a/-",
        "a//-1",
        "a/b/c-1 \u{a0}",
        "\u{a0}\u{3000}app-i18n/f\u{fc}r-2 \u{3b1}\u{a0}x\u{2028}",
    ];
    for line in lines {
        let atom = PackageAtom::try_from(line).unwrap();
        let written = atom.to_string();
        assert_eq!(PackageAtom::try_from(written.as_str()), Ok(atom.clone()));
        assert_eq!(split_tokens(written.as_str()), split_tokens(trim(line)));
        assert_eq!(trim(written.as_str()), written);
    }
}

#[test]
fn written_line_has_single_spaces_between_the_tokens() {
    let atom = PackageAtom::try_from("  a/b-1 \t x \n -y  ").unwrap();
    assert_eq!(atom.to_string(), "a/b-1 x -y");
}

#[test]
fn trim_cuts_both_ends() {
    assert_eq!(trim("\t\t  a b \u{a0}"), "a b");
    assert_eq!(trim("a"), "a");
    assert_eq!(trim(""), "");
    assert_eq!(trim(" \u{2003}\u{85}"), "");
    assert_eq!(trim("\u{b}a\u{c}"), "a");
}

#[test]
fn trim_agrees_with_the_standard_library() {
    let mut code: u32 = 0;
    while code < 0x3100 {
        if let Some(c) = char::from_u32(code) {
            assert_eq!(is_white_space(c), c.is_whitespace());
            assert_eq!(is_token_break(c), c.is_ascii_whitespace());
            assert_eq!(is_ascii_digit(c), c.is_ascii_digit());
        }
        code += 1;
    }
}

#[test]
fn separators_are_told_apart() {
    assert!(is_separator(Separator::Blank, ' '));
    assert!(is_separator(Separator::Blank, '\n'));
    assert!(!is_separator(Separator::Blank, '\u{a0}'));
    assert!(!is_separator(Separator::Blank, '\u{b}'));
    assert!(is_separator(Separator::LineFeed, '\n'));
    assert!(!is_separator(Separator::LineFeed, ' '));
    assert!(!is_separator(Separator::LineFeed, '\r'));
}

#[test]
fn split_tokens_skips_runs_of_breaks() {
    assert_eq!(split_tokens("a \t b\n"), vec!["a", "b"]);
    assert_eq!(split_tokens("  "), Vec::<&str>::new());
    assert_eq!(split_tokens(""), Vec::<&str>::new());
    assert_eq!(split_tokens("a\u{a0}b c"), vec!["a\u{a0}b", "c"]);
    assert_eq!(split_tokens("one"), vec!["one"]);
}

#[test]
fn split_lines_passes_over_empty_lines() {
    assert_eq!(split_lines("a b\n\nc\n"), vec!["a b", "c"]);
    assert_eq!(split_lines("\n\n"), Vec::<&str>::new());
    assert_eq!(split_lines("a\r\n b "), vec!["a\r", " b "]);
    assert_eq!(split_runs("a\nb c", Separator::LineFeed), vec!["a", "b c"]);
    assert_eq!(split_runs("a\nb c", Separator::Blank), vec!["a", "b", "c"]);
}

#[test]
fn split_once_cuts_at_the_first_mark() {
    assert_eq!(split_once("a/b/c", '/'), Some(("a", "b/c")));
    assert_eq!(split_once("/", '/'), Some(("", "")));
    assert_eq!(split_once("\u{e9}/\u{e8}", '/'), Some(("\u{e9}", "\u{e8}")));
    assert_eq!(split_once("abc", '/'), None);
    assert_eq!(split_once("", '/'), None);
}

#[test]
fn same_text_compares_character_by_character() {
    assert!(same_text("sys-apps", "sys-apps"));
    assert!(same_text("", ""));
    assert!(!same_text("sys-apps", "sys-app"));
    assert!(!same_text("sys-apps", "sys-appz"));
    assert!(!same_text("\u{e9}", "e"));
}

#[test]
fn chars_of_lists_the_characters() {
    assert_eq!(chars_of("a\u{e9}/"), vec!['a', '\u{e9}', '/']);
    assert_eq!(chars_of(""), Vec::<char>::new());
}

#[test]
fn split_version_cuts_in_front_of_the_delimiter() {
    let pattern = VersionPattern::new();
    assert_eq!(pattern.split_version("portage-3.0.55"), ("portage", Some("3.0.55")));
    assert_eq!(pattern.split_version("gtk-plus-3-r1"), ("gtk-plus", Some("3-r1")));
    assert_eq!(pattern.split_version("portage"), ("portage", None));
    assert_eq!(pattern.split_version("-9"), ("", Some("9")));
    assert_eq!(pattern.split_version("\u{e9}t\u{e9}-9\u{e9}"), ("\u{e9}t\u{e9}", Some("9\u{e9}")));
    assert_eq!(pattern.split_version(""), ("", None));
}

#[test]
fn constants_name_the_use_files() {
    assert_eq!(PORTAGE_CONFIGDIR, "/etc/portage");
    assert_eq!(PORTAGE_PACKAGE_USE, "package.use");
    assert_eq!(VERSION_DELIMITER, "-[0-9]");
}

#[test]
fn texts_are_ordered_by_their_first_difference() {
    let le = |a: &str, b: &str| text_before_or_equal(&chars_of(a), &chars_of(b));
    assert!(le("", ""));
    assert!(le("", "a"));
    assert!(!le("a", ""));
    assert!(le("a", "ab"));
    assert!(!le("ab", "a"));
    assert!(le("ab", "b"));
    assert!(le("B", "a"));
    assert!(!le("a", "B"));
    assert!(le("a/b", "a/b"));
    assert!(le("z", "\u{e9}"));
    assert!(le("\u{e9}", "\u{1f600}"));
    assert!(!le("\u{1f600}", "\u{ffee}"));
}

#[test]
fn text_order_agrees_with_the_order_of_strings() {
    let samples = ["", "a", "ab", "b", "B", "a/b-1", "a/b", "\u{e9}", "\u{ffee}", "\u{1f600}", "a "];
    for a in samples {
        for b in samples {
            assert_eq!(text_before_or_equal(&chars_of(a), &chars_of(b)), a <= b);
        }
    }
}

#[test]
fn sort_orders_atoms_by_their_lines() {
    let lines = ["sys-apps/portage doc", "dev-libs/openssl-3 asm", "dev-libs/openssl -asm", "app/z"];
    let atoms: Vec<PackageAtom> = lines.iter().map(|l| PackageAtom::try_from(*l).unwrap()).collect();
    let sorted: Vec<String> = sort_atoms(atoms).iter().map(|a| a.to_string()).collect();
    assert_eq!(
        sorted,
        vec!["app/z", "dev-libs/openssl -asm", "dev-libs/openssl-3 asm", "sys-apps/portage doc"]
    );
}

#[test]
fn sort_keeps_atoms_with_the_same_line_in_their_order() {
    let joined = PackageAtom { name: "b-1", category: "a", version: None, flags: vec![] };
    let parted = PackageAtom { name: "b", category: "a", version: Some("1"), flags: vec![] };
    let first = PackageAtom { name: "a", category: "a", version: None, flags: vec![] };
    assert_eq!(joined.to_string(), parted.to_string());
    let sorted = sort_atoms(vec![joined.clone(), first.clone(), parted.clone(), joined.clone()]);
    assert_eq!(sorted, vec![first.clone(), joined.clone(), parted.clone(), joined.clone()]);
    let sorted = sort_atoms(vec![parted.clone(), joined.clone(), first.clone()]);
    assert_eq!(sorted, vec![first, parted, joined]);
}

#[test]
fn sort_of_nothing_is_nothing() {
    assert_eq!(sort_atoms(Vec::new()), Vec::<PackageAtom>::new());
}
