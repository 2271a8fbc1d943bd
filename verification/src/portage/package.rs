//! Package atoms: what a line of `package.use` says, how it is read and how
//! it is written back.
use crate::portage::roundtrip::lemma_parsed_is_well_formed;
use crate::portage::syntax::{
    ascii_digit, split_once, split_tokens, texts, tokens, trim, trimmed, unbroken, white_space,
    Separator,
};
use crate::portage::version::{
    delimiter_at, name_part, option_text, version_part, VersionPattern,
};
use vstd::prelude::*;
use vstd::std_specs::convert::{FromSpecImpl, TryFromSpecImpl};
use vstd::string::*;

verus! {

/// The directory that holds Portage's configuration.
pub const PORTAGE_CONFIGDIR: &'static str = "/etc/portage";

/// The file or directory, inside the configuration directory, that holds the
/// USE flags of single packages.
pub const PORTAGE_PACKAGE_USE: &'static str = "package.use";

/// What a USE flag says: its token, and whether the token switches the flag
/// on.
pub struct FlagView {
    pub name: Seq<char>,
    pub enabled: bool,
}

impl FlagView {
    /// The flag that `token` stands for. The token is kept as it is, with its
    /// sign; a hyphen at its start switches the flag off.
    pub open spec fn of(token: Seq<char>) -> FlagView {
        FlagView { name: token, enabled: !(token.len() > 0 && token.first() == '-') }
    }
}

/// What a package atom says: the package, its version where one is given, and
/// the flags in the order of the line.
pub struct AtomView {
    pub name: Seq<char>,
    pub category: Seq<char>,
    pub version: Option<Seq<char>>,
    pub flags: Seq<FlagView>,
}

/// The flags of a line as they are written behind the package: each token
/// with a space in front of it.
pub open spec fn flags_text(flags: Seq<FlagView>) -> Seq<char>
    decreases flags.len(),
{
    if flags.len() == 0 {
        Seq::empty()
    } else {
        seq![' '] + flags.first().name + flags_text(flags.drop_first())
    }
}

/// The version as it is written behind the name: with a hyphen in front of
/// it, or nothing where there is no version.
pub open spec fn version_text(version: Option<Seq<char>>) -> Seq<char> {
    match version {
        Some(v) => seq!['-'] + v,
        None => Seq::empty(),
    }
}

/// The flags behind one more flag are written as the flags before, then a
/// space and the token of the last.
pub proof fn lemma_flags_text_push(flags: Seq<FlagView>, flag: FlagView)
    ensures
        flags_text(flags.push(flag)) == flags_text(flags) + seq![' '] + flag.name,
    decreases flags.len(),
{
    if flags.len() == 0 {
        assert(flags_text(flags.push(flag).drop_first()) =~= Seq::<char>::empty());
    } else {
        lemma_flags_text_push(flags.drop_first(), flag);
        assert(flags.push(flag).drop_first() =~= flags.drop_first().push(flag));
    }
}

impl AtomView {
    /// The line that Portage reads for this atom:
    /// `category/name`, `-version` where there is one, and ` flag` for each
    /// flag.
    pub open spec fn text(self) -> Seq<char> {
        self.category + seq!['/'] + self.name + version_text(self.version) + flags_text(
            self.flags,
        )
    }
}

/// Whether `text` can stand in a line as one token: it holds a character, and
/// none that separates tokens.
pub open spec fn is_token(text: Seq<char>) -> bool {
    text.len() > 0 && unbroken(text, Separator::Blank)
}

/// The first token of the line of an atom: the package with its version.
pub open spec fn package_text(atom: AtomView) -> Seq<char> {
    atom.category + seq!['/'] + atom.name + version_text(atom.version)
}

/// The tokens of the flags.
pub open spec fn flag_names(flags: Seq<FlagView>) -> Seq<Seq<char>> {
    flags.map_values(|flag: FlagView| flag.name)
}

/// Whether the atom is one that a line can say. The category and the name
/// hold at least one character each, the category holds no `/`, the name
/// holds no hyphen with a digit behind it, the version starts with a digit,
/// every flag is a token of its own and is switched as its token says, no
/// part holds a character that separates tokens, and the line neither starts
/// nor ends with white space.
pub open spec fn well_formed(atom: AtomView) -> bool {
    &&& atom.category.len() > 0
    &&& atom.name.len() > 0
    &&& unbroken(atom.category, Separator::Blank)
    &&& !atom.category.contains('/')
    &&& unbroken(atom.name, Separator::Blank)
    &&& forall|j: int| !delimiter_at(atom.name, j)
    &&& atom.version matches Some(version) ==> unbroken(version, Separator::Blank)
        && version.len() > 0 && ascii_digit(version.first())
    &&& forall|i: int|
        0 <= i < atom.flags.len() ==> is_token((#[trigger] atom.flags[i]).name) && atom.flags[i]
            == FlagView::of(atom.flags[i].name)
    &&& !white_space(atom.text().first())
    &&& !white_space(atom.text().last())
}

/// Why a line is no package atom. `line` is the trimmed line.
pub enum ParseFault {
    /// The line holds no token.
    Empty,
    /// The first token of the line holds no `/`.
    MissingCategorySeparator { line: Seq<char> },
    /// Nothing stands in front of the first `/`.
    MissingCategory { line: Seq<char> },
    /// Nothing stands between the first `/` and the version, or the end of
    /// the first token.
    MissingName { line: Seq<char> },
}

impl ParseFault {
    /// The line that the fault was found in.
    pub open spec fn line(self) -> Seq<char> {
        match self {
            ParseFault::Empty => Seq::empty(),
            ParseFault::MissingCategorySeparator { line } => line,
            ParseFault::MissingCategory { line } => line,
            ParseFault::MissingName { line } => line,
        }
    }
}

/// The flags that the tokens behind the package stand for.
pub open spec fn flags_of(parts: Seq<Seq<char>>) -> Seq<FlagView> {
    parts.map_values(|token: Seq<char>| FlagView::of(token))
}

/// What `line` says. The line is trimmed and split into tokens. The first
/// token names the package: the category in front of its first `/`, the name
/// and the version behind it. Every other token is a flag. A line without a
/// token, without a `/` in its first token, without a category or without a
/// name is no atom.
pub open spec fn parse_atom(line: Seq<char>) -> Result<AtomView, ParseFault> {
    let parts = tokens(trimmed(line));
    if parts.len() == 0 {
        Err(ParseFault::Empty)
    } else {
        match parts.first().index_of_first('/') {
            Some(slash) => {
                let segment = parts.first().skip(slash + 1);
                if slash == 0 {
                    Err(ParseFault::MissingCategory { line: trimmed(line) })
                } else if name_part(segment).len() == 0 {
                    Err(ParseFault::MissingName { line: trimmed(line) })
                } else {
                    Ok(
                        AtomView {
                            name: name_part(segment),
                            category: parts.first().take(slash),
                            version: version_part(segment),
                            flags: flags_of(parts.drop_first()),
                        },
                    )
                }
            },
            None => Err(ParseFault::MissingCategorySeparator { line: trimmed(line) }),
        }
    }
}

/// A USE flag of a package: the token of the line, and whether it switches
/// the flag on.
#[derive(Clone, Copy, Debug, PartialEq, Eq)]
pub struct UseFlag<'a> {
    pub name: &'a str,
    pub enabled: bool,
}

impl<'a> View for UseFlag<'a> {
    type V = FlagView;

    open spec fn view(&self) -> FlagView {
        FlagView { name: self.name@, enabled: self.enabled }
    }
}

impl<'a> From<&'a str> for UseFlag<'a> {
    /// The flag that the token `value` stands for.
    fn from(value: &'a str) -> (flag: UseFlag<'a>)
        ensures
            flag@ == FlagView::of(value@),
    {
        let disabled = !value.is_empty() && value.get_char(0) == '-';
        UseFlag { name: value, enabled: !disabled }
    }
}

impl<'a> FromSpecImpl<&'a str> for UseFlag<'a> {
    open spec fn obeys_from_spec() -> bool {
        true
    }

    open spec fn from_spec(value: &'a str) -> UseFlag<'a> {
        UseFlag { name: value, enabled: FlagView::of(value@).enabled }
    }
}

impl<'a> ToString for UseFlag<'a> {
    /// The token of the flag, as Portage reads it.
    fn to_string(&self) -> (text: String)
        ensures
            text@ == self@.name,
    {
        self.name.to_owned()
    }
}

/// The flags that a vector of flags stands for.
pub open spec fn flag_views(flags: Seq<UseFlag>) -> Seq<FlagView> {
    flags.map_values(|flag: UseFlag| flag@)
}

/// A package atom: one line of `package.use`. To read one from a line, call
/// `try_from`.
#[derive(Clone, Debug, PartialEq, Eq)]
pub struct PackageAtom<'a> {
    pub name: &'a str,
    pub category: &'a str,
    pub version: Option<&'a str>,
    pub flags: Vec<UseFlag<'a>>,
}

impl<'a> View for PackageAtom<'a> {
    type V = AtomView;

    open spec fn view(&self) -> AtomView {
        AtomView {
            name: self.name@,
            category: self.category@,
            version: option_text(self.version),
            flags: flag_views(self.flags@),
        }
    }
}

/// Why a line could not be read as a package atom. `line` is the trimmed
/// line.
#[derive(Clone, Copy, Debug, PartialEq, Eq)]
pub enum ParseError<'a> {
    /// The line holds no token.
    Empty,
    /// The first token of the line holds no `/`.
    MissingCategorySeparator { line: &'a str },
    /// Nothing stands in front of the first `/`.
    MissingCategory { line: &'a str },
    /// Nothing stands between the first `/` and the version, or the end of
    /// the first token.
    MissingName { line: &'a str },
}

impl<'a> View for ParseError<'a> {
    type V = ParseFault;

    open spec fn view(&self) -> ParseFault {
        match *self {
            ParseError::Empty => ParseFault::Empty,
            ParseError::MissingCategorySeparator { line } => ParseFault::MissingCategorySeparator {
                line: line@,
            },
            ParseError::MissingCategory { line } => ParseFault::MissingCategory { line: line@ },
            ParseError::MissingName { line } => ParseFault::MissingName { line: line@ },
        }
    }
}

impl<'a> ParseError<'a> {
    /// The report of the error: a fixed introduction, then the trimmed line.
    pub fn message(&self) -> (text: String)
        ensures
            text@ == "Invalid package atom: "@ + self@.line(),
    {
        let mut text = String::from_str("Invalid package atom: ");
        match *self {
            ParseError::Empty => {},
            ParseError::MissingCategorySeparator { line } => {
                text.append(line);
            },
            ParseError::MissingCategory { line } => {
                text.append(line);
            },
            ParseError::MissingName { line } => {
                text.append(line);
            },
        }
        text
    }
}

/// What the outcome of reading a line stands for.
pub open spec fn parsed_view(parsed: Result<PackageAtom, ParseError>) -> Result<
    AtomView,
    ParseFault,
> {
    match parsed {
        Ok(atom) => Ok(atom@),
        Err(error) => Err(error@),
    }
}

impl<'a> TryFrom<&'a str> for PackageAtom<'a> {
    type Error = ParseError<'a>;

    /// Reads a package atom from `value`. The line need not be trimmed.
    fn try_from(value: &'a str) -> (parsed: Result<PackageAtom<'a>, ParseError<'a>>)
        ensures
            parsed_view(parsed) == parse_atom(value@),
            parsed matches Ok(atom) ==> well_formed(atom@),
    {
        let pattern = VersionPattern::new();
        PackageAtom::parse(&pattern, value)
    }
}

/// An atom is known by what it says, so what `try_from` gives is stated over
/// views, in its own contract, and not as a value here.
impl<'a> TryFromSpecImpl<&'a str> for PackageAtom<'a> {
    open spec fn obeys_try_from_spec() -> bool {
        false
    }

    open spec fn try_from_spec(value: &'a str) -> Result<PackageAtom<'a>, ParseError<'a>> {
        choose|parsed: Result<PackageAtom<'a>, ParseError<'a>>|
            parsed_view(parsed) == parse_atom(value@)
    }
}

impl<'a> ToString for PackageAtom<'a> {
    /// Writes the atom as the line that Portage reads.
    fn to_string(&self) -> (text: String)
        ensures
            text@ == self@.text(),
    {
        let mut package = String::from_str(self.category);
        package.append("/");
        package.append(self.name);
        match self.version {
            Some(v) => {
                package.append("-");
                package.append(v);
            },
            None => {},
        }
        proof {
            reveal_strlit("/");
            reveal_strlit("-");
        }
        let ghost head = self@.category + seq!['/'] + self@.name + version_text(self@.version);
        let mut i: usize = 0;
        while i < self.flags.len()
            invariant
                i <= self.flags.len(),
                package@ == head + flags_text(flag_views(self.flags@).take(i as int)),
            decreases self.flags.len() - i,
        {
            package.append(" ");
            package.append(self.flags[i].name);
            proof {
                reveal_strlit(" ");
                let all = flag_views(self.flags@);
                lemma_flags_text_push(all.take(i as int), all[i as int]);
                assert(all.take(i + 1) =~= all.take(i as int).push(all[i as int]));
            }
            i += 1;
        }
        assert(flag_views(self.flags@).take(i as int) =~= flag_views(self.flags@));
        package
    }
}

impl<'a> PackageAtom<'a> {
    /// Reads a package atom from `value`, with a version delimiter that was
    /// compiled before.
    pub fn parse(pattern: &VersionPattern, value: &'a str) -> (parsed: Result<
        PackageAtom<'a>,
        ParseError<'a>,
    >)
        ensures
            parsed_view(parsed) == parse_atom(value@),
            parsed matches Ok(atom) ==> well_formed(atom@),
    {
        let line = trim(value);
        let parts = split_tokens(line);
        if parts.len() == 0 {
            return Err(ParseError::Empty);
        }
        let first: &'a str = parts[0];
        match split_once(first, '/') {
            Some((category, segment)) => {
                proof {
                    first@.index_of_first_ensures('/');
                }
                if category.is_empty() {
                    return Err(ParseError::MissingCategory { line });
                }
                let (name, version) = pattern.split_version(segment);
                if name.is_empty() {
                    return Err(ParseError::MissingName { line });
                }
                let mut flags: Vec<UseFlag<'a>> = Vec::new();
                let mut i: usize = 1;
                while i < parts.len()
                    invariant
                        1 <= i <= parts.len(),
                        flag_views(flags@) == flags_of(
                            tokens(trimmed(value@)).subrange(1, i as int),
                        ),
                        texts(parts@) == tokens(trimmed(value@)),
                    decreases parts.len() - i,
                {
                    let flag = UseFlag::from(parts[i]);
                    assert(flag_views(flags@.push(flag)) =~= flag_views(flags@).push(flag@));
                    flags.push(flag);
                    i += 1;
                }
                proof {
                    lemma_parsed_is_well_formed(value@);
                }
                Ok(PackageAtom { name, category, version, flags })
            },
            None => Err(ParseError::MissingCategorySeparator { line }),
        }
    }
}

} // verus!
