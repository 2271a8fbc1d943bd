//! Where the version of a package starts inside the text behind the category.
use crate::portage::syntax::ascii_digit;
use regex::Regex;
use vstd::prelude::*;
use vstd::string::*;

verus! {

/// The regular expression that matches the start of a version: a hyphen with
/// a digit behind it.
pub const VERSION_DELIMITER: &'static str = "-[0-9]";

/// `regex::Regex`, a compiled regular expression. The library sees nothing
/// inside it and only hands it on.
#[verifier::external_type_specification]
#[verifier::external_body]
pub struct ExRegex(Regex);

/// The pattern that a regular expression was compiled from: what
/// `regex::Regex::as_str` gives back for it.
pub uninterp spec fn pattern_of(re: Regex) -> Seq<char>;

/// Whether a version starts behind position `i` of `s`: a hyphen stands at
/// `i`, and a digit right behind it.
pub open spec fn delimiter_at(s: Seq<char>, i: int) -> bool {
    0 <= i && i + 1 < s.len() && s[i] == '-' && ascii_digit(s[i + 1])
}

/// The position of the first hyphen of `s` that has a digit behind it.
pub open spec fn version_delimiter(s: Seq<char>) -> Option<int>
    decreases s.len(),
{
    if s.len() < 2 {
        None
    } else if s[0] == '-' && ascii_digit(s[1]) {
        Some(0)
    } else {
        match version_delimiter(s.drop_first()) {
            Some(i) => Some(i + 1),
            None => None,
        }
    }
}

/// The name in `segment`: what stands in front of the version delimiter, or
/// all of it where there is no version.
pub open spec fn name_part(segment: Seq<char>) -> Seq<char> {
    match version_delimiter(segment) {
        Some(i) => segment.take(i),
        None => segment,
    }
}

/// The version in `segment`: what stands behind the hyphen of the version
/// delimiter.
pub open spec fn version_part(segment: Seq<char>) -> Option<Seq<char>> {
    match version_delimiter(segment) {
        Some(i) => Some(segment.skip(i + 1)),
        None => None,
    }
}

/// `version_delimiter` finds a delimiter, and the first one; it finds none
/// only where there is none.
pub proof fn lemma_version_delimiter(s: Seq<char>)
    ensures
        match version_delimiter(s) {
            Some(i) => delimiter_at(s, i) && forall|j: int| 0 <= j < i ==> !delimiter_at(s, j),
            None => forall|j: int| !delimiter_at(s, j),
        },
    decreases s.len(),
{
    if s.len() >= 2 && !(s[0] == '-' && ascii_digit(s[1])) {
        let rest = s.drop_first();
        lemma_version_delimiter(rest);
        assert forall|j: int| delimiter_at(s, j) implies delimiter_at(rest, j - 1) by {
        }
    }
}

/// The first delimiter of `s` is what `version_delimiter` finds.
pub proof fn lemma_first_delimiter(s: Seq<char>, i: int)
    requires
        delimiter_at(s, i),
        forall|j: int| 0 <= j < i ==> !delimiter_at(s, j),
    ensures
        version_delimiter(s) == Some(i),
{
    lemma_version_delimiter(s);
}

/// No delimiter in `s`: `version_delimiter` finds none.
pub proof fn lemma_no_delimiter(s: Seq<char>)
    requires
        forall|j: int| !delimiter_at(s, j),
    ensures
        version_delimiter(s) is None,
{
    lemma_version_delimiter(s);
}

/// Calls `regex::Regex::new` on `pattern`, which is the version delimiter.
/// The contract claims that this pattern compiles, and that the regular
/// expression that comes back was compiled from it.
#[verifier::external_body]
fn compile(pattern: &str) -> (re: Regex)
    requires
        pattern@ == VERSION_DELIMITER@,
    ensures
        pattern_of(re) == pattern@,
{
    Regex::new(pattern).expect("Portage version delimiter failed to compile")
}

/// Calls `regex::Regex::find` with the version delimiter on `text` and cuts
/// `text` where the match starts. The contract claims that the match that
/// `find` reports is the leftmost hyphen with one of the digits `0` to `9`
/// behind it, that `text` is cut in front of that hyphen, and that `find`
/// reports no match only where `text` holds no such hyphen.
#[verifier::external_body]
fn cut_at_first_match<'a>(re: &Regex, text: &'a str) -> (cut: Option<(&'a str, &'a str)>)
    requires
        pattern_of(*re) == VERSION_DELIMITER@,
    ensures
        match cut {
            Some((head, tail)) => {
                &&& head@ + tail@ == text@
                &&& delimiter_at(text@, head@.len() as int)
                &&& forall|j: int| 0 <= j < head@.len() ==> !delimiter_at(text@, j)
            },
            None => forall|j: int| !delimiter_at(text@, j),
        },
{
    match re.find(text) {
        Some(found) => Some(text.split_at(found.start())),
        None => None,
    }
}

/// The text that an optional slice stands for.
pub open spec fn option_text(part: Option<&str>) -> Option<Seq<char>> {
    match part {
        Some(text) => Some(text@),
        None => None,
    }
}

/// The compiled version delimiter. It is compiled once and then serves every
/// line that is parsed.
pub struct VersionPattern {
    compiled: Regex,
}

impl VersionPattern {
    /// The pattern that the regular expression inside was compiled from.
    pub closed spec fn source(self) -> Seq<char> {
        pattern_of(self.compiled)
    }

    #[verifier::type_invariant]
    spec fn holds_the_delimiter(self) -> bool {
        self.source() == VERSION_DELIMITER@
    }

    /// Compiles the version delimiter.
    pub fn new() -> (pattern: VersionPattern)
        ensures
            pattern.source() == VERSION_DELIMITER@,
    {
        VersionPattern { compiled: compile(VERSION_DELIMITER) }
    }

    /// Splits what stands behind the category into the name and the version.
    pub fn split_version<'a>(&self, segment: &'a str) -> (parts: (&'a str, Option<&'a str>))
        ensures
            parts.0@ == name_part(segment@),
            option_text(parts.1) == version_part(segment@),
    {
        proof {
            use_type_invariant(self);
        }
        match cut_at_first_match(&self.compiled, segment) {
            Some((head, tail)) => {
                let n: usize = tail.unicode_len();
                let version = tail.substring_char(1, n);
                proof {
                    lemma_first_delimiter(segment@, head@.len() as int);
                }
                (head, Some(version))
            },
            None => {
                proof {
                    lemma_no_delimiter(segment@);
                }
                (segment, None)
            },
        }
    }
}

} // verus!
