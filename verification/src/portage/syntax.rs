//! The characters of a line: what is trimmed from its ends, and how the rest
//! falls into tokens.
use vstd::prelude::*;
use vstd::string::*;

verus! {

/// Whether `c` has the Unicode property White_Space. These are the characters
/// that are trimmed from both ends of a line.
pub open spec fn white_space(c: char) -> bool {
    ||| '\u{9}' <= c <= '\u{D}'
    ||| c == ' '
    ||| c == '\u{85}'
    ||| c == '\u{A0}'
    ||| c == '\u{1680}'
    ||| '\u{2000}' <= c <= '\u{200A}'
    ||| c == '\u{2028}'
    ||| c == '\u{2029}'
    ||| c == '\u{202F}'
    ||| c == '\u{205F}'
    ||| c == '\u{3000}'
}

/// Whether `c` separates tokens: space, tab, line feed, form feed or carriage
/// return.
pub open spec fn token_break(c: char) -> bool {
    c == ' ' || c == '\t' || c == '\n' || c == '\u{C}' || c == '\r'
}

/// Whether `c` is one of the digits `0` to `9`.
pub open spec fn ascii_digit(c: char) -> bool {
    '0' <= c <= '9'
}

/// Tells whether `c` is trimmed from the ends of a line.
#[verifier::when_used_as_spec(white_space)]
pub fn is_white_space(c: char) -> (b: bool)
    ensures
        b == white_space(c),
{
    ('\u{9}' <= c && c <= '\u{D}') || c == ' ' || c == '\u{85}' || c == '\u{A0}' || c
        == '\u{1680}' || ('\u{2000}' <= c && c <= '\u{200A}') || c == '\u{2028}' || c
        == '\u{2029}' || c == '\u{202F}' || c == '\u{205F}' || c == '\u{3000}'
}

/// Tells whether `c` separates tokens.
#[verifier::when_used_as_spec(token_break)]
pub fn is_token_break(c: char) -> (b: bool)
    ensures
        b == token_break(c),
{
    c == ' ' || c == '\t' || c == '\n' || c == '\u{C}' || c == '\r'
}

/// Tells whether `c` is one of the digits `0` to `9`.
#[verifier::when_used_as_spec(ascii_digit)]
pub fn is_ascii_digit(c: char) -> (b: bool)
    ensures
        b == ascii_digit(c),
{
    '0' <= c && c <= '9'
}

/// Every character that separates tokens is also trimmed from the ends of a
/// line.
pub proof fn lemma_token_break_is_white_space(c: char)
    ensures
        token_break(c) ==> white_space(c),
{
}

/// `s` without the white space at its start.
pub open spec fn trim_start(s: Seq<char>) -> Seq<char>
    decreases s.len(),
{
    if s.len() > 0 && white_space(s.first()) {
        trim_start(s.drop_first())
    } else {
        s
    }
}

/// `s` without the white space at its end.
pub open spec fn trim_end(s: Seq<char>) -> Seq<char>
    decreases s.len(),
{
    if s.len() > 0 && white_space(s.last()) {
        trim_end(s.drop_last())
    } else {
        s
    }
}

/// `s` without the white space at either end.
pub open spec fn trimmed(s: Seq<char>) -> Seq<char> {
    trim_end(trim_start(s))
}

/// The characters of `text`, one by one.
pub fn chars_of(text: &str) -> (chars: Vec<char>)
    ensures
        chars@ == text@,
{
    let mut chars: Vec<char> = Vec::new();
    for c in it: text.chars()
        invariant
            it.seq() == text@,
            chars@ == text@.take(it.index() as int),
    {
        chars.push(c);
    }
    chars
}

/// Whether two slices hold the same text.
pub fn same_text(a: &str, b: &str) -> (same: bool)
    ensures
        same == (a@ == b@),
{
    let left = a.as_bytes();
    let right = b.as_bytes();
    proof {
        vstd::utf8::encode_utf8_decode_utf8(a@);
        vstd::utf8::encode_utf8_decode_utf8(b@);
    }
    if left.len() != right.len() {
        return false;
    }
    let mut i: usize = 0;
    while i < left.len()
        invariant
            i <= left.len(),
            left.len() == right.len(),
            left@ == a.spec_bytes(),
            right@ == b.spec_bytes(),
            forall|j: int| 0 <= j < i ==> left@[j] == right@[j],
        decreases left.len() - i,
    {
        if left[i] != right[i] {
            return false;
        }
        i += 1;
    }
    assert(left@ =~= right@);
    true
}

/// Cuts the white space off both ends of `line`.
pub fn trim<'a>(line: &'a str) -> (rest: &'a str)
    ensures
        rest@ == trimmed(line@),
{
    let chars = chars_of(line);
    let n: usize = chars.len();
    let mut start: usize = 0;
    assert(chars@.skip(0) =~= chars@);
    while start < n && is_white_space(chars[start])
        invariant
            start <= n,
            n == chars@.len(),
            trim_start(chars@) == trim_start(chars@.skip(start as int)),
        decreases n - start,
    {
        assert(chars@.skip(start as int).drop_first() =~= chars@.skip(start + 1));
        start += 1;
    }
    let mut end: usize = n;
    while end > start && is_white_space(chars[end - 1])
        invariant
            start <= end <= n,
            n == chars@.len(),
            trimmed(chars@) == trim_end(chars@.subrange(start as int, end as int)),
        decreases end - start,
    {
        assert(chars@.subrange(start as int, end as int).drop_last() =~= chars@.subrange(
            start as int,
            end - 1,
        ));
        end -= 1;
    }
    line.substring_char(start, end)
}

/// What ends a run of characters.
#[derive(Clone, Copy, Debug, PartialEq, Eq)]
pub enum Separator {
    /// The characters that separate the tokens of a line.
    Blank,
    /// The line feed, which separates the lines of a file.
    LineFeed,
}

/// Whether `c` ends a run.
pub open spec fn separates(by: Separator, c: char) -> bool {
    match by {
        Separator::Blank => token_break(c),
        Separator::LineFeed => c == '\n',
    }
}

/// Tells whether `c` ends a run.
#[verifier::when_used_as_spec(separates)]
pub fn is_separator(by: Separator, c: char) -> (b: bool)
    ensures
        b == separates(by, c),
{
    match by {
        Separator::Blank => is_token_break(c),
        Separator::LineFeed => c == '\n',
    }
}

/// The length of the run that `s` starts with: the number of characters in
/// front of the first separator.
pub open spec fn run_len(s: Seq<char>, by: Separator) -> nat
    decreases s.len(),
{
    if s.len() == 0 || separates(by, s.first()) {
        0
    } else {
        1 + run_len(s.drop_first(), by)
    }
}

/// The runs of `s`: its longest stretches without a separator, from left to
/// right. No run is empty.
pub open spec fn runs(s: Seq<char>, by: Separator) -> Seq<Seq<char>>
    decreases s.len(),
    via runs_decreases
{
    if s.len() == 0 {
        Seq::empty()
    } else if separates(by, s.first()) {
        runs(s.drop_first(), by)
    } else {
        seq![s.take(run_len(s, by) as int)] + runs(s.skip(run_len(s, by) as int), by)
    }
}

#[via_fn]
proof fn runs_decreases(s: Seq<char>, by: Separator) {
    lemma_run_len(s, by);
}

/// The tokens of a line: its runs between spaces, tabs, line feeds, form
/// feeds and carriage returns.
pub open spec fn tokens(s: Seq<char>) -> Seq<Seq<char>> {
    runs(s, Separator::Blank)
}

/// The lines of a file that hold anything: its runs between line feeds.
pub open spec fn lines(s: Seq<char>) -> Seq<Seq<char>> {
    runs(s, Separator::LineFeed)
}

/// The run at the start of `s` lies within `s`, holds no separator, and ends
/// at a separator or at the end of `s`.
pub proof fn lemma_run_len(s: Seq<char>, by: Separator)
    ensures
        run_len(s, by) <= s.len(),
        forall|i: int| 0 <= i < run_len(s, by) ==> !separates(by, #[trigger] s[i]),
        run_len(s, by) < s.len() ==> separates(by, s[run_len(s, by) as int]),
    decreases s.len(),
{
    if s.len() > 0 && !separates(by, s.first()) {
        let rest = s.drop_first();
        lemma_run_len(rest, by);
        assert forall|i: int| 0 <= i < run_len(s, by) implies !separates(by, #[trigger] s[i]) by {
            if i > 0 {
                assert(s[i] == rest[i - 1]);
            }
        }
    }
}

/// A stretch of `n` characters without a separator, followed by a separator
/// or by the end of `s`, is the run that `s` starts with.
pub proof fn lemma_run_len_is(s: Seq<char>, by: Separator, n: int)
    requires
        0 <= n <= s.len(),
        forall|i: int| 0 <= i < n ==> !separates(by, #[trigger] s[i]),
        n < s.len() ==> separates(by, s[n]),
    ensures
        run_len(s, by) == n,
    decreases n,
{
    if n > 0 {
        let rest = s.drop_first();
        lemma_run_len_is(rest, by, n - 1);
    }
}

/// Whether `s` holds no separator.
pub open spec fn unbroken(s: Seq<char>, by: Separator) -> bool {
    forall|i: int| 0 <= i < s.len() ==> !separates(by, #[trigger] s[i])
}

/// No run is empty, and no run holds a separator.
pub proof fn lemma_runs_are_unbroken(s: Seq<char>, by: Separator)
    ensures
        forall|k: int|
            0 <= k < runs(s, by).len() ==> (#[trigger] runs(s, by)[k]).len() > 0 && unbroken(
                runs(s, by)[k],
                by,
            ),
    decreases s.len(),
{
    if s.len() > 0 && separates(by, s.first()) {
        lemma_runs_are_unbroken(s.drop_first(), by);
        assert(runs(s, by) == runs(s.drop_first(), by));
    } else if s.len() > 0 {
        let n = run_len(s, by) as int;
        lemma_run_len(s, by);
        lemma_runs_are_unbroken(s.skip(n), by);
        assert forall|k: int| 0 <= k < runs(s, by).len() implies (#[trigger] runs(s, by)[k]).len()
            > 0 && unbroken(runs(s, by)[k], by) by {
            if k > 0 {
                assert(runs(s, by)[k] == runs(s.skip(n), by)[k - 1]);
            }
        }
    }
}

/// A text without a separator, followed by a separator or by nothing, is a
/// run of its own.
pub proof fn lemma_runs_behind_run(run: Seq<char>, rest: Seq<char>, by: Separator)
    requires
        run.len() > 0,
        unbroken(run, by),
        rest.len() == 0 || separates(by, rest.first()),
    ensures
        runs(run + rest, by) == seq![run] + runs(rest, by),
{
    let s = run + rest;
    lemma_run_len_is(s, by, run.len() as int);
    assert(s.take(run.len() as int) =~= run);
    assert(s.skip(run.len() as int) =~= rest);
}

/// A text that starts without a separator starts with its first run.
pub proof fn lemma_first_run(s: Seq<char>, by: Separator)
    requires
        s.len() > 0,
        !separates(by, s.first()),
    ensures
        runs(s, by).len() > 0,
        runs(s, by).first().len() > 0,
        runs(s, by).first().first() == s.first(),
{
    lemma_run_len(s, by);
}

/// A text that ends without a separator ends with its last run.
pub proof fn lemma_last_run(s: Seq<char>, by: Separator)
    requires
        s.len() > 0,
        !separates(by, s.last()),
    ensures
        runs(s, by).len() > 0,
        runs(s, by).last().len() > 0,
        runs(s, by).last().last() == s.last(),
    decreases s.len(),
{
    if separates(by, s.first()) {
        lemma_last_run(s.drop_first(), by);
    } else {
        let n = run_len(s, by) as int;
        lemma_run_len(s, by);
        if n < s.len() {
            lemma_last_run(s.skip(n), by);
        }
    }
}

/// What is left of a trimmed text neither starts nor ends with white space.
pub proof fn lemma_trimmed_ends(s: Seq<char>)
    ensures
        trimmed(s).len() > 0 ==> !white_space(trimmed(s).first()) && !white_space(
            trimmed(s).last(),
        ),
{
    lemma_trim_start_ends(s);
    lemma_trim_end_ends(trim_start(s));
}

proof fn lemma_trim_start_ends(s: Seq<char>)
    ensures
        trim_start(s).len() > 0 ==> !white_space(trim_start(s).first()),
    decreases s.len(),
{
    if s.len() > 0 && white_space(s.first()) {
        lemma_trim_start_ends(s.drop_first());
    }
}

proof fn lemma_trim_end_ends(s: Seq<char>)
    ensures
        trim_end(s).len() > 0 ==> !white_space(trim_end(s).last()) && trim_end(s).first()
            == s.first(),
    decreases s.len(),
{
    if s.len() > 0 && white_space(s.last()) {
        lemma_trim_end_ends(s.drop_last());
    }
}

/// A text that neither starts nor ends with white space is left as it is.
pub proof fn lemma_trimmed_already(s: Seq<char>)
    requires
        s.len() > 0,
        !white_space(s.first()),
        !white_space(s.last()),
    ensures
        trimmed(s) == s,
{
}

/// The texts that the slices of `parts` stand for.
pub open spec fn texts(parts: Seq<&str>) -> Seq<Seq<char>> {
    parts.map_values(|part: &str| part@)
}

/// Splits `text` into its runs.
pub fn split_runs<'a>(text: &'a str, by: Separator) -> (parts: Vec<&'a str>)
    ensures
        texts(parts@) == runs(text@, by),
{
    let chars = chars_of(text);
    let n: usize = chars.len();
    let mut parts: Vec<&'a str> = Vec::new();
    let mut i: usize = 0;
    assert(chars@.skip(0) =~= chars@);
    while i < n
        invariant
            i <= n,
            n == chars@.len(),
            chars@ == text@,
            runs(chars@, by) == texts(parts@) + runs(chars@.skip(i as int), by),
        decreases n - i,
    {
        let ghost rest = chars@.skip(i as int);
        if is_separator(by, chars[i]) {
            assert(rest.drop_first() =~= chars@.skip(i + 1));
            i += 1;
        } else {
            let start: usize = i;
            while i < n && !is_separator(by, chars[i])
                invariant
                    start <= i <= n,
                    n == chars@.len(),
                    forall|j: int| start <= j < i ==> !separates(by, #[trigger] chars@[j]),
                decreases n - i,
            {
                i += 1;
            }
            let part = text.substring_char(start, i);
            proof {
                lemma_run_len_is(rest, by, i - start);
                assert(rest.take(i - start) =~= part@);
                assert(rest.skip(i - start) =~= chars@.skip(i as int));
            }
            parts.push(part);
        }
    }
    parts
}

/// Splits a line into its tokens.
pub fn split_tokens<'a>(line: &'a str) -> (parts: Vec<&'a str>)
    ensures
        texts(parts@) == tokens(line@),
{
    split_runs(line, Separator::Blank)
}

/// Splits the text of a file into the lines that hold anything.
pub fn split_lines<'a>(text: &'a str) -> (parts: Vec<&'a str>)
    ensures
        texts(parts@) == lines(text@),
{
    split_runs(text, Separator::LineFeed)
}

/// Cuts `text` at its first `mark`: what stands in front of the mark, and
/// what stands behind it. Without a mark in `text` there is no cut.
pub fn split_once<'a>(text: &'a str, mark: char) -> (cut: Option<(&'a str, &'a str)>)
    ensures
        match text@.index_of_first(mark) {
            Some(i) => cut matches Some((head, tail)) && head@ == text@.take(i) && tail@
                == text@.skip(i + 1),
            None => cut is None,
        },
{
    let chars = chars_of(text);
    let n: usize = chars.len();
    let mut i: usize = 0;
    while i < n
        invariant
            i <= n,
            n == chars@.len(),
            chars@ == text@,
            forall|j: int| 0 <= j < i ==> chars@[j] != mark,
        decreases n - i,
    {
        if chars[i] == mark {
            proof {
                text@.index_of_first_ensures(mark);
            }
            return Some((text.substring_char(0, i), text.substring_char(i + 1, n)));
        }
        i += 1;
    }
    proof {
        text@.index_of_first_ensures(mark);
    }
    None
}

} // verus!
