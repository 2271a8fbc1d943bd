//! What is written for an atom reads back as the same atom.
use crate::portage::package::{
    flag_names, flags_of, flags_text, is_token, lemma_flags_text_push, package_text, parse_atom,
    version_text, well_formed, AtomView, FlagView, ParseFault,
};
use crate::portage::syntax::{
    lemma_first_run, lemma_last_run, lemma_runs_are_unbroken, lemma_runs_behind_run,
    lemma_token_break_is_white_space, lemma_trimmed_already, lemma_trimmed_ends, token_break,
    tokens, trimmed, Separator,
};
use crate::portage::version::{
    delimiter_at, lemma_first_delimiter, lemma_no_delimiter, lemma_version_delimiter, name_part,
    version_delimiter, version_part,
};
use vstd::prelude::*;

verus! {

/// The flags as they are written fall into the tokens of the flags again.
proof fn lemma_tokens_of_flags(flags: Seq<FlagView>)
    requires
        forall|i: int| 0 <= i < flags.len() ==> is_token((#[trigger] flags[i]).name),
    ensures
        tokens(flags_text(flags)) == flag_names(flags),
        flags_text(flags).len() == 0 || token_break(flags_text(flags).first()),
    decreases flags.len(),
{
    if flags.len() > 0 {
        let rest = flags.drop_first();
        let name = flags.first().name;
        lemma_tokens_of_flags(rest);
        lemma_runs_behind_run(name, flags_text(rest), Separator::Blank);
        assert(flags_text(flags).drop_first() =~= name + flags_text(rest));
    }
}

/// The flags as they are written end with the last character of the last
/// flag.
proof fn lemma_flags_text_last(flags: Seq<FlagView>)
    requires
        flags.len() > 0,
        flags.last().name.len() > 0,
    ensures
        flags_text(flags).len() > 0,
        flags_text(flags).last() == flags.last().name.last(),
{
    lemma_flags_text_push(flags.drop_last(), flags.last());
    assert(flags =~= flags.drop_last().push(flags.last()));
}

/// The package of a well-formed atom is one token, and reads back as the
/// category, the name and the version of the atom.
proof fn lemma_package_text(atom: AtomView)
    requires
        well_formed(atom),
    ensures
        is_token(package_text(atom)),
        package_text(atom).index_of_first('/') == Some(atom.category.len() as int),
        name_part(package_text(atom).skip(atom.category.len() as int + 1)) == atom.name,
        version_part(package_text(atom).skip(atom.category.len() as int + 1)) == atom.version,
{
    let head = package_text(atom);
    let at = atom.category.len() as int;
    let segment = atom.name + version_text(atom.version);
    head.index_of_first_ensures('/');
    assert(head[at] == '/');
    assert(head.skip(at + 1) =~= segment);
    match atom.version {
        Some(version) => {
            let cut = atom.name.len() as int;
            assert forall|j: int| 0 <= j < cut implies !delimiter_at(segment, j) by {
                assert(!delimiter_at(atom.name, j));
            }
            lemma_first_delimiter(segment, cut);
        },
        None => {
            lemma_no_delimiter(segment);
        },
    }
}

/// The line of a well-formed atom reads back as the atom.
pub proof fn lemma_well_formed_reads_back(atom: AtomView)
    requires
        well_formed(atom),
    ensures
        parse_atom(atom.text()) == Ok::<AtomView, ParseFault>(atom),
        trimmed(atom.text()) == atom.text(),
        tokens(atom.text()) == seq![package_text(atom)] + flag_names(atom.flags),
{
    let head = package_text(atom);
    lemma_package_text(atom);
    lemma_tokens_of_flags(atom.flags);
    lemma_runs_behind_run(head, flags_text(atom.flags), Separator::Blank);
    lemma_trimmed_already(atom.text());
    assert(tokens(atom.text()).drop_first() =~= flag_names(atom.flags));
    assert(flags_of(flag_names(atom.flags)) =~= atom.flags);
    assert(head.take(atom.category.len() as int) =~= atom.category);
}

/// An atom that was read from a line is well formed, and its line has the
/// tokens of the line that it was read from.
pub proof fn lemma_parsed_is_well_formed(line: Seq<char>)
    requires
        parse_atom(line) is Ok,
    ensures
        well_formed(parse_atom(line)->Ok_0),
        tokens(parse_atom(line)->Ok_0.text()) == tokens(trimmed(line)),
{
    let atom = parse_atom(line)->Ok_0;
    let rest = trimmed(line);
    let parts = tokens(rest);
    let token = parts.first();
    let slash = token.index_of_first('/')->0;
    let segment = token.skip(slash + 1);
    lemma_runs_are_unbroken(rest, Separator::Blank);
    token.index_of_first_ensures('/');
    lemma_version_delimiter(segment);
    if version_delimiter(segment) is Some {
        assert forall|j: int| delimiter_at(atom.name, j) implies false by {
            assert(delimiter_at(segment, j));
        }
    }
    assert(token =~= package_text(atom));
    // the line starts with its first token and ends with its last
    lemma_trimmed_ends(line);
    lemma_token_break_is_white_space(rest.first());
    lemma_token_break_is_white_space(rest.last());
    lemma_first_run(rest, Separator::Blank);
    lemma_last_run(rest, Separator::Blank);
    if atom.flags.len() > 0 {
        lemma_flags_text_last(atom.flags);
    }
    lemma_well_formed_reads_back(atom);
}

/// Reading a line, writing the atom and reading what was written gives the
/// same atom: the same category, name, version and flags. What was written
/// differs from the line in its white space alone: it has the same tokens.
pub proof fn lemma_round_trip(line: Seq<char>)
    requires
        parse_atom(line) is Ok,
    ensures
        parse_atom(parse_atom(line)->Ok_0.text()) == parse_atom(line),
        tokens(trimmed(parse_atom(line)->Ok_0.text())) == tokens(trimmed(line)),
{
    lemma_parsed_is_well_formed(line);
    lemma_well_formed_reads_back(parse_atom(line)->Ok_0);
}

/// The white space of a line is of no matter: two lines with the same tokens
/// are the same atom, or both are none.
pub proof fn lemma_white_space_is_no_matter(line: Seq<char>, other: Seq<char>)
    requires
        tokens(trimmed(line)) == tokens(trimmed(other)),
    ensures
        parse_atom(line) is Ok <==> parse_atom(other) is Ok,
        parse_atom(line) is Ok ==> parse_atom(line) == parse_atom(other),
{
}

} // verus!
