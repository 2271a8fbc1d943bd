//! The sort command: from the text of the USE files to the files that are to
//! be written and removed. Reading and writing the files is left to the
//! caller.
use crate::args::RageSortOptions;
use crate::commands::grouping::{
    entry_views, group_and_sort, group_views, grouped, prepare_atoms, prepared, Entry, EntryView,
    Group, GroupView, GroupingMode,
};
use crate::commands::listing::{
    lemma_ordered_sources_of_any_listing, ordered_sources, sort_sources,
};
use crate::portage::order::{atom_views, sort_atoms, stable_sorted};
use crate::portage::package::{parse_atom, AtomView, PackageAtom, ParseError, ParseFault};
use crate::portage::syntax::{lines, split_lines, texts};
use crate::portage::version::VersionPattern;
use vstd::prelude::*;
use vstd::string::*;

verus! {

/// The text of a file: the lines of the atoms, with a line feed between one
/// line and the next.
pub open spec fn file_text(atoms: Seq<AtomView>) -> Seq<char>
    decreases atoms.len(),
{
    if atoms.len() == 0 {
        Seq::empty()
    } else if atoms.len() == 1 {
        atoms.last().text()
    } else {
        file_text(atoms.drop_last()) + seq!['\n'] + atoms.last().text()
    }
}

/// Writes the text of a file for the atoms, in the order in which they stand.
pub fn render(atoms: &Vec<PackageAtom>) -> (content: String)
    ensures
        content@ == file_text(atom_views(atoms@)),
{
    let mut content = String::new();
    let mut i: usize = 0;
    while i < atoms.len()
        invariant
            i <= atoms.len(),
            content@ == file_text(atom_views(atoms@).take(i as int)),
        decreases atoms.len() - i,
    {
        let ghost all = atom_views(atoms@);
        if i > 0 {
            content.append("\n");
        }
        let line = atoms[i].to_string();
        content.append(line.as_str());
        proof {
            reveal_strlit("\n");
            assert(all.take(i + 1).drop_last() =~= all.take(i as int));
        }
        i += 1;
    }
    assert(atom_views(atoms@).take(i as int) =~= atom_views(atoms@));
    content
}

/// What is to be done to a file.
#[derive(Clone, Debug, PartialEq, Eq)]
pub enum FileAction<'a> {
    /// Remove the file at `path`.
    Remove { path: &'a str },
    /// Create the file of `destination`, or overwrite it, with `content`.
    Write { destination: &'a str, content: String },
    /// Show `content` as what the file of `destination` would hold, and touch
    /// no file.
    Preview { destination: &'a str, content: String },
}

/// What an action says.
pub enum ActionView {
    Remove { path: Seq<char> },
    Write { destination: Seq<char>, content: Seq<char> },
    Preview { destination: Seq<char>, content: Seq<char> },
}

impl<'a> View for FileAction<'a> {
    type V = ActionView;

    open spec fn view(&self) -> ActionView {
        match *self {
            FileAction::Remove { path } => ActionView::Remove { path: path@ },
            FileAction::Write { destination, content } => ActionView::Write {
                destination: destination@,
                content: content@,
            },
            FileAction::Preview { destination, content } => ActionView::Preview {
                destination: destination@,
                content: content@,
            },
        }
    }
}

/// What the actions of a vector say.
pub open spec fn action_views(plan: Seq<FileAction>) -> Seq<ActionView> {
    plan.map_values(|action: FileAction| action@)
}

/// What is done with the atoms of one file: they are written to it, or shown
/// where the run only pretends.
pub open spec fn written(destination: Seq<char>, atoms: Seq<AtomView>, pretend: bool) -> ActionView {
    if pretend {
        ActionView::Preview { destination, content: file_text(atoms) }
    } else {
        ActionView::Write { destination, content: file_text(atoms) }
    }
}

/// Says what is to be done with the atoms of the file of `file_path`.
pub fn write_to_file<'a>(file_path: &'a str, atoms: &Vec<PackageAtom>, pretend_mode: bool) -> (action:
    FileAction<'a>)
    ensures
        action@ == written(file_path@, atom_views(atoms@), pretend_mode),
{
    let content = render(atoms);
    if pretend_mode {
        FileAction::Preview { destination: file_path, content }
    } else {
        FileAction::Write { destination: file_path, content }
    }
}

/// The removal of each of the files.
pub open spec fn removals(paths: Seq<Seq<char>>) -> Seq<ActionView> {
    paths.map_values(|path: Seq<char>| ActionView::Remove { path })
}

/// What is done with each of the groups.
pub open spec fn writings(groups: Seq<GroupView>, pretend: bool) -> Seq<ActionView> {
    groups.map_values(|group: GroupView| written(group.key, group.atoms, pretend))
}

/// What is to be done for the groups. A run that only pretends shows every
/// group and touches no file. Any other run first removes the obsolete files
/// and then writes every group.
pub open spec fn materialized(groups: Seq<GroupView>, pretend: bool, obsolete: Seq<Seq<char>>) -> Seq<
    ActionView,
> {
    if pretend {
        writings(groups, pretend)
    } else {
        removals(obsolete) + writings(groups, pretend)
    }
}

/// Says what is to be done for the groups, and in which order. The obsolete
/// files are those that the groups replace.
pub fn materialize<'a>(groups: &Vec<Group<'a>>, pretend: bool, obsolete_files: &Vec<&'a str>) -> (plan:
    Vec<FileAction<'a>>)
    ensures
        action_views(plan@) == materialized(group_views(groups@), pretend, texts(obsolete_files@)),
        pretend ==> forall|i: int| 0 <= i < plan@.len() ==> (#[trigger] plan@[i]) is Preview,
{
    let mut plan: Vec<FileAction<'a>> = Vec::new();
    if !pretend {
        let mut i: usize = 0;
        while i < obsolete_files.len()
            invariant
                i <= obsolete_files.len(),
                action_views(plan@) == removals(texts(obsolete_files@).take(i as int)),
            decreases obsolete_files.len() - i,
        {
            let ghost done = action_views(plan@);
            let action = FileAction::Remove { path: obsolete_files[i] };
            plan.push(action);
            assert(action_views(plan@) =~= done.push(action@));
            i += 1;
        }
    }
    let ghost removed = action_views(plan@);
    let ghost all = group_views(groups@);
    let mut g: usize = 0;
    while g < groups.len()
        invariant
            g <= groups.len(),
            all == group_views(groups@),
            action_views(plan@) == removed + writings(all.take(g as int), pretend),
            pretend ==> forall|i: int| 0 <= i < plan@.len() ==> (#[trigger] plan@[i]) is Preview,
        decreases groups.len() - g,
    {
        let ghost done = action_views(plan@);
        let action = write_to_file(groups[g].key, &groups[g].atoms, pretend);
        plan.push(action);
        assert(action_views(plan@) =~= done.push(action@));
        g += 1;
    }
    plan
}

/// The atoms of the lines, or why the first line that is no atom is none.
pub open spec fn atoms_of_lines(lines: Seq<Seq<char>>) -> Result<Seq<AtomView>, ParseFault>
    decreases lines.len(),
{
    if lines.len() == 0 {
        Ok(Seq::empty())
    } else {
        match atoms_of_lines(lines.drop_last()) {
            Ok(before) => match parse_atom(lines.last()) {
                Ok(atom) => Ok(before.push(atom)),
                Err(fault) => Err(fault),
            },
            Err(fault) => Err(fault),
        }
    }
}

/// Once a line is no atom, the lines behind it change nothing.
pub proof fn lemma_fault_in_lines(lines: Seq<Seq<char>>, n: int)
    requires
        0 <= n <= lines.len(),
        atoms_of_lines(lines.take(n)) is Err,
    ensures
        atoms_of_lines(lines) == atoms_of_lines(lines.take(n)),
    decreases lines.len() - n,
{
    if n < lines.len() {
        assert(lines.take(n + 1).drop_last() =~= lines.take(n));
        lemma_fault_in_lines(lines, n + 1);
    } else {
        assert(lines.take(n) =~= lines);
    }
}

/// What the outcome of reading the lines of a file stands for.
pub open spec fn atoms_view(parsed: Result<Vec<PackageAtom>, ParseError>) -> Result<
    Seq<AtomView>,
    ParseFault,
> {
    match parsed {
        Ok(atoms) => Ok(atom_views(atoms@)),
        Err(error) => Err(error@),
    }
}

/// Reads the atoms of a file from its text. Lines that hold nothing are
/// passed over. The first line that is no atom ends the reading.
pub fn parse_lines<'a>(pattern: &VersionPattern, content: &'a str) -> (parsed: Result<
    Vec<PackageAtom<'a>>,
    ParseError<'a>,
>)
    ensures
        atoms_view(parsed) == atoms_of_lines(lines(content@)),
{
    let parts = split_lines(content);
    let ghost all = lines(content@);
    let mut atoms: Vec<PackageAtom<'a>> = Vec::new();
    let mut i: usize = 0;
    assert(atom_views(atoms@) =~= Seq::<AtomView>::empty());
    while i < parts.len()
        invariant
            i <= parts.len(),
            all == texts(parts@),
            all == lines(content@),
            atoms_of_lines(all.take(i as int)) == Ok::<Seq<AtomView>, ParseFault>(
                atom_views(atoms@),
            ),
        decreases parts.len() - i,
    {
        let ghost done = atom_views(atoms@);
        assert(all.take(i + 1).drop_last() =~= all.take(i as int));
        match PackageAtom::parse(pattern, parts[i]) {
            Ok(atom) => {
                atoms.push(atom);
                assert(atom_views(atoms@) =~= done.push(atom@));
            },
            Err(error) => {
                proof {
                    lemma_fault_in_lines(all, i + 1);
                }
                return Err(error);
            },
        }
        i += 1;
    }
    assert(all.take(i as int) =~= all);
    Ok(atoms)
}

/// What a plan, or the error in its place, stands for.
pub open spec fn plan_view(outcome: Result<Vec<FileAction>, ParseError>) -> Result<
    Seq<ActionView>,
    ParseFault,
> {
    match outcome {
        Ok(plan) => Ok(action_views(plan@)),
        Err(error) => Err(error@),
    }
}

/// What is to be done for a single USE file with the text `raw_atoms`: its
/// atoms are sorted and written back to it. Where a line is no atom, nothing
/// is done.
pub open spec fn file_plan(opts: RageSortOptions, path: Seq<char>, raw_atoms: Seq<char>) -> Result<
    Seq<ActionView>,
    ParseFault,
> {
    match atoms_of_lines(lines(raw_atoms)) {
        Ok(atoms) => Ok(
            seq![
                written(
                    path,
                    stable_sorted(
                        atoms.map_values(|atom: AtomView| prepared(atom, opts.remove_versions)),
                    ),
                    opts.pretend_mode,
                ),
            ],
        ),
        Err(fault) => Err(fault),
    }
}

/// Says what is to be done for the USE file at `path`, which holds
/// `raw_atoms`.
pub fn process_use_file<'a>(opts: &RageSortOptions, path: &'a str, raw_atoms: &'a str) -> (outcome:
    Result<Vec<FileAction<'a>>, ParseError<'a>>)
    ensures
        plan_view(outcome) == file_plan(*opts, path@, raw_atoms@),
        outcome matches Ok(plan) ==> plan@.len() == 1 && (opts.pretend_mode
            <==> plan@[0] is Preview) && (!opts.pretend_mode <==> plan@[0] is Write),
{
    let pattern = VersionPattern::new();
    match parse_lines(&pattern, raw_atoms) {
        Ok(atoms) => {
            let clean_atom_list = sort_atoms(prepare_atoms(atoms, opts.remove_versions));
            let action = write_to_file(path, &clean_atom_list, opts.pretend_mode);
            let mut plan: Vec<FileAction<'a>> = Vec::new();
            plan.push(action);
            assert(action_views(plan@) =~= seq![action@]);
            Ok(plan)
        },
        Err(error) => Err(error),
    }
}

/// A USE file of the directory: its path and its text.
#[derive(Clone, Copy, Debug, PartialEq, Eq)]
pub struct SourceFile<'a> {
    pub path: &'a str,
    pub content: &'a str,
}

/// What a USE file says.
pub struct SourceView {
    pub path: Seq<char>,
    pub content: Seq<char>,
}

impl<'a> View for SourceFile<'a> {
    type V = SourceView;

    open spec fn view(&self) -> SourceView {
        SourceView { path: self.path@, content: self.content@ }
    }
}

/// What the USE files of a vector say.
pub open spec fn source_views(sources: Seq<SourceFile>) -> Seq<SourceView> {
    sources.map_values(|source: SourceFile| source@)
}

/// The atoms together with the path of the file that they were read from.
pub open spec fn entries_from(path: Seq<char>, atoms: Seq<AtomView>) -> Seq<EntryView> {
    atoms.map_values(|atom: AtomView| EntryView { origin: path, atom })
}

/// The entries of the files, file by file and line by line, or why the first
/// line that is no atom is none.
pub open spec fn entries_of_sources(sources: Seq<SourceView>) -> Result<Seq<EntryView>, ParseFault>
    decreases sources.len(),
{
    if sources.len() == 0 {
        Ok(Seq::empty())
    } else {
        match entries_of_sources(sources.drop_last()) {
            Ok(before) => match atoms_of_lines(lines(sources.last().content)) {
                Ok(atoms) => Ok(before + entries_from(sources.last().path, atoms)),
                Err(fault) => Err(fault),
            },
            Err(fault) => Err(fault),
        }
    }
}

/// Once a line of a file is no atom, the files behind that file change
/// nothing.
pub proof fn lemma_fault_in_sources(sources: Seq<SourceView>, n: int)
    requires
        0 <= n <= sources.len(),
        entries_of_sources(sources.take(n)) is Err,
    ensures
        entries_of_sources(sources) == entries_of_sources(sources.take(n)),
    decreases sources.len() - n,
{
    if n < sources.len() {
        assert(sources.take(n + 1).drop_last() =~= sources.take(n));
        lemma_fault_in_sources(sources, n + 1);
    } else {
        assert(sources.take(n) =~= sources);
    }
}

/// How the atoms of a directory are grouped: by category where they are
/// split, by the file that they came from otherwise.
pub open spec fn grouping_mode(opts: RageSortOptions) -> GroupingMode {
    if opts.split {
        GroupingMode::ByCategory
    } else {
        GroupingMode::ByOriginFile
    }
}

/// The files that the groups replace: every USE file where the atoms are
/// split by category, and none otherwise.
pub open spec fn obsolete_sources(opts: RageSortOptions, sources: Seq<SourceView>) -> Seq<
    Seq<char>,
> {
    if opts.split {
        sources.map_values(|source: SourceView| source.path)
    } else {
        Seq::empty()
    }
}

/// What is to be done for the USE files of a directory: the files are taken
/// in the order of their paths, their atoms are grouped, each group is
/// sorted, and each group is written to its file. Where a line of any file
/// is no atom, nothing is done.
pub open spec fn directory_plan(opts: RageSortOptions, sources: Seq<SourceView>) -> Result<
    Seq<ActionView>,
    ParseFault,
> {
    let ordered = ordered_sources(sources);
    match entries_of_sources(ordered) {
        Ok(entries) => Ok(
            materialized(
                grouped(entries, grouping_mode(opts), opts.remove_versions),
                opts.pretend_mode,
                obsolete_sources(opts, ordered),
            ),
        ),
        Err(fault) => Err(fault),
    }
}

/// What is to be done for a directory rests on its files alone, not on the
/// order in which they are listed: two listings of the same files, with the
/// same options, have the same plan or the same error.
pub proof fn lemma_listing_order_is_no_matter(
    opts: RageSortOptions,
    first: Seq<SourceView>,
    second: Seq<SourceView>,
)
    requires
        first.to_multiset() == second.to_multiset(),
    ensures
        directory_plan(opts, first) == directory_plan(opts, second),
{
    lemma_ordered_sources_of_any_listing(first, second);
}

/// Says what is to be done for the USE files of a directory, in whatever
/// order they are listed. The destination of a group is the path of a USE
/// file, or, where the atoms are split, the name of a category: the name of
/// the file inside the directory.
pub fn process_use_directory<'a>(opts: &RageSortOptions, sources: &Vec<SourceFile<'a>>) -> (outcome:
    Result<Vec<FileAction<'a>>, ParseError<'a>>)
    ensures
        plan_view(outcome) == directory_plan(*opts, source_views(sources@)),
        outcome matches Ok(plan) ==> (opts.pretend_mode ==> forall|i: int|
            0 <= i < plan@.len() ==> (#[trigger] plan@[i]) is Preview),
{
    let pattern = VersionPattern::new();
    let ordered = sort_sources(sources);
    let ghost given = source_views(ordered@);
    let mut entries: Vec<Entry<'a>> = Vec::new();
    let mut obsolete: Vec<&'a str> = Vec::new();
    let mut s: usize = 0;
    assert(entry_views(entries@) =~= Seq::<EntryView>::empty());
    while s < ordered.len()
        invariant
            s <= ordered.len(),
            given == source_views(ordered@),
            given == ordered_sources(source_views(sources@)),
            entries_of_sources(given.take(s as int)) == Ok::<Seq<EntryView>, ParseFault>(
                entry_views(entries@),
            ),
            texts(obsolete@) == obsolete_sources(*opts, given.take(s as int)),
        decreases ordered.len() - s,
    {
        let source = ordered[s];
        let ghost before = entry_views(entries@);
        let ghost listed = texts(obsolete@);
        assert(given.take(s + 1).drop_last() =~= given.take(s as int));
        match parse_lines(&pattern, source.content) {
            Ok(atoms) => {
                let ghost more = entries_from(source.path@, atom_views(atoms@));
                for atom in it: atoms
                    invariant
                        it.seq() == atoms@,
                        more == entries_from(source.path@, atom_views(atoms@)),
                        entry_views(entries@) == before + more.take(it.index() as int),
                {
                    let ghost done = entry_views(entries@);
                    let entry = Entry { origin: source.path, atom };
                    entries.push(entry);
                    assert(entry_views(entries@) =~= done.push(entry@));
                }
                assert(more.take(atoms@.len() as int) =~= more);
            },
            Err(error) => {
                proof {
                    lemma_fault_in_sources(given, s + 1);
                }
                return Err(error);
            },
        }
        if opts.split {
            obsolete.push(source.path);
            assert(texts(obsolete@) =~= listed.push(source.path@));
        }
        s += 1;
    }
    assert(given.take(s as int) =~= given);
    let mode = if opts.split {
        GroupingMode::ByCategory
    } else {
        GroupingMode::ByOriginFile
    };
    let groups = group_and_sort(entries, mode, opts.remove_versions);
    Ok(materialize(&groups, opts.pretend_mode, &obsolete))
}

/// What `package.use` is: a single USE file, or a directory of USE files.
#[derive(Clone, Debug, PartialEq, Eq)]
pub enum PackageUse<'a> {
    File(SourceFile<'a>),
    Directory(Vec<SourceFile<'a>>),
}

/// What is to be done for `package.use`.
pub open spec fn sort_plan(opts: RageSortOptions, package_use: PackageUse) -> Result<
    Seq<ActionView>,
    ParseFault,
> {
    match package_use {
        PackageUse::File(source) => file_plan(opts, source@.path, source@.content),
        PackageUse::Directory(sources) => directory_plan(opts, source_views(sources@)),
    }
}

/// The sort command. It says what is to be done for `package.use`, which the
/// caller has read: which files to remove and which to write, in this order,
/// or what to show where the run only pretends. Where a line is no atom, the
/// error says which, and nothing is to be done.
pub fn rage_command_sort<'a>(opts: &RageSortOptions, package_use: &PackageUse<'a>) -> (outcome:
    Result<Vec<FileAction<'a>>, ParseError<'a>>)
    ensures
        plan_view(outcome) == sort_plan(*opts, *package_use),
        outcome matches Ok(plan) ==> (opts.pretend_mode ==> forall|i: int|
            0 <= i < plan@.len() ==> (#[trigger] plan@[i]) is Preview),
{
    match package_use {
        PackageUse::File(source) => process_use_file(opts, source.path, source.content),
        PackageUse::Directory(sources) => process_use_directory(opts, sources),
    }
}

} // verus!
