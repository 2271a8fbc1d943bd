//! Which atoms go into which file, and in which order they stand there.
use crate::portage::order::{
    atom_views, lemma_stable_sorted_is_sorted, lemma_stable_sorted_is_the_only,
    lemma_stable_sorted_keeps_atoms, sort_atoms, sorted_by_text, stable_sorted, with_text,
};
use crate::portage::package::{AtomView, PackageAtom};
use crate::portage::syntax::same_text;
use crate::sequences::{lemma_flatten_grows, lemma_flatten_same_items};
use vstd::prelude::*;

verus! {

/// What decides the file of an atom.
#[derive(Clone, Copy, Debug, PartialEq, Eq)]
pub enum GroupingMode {
    /// Every atom goes back to the file that it was read from.
    ByOriginFile,
    /// Every atom goes to the file that is named after its category.
    ByCategory,
}

/// A package atom and the path of the file that it was read from.
#[derive(Clone, Debug, PartialEq, Eq)]
pub struct Entry<'a> {
    pub origin: &'a str,
    pub atom: PackageAtom<'a>,
}

/// What an entry says.
pub struct EntryView {
    pub origin: Seq<char>,
    pub atom: AtomView,
}

impl<'a> View for Entry<'a> {
    type V = EntryView;

    open spec fn view(&self) -> EntryView {
        EntryView { origin: self.origin@, atom: self.atom@ }
    }
}

/// The atoms of one file. The key is the path of the file where atoms are
/// grouped by the file that they came from, and the name of the category
/// where they are grouped by category.
#[derive(Clone, Debug, PartialEq, Eq)]
pub struct Group<'a> {
    pub key: &'a str,
    pub atoms: Vec<PackageAtom<'a>>,
}

/// What a group says.
pub struct GroupView {
    pub key: Seq<char>,
    pub atoms: Seq<AtomView>,
}

impl<'a> View for Group<'a> {
    type V = GroupView;

    open spec fn view(&self) -> GroupView {
        GroupView { key: self.key@, atoms: atom_views(self.atoms@) }
    }
}

/// What the entries of a vector say.
pub open spec fn entry_views(entries: Seq<Entry>) -> Seq<EntryView> {
    entries.map_values(|entry: Entry| entry@)
}

/// What the groups of a vector say.
pub open spec fn group_views(groups: Seq<Group>) -> Seq<GroupView> {
    groups.map_values(|group: Group| group@)
}

/// The key of the group that `entry` goes to.
pub open spec fn destination(entry: EntryView, mode: GroupingMode) -> Seq<char> {
    match mode {
        GroupingMode::ByOriginFile => entry.origin,
        GroupingMode::ByCategory => entry.atom.category,
    }
}

/// The atom as it is written: without its version where versions are
/// stripped, and as it is otherwise.
pub open spec fn prepared(atom: AtomView, strip_versions: bool) -> AtomView {
    if strip_versions {
        AtomView { version: None, ..atom }
    } else {
        atom
    }
}

/// The test whether an entry goes to the group of `key`.
pub open spec fn goes_to(mode: GroupingMode, key: Seq<char>) -> spec_fn(EntryView) -> bool {
    |entry: EntryView| destination(entry, mode) == key
}

/// The step from an entry to the atom that is written for it.
pub open spec fn prepare(strip_versions: bool) -> spec_fn(EntryView) -> AtomView {
    |entry: EntryView| prepared(entry.atom, strip_versions)
}

/// The atoms that are written, in the order of the entries.
pub open spec fn prepared_atoms(entries: Seq<EntryView>, strip_versions: bool) -> Seq<AtomView> {
    entries.map_values(prepare(strip_versions))
}

/// The atoms of the group of `key`, in the order of the entries.
pub open spec fn members(
    entries: Seq<EntryView>,
    mode: GroupingMode,
    strip_versions: bool,
    key: Seq<char>,
) -> Seq<AtomView> {
    prepared_atoms(entries.filter(goes_to(mode, key)), strip_versions)
}

/// The keys of the groups: the destinations of the entries, each once, in the
/// order in which they first occur.
pub open spec fn destinations(entries: Seq<EntryView>, mode: GroupingMode) -> Seq<Seq<char>>
    decreases entries.len(),
{
    if entries.len() == 0 {
        Seq::empty()
    } else {
        let before = destinations(entries.drop_last(), mode);
        let key = destination(entries.last(), mode);
        if before.contains(key) {
            before
        } else {
            before.push(key)
        }
    }
}

/// The groups before they are sorted: one for each destination, with its
/// atoms in the order of the entries.
pub open spec fn collected(
    entries: Seq<EntryView>,
    mode: GroupingMode,
    strip_versions: bool,
) -> Seq<GroupView> {
    destinations(entries, mode).map_values(
        |key: Seq<char>| GroupView { key, atoms: members(entries, mode, strip_versions, key) },
    )
}

/// The groups: one for each destination, in the order in which the
/// destinations first occur, each with its atoms in the order of their lines.
pub open spec fn grouped(
    entries: Seq<EntryView>,
    mode: GroupingMode,
    strip_versions: bool,
) -> Seq<GroupView> {
    destinations(entries, mode).map_values(
        |key: Seq<char>|
            GroupView { key, atoms: stable_sorted(members(entries, mode, strip_versions, key)) },
    )
}

/// The atoms of all groups, group by group.
pub open spec fn all_atoms(groups: Seq<GroupView>) -> Seq<AtomView> {
    groups.map_values(|group: GroupView| group.atoms).flatten()
}

/// Whether some entry goes to the group of `key`.
pub open spec fn is_destination(entries: Seq<EntryView>, mode: GroupingMode, key: Seq<char>) -> bool {
    exists|i: int| 0 <= i < entries.len() && destination(#[trigger] entries[i], mode) == key
}

/// No key occurs twice among the destinations, and a key is among them
/// exactly if some entry goes to it.
pub proof fn lemma_destinations(entries: Seq<EntryView>, mode: GroupingMode)
    ensures
        destinations(entries, mode).no_duplicates(),
        forall|key: Seq<char>|
            #![trigger destinations(entries, mode).contains(key)]
            destinations(entries, mode).contains(key) <==> is_destination(entries, mode, key),
    decreases entries.len(),
{
    let keys = destinations(entries, mode);
    if entries.len() > 0 {
        let front = entries.drop_last();
        let before = destinations(front, mode);
        let last = destination(entries.last(), mode);
        lemma_destinations(front, mode);
        assert forall|key: Seq<char>| keys.contains(key) implies is_destination(
            entries,
            mode,
            key,
        ) by {
            if before.contains(key) {
                assert(is_destination(front, mode, key));
                let i = choose|i: int|
                    0 <= i < front.len() && destination(#[trigger] front[i], mode) == key;
                assert(entries[i] == front[i]);
            } else {
                assert(key == last);
                assert(destination(entries[entries.len() - 1], mode) == key);
            }
        }
        assert forall|key: Seq<char>| is_destination(entries, mode, key) implies keys.contains(
            key,
        ) by {
            let i = choose|i: int|
                0 <= i < entries.len() && destination(#[trigger] entries[i], mode) == key;
            if i < front.len() {
                assert(front[i] == entries[i]);
                assert(is_destination(front, mode, key));
                assert(before.contains(key));
                let at = choose|at: int| 0 <= at < before.len() && before[at] == key;
                assert(keys[at] == key);
            } else if before.contains(key) {
                let at = choose|at: int| 0 <= at < before.len() && before[at] == key;
                assert(keys[at] == key);
            } else {
                assert(keys[before.len() as int] == key);
            }
        }
    }
}

/// One more entry is one more atom in the group that it goes to, and changes
/// no other group.
pub proof fn lemma_members_push(
    entries: Seq<EntryView>,
    entry: EntryView,
    mode: GroupingMode,
    strip_versions: bool,
    key: Seq<char>,
)
    ensures
        members(entries.push(entry), mode, strip_versions, key) == if destination(entry, mode)
            == key {
            members(entries, mode, strip_versions, key).push(prepared(entry.atom, strip_versions))
        } else {
            members(entries, mode, strip_versions, key)
        },
{
    entries.lemma_filter_push(entry, goes_to(mode, key));
}

/// A key that is no destination has no atoms.
pub proof fn lemma_members_without_destination(
    entries: Seq<EntryView>,
    mode: GroupingMode,
    strip_versions: bool,
    key: Seq<char>,
)
    requires
        !destinations(entries, mode).contains(key),
    ensures
        members(entries, mode, strip_versions, key) == Seq::<AtomView>::empty(),
{
    let going = goes_to(mode, key);
    lemma_destinations(entries, mode);
    assert forall|i: int| 0 <= i < entries.len() implies !going(#[trigger] entries[i]) by {
        if destination(entries[i], mode) == key {
            assert(is_destination(entries, mode, key));
        }
    }
    entries.lemma_all_neg_filter_empty(going);
}

/// An entry whose destination has a group already adds its atom to the end
/// of that group.
pub proof fn lemma_collected_joins(
    entries: Seq<EntryView>,
    entry: EntryView,
    mode: GroupingMode,
    strip_versions: bool,
    at: int,
)
    requires
        0 <= at < destinations(entries, mode).len(),
        destinations(entries, mode)[at] == destination(entry, mode),
    ensures
        at < collected(entries, mode, strip_versions).len(),
        collected(entries.push(entry), mode, strip_versions) == collected(
            entries,
            mode,
            strip_versions,
        ).update(
            at,
            GroupView {
                key: destination(entry, mode),
                atoms: collected(entries, mode, strip_versions)[at].atoms.push(
                    prepared(entry.atom, strip_versions),
                ),
            },
        ),
{
    let more = entries.push(entry);
    let keys = destinations(entries, mode);
    let before = collected(entries, mode, strip_versions);
    let after = collected(more, mode, strip_versions);
    lemma_destinations(entries, mode);
    assert(more.drop_last() =~= entries);
    assert forall|g: int| 0 <= g < keys.len() implies #[trigger] after[g] == if g == at {
        GroupView {
            key: destination(entry, mode),
            atoms: before[at].atoms.push(prepared(entry.atom, strip_versions)),
        }
    } else {
        before[g]
    } by {
        lemma_members_push(entries, entry, mode, strip_versions, keys[g]);
    }
}

/// An entry whose destination has no group yet opens a group behind all
/// others.
pub proof fn lemma_collected_opens(
    entries: Seq<EntryView>,
    entry: EntryView,
    mode: GroupingMode,
    strip_versions: bool,
)
    requires
        !destinations(entries, mode).contains(destination(entry, mode)),
    ensures
        collected(entries.push(entry), mode, strip_versions) == collected(
            entries,
            mode,
            strip_versions,
        ).push(
            GroupView {
                key: destination(entry, mode),
                atoms: seq![prepared(entry.atom, strip_versions)],
            },
        ),
{
    let more = entries.push(entry);
    let key = destination(entry, mode);
    let keys = destinations(entries, mode);
    let before = collected(entries, mode, strip_versions);
    let after = collected(more, mode, strip_versions);
    assert(more.drop_last() =~= entries);
    lemma_members_without_destination(entries, mode, strip_versions, key);
    lemma_members_push(entries, entry, mode, strip_versions, key);
    assert forall|g: int| 0 <= g < keys.len() implies #[trigger] after[g] == before[g] by {
        lemma_members_push(entries, entry, mode, strip_versions, keys[g]);
    }
}

/// Collecting neither drops an atom nor adds one.
pub proof fn lemma_collected_keeps_atoms(
    entries: Seq<EntryView>,
    mode: GroupingMode,
    strip_versions: bool,
)
    ensures
        all_atoms(collected(entries, mode, strip_versions)).to_multiset() == prepared_atoms(
            entries,
            strip_versions,
        ).to_multiset(),
    decreases entries.len(),
{
    broadcast use vstd::seq_lib::group_to_multiset_ensures;

    if entries.len() > 0 {
        let front = entries.drop_last();
        let entry = entries.last();
        let key = destination(entry, mode);
        let atom = prepared(entry.atom, strip_versions);
        let keys = destinations(front, mode);
        let before = collected(front, mode, strip_versions);
        let after = collected(entries, mode, strip_versions);
        lemma_collected_keeps_atoms(front, mode, strip_versions);
        assert(entries =~= front.push(entry));
        assert(prepared_atoms(entries, strip_versions) =~= prepared_atoms(
            front,
            strip_versions,
        ).push(atom));
        if keys.contains(key) {
            let at = choose|at: int| 0 <= at < keys.len() && keys[at] == key;
            lemma_collected_joins(front, entry, mode, strip_versions, at);
            let parts = before.map_values(|group: GroupView| group.atoms);
            assert(after.map_values(|group: GroupView| group.atoms) =~= parts.update(
                at,
                parts[at].push(atom),
            ));
            lemma_flatten_grows(parts, at, atom);
        } else {
            lemma_collected_opens(front, entry, mode, strip_versions);
            let parts = before.map_values(|group: GroupView| group.atoms);
            assert(after.map_values(|group: GroupView| group.atoms) =~= parts.push(seq![atom]));
            parts.lemma_flatten_push(seq![atom]);
            vstd::seq_lib::lemma_multiset_commutative(parts.flatten(), seq![atom]);
        }
    }
}

/// Grouping neither drops an atom nor adds one: the groups together hold
/// exactly the atoms of the entries, each as often as it was given.
pub proof fn lemma_grouped_keeps_atoms(
    entries: Seq<EntryView>,
    mode: GroupingMode,
    strip_versions: bool,
)
    ensures
        all_atoms(grouped(entries, mode, strip_versions)).to_multiset() == prepared_atoms(
            entries,
            strip_versions,
        ).to_multiset(),
        all_atoms(grouped(entries, mode, strip_versions)).len() == entries.len(),
{
    broadcast use vstd::seq_lib::group_to_multiset_ensures;

    let keys = destinations(entries, mode);
    let loose = collected(entries, mode, strip_versions).map_values(|group: GroupView| group.atoms);
    let sorted = grouped(entries, mode, strip_versions).map_values(|group: GroupView| group.atoms);
    assert forall|g: int| 0 <= g < sorted.len() implies sorted[g].to_multiset()
        == loose[g].to_multiset() by {
        lemma_stable_sorted_keeps_atoms(members(entries, mode, strip_versions, keys[g]));
    }
    lemma_flatten_same_items(sorted, loose);
    lemma_collected_keeps_atoms(entries, mode, strip_versions);
    let all = all_atoms(grouped(entries, mode, strip_versions));
    assert(all.to_multiset().len() == all.len());
}

/// Where no version is stripped, the groups together hold exactly the atoms
/// that the entries came with, each as often as it was given.
pub proof fn lemma_grouped_keeps_given_atoms(entries: Seq<EntryView>, mode: GroupingMode)
    ensures
        all_atoms(grouped(entries, mode, false)).to_multiset() == entries.map_values(
            |entry: EntryView| entry.atom,
        ).to_multiset(),
        all_atoms(grouped(entries, mode, false)).len() == entries.len(),
{
    lemma_grouped_keeps_atoms(entries, mode, false);
    assert(prepared_atoms(entries, false) =~= entries.map_values(|entry: EntryView| entry.atom));
}

/// The groups have different keys, every key is the destination of an entry,
/// every destination of an entry is a key, and the atoms of every group
/// stand in the order of their lines.
pub proof fn lemma_grouped(entries: Seq<EntryView>, mode: GroupingMode, strip_versions: bool)
    ensures
        grouped(entries, mode, strip_versions).len() == destinations(entries, mode).len(),
        forall|g: int, h: int|
            0 <= g < h < grouped(entries, mode, strip_versions).len() ==> (#[trigger] grouped(
                entries,
                mode,
                strip_versions,
            )[g]).key != (#[trigger] grouped(entries, mode, strip_versions)[h]).key,
        forall|g: int|
            0 <= g < grouped(entries, mode, strip_versions).len() ==> {
                let group = #[trigger] grouped(entries, mode, strip_versions)[g];
                &&& is_destination(entries, mode, group.key)
                &&& sorted_by_text(group.atoms)
                &&& group.atoms.to_multiset() == members(
                    entries,
                    mode,
                    strip_versions,
                    group.key,
                ).to_multiset()
            },
        forall|i: int|
            0 <= i < entries.len() ==> destinations(entries, mode).contains(
                destination(#[trigger] entries[i], mode),
            ),
{
    let keys = destinations(entries, mode);
    lemma_destinations(entries, mode);
    assert forall|g: int| 0 <= g < grouped(entries, mode, strip_versions).len() implies {
        let group = #[trigger] grouped(entries, mode, strip_versions)[g];
        &&& is_destination(entries, mode, group.key)
        &&& sorted_by_text(group.atoms)
        &&& group.atoms.to_multiset() == members(
            entries,
            mode,
            strip_versions,
            group.key,
        ).to_multiset()
    } by {
        assert(keys.contains(keys[g]));
        lemma_stable_sorted_is_sorted(members(entries, mode, strip_versions, keys[g]));
        lemma_stable_sorted_keeps_atoms(members(entries, mode, strip_versions, keys[g]));
    }
}

/// Takes the version off every atom where versions are stripped, and leaves
/// the atoms as they are otherwise.
pub fn prepare_atoms<'a>(atoms: Vec<PackageAtom<'a>>, strip_versions: bool) -> (ready: Vec<
    PackageAtom<'a>,
>)
    ensures
        atom_views(ready@) == atom_views(atoms@).map_values(
            |atom: AtomView| prepared(atom, strip_versions),
        ),
{
    let ghost wanted = atom_views(atoms@).map_values(
        |atom: AtomView| prepared(atom, strip_versions),
    );
    let mut ready: Vec<PackageAtom<'a>> = Vec::new();
    for atom in it: atoms
        invariant
            it.seq() == atoms@,
            wanted == atom_views(atoms@).map_values(
                |atom: AtomView| prepared(atom, strip_versions),
            ),
            atom_views(ready@) == wanted.take(it.index() as int),
    {
        let ghost done = atom_views(ready@);
        let mut atom = atom;
        if strip_versions {
            atom.version = None;
        }
        ready.push(atom);
        assert(atom_views(ready@) =~= done.push(atom@));
    }
    ready
}

/// Groups the entries and sorts every group. With `strip_versions` every
/// atom loses its version first. The groups come in the order in which their
/// keys first occur among the entries.
pub fn group_and_sort<'a>(entries: Vec<Entry<'a>>, mode: GroupingMode, strip_versions: bool) -> (groups:
    Vec<Group<'a>>)
    ensures
        group_views(groups@) == grouped(entry_views(entries@), mode, strip_versions),
        all_atoms(group_views(groups@)).to_multiset() == prepared_atoms(
            entry_views(entries@),
            strip_versions,
        ).to_multiset(),
        all_atoms(group_views(groups@)).len() == entries@.len(),
        forall|g: int, h: int|
            0 <= g < h < groups@.len() ==> (#[trigger] groups@[g]).key@ != (#[trigger] groups@[h]).key@,
        forall|g: int|
            0 <= g < groups@.len() ==> sorted_by_text(atom_views((#[trigger] groups@[g]).atoms@)),
{
    let ghost given = entry_views(entries@);
    let mut loose: Vec<Group<'a>> = Vec::new();
    for entry in it: entries
        invariant
            it.seq() == entries@,
            given == entry_views(entries@),
            group_views(loose@) == collected(given.take(it.index() as int), mode, strip_versions),
    {
        let ghost seen = given.take(it.index() as int);
        let ghost before = group_views(loose@);
        let key: &'a str = match mode {
            GroupingMode::ByOriginFile => entry.origin,
            GroupingMode::ByCategory => entry.atom.category,
        };
        let mut atom = entry.atom;
        if strip_versions {
            atom.version = None;
        }
        assert(given.take(it.index() + 1) =~= seen.push(entry@));
        let mut at: usize = 0;
        while at < loose.len() && !same_text(loose[at].key, key)
            invariant
                at <= loose.len(),
                forall|g: int| 0 <= g < at ==> (#[trigger] loose@[g]).key@ != key@,
            decreases loose.len() - at,
        {
            at += 1;
        }
        assert(before.len() == loose@.len());
        if at < loose.len() {
            proof {
                assert(before[at as int] == loose@[at as int]@);
                lemma_collected_joins(seen, entry@, mode, strip_versions, at as int);
            }
            let ghost earlier = loose@;
            loose[at].atoms.push(atom);
            assert(atom_views(earlier[at as int].atoms@.push(atom)) =~= atom_views(
                earlier[at as int].atoms@,
            ).push(atom@));
        } else {
            proof {
                let keys = destinations(seen, mode);
                assert forall|g: int| 0 <= g < keys.len() implies keys[g] != key@ by {
                    assert(before[g] == loose@[g]@);
                }
                lemma_collected_opens(seen, entry@, mode, strip_versions);
            }
            let mut atoms: Vec<PackageAtom<'a>> = Vec::new();
            atoms.push(atom);
            assert(atom_views(atoms@) =~= seq![atom@]);
            loose.push(Group { key, atoms });
        }
    }
    assert(given.take(entries@.len() as int) =~= given);
    let ghost unsorted = group_views(loose@);
    let ghost wanted = grouped(given, mode, strip_versions);
    let mut groups: Vec<Group<'a>> = Vec::new();
    for group in it: loose
        invariant
            it.seq() == loose@,
            wanted.len() == loose@.len(),
            unsorted.len() == loose@.len(),
            unsorted == group_views(loose@),
            unsorted == collected(given, mode, strip_versions),
            wanted == grouped(given, mode, strip_versions),
            group_views(groups@) == wanted.take(it.index() as int),
    {
        let ghost done = group_views(groups@);
        let ghost g = it.index() as int;
        assert(unsorted[g] == group@);
        let key = group.key;
        let atoms = sort_atoms(group.atoms);
        let sorted = Group { key, atoms };
        groups.push(sorted);
        assert(group_views(groups@) =~= done.push(wanted[g]));
    }
    proof {
        assert(wanted.take(loose@.len() as int) =~= wanted);
        lemma_grouped_keeps_atoms(given, mode, strip_versions);
        lemma_grouped(given, mode, strip_versions);
        assert forall|g: int, h: int| 0 <= g < h < groups@.len() implies (#[trigger] groups@[g]).key@
            != (#[trigger] groups@[h]).key@ by {
            assert(wanted[g] == groups@[g]@);
            assert(wanted[h] == groups@[h]@);
        }
        assert forall|g: int| 0 <= g < groups@.len() implies sorted_by_text(
            atom_views((#[trigger] groups@[g]).atoms@),
        ) by {
            assert(wanted[g] == groups@[g]@);
        }
    }
    groups
}

/// Grouping has one outcome only. Groups that have the destinations as their
/// keys, in the order in which they first occur, whose atoms stand in the order
/// of their lines, and that hold for every line the atoms of their key with that
/// line in the order of the entries, are the groups that the entries are
/// grouped into.
pub proof fn lemma_grouped_is_the_only(
    entries: Seq<EntryView>,
    mode: GroupingMode,
    strip_versions: bool,
    groups: Seq<GroupView>,
)
    requires
        groups.len() == destinations(entries, mode).len(),
        forall|g: int|
            0 <= g < groups.len() ==> (#[trigger] groups[g]).key == destinations(entries, mode)[g],
        forall|g: int| 0 <= g < groups.len() ==> sorted_by_text((#[trigger] groups[g]).atoms),
        forall|g: int, text: Seq<char>|
            0 <= g < groups.len() ==> #[trigger] with_text(groups[g].atoms, text) == with_text(
                members(entries, mode, strip_versions, groups[g].key),
                text,
            ),
    ensures
        groups == grouped(entries, mode, strip_versions),
{
    let wanted = grouped(entries, mode, strip_versions);
    assert forall|g: int| 0 <= g < groups.len() implies groups[g] == wanted[g] by {
        let given = members(entries, mode, strip_versions, groups[g].key);
        lemma_stable_sorted_is_the_only(given, groups[g].atoms);
    }
}

/// Two runs on the same entries give the same groups.
pub proof fn lemma_group_and_sort_twice(
    entries: Vec<Entry>,
    mode: GroupingMode,
    strip_versions: bool,
    first: Vec<Group>,
    second: Vec<Group>,
)
    requires
        call_ensures(group_and_sort, (entries, mode, strip_versions), first),
        call_ensures(group_and_sort, (entries, mode, strip_versions), second),
    ensures
        group_views(first@) == group_views(second@),
{
}

} // verus!
