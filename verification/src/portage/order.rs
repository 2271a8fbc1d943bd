//! The order of package atoms: by the text of their lines, and among equal
//! lines by the place in the input.
use crate::portage::package::{AtomView, PackageAtom};
use crate::portage::syntax::chars_of;
use vstd::prelude::*;

verus! {

/// Whether the text `a` stands before `b` or equals it. The first character
/// in which the two differ decides, by its code point; a text stands before
/// every text that it starts.
pub open spec fn text_le(a: Seq<char>, b: Seq<char>) -> bool
    decreases a.len(),
{
    if a.len() == 0 {
        true
    } else if b.len() == 0 {
        false
    } else if a.first() != b.first() {
        a.first() < b.first()
    } else {
        text_le(a.drop_first(), b.drop_first())
    }
}

/// Every text stands before or equals itself.
pub proof fn lemma_text_le_reflexive(a: Seq<char>)
    ensures
        text_le(a, a),
    decreases a.len(),
{
    if a.len() > 0 {
        lemma_text_le_reflexive(a.drop_first());
    }
}

/// Of two texts one stands before the other, or they are equal.
pub proof fn lemma_text_le_total(a: Seq<char>, b: Seq<char>)
    ensures
        text_le(a, b) || text_le(b, a),
    decreases a.len(),
{
    if a.len() > 0 && b.len() > 0 && a.first() == b.first() {
        lemma_text_le_total(a.drop_first(), b.drop_first());
    }
}

/// Two texts that stand before or equal each other are the same text.
pub proof fn lemma_text_le_antisymmetric(a: Seq<char>, b: Seq<char>)
    requires
        text_le(a, b),
        text_le(b, a),
    ensures
        a == b,
    decreases a.len(),
{
    if a.len() > 0 {
        lemma_text_le_antisymmetric(a.drop_first(), b.drop_first());
        assert(a =~= seq![a.first()] + a.drop_first());
        assert(b =~= seq![b.first()] + b.drop_first());
    }
}

/// The order of texts is transitive.
pub proof fn lemma_text_le_transitive(a: Seq<char>, b: Seq<char>, c: Seq<char>)
    requires
        text_le(a, b),
        text_le(b, c),
    ensures
        text_le(a, c),
    decreases a.len(),
{
    if a.len() > 0 && a.first() == b.first() && b.first() == c.first() {
        lemma_text_le_transitive(a.drop_first(), b.drop_first(), c.drop_first());
    }
}

/// Compares two texts, given by their characters.
pub fn text_before_or_equal(a: &Vec<char>, b: &Vec<char>) -> (le: bool)
    ensures
        le == text_le(a@, b@),
{
    let mut i: usize = 0;
    assert(a@.skip(0) =~= a@);
    assert(b@.skip(0) =~= b@);
    while i < a.len() && i < b.len()
        invariant
            i <= a.len(),
            i <= b.len(),
            text_le(a@, b@) == text_le(a@.skip(i as int), b@.skip(i as int)),
        decreases a.len() - i,
    {
        if a[i] != b[i] {
            return a[i] < b[i];
        }
        assert(a@.skip(i as int).drop_first() =~= a@.skip(i + 1));
        assert(b@.skip(i as int).drop_first() =~= b@.skip(i + 1));
        i += 1;
    }
    i == a.len()
}

/// What the atoms of a vector say.
pub open spec fn atom_views(atoms: Seq<PackageAtom>) -> Seq<AtomView> {
    atoms.map_values(|atom: PackageAtom| atom@)
}

/// Whether the atoms stand in the order of their lines.
pub open spec fn sorted_by_text(atoms: Seq<AtomView>) -> bool {
    forall|i: int, j: int|
        0 <= i <= j < atoms.len() ==> text_le(#[trigger] atoms[i].text(), #[trigger] atoms[j].text())
}

/// The test whether the line of an atom is `text`.
pub open spec fn has_text(text: Seq<char>) -> spec_fn(AtomView) -> bool {
    |atom: AtomView| atom.text() == text
}

/// The atoms whose line is `text`, in the order in which they stand.
pub open spec fn with_text(atoms: Seq<AtomView>, text: Seq<char>) -> Seq<AtomView> {
    atoms.filter(has_text(text))
}

/// Where `atom` goes into `sorted`: right behind the last atom whose line
/// does not stand behind its own.
pub open spec fn insertion_point(sorted: Seq<AtomView>, atom: AtomView) -> int
    decreases sorted.len(),
{
    if sorted.len() == 0 || text_le(sorted.last().text(), atom.text()) {
        sorted.len() as int
    } else {
        insertion_point(sorted.drop_last(), atom)
    }
}

/// The atoms in the order of their lines. Atoms with the same line keep the
/// order in which they came.
pub open spec fn stable_sorted(atoms: Seq<AtomView>) -> Seq<AtomView>
    decreases atoms.len(),
{
    if atoms.len() == 0 {
        atoms
    } else {
        let before = stable_sorted(atoms.drop_last());
        before.insert(insertion_point(before, atoms.last()), atoms.last())
    }
}

/// The insertion point lies within the sequence or at its end. The line of
/// the atom in front of it does not stand behind the new line, and every line
/// from it on does.
pub proof fn lemma_insertion_point(sorted: Seq<AtomView>, atom: AtomView)
    ensures
        0 <= insertion_point(sorted, atom) <= sorted.len(),
        insertion_point(sorted, atom) > 0 ==> text_le(
            sorted[insertion_point(sorted, atom) - 1].text(),
            atom.text(),
        ),
        forall|i: int|
            insertion_point(sorted, atom) <= i < sorted.len() ==> !text_le(
                #[trigger] sorted[i].text(),
                atom.text(),
            ),
    decreases sorted.len(),
{
    if !(sorted.len() == 0 || text_le(sorted.last().text(), atom.text())) {
        let front = sorted.drop_last();
        lemma_insertion_point(front, atom);
        assert forall|i: int| insertion_point(sorted, atom) <= i < sorted.len() implies !text_le(
            #[trigger] sorted[i].text(),
            atom.text(),
        ) by {
            if i < front.len() {
                assert(sorted[i] == front[i]);
            }
        }
    }
}

/// Sorting keeps the number of atoms.
pub proof fn lemma_stable_sorted_len(atoms: Seq<AtomView>)
    ensures
        stable_sorted(atoms).len() == atoms.len(),
    decreases atoms.len(),
{
    if atoms.len() > 0 {
        let before = stable_sorted(atoms.drop_last());
        lemma_stable_sorted_len(atoms.drop_last());
        lemma_insertion_point(before, atoms.last());
    }
}

/// The sorted atoms stand in the order of their lines.
pub proof fn lemma_stable_sorted_is_sorted(atoms: Seq<AtomView>)
    ensures
        sorted_by_text(stable_sorted(atoms)),
    decreases atoms.len(),
{
    if atoms.len() > 0 {
        let before = stable_sorted(atoms.drop_last());
        let atom = atoms.last();
        let at = insertion_point(before, atom);
        let after = before.insert(at, atom);
        lemma_stable_sorted_is_sorted(atoms.drop_last());
        lemma_insertion_point(before, atom);
        assert forall|i: int, j: int| 0 <= i <= j < after.len() implies text_le(
            #[trigger] after[i].text(),
            #[trigger] after[j].text(),
        ) by {
            if j == at && i < at {
                lemma_text_le_transitive(before[i].text(), before[at - 1].text(), atom.text());
            } else if j == at {
                lemma_text_le_reflexive(atom.text());
            } else if j > at {
                lemma_text_le_total(before[j - 1].text(), atom.text());
            }
        }
    }
}

/// Sorting neither drops an atom nor adds one.
pub proof fn lemma_stable_sorted_keeps_atoms(atoms: Seq<AtomView>)
    ensures
        stable_sorted(atoms).to_multiset() == atoms.to_multiset(),
    decreases atoms.len(),
{
    broadcast use vstd::seq_lib::group_to_multiset_ensures;

    if atoms.len() > 0 {
        let before = stable_sorted(atoms.drop_last());
        lemma_stable_sorted_keeps_atoms(atoms.drop_last());
        lemma_insertion_point(before, atoms.last());
        assert(atoms =~= atoms.drop_last().push(atoms.last()));
    }
}

/// Atoms with the same line leave the sort in the order in which they
/// entered it.
pub proof fn lemma_stable_sorted_is_stable(atoms: Seq<AtomView>, text: Seq<char>)
    ensures
        with_text(stable_sorted(atoms), text) == with_text(atoms, text),
    decreases atoms.len(),
{
    let same = has_text(text);
    if atoms.len() > 0 {
        let front = atoms.drop_last();
        let before = stable_sorted(front);
        let atom = atoms.last();
        let at = insertion_point(before, atom);
        lemma_stable_sorted_is_stable(front, text);
        lemma_insertion_point(before, atom);
        let head = before.take(at);
        let tail = before.skip(at);
        assert(before =~= head + tail);
        assert(atoms =~= front.push(atom));
        Seq::filter_distributes_over_add(head, tail, same);
        Seq::filter_distributes_over_add(head.push(atom), tail, same);
        head.lemma_filter_push(atom, same);
        front.lemma_filter_push(atom, same);
        if same(atom) {
            assert forall|i: int| 0 <= i < tail.len() implies !same(#[trigger] tail[i]) by {
                lemma_text_le_reflexive(text);
            }
            tail.lemma_all_neg_filter_empty(same);
        }
    }
}

/// The order of sorted atoms is fixed. Two sequences that stand in the order
/// of their lines, and that hold for every line the same atoms in the same
/// order, are the same sequence.
pub proof fn lemma_sorted_order_is_fixed(a: Seq<AtomView>, b: Seq<AtomView>)
    requires
        sorted_by_text(a),
        sorted_by_text(b),
        forall|text: Seq<char>| #[trigger] with_text(a, text) == with_text(b, text),
    ensures
        a == b,
    decreases a.len() + b.len(),
{
    if a.len() == 0 || b.len() == 0 {
        if a.len() > 0 {
            let text = a.last().text();
            a.lemma_filter_contains(has_text(text), a.len() - 1);
            b.lemma_filter_len(has_text(text));
            assert(with_text(a, text) == with_text(b, text));
        }
        if b.len() > 0 {
            let text = b.last().text();
            b.lemma_filter_contains(has_text(text), b.len() - 1);
            a.lemma_filter_len(has_text(text));
            assert(with_text(a, text) == with_text(b, text));
        }
        assert(a =~= b);
    } else {
        let x = a.last();
        let y = b.last();
        let front = a.drop_last();
        let other = b.drop_last();
        assert(a =~= front.push(x));
        assert(b =~= other.push(y));
        // the last atoms have the same line
        a.lemma_filter_contains(has_text(x.text()), a.len() - 1);
        assert(with_text(a, x.text()) == with_text(b, x.text()));
        b.lemma_filter_contains_rev(has_text(x.text()), x);
        let j = choose|j: int| 0 <= j < b.len() && b[j] == x;
        assert(text_le(b[j].text(), b[b.len() - 1].text()));
        b.lemma_filter_contains(has_text(y.text()), b.len() - 1);
        assert(with_text(a, y.text()) == with_text(b, y.text()));
        a.lemma_filter_contains_rev(has_text(y.text()), y);
        let i = choose|i: int| 0 <= i < a.len() && a[i] == y;
        assert(text_le(a[i].text(), a[a.len() - 1].text()));
        lemma_text_le_antisymmetric(x.text(), y.text());
        // what stands in front of them agrees for every line
        assert forall|text: Seq<char>| #[trigger]
            with_text(front, text) == with_text(other, text) by {
            front.lemma_filter_push(x, has_text(text));
            other.lemma_filter_push(y, has_text(text));
            assert(with_text(a, text) == with_text(b, text));
            if text == x.text() {
                assert(with_text(front, text) =~= with_text(a, text).drop_last());
                assert(with_text(other, text) =~= with_text(b, text).drop_last());
            }
        }
        assert(sorted_by_text(front)) by {
            assert forall|i: int, j: int| 0 <= i <= j < front.len() implies text_le(
                #[trigger] front[i].text(),
                #[trigger] front[j].text(),
            ) by {
                assert(front[i] == a[i] && front[j] == a[j]);
            }
        }
        assert(sorted_by_text(other)) by {
            assert forall|i: int, j: int| 0 <= i <= j < other.len() implies text_le(
                #[trigger] other[i].text(),
                #[trigger] other[j].text(),
            ) by {
                assert(other[i] == b[i] && other[j] == b[j]);
            }
        }
        lemma_sorted_order_is_fixed(front, other);
        front.lemma_filter_push(x, has_text(x.text()));
        other.lemma_filter_push(y, has_text(x.text()));
        assert(with_text(a, x.text()).last() == x);
        assert(with_text(b, x.text()).last() == y);
    }
}

/// Sorting has one outcome only: whatever stands in the order of its lines
/// and keeps, for every line, the atoms with that line in the order of the
/// input, is the sorted input.
pub proof fn lemma_stable_sorted_is_the_only(atoms: Seq<AtomView>, sorted: Seq<AtomView>)
    requires
        sorted_by_text(sorted),
        forall|text: Seq<char>| #[trigger] with_text(sorted, text) == with_text(atoms, text),
    ensures
        sorted == stable_sorted(atoms),
{
    lemma_stable_sorted_is_sorted(atoms);
    assert forall|text: Seq<char>| #[trigger]
        with_text(sorted, text) == with_text(stable_sorted(atoms), text) by {
        lemma_stable_sorted_is_stable(atoms, text);
    }
    lemma_sorted_order_is_fixed(sorted, stable_sorted(atoms));
}

/// Sorts the atoms by the text of their lines. Atoms with the same line keep
/// the order in which they came.
pub fn sort_atoms<'a>(atoms: Vec<PackageAtom<'a>>) -> (sorted: Vec<PackageAtom<'a>>)
    ensures
        atom_views(sorted@) == stable_sorted(atom_views(atoms@)),
        sorted_by_text(atom_views(sorted@)),
        atom_views(sorted@).to_multiset() == atom_views(atoms@).to_multiset(),
        forall|text: Seq<char>| #[trigger]
            with_text(atom_views(sorted@), text) == with_text(atom_views(atoms@), text),
{
    let ghost given = atom_views(atoms@);
    let mut sorted: Vec<PackageAtom<'a>> = Vec::new();
    let mut lines: Vec<Vec<char>> = Vec::new();
    for atom in it: atoms
        invariant
            it.seq() == atoms@,
            given == atom_views(atoms@),
            atom_views(sorted@) == stable_sorted(given.take(it.index() as int)),
            lines@.len() == sorted@.len(),
            forall|k: int| 0 <= k < lines@.len() ==> (#[trigger] lines@[k])@ == sorted@[k]@.text(),
    {
        let ghost before = atom_views(sorted@);
        let text = atom.to_string();
        let line = chars_of(text.as_str());
        let mut at: usize = sorted.len();
        assert(before.take(at as int) =~= before);
        while at > 0 && !text_before_or_equal(&lines[at - 1], &line)
            invariant
                at <= sorted.len(),
                before == atom_views(sorted@),
                line@ == atom@.text(),
                lines@.len() == sorted@.len(),
                forall|k: int|
                    0 <= k < lines@.len() ==> (#[trigger] lines@[k])@ == sorted@[k]@.text(),
                insertion_point(before, atom@) == insertion_point(before.take(at as int), atom@),
            decreases at,
        {
            assert(before.take(at as int).drop_last() =~= before.take(at - 1));
            at -= 1;
        }
        proof {
            let i = it.index() as int;
            assert(given.take(i + 1).drop_last() =~= given.take(i));
        }
        lines.insert(at, line);
        sorted.insert(at, atom);
    }
    proof {
        assert(given.take(atoms@.len() as int) =~= given);
        lemma_stable_sorted_is_sorted(given);
        lemma_stable_sorted_keeps_atoms(given);
        assert forall|text: Seq<char>| #[trigger]
            with_text(atom_views(sorted@), text) == with_text(given, text) by {
            lemma_stable_sorted_is_stable(given, text);
        }
    }
    sorted
}

} // verus!
