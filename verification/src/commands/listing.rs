//! The order of the USE files of a directory: by path, whatever the order in
//! which the directory lists them.
use crate::commands::sort::{source_views, SourceFile, SourceView};
use crate::portage::order::{
    lemma_text_le_antisymmetric, lemma_text_le_reflexive, lemma_text_le_total,
    lemma_text_le_transitive, text_before_or_equal, text_le,
};
use crate::portage::syntax::{chars_of, same_text};
use vstd::prelude::*;
use vstd::relations::{sorted_by, total_ordering};
use vstd::seq_lib::lemma_sorted_unique;

verus! {

/// Whether the file `a` stands before `b` or is the same file: by the path,
/// and among files with the same path by the text.
pub open spec fn source_le(a: SourceView, b: SourceView) -> bool {
    if a.path == b.path {
        text_le(a.content, b.content)
    } else {
        text_le(a.path, b.path)
    }
}

/// The order of the files, as a relation.
pub open spec fn by_path() -> spec_fn(SourceView, SourceView) -> bool {
    |a: SourceView, b: SourceView| source_le(a, b)
}

/// The files in the order of their paths.
pub open spec fn ordered_sources(sources: Seq<SourceView>) -> Seq<SourceView> {
    sources.sort_by(by_path())
}

/// The order of the files is a total order.
pub proof fn lemma_source_order_is_total()
    ensures
        total_ordering(by_path()),
{
    let le = by_path();
    assert forall|x: SourceView| #[trigger] le(x, x) by {
        lemma_text_le_reflexive(x.content);
    }
    assert forall|x: SourceView, y: SourceView| #[trigger] le(x, y) && #[trigger] le(y, x) implies x
        == y by {
        if x.path == y.path {
            lemma_text_le_antisymmetric(x.content, y.content);
        } else {
            lemma_text_le_antisymmetric(x.path, y.path);
        }
    }
    assert forall|x: SourceView, y: SourceView, z: SourceView| #[trigger]
        le(x, y) && #[trigger] le(y, z) implies le(x, z) by {
        if x.path == y.path && y.path == z.path {
            lemma_text_le_transitive(x.content, y.content, z.content);
        } else if x.path != y.path && y.path != z.path {
            lemma_text_le_transitive(x.path, y.path, z.path);
            if x.path == z.path {
                lemma_text_le_antisymmetric(x.path, y.path);
            }
        }
    }
    assert forall|x: SourceView, y: SourceView| #[trigger] le(x, y) || #[trigger] le(y, x) by {
        lemma_text_le_total(x.content, y.content);
        lemma_text_le_total(x.path, y.path);
    }
}

/// The files in the order of their paths are the files that were given, each
/// as often as it was given, and they stand in that order.
pub proof fn lemma_ordered_sources(sources: Seq<SourceView>)
    ensures
        sorted_by(ordered_sources(sources), by_path()),
        ordered_sources(sources).to_multiset() == sources.to_multiset(),
        ordered_sources(sources).len() == sources.len(),
{
    broadcast use vstd::seq_lib::group_to_multiset_ensures;

    lemma_source_order_is_total();
    sources.lemma_sort_by_ensures(by_path());
    assert(ordered_sources(sources).to_multiset().len() == ordered_sources(sources).len());
    assert(sources.to_multiset().len() == sources.len());
}

/// The order in which the files are listed is of no matter: two listings of
/// the same files come out in the same order.
pub proof fn lemma_ordered_sources_of_any_listing(first: Seq<SourceView>, second: Seq<SourceView>)
    requires
        first.to_multiset() == second.to_multiset(),
    ensures
        ordered_sources(first) == ordered_sources(second),
{
    lemma_source_order_is_total();
    lemma_ordered_sources(first);
    lemma_ordered_sources(second);
    lemma_sorted_unique(ordered_sources(first), ordered_sources(second), by_path());
}

/// Compares two files by their place in the order.
pub fn source_before_or_equal(a: &SourceFile, b: &SourceFile) -> (le: bool)
    ensures
        le == source_le(a@, b@),
{
    if same_text(a.path, b.path) {
        text_before_or_equal(&chars_of(a.content), &chars_of(b.content))
    } else {
        text_before_or_equal(&chars_of(a.path), &chars_of(b.path))
    }
}

/// Puts the files into the order of their paths.
pub fn sort_sources<'a>(sources: &Vec<SourceFile<'a>>) -> (sorted: Vec<SourceFile<'a>>)
    ensures
        source_views(sorted@) == ordered_sources(source_views(sources@)),
        sorted_by(source_views(sorted@), by_path()),
        source_views(sorted@).to_multiset() == source_views(sources@).to_multiset(),
{
    let ghost given = source_views(sources@);
    let mut sorted: Vec<SourceFile<'a>> = Vec::new();
    let mut i: usize = 0;
    assert(source_views(sorted@) =~= given.take(0));
    while i < sources.len()
        invariant
            i <= sources.len(),
            given == source_views(sources@),
            sorted_by(source_views(sorted@), by_path()),
            source_views(sorted@).to_multiset() == given.take(i as int).to_multiset(),
        decreases sources.len() - i,
    {
        let source = sources[i];
        let ghost before = source_views(sorted@);
        let mut at: usize = sorted.len();
        while at > 0 && !source_before_or_equal(&sorted[at - 1], &source)
            invariant
                at <= sorted.len(),
                before == source_views(sorted@),
                forall|k: int| at <= k < before.len() ==> !source_le(#[trigger] before[k], source@),
            decreases at,
        {
            at -= 1;
        }
        sorted.insert(at, source);
        proof {
            let after = source_views(sorted@);
            let le = by_path();
            lemma_source_order_is_total();
            assert(after =~= before.insert(at as int, source@));
            assert forall|x: int, y: int| 0 <= x < y < after.len() implies #[trigger] le(
                after[x],
                after[y],
            ) by {
                if y < at {
                    assert(le(before[x], before[y]));
                } else if y == at {
                    assert(le(before[x], before[at - 1]) || x == at - 1);
                    assert(le(before[at - 1], source@));
                } else if x < at {
                    assert(le(before[x], before[y - 1]));
                } else if x == at {
                    assert(le(source@, before[y - 1]) || le(before[y - 1], source@));
                } else {
                    assert(le(before[x - 1], before[y - 1]));
                }
            }
            assert(given.take(i + 1) =~= given.take(i as int).push(source@));
            vstd::seq_lib::to_multiset_insert(before, at as int, source@);
            vstd::seq_lib::to_multiset_build(given.take(i as int), source@);
        }
        i += 1;
    }
    proof {
        assert(given.take(i as int) =~= given);
        lemma_source_order_is_total();
        lemma_ordered_sources(given);
        lemma_sorted_unique(source_views(sorted@), ordered_sources(given), by_path());
    }
    sorted
}

} // verus!
