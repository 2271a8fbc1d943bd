//! Facts about sequences of sequences that the grouping rests on.
use vstd::prelude::*;
use vstd::seq_lib::{lemma_flatten_concat, lemma_multiset_commutative};

verus! {

/// One more item in one of the inner sequences is one more item in the
/// flattened sequence.
pub proof fn lemma_flatten_grows<A>(parts: Seq<Seq<A>>, at: int, item: A)
    requires
        0 <= at < parts.len(),
    ensures
        parts.update(at, parts[at].push(item)).flatten().to_multiset() == parts.flatten().to_multiset().insert(
            item,
        ),
{
    broadcast use vstd::seq_lib::group_to_multiset_ensures;

    let head = parts.take(at);
    let tail = parts.skip(at + 1);
    let grown = parts.update(at, parts[at].push(item));
    assert(parts =~= head + seq![parts[at]] + tail);
    assert(grown =~= head + seq![parts[at].push(item)] + tail);
    lemma_flatten_concat(head + seq![parts[at]], tail);
    lemma_flatten_concat(head, seq![parts[at]]);
    lemma_flatten_concat(head + seq![parts[at].push(item)], tail);
    lemma_flatten_concat(head, seq![parts[at].push(item)]);
    seq![parts[at]].lemma_flatten_singleton();
    seq![parts[at].push(item)].lemma_flatten_singleton();
    let h = head.flatten();
    let t = tail.flatten();
    lemma_multiset_commutative(h + parts[at], t);
    lemma_multiset_commutative(h, parts[at]);
    lemma_multiset_commutative(h + parts[at].push(item), t);
    lemma_multiset_commutative(h, parts[at].push(item));
}

/// Where each inner sequence holds the same items as its counterpart, the
/// flattened sequences hold the same items.
pub proof fn lemma_flatten_same_items<A>(left: Seq<Seq<A>>, right: Seq<Seq<A>>)
    requires
        left.len() == right.len(),
        forall|i: int| 0 <= i < left.len() ==> left[i].to_multiset() == right[i].to_multiset(),
    ensures
        left.flatten().to_multiset() == right.flatten().to_multiset(),
    decreases left.len(),
{
    if left.len() > 0 {
        lemma_flatten_same_items(left.drop_last(), right.drop_last());
        assert(left =~= left.drop_last().push(left.last()));
        assert(right =~= right.drop_last().push(right.last()));
        left.drop_last().lemma_flatten_push(left.last());
        right.drop_last().lemma_flatten_push(right.last());
        lemma_multiset_commutative(left.drop_last().flatten(), left.last());
        lemma_multiset_commutative(right.drop_last().flatten(), right.last());
    }
}

} // verus!
