//! Sorting qualities into the order of suggestion.

use crate::estimator::GuessQuality;
use crate::ranker::{compare_quality, lemma_not_precedes_transitive, precedes, Rank};
use std::cmp::Ordering;
use vstd::prelude::*;

verus! {

/// Whether no entry of the list is suggested before an entry that stands
/// earlier in it.
pub open spec fn is_ranked(list: Seq<GuessQuality>) -> bool {
    forall|i: int, j: int|
        0 <= i < j < list.len() ==> !precedes(#[trigger] list[j], #[trigger] list[i])
}

/// Whether every entry of the list is measured against at least one target,
/// so that its mean is a fraction with a denominator.
pub open spec fn all_rankable(list: Seq<GuessQuality>) -> bool {
    forall|i: int| 0 <= i < list.len() ==> (#[trigger] list[i]).num_targets > 0
}

/// Whether neither of two entries is suggested before the other. Among
/// entries that are each measured against at least one target this is
/// being equal in the order: see `lemma_tied_transitive`. An entry without
/// targets has no mean, and may stand in this relation to entries that are
/// not equal in the order.
pub open spec fn is_tied(a: GuessQuality, b: GuessQuality) -> bool {
    !precedes(a, b) && !precedes(b, a)
}

/// Among entries that are each measured against at least one target, two
/// that are tied with a third are tied with each other.
pub proof fn lemma_tied_transitive(a: GuessQuality, b: GuessQuality, c: GuessQuality)
    requires
        a.num_targets > 0,
        b.num_targets > 0,
        c.num_targets > 0,
        is_tied(a, b),
        is_tied(b, c),
    ensures
        is_tied(a, c),
{
    lemma_not_precedes_transitive(a, b, c);
    lemma_not_precedes_transitive(c, b, a);
}

/// The entries of the list that are tied with `with`, in the order of the
/// list.
pub open spec fn tied_entries<'a>(list: Seq<GuessQuality<'a>>, with: GuessQuality) -> Seq<
    GuessQuality<'a>,
> {
    list.filter(|entry: GuessQuality| is_tied(entry, with))
}

/// The standing of `a` with respect to `b` in the form that sorting takes.
pub fn ordering_of(a: &GuessQuality, b: &GuessQuality) -> (order: Ordering)
    ensures
        order == Ordering::Less <==> precedes(*a, *b),
        order == Ordering::Greater <==> precedes(*b, *a),
{
    match compare_quality(a, b) {
        Rank::Before => Ordering::Less,
        Rank::Same => Ordering::Equal,
        Rank::After => Ordering::Greater,
    }
}

/// Calls `sort_by` of the standard library's slices with `ordering_of` as
/// the comparison. The contract states what the documentation of `sort_by`
/// promises of a comparison that is a total order: the list holds the
/// entries it held, each as often as before, they stand in ascending
/// order, and entries that compare as equal keep their order. The last is
/// stated class by class: the entries that are equal in the order to one
/// quality `with` stand as they stood. It is stated only of a `with` that
/// is itself measured against at least one target, since only then are the
/// entries tied with it one class of the comparison. Where the comparison
/// is no total order `sort_by` may panic: the entries must all be measured
/// against at least one target, which makes it one.
#[verifier::external_body]
fn sort_by_rank(list: &mut Vec<GuessQuality>)
    requires
        all_rankable(old(list)@),
    ensures
        final(list)@.to_multiset() == old(list)@.to_multiset(),
        is_ranked(final(list)@),
        forall|with: GuessQuality|
            with.num_targets > 0 ==> #[trigger] tied_entries(final(list)@, with) == tied_entries(
                old(list)@,
                with,
            ),
{
    list.sort_by(|a, b| ordering_of(a, b));
}

/// Sorts qualities into the order of suggestion, best first. Entries that
/// are equal in the order keep the order they had: those tied with any one
/// quality that is measured against at least one target stand as they
/// stood.
pub fn rank_qualities(list: &mut Vec<GuessQuality>)
    requires
        all_rankable(old(list)@),
    ensures
        final(list)@.to_multiset() == old(list)@.to_multiset(),
        is_ranked(final(list)@),
        forall|with: GuessQuality|
            with.num_targets > 0 ==> #[trigger] tied_entries(final(list)@, with) == tied_entries(
                old(list)@,
                with,
            ),
{
    sort_by_rank(list);
}

} // verus!
