//! The list of suggestions for one round of the game.

use crate::codec::WORD_LENGTH;
use crate::estimator::{
    all_words, estimate_guess_quality, is_quality_of, lemma_quality_determined, row, word_list,
    GuessQuality, SuggestionRow,
};
use crate::permutation::lemma_map_multiset;
use crate::ranker::{lemma_precedes_irreflexive, lemma_tie, precedes};
use crate::scorer::letters;
use crate::sorting::{all_rankable, is_ranked, rank_qualities};
use crate::word_order::{is_word_ranking, lemma_precedes_is_word_order, word_precedes};
use vstd::prelude::*;
use vstd::seq_lib::*;

verus! {

/// The letters of the guesses of a list of qualities.
pub open spec fn words(list: Seq<GuessQuality>) -> Seq<Seq<u8>> {
    Seq::new(list.len(), |i: int| letters(list[i].guess))
}

/// What a list of qualities shows, entry by entry.
pub open spec fn rows(list: Seq<GuessQuality>) -> Seq<SuggestionRow> {
    Seq::new(list.len(), |i: int| row(list[i]))
}

/// Whether every entry of the list is the quality of its guess against
/// `targets`.
pub open spec fn all_estimated(list: Seq<GuessQuality>, targets: Seq<Seq<u8>>) -> bool {
    forall|i: int|
        0 <= i < list.len() ==> is_quality_of(#[trigger] list[i], list[i].guess, targets)
}

/// Whether `ranking` ranks `guesses` against `targets`: it holds the
/// quality of each guess, the guesses are those of `guesses`, each as often
/// as there, and no entry is suggested before one that stands earlier.
pub open spec fn is_ranking_of(
    ranking: Seq<GuessQuality>,
    guesses: Seq<Seq<u8>>,
    targets: Seq<Seq<u8>>,
) -> bool {
    &&& is_ranked(ranking)
    &&& all_estimated(ranking, targets)
    &&& words(ranking).to_multiset() == guesses.to_multiset()
}

/// Two ranked lists of the qualities of the same words against the same
/// targets show the same, entry by entry.
proof fn lemma_ranked_rows(x: Seq<GuessQuality>, y: Seq<GuessQuality>, targets: Seq<Seq<u8>>)
    requires
        is_ranked(x),
        is_ranked(y),
        all_estimated(x, targets),
        all_estimated(y, targets),
        words(x).to_multiset() == words(y).to_multiset(),
    ensures
        rows(x) == rows(y),
    decreases x.len(),
{
    broadcast use vstd::multiset::group_multiset_axioms;
    broadcast use group_to_multiset_ensures;

    to_multiset_len(words(x));
    to_multiset_len(words(y));
    if x.len() == 0 {
        assert(rows(x) =~= rows(y));
    } else {
        let wx = words(x);
        let wy = words(y);
        assert(wx.contains(wx[0]));
        assert(wy.to_multiset().count(wx[0]) > 0);
        assert(wy.contains(wx[0]));
        let j = choose|j: int| 0 <= j < wy.len() && wy[j] == wx[0];
        lemma_quality_determined(x[0], x[0].guess, y[j], y[j].guess, targets);
        assert(wy.contains(wy[0]));
        assert(wx.to_multiset().count(wy[0]) > 0);
        assert(wx.contains(wy[0]));
        let i = choose|i: int| 0 <= i < wx.len() && wx[i] == wy[0];
        lemma_quality_determined(y[0], y[0].guess, x[i], x[i].guess, targets);
        lemma_precedes_irreflexive(x[0]);
        lemma_precedes_irreflexive(y[0]);
        assert(!precedes(y[j], y[0]));
        assert(!precedes(x[i], x[0]));
        assert(!precedes(x[0], y[0]));
        assert(!precedes(y[0], x[0]));
        lemma_tie(x[0], y[0]);
        lemma_quality_determined(x[0], x[0].guess, y[0], y[0].guess, targets);
        let x1 = x.drop_first();
        let y1 = y.drop_first();
        assert(words(x1) =~= wx.drop_first());
        assert(words(y1) =~= wy.drop_first());
        to_multiset_remove(wx, 0);
        to_multiset_remove(wy, 0);
        assert(wx.remove(0) =~= wx.drop_first());
        assert(wy.remove(0) =~= wy.drop_first());
        lemma_ranked_rows(x1, y1, targets);
        assert forall|k: int| 0 <= k < x.len() implies rows(x)[k] == rows(y)[k] by {
            if k > 0 {
                assert(rows(x)[k] == rows(x1)[k - 1]);
                assert(rows(y)[k] == rows(y1)[k - 1]);
            }
        }
        assert(rows(x) =~= rows(y));
    }
}

/// Ranking is deterministic: two rankings of the same guesses against the
/// same targets show the same entries in the same order, in whatever order
/// the guesses were given or estimated.
pub proof fn lemma_ranking_deterministic(
    first: Seq<GuessQuality>,
    second: Seq<GuessQuality>,
    first_guesses: Seq<Seq<u8>>,
    second_guesses: Seq<Seq<u8>>,
    targets: Seq<Seq<u8>>,
)
    requires
        is_ranking_of(first, first_guesses, targets),
        is_ranking_of(second, second_guesses, targets),
        first_guesses.to_multiset() == second_guesses.to_multiset(),
    ensures
        rows(first) == rows(second),
{
    lemma_ranked_rows(first, second, targets);
}

/// The words of a ranking stand in the order of suggestion of words: they
/// are the one ranking that the guesses have against the targets.
pub proof fn lemma_ranking_words(
    ranking: Seq<GuessQuality>,
    guesses: Seq<Seq<u8>>,
    targets: Seq<Seq<u8>>,
)
    requires
        is_ranking_of(ranking, guesses, targets),
        targets.len() > 0,
    ensures
        is_word_ranking(words(ranking), targets),
        words(ranking).to_multiset() == guesses.to_multiset(),
{
    let w = words(ranking);
    assert forall|i: int, j: int| 0 <= i < j < w.len() implies !word_precedes(
        #[trigger] w[j],
        #[trigger] w[i],
        targets,
    ) by {
        lemma_precedes_is_word_order(
            ranking[j],
            ranking[j].guess,
            ranking[i],
            ranking[i].guess,
            targets,
        );
        assert(!precedes(ranking[j], ranking[i]));
    }
}

/// Qualities that were estimated guess by guess, in any order, and then
/// sorted into the order of suggestion, rank the guesses.
pub proof fn lemma_ranking_of_estimates(
    ranked: Seq<GuessQuality>,
    estimated: Seq<GuessQuality>,
    guesses: Seq<&str>,
    targets: Seq<Seq<u8>>,
)
    requires
        estimated.len() == guesses.len(),
        forall|k: int|
            0 <= k < estimated.len() ==> is_quality_of(
                #[trigger] estimated[k],
                guesses[k],
                targets,
            ),
        ranked.to_multiset() == estimated.to_multiset(),
        is_ranked(ranked),
    ensures
        ranked.len() == guesses.len(),
        is_ranking_of(ranked, word_list(guesses), targets),
{
    broadcast use vstd::multiset::group_multiset_axioms;
    broadcast use group_to_multiset_ensures;

    to_multiset_len(ranked);
    to_multiset_len(estimated);
    let word = |q: GuessQuality| letters(q.guess);
    assert(words(estimated) =~= word_list(guesses));
    lemma_map_multiset(ranked, estimated, word);
    assert(words(ranked) =~= ranked.map_values(word));
    assert(words(estimated) =~= estimated.map_values(word));
    assert forall|k: int| 0 <= k < ranked.len() implies is_quality_of(
        #[trigger] ranked[k],
        ranked[k].guess,
        targets,
    ) by {
        assert(ranked.contains(ranked[k]));
        assert(estimated.to_multiset().count(ranked[k]) > 0);
        assert(estimated.contains(ranked[k]));
        let m = choose|m: int| 0 <= m < estimated.len() && estimated[m] == ranked[k];
        assert(is_quality_of(estimated[m], guesses[m], targets));
    }
}

/// Estimates every guess against the targets, and ranks the guesses, best
/// first.
pub fn generate_suggestions<'a>(guesses: &[&'a str], targets: &[&str]) -> (ranking: Vec<
    GuessQuality<'a>,
>)
    requires
        all_words(word_list(guesses@)),
        all_words(word_list(targets@)),
        0 < targets.len() <= u16::MAX,
    ensures
        ranking@.len() == guesses@.len(),
        is_ranking_of(ranking@, word_list(guesses@), word_list(targets@)),
        all_rankable(ranking@),
{
    let ghost ts = word_list(targets@);
    let mut list: Vec<GuessQuality<'a>> = Vec::new();
    for i in 0..guesses.len()
        invariant
            ts == word_list(targets@),
            all_words(word_list(guesses@)),
            all_words(ts),
            0 < targets.len() <= u16::MAX,
            list@.len() == i,
            forall|k: int| 0 <= k < i ==> is_quality_of(#[trigger] list@[k], guesses@[k], ts),
            all_rankable(list@),
    {
        proof {
            assert(word_list(guesses@)[i as int].len() == WORD_LENGTH);
        }
        let quality = estimate_guess_quality(guesses[i], targets);
        list.push(quality);
    }
    let ghost estimated = list@;
    rank_qualities(&mut list);
    proof {
        lemma_ranking_of_estimates(list@, estimated, guesses@, ts);
        assert forall|k: int| 0 <= k < list@.len() implies (#[trigger] list@[k]).num_targets
            > 0 by {
            assert(is_quality_of(list@[k], list@[k].guess, ts));
        }
    }
    list
}

/// The number of leading entries of a ranking that are always shown.
pub const ALWAYS_SHOWN: usize = 15;

/// The number of winning entries after which the printed list may end.
pub const ENOUGH_WINNING: usize = 4;

/// The index after which the printed list may end.
pub const LEAST_LAST: usize = 10;

/// The number of targets of the largest bucket that are shown with an
/// entry.
pub const MAX_TARGETS_SHOWN: usize = 10;

/// One line of the printed list of suggestions.
#[derive(Clone, Copy, Debug, PartialEq, Eq, Structural)]
pub enum SuggestionLine {
    /// The entry at this index of the ranking.
    Entry(usize),
    /// A note that this many entries are passed over.
    Omitted(usize),
}

/// Whether the entry at index `i` is shown: it is one of the first
/// `ALWAYS_SHOWN`, or it can win.
pub open spec fn is_shown(list: Seq<GuessQuality>, i: int) -> bool {
    i < ALWAYS_SHOWN || list[i].has_winning
}

/// The number of entries before index `n` that can win.
pub open spec fn winning_before(list: Seq<GuessQuality>, n: int) -> nat
    decreases n,
{
    if n <= 0 {
        0
    } else {
        winning_before(list, n - 1) + (if list[n - 1].has_winning {
            1nat
        } else {
            0nat
        })
    }
}

/// Whether the printed list ends with the entry at index `i`: more than
/// `ENOUGH_WINNING` entries up to it can win, and it lies after
/// `LEAST_LAST`.
pub open spec fn ends_at(list: Seq<GuessQuality>, i: int) -> bool {
    winning_before(list, i + 1) > ENOUGH_WINNING && i > LEAST_LAST
}

/// The number of entries that the printed list looks at, from index `i`
/// on: up to the first at which it ends, or all.
pub open spec fn reach_from(list: Seq<GuessQuality>, i: int) -> int
    decreases list.len() - i,
{
    if i >= list.len() {
        list.len() as int
    } else if ends_at(list, i) {
        i + 1
    } else {
        reach_from(list, i + 1)
    }
}

/// The number of entries right before index `i` that are passed over in
/// one run.
pub open spec fn gap_before(list: Seq<GuessQuality>, i: int) -> nat
    decreases i,
{
    if i <= 0 || is_shown(list, i - 1) {
        0
    } else {
        gap_before(list, i - 1) + 1
    }
}

/// The lines for the first `n` entries: each entry that is shown, in
/// order, and before it a note of the entries passed over since the last
/// one, if any.
pub open spec fn lines_before(list: Seq<GuessQuality>, n: int) -> Seq<SuggestionLine>
    decreases n,
{
    if n <= 0 {
        Seq::empty()
    } else {
        let i = n - 1;
        let before = lines_before(list, i);
        if !is_shown(list, i) {
            before
        } else if gap_before(list, i) > 0 {
            before.push(SuggestionLine::Omitted(gap_before(list, i) as usize)).push(
                SuggestionLine::Entry(i as usize),
            )
        } else {
            before.push(SuggestionLine::Entry(i as usize))
        }
    }
}

/// The lines of the printed list of suggestions.
pub open spec fn suggestion_lines(list: Seq<GuessQuality>) -> Seq<SuggestionLine> {
    lines_before(list, reach_from(list, 0))
}

/// Lays out the printed list for a ranking: which entries it shows, and
/// where it notes that entries are passed over.
pub fn suggested_guess_lines(list: &[GuessQuality]) -> (lines: Vec<SuggestionLine>)
    ensures
        lines@ == suggestion_lines(list@),
{
    let mut lines: Vec<SuggestionLine> = Vec::new();
    let mut num_winning: usize = 0;
    let mut num_skipped: usize = 0;
    let mut i: usize = 0;
    while i < list.len()
        invariant_except_break
            reach_from(list@, 0) == reach_from(list@, i as int),
        invariant
            i <= list.len(),
            num_winning == winning_before(list@, i as int),
            num_winning <= i,
            num_skipped == gap_before(list@, i as int),
            num_skipped <= i,
            lines@ == lines_before(list@, i as int),
        ensures
            i <= list.len(),
            reach_from(list@, 0) == i,
            lines@ == lines_before(list@, i as int),
        decreases list.len() - i,
    {
        if i < ALWAYS_SHOWN || list[i].has_winning {
            if num_skipped > 0 {
                lines.push(SuggestionLine::Omitted(num_skipped));
                num_skipped = 0;
            }
            lines.push(SuggestionLine::Entry(i));
        } else {
            num_skipped += 1;
        }
        if list[i].has_winning {
            num_winning += 1;
        }
        if num_winning > ENOUGH_WINNING && i > LEAST_LAST {
            i += 1;
            break;
        }
        i += 1;
    }
    lines
}

} // verus!
