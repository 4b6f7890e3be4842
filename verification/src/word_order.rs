//! The order of suggestion as an order of words.
//!
//! Against one list of targets, what is estimated of a guess depends on its
//! letters alone. The order of suggestion is therefore an order of words.
//! This module defines it over whole numbers of any size, and proves that
//! it is a strict total order: of two different words one is suggested
//! before the other. So a list of guesses has one ranking, whichever way
//! and in whichever order the guesses are estimated, and however many
//! targets there are.

use crate::codec::NUM_SCORES;
use crate::estimator::{
    can_win, is_quality_of, largest_bucket, lemma_quality_largest, squares_total, GuessQuality,
};
use crate::ranker::{
    lemma_lex_irreflexive, lemma_lex_total, lemma_lex_transitive, lex_less, precedes,
};
use crate::scorer::letters;
use vstd::prelude::*;
use vstd::relations::{sorted_by, total_ordering};
use vstd::seq_lib::lemma_sorted_unique;

verus! {

/// The size of the largest bucket of a word.
pub open spec fn word_max(word: Seq<u8>, targets: Seq<Seq<u8>>) -> nat {
    largest_bucket(word, targets, NUM_SCORES as int)
}

/// The sum of the squared bucket sizes of a word: its mean number of
/// targets left, times the number of targets.
pub open spec fn word_squares(word: Seq<u8>, targets: Seq<Seq<u8>>) -> nat {
    squares_total(word, targets, NUM_SCORES as int)
}

/// The cost of a word, times the number of targets.
pub open spec fn word_cost(word: Seq<u8>, targets: Seq<Seq<u8>>) -> nat {
    word_max(word, targets) * word_squares(word, targets)
}

/// Whether word `a` is suggested before word `b` against `targets`.
pub open spec fn word_precedes(a: Seq<u8>, b: Seq<u8>, targets: Seq<Seq<u8>>) -> bool {
    if word_cost(a, targets) != word_cost(b, targets) {
        word_cost(a, targets) < word_cost(b, targets)
    } else if can_win(a, targets) != can_win(b, targets) {
        can_win(a, targets)
    } else if word_max(a, targets) != word_max(b, targets) {
        word_max(a, targets) < word_max(b, targets)
    } else if word_squares(a, targets) != word_squares(b, targets) {
        word_squares(a, targets) < word_squares(b, targets)
    } else {
        lex_less(a, b)
    }
}

/// Whether no word of the list is suggested before one that stands earlier
/// in it.
pub open spec fn is_word_ranking(words: Seq<Seq<u8>>, targets: Seq<Seq<u8>>) -> bool {
    forall|i: int, j: int|
        0 <= i < j < words.len() ==> !word_precedes(
            #[trigger] words[j],
            #[trigger] words[i],
            targets,
        )
}

/// No word is suggested before itself.
pub proof fn lemma_word_order_irreflexive(a: Seq<u8>, targets: Seq<Seq<u8>>)
    ensures
        !word_precedes(a, a, targets),
{
    lemma_lex_irreflexive(a);
}

/// Of two different words exactly one is suggested before the other.
pub proof fn lemma_word_order_total(a: Seq<u8>, b: Seq<u8>, targets: Seq<Seq<u8>>)
    ensures
        !(word_precedes(a, b, targets) && word_precedes(b, a, targets)),
        a != b ==> word_precedes(a, b, targets) || word_precedes(b, a, targets),
{
    lemma_lex_total(a, b);
}

/// If `a` is suggested before `b` and `b` before `c`, then `a` is suggested
/// before `c`.
pub proof fn lemma_word_order_transitive(
    a: Seq<u8>,
    b: Seq<u8>,
    c: Seq<u8>,
    targets: Seq<Seq<u8>>,
)
    requires
        word_precedes(a, b, targets),
        word_precedes(b, c, targets),
    ensures
        word_precedes(a, c, targets),
{
    if lex_less(a, b) && lex_less(b, c) {
        lemma_lex_transitive(a, b, c);
    }
}

/// Against targets that are not none, one quality is suggested before
/// another exactly when its word is suggested before the other's.
pub proof fn lemma_precedes_is_word_order(
    a: GuessQuality,
    guess_a: &str,
    b: GuessQuality,
    guess_b: &str,
    targets: Seq<Seq<u8>>,
)
    requires
        is_quality_of(a, guess_a, targets),
        is_quality_of(b, guess_b, targets),
        targets.len() > 0,
    ensures
        precedes(a, b) == word_precedes(letters(guess_a), letters(guess_b), targets),
{
    lemma_quality_largest(a, guess_a, targets);
    lemma_quality_largest(b, guess_b, targets);
    let n = targets.len() as int;
    let cost_a = a.max_remaining * a.squares_sum;
    let cost_b = b.max_remaining * b.squares_sum;
    let mean_a = a.squares_sum as int;
    let mean_b = b.squares_sum as int;
    assert(cost_a == word_cost(letters(guess_a), targets));
    assert(cost_b == word_cost(letters(guess_b), targets));
    assert((cost_a * n < cost_b * n) == (cost_a < cost_b) && (cost_a * n == cost_b * n) == (cost_a
        == cost_b)) by (nonlinear_arith)
        requires
            n > 0,
    ;
    assert((mean_a * n < mean_b * n) == (mean_a < mean_b) && (mean_a * n == mean_b * n) == (mean_a
        == mean_b)) by (nonlinear_arith)
        requires
            n > 0,
    ;
}

/// A list of words has one ranking: two lists that hold the same words,
/// each as often, and are both ranked against the same targets, are the
/// same list. This holds of every list of targets, however long, and in
/// whatever order the words were given.
pub proof fn lemma_word_ranking_unique(
    first: Seq<Seq<u8>>,
    second: Seq<Seq<u8>>,
    targets: Seq<Seq<u8>>,
)
    requires
        is_word_ranking(first, targets),
        is_word_ranking(second, targets),
        first.to_multiset() == second.to_multiset(),
    ensures
        first == second,
{
    let leq = |a: Seq<u8>, b: Seq<u8>| !word_precedes(b, a, targets);
    assert(total_ordering(leq)) by {
        assert forall|a: Seq<u8>| #[trigger] leq(a, a) by {
            lemma_word_order_irreflexive(a, targets);
        }
        assert forall|a: Seq<u8>, b: Seq<u8>| #[trigger] leq(a, b) && #[trigger] leq(b, a) implies a
            == b by {
            lemma_word_order_total(a, b, targets);
        }
        assert forall|a: Seq<u8>, b: Seq<u8>, c: Seq<u8>| #[trigger]
            leq(a, b) && #[trigger] leq(b, c) implies leq(a, c) by {
            lemma_word_order_total(a, b, targets);
            lemma_word_order_total(b, c, targets);
            if word_precedes(c, a, targets) {
                if a == b {
                } else if b == c {
                } else {
                    lemma_word_order_transitive(a, b, c, targets);
                    lemma_word_order_total(a, c, targets);
                }
            }
        }
        assert forall|a: Seq<u8>, b: Seq<u8>| #[trigger] leq(a, b) || #[trigger] leq(b, a) by {
            lemma_word_order_total(a, b, targets);
        }
    }
    assert(sorted_by(first, leq));
    assert(sorted_by(second, leq));
    lemma_sorted_unique(first, second, leq);
}

} // verus!
