//! What a round of the game does with a score that came back.

use crate::codec::{WordScore, WORD_LENGTH};
use crate::estimator::{all_words, word_list};
use crate::scorer::{letters, score_spec, score_word_pair};
use vstd::prelude::*;

verus! {

/// The targets that give `guess` the score `score`, in the order of the
/// list.
pub open spec fn matching(guess: Seq<u8>, targets: Seq<&str>, score: int) -> Seq<&str>
    decreases targets.len(),
{
    if targets.len() == 0 {
        targets
    } else {
        let before = matching(guess, targets.drop_last(), score);
        if score_spec(guess, letters(targets.last())) == score {
            before.push(targets.last())
        } else {
            before
        }
    }
}

/// The first `limit` of the targets that give `guess` the score `score`, or
/// all of them where there are no more.
pub open spec fn first_matching(guess: Seq<u8>, targets: Seq<&str>, score: int, limit: int) -> Seq<
    &str,
> {
    let all = matching(guess, targets, score);
    if all.len() <= limit {
        all
    } else {
        all.take(limit)
    }
}

/// The targets that match among the first `i` are the first of all that
/// match.
proof fn lemma_matching_prefix(guess: Seq<u8>, targets: Seq<&str>, score: int, i: int)
    requires
        0 <= i <= targets.len(),
    ensures
        matching(guess, targets.take(i), score).len() <= matching(guess, targets, score).len(),
        matching(guess, targets, score).take(
            matching(guess, targets.take(i), score).len() as int,
        ) == matching(guess, targets.take(i), score),
    decreases targets.len() - i,
{
    let all = matching(guess, targets, score);
    let here = matching(guess, targets.take(i), score);
    if i == targets.len() {
        assert(targets.take(i) =~= targets);
        assert(all.take(all.len() as int) =~= all);
    } else {
        lemma_matching_prefix(guess, targets, score, i + 1);
        let next = matching(guess, targets.take(i + 1), score);
        assert(targets.take(i + 1).drop_last() =~= targets.take(i));
        assert(next.take(here.len() as int) =~= here);
        assert(all.take(here.len() as int) =~= all.take(next.len() as int).take(
            here.len() as int,
        ));
    }
}

/// No more targets match than there are.
pub proof fn lemma_matching_len(guess: Seq<u8>, targets: Seq<&str>, score: int)
    ensures
        matching(guess, targets, score).len() <= targets.len(),
    decreases targets.len(),
{
    if targets.len() > 0 {
        lemma_matching_len(guess, targets.drop_last(), score);
    }
}

/// Collects the targets that give `guess` the score `score`, in the order
/// of the list, and stops at `limit` of them. With the length of the list
/// as the limit it keeps every target that is still possible after `guess`
/// got `score`.
pub fn targets_with_score<'t>(
    guess: &str,
    targets: &[&'t str],
    score: WordScore,
    limit: usize,
) -> (found: Vec<&'t str>)
    requires
        letters(guess).len() == WORD_LENGTH,
        all_words(word_list(targets@)),
    ensures
        found@ == first_matching(letters(guess), targets@, score as int, limit as int),
{
    let ghost gs = letters(guess);
    let mut found: Vec<&'t str> = Vec::new();
    let mut i: usize = 0;
    while i < targets.len() && found.len() < limit
        invariant
            gs == letters(guess),
            gs.len() == WORD_LENGTH,
            all_words(word_list(targets@)),
            i <= targets.len(),
            found@.len() <= limit,
            found@ == matching(gs, targets@.take(i as int), score as int),
        decreases targets.len() - i,
    {
        proof {
            assert(word_list(targets@)[i as int].len() == WORD_LENGTH);
            assert(targets@.take(i + 1).drop_last() =~= targets@.take(i as int));
        }
        if score_word_pair(guess, targets[i]) == score {
            found.push(targets[i]);
        }
        i += 1;
    }
    proof {
        lemma_matching_prefix(gs, targets@, score as int, i as int);
        if i == targets.len() {
            assert(targets@.take(i as int) =~= targets@);
        }
    }
    found
}

/// How far the targets are narrowed down.
#[derive(Clone, Copy, Debug, PartialEq, Eq, Structural)]
pub enum Narrowing {
    /// No target is left: some guess or score was not what was played.
    Impossible,
    /// One target is left: it is the word.
    Solved,
    /// Two targets are left: either is as good a guess as any.
    Pair,
    /// More are left: a guess has to be chosen.
    Open,
}

/// How far a list of `remaining` targets is narrowed down.
pub fn narrowing(remaining: usize) -> (state: Narrowing)
    ensures
        state == (if remaining == 0 {
            Narrowing::Impossible
        } else if remaining == 1 {
            Narrowing::Solved
        } else if remaining == 2 {
            Narrowing::Pair
        } else {
            Narrowing::Open
        }),
{
    if remaining == 0 {
        Narrowing::Impossible
    } else if remaining == 1 {
        Narrowing::Solved
    } else if remaining == 2 {
        Narrowing::Pair
    } else {
        Narrowing::Open
    }
}

} // verus!
