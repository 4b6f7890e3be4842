//! The digits of a score, told by counting letters.
//!
//! A letter of the guess that is not in its place is reported as present
//! as long as the target still has an occurrence of it to give: it gets
//! digit 1 if fewer guess positions before it hold the same letter out of
//! place than the target has positions that hold the letter out of place.
//! This module proves that the two passes of the scorer give exactly these
//! digits.

use crate::scorer::{
    consumed, exact_positions, feedback_digit, is_free, leftmost_free, lemma_leftmost_free_some,
};
use vstd::prelude::*;

verus! {

/// Whether position `j` of the target holds `letter` and is not matched in
/// place by the guess.
pub open spec fn is_open(guess: Seq<u8>, target: Seq<u8>, letter: u8, j: int) -> bool {
    target[j] == letter && guess[j] != target[j]
}

/// The number of target positions before `n` that hold `letter` and are not
/// matched in place.
pub open spec fn open_count(guess: Seq<u8>, target: Seq<u8>, letter: u8, n: int) -> nat
    decreases n,
{
    if n <= 0 {
        0
    } else {
        open_count(guess, target, letter, n - 1) + (if is_open(guess, target, letter, n - 1) {
            1nat
        } else {
            0nat
        })
    }
}

/// The number of guess positions before `i` that hold `letter` and are not
/// in their place.
pub open spec fn asked_count(guess: Seq<u8>, target: Seq<u8>, letter: u8, i: int) -> nat
    decreases i,
{
    if i <= 0 {
        0
    } else {
        asked_count(guess, target, letter, i - 1) + (if guess[i - 1] == letter && guess[i - 1]
            != target[i - 1] {
            1nat
        } else {
            0nat
        })
    }
}

/// The digit of guess position `i`, by counting.
pub open spec fn counted_digit(guess: Seq<u8>, target: Seq<u8>, i: int) -> int {
    if guess[i] == target[i] {
        2
    } else if asked_count(guess, target, guess[i], i) < open_count(
        guess,
        target,
        guess[i],
        target.len() as int,
    ) {
        1
    } else {
        0
    }
}

/// The number of target positions before `n` that hold `letter`, are not
/// matched in place, and are used up.
spec fn taken_count(guess: Seq<u8>, target: Seq<u8>, used: Set<int>, letter: u8, n: int) -> nat
    decreases n,
{
    if n <= 0 {
        0
    } else {
        taken_count(guess, target, used, letter, n - 1) + (if is_open(guess, target, letter, n - 1)
            && used.contains(n - 1) {
            1nat
        } else {
            0nat
        })
    }
}

/// The positions matched in place stay used up throughout the second pass.
proof fn lemma_exact_stay_consumed(guess: Seq<u8>, target: Seq<u8>, i: int, j: int)
    requires
        exact_positions(guess, target).contains(j),
    ensures
        consumed(guess, target, i).contains(j),
    decreases i,
{
    if i > 0 {
        lemma_exact_stay_consumed(guess, target, i - 1, j);
    }
}

/// No more positions are taken than are open. Where fewer are, one that is
/// open is not used up; where as many are, every open one is used up.
proof fn lemma_taken_and_open(
    guess: Seq<u8>,
    target: Seq<u8>,
    used: Set<int>,
    letter: u8,
    n: int,
)
    ensures
        taken_count(guess, target, used, letter, n) <= open_count(guess, target, letter, n),
        taken_count(guess, target, used, letter, n) < open_count(guess, target, letter, n)
            ==> exists|j: int| 0 <= j < n && is_open(guess, target, letter, j) && !used.contains(j),
        taken_count(guess, target, used, letter, n) == open_count(guess, target, letter, n)
            ==> forall|j: int| 0 <= j < n && is_open(guess, target, letter, j) ==> used.contains(j),
    decreases n,
{
    if n > 0 {
        lemma_taken_and_open(guess, target, used, letter, n - 1);
        let taken_before = taken_count(guess, target, used, letter, n - 1);
        let open_before = open_count(guess, target, letter, n - 1);
        if taken_count(guess, target, used, letter, n) < open_count(guess, target, letter, n) {
            if taken_before < open_before {
                let j = choose|j: int|
                    0 <= j < n - 1 && is_open(guess, target, letter, j) && !used.contains(j);
                assert(0 <= j < n && is_open(guess, target, letter, j) && !used.contains(j));
            } else {
                assert(is_open(guess, target, letter, n - 1) && !used.contains(n - 1));
            }
        }
    }
}

/// Using up one more position takes one more of the positions that hold
/// its letter, if it is open, and no other.
proof fn lemma_taken_after_insert(
    guess: Seq<u8>,
    target: Seq<u8>,
    used: Set<int>,
    at: int,
    letter: u8,
    n: int,
)
    requires
        !used.contains(at),
    ensures
        taken_count(guess, target, used.insert(at), letter, n) == taken_count(
            guess,
            target,
            used,
            letter,
            n,
        ) + (if 0 <= at < n && is_open(guess, target, letter, at) {
            1nat
        } else {
            0nat
        }),
    decreases n,
{
    if n > 0 {
        lemma_taken_after_insert(guess, target, used, at, letter, n - 1);
    }
}

/// Of the positions matched in place none is taken.
proof fn lemma_taken_of_exact(guess: Seq<u8>, target: Seq<u8>, letter: u8, n: int)
    requires
        n <= guess.len(),
        n <= target.len(),
    ensures
        taken_count(guess, target, exact_positions(guess, target), letter, n) == 0,
    decreases n,
{
    if n > 0 {
        lemma_taken_of_exact(guess, target, letter, n - 1);
    }
}

/// A position that is free for a letter is open for it.
proof fn lemma_free_is_open(guess: Seq<u8>, target: Seq<u8>, i: int, letter: u8, j: int)
    requires
        guess.len() == target.len(),
        is_free(target, consumed(guess, target, i), letter, j),
    ensures
        is_open(guess, target, letter, j),
{
    if guess[j] == target[j] {
        assert(exact_positions(guess, target).contains(j));
        lemma_exact_stay_consumed(guess, target, i, j);
    }
}

/// A letter has a free position exactly when fewer of its open positions
/// are taken than there are.
proof fn lemma_free_by_count(guess: Seq<u8>, target: Seq<u8>, i: int, letter: u8)
    requires
        guess.len() == target.len(),
    ensures
        leftmost_free(target, consumed(guess, target, i), letter) is Some <==> taken_count(
            guess,
            target,
            consumed(guess, target, i),
            letter,
            target.len() as int,
        ) < open_count(guess, target, letter, target.len() as int),
{
    let used = consumed(guess, target, i);
    let n = target.len() as int;
    lemma_taken_and_open(guess, target, used, letter, n);
    if exists|j: int| is_free(target, used, letter, j) {
        let j = choose|j: int| is_free(target, used, letter, j);
        lemma_free_is_open(guess, target, i, letter, j);
    }
    if taken_count(guess, target, used, letter, n) < open_count(guess, target, letter, n) {
        let j = choose|j: int| 0 <= j < n && is_open(guess, target, letter, j) && !used.contains(j);
        assert(is_free(target, used, letter, j));
    }
}

/// When the second pass reaches guess position `i`, it has taken, of the
/// open positions of a letter, as many as it was asked for before `i`, or
/// all of them where it was asked for more.
proof fn lemma_taken_by_asking(guess: Seq<u8>, target: Seq<u8>, i: int, letter: u8)
    requires
        guess.len() == target.len(),
        0 <= i <= guess.len(),
    ensures
        taken_count(guess, target, consumed(guess, target, i), letter, target.len() as int) == (
        if asked_count(guess, target, letter, i) < open_count(
            guess,
            target,
            letter,
            target.len() as int,
        ) {
            asked_count(guess, target, letter, i)
        } else {
            open_count(guess, target, letter, target.len() as int)
        }),
    decreases i,
{
    let n = target.len() as int;
    if i == 0 {
        lemma_taken_of_exact(guess, target, letter, n);
    } else {
        let k = i - 1;
        let before = consumed(guess, target, k);
        lemma_taken_by_asking(guess, target, k, letter);
        if guess[k] != target[k] {
            let asked = guess[k];
            lemma_free_by_count(guess, target, k, asked);
            lemma_taken_by_asking(guess, target, k, asked);
            match leftmost_free(target, before, asked) {
                Some(at) => {
                    let free = choose|j: int| is_free(target, before, asked, j);
                    lemma_leftmost_free_some(target, before, asked, free);
                    assert(is_free(target, before, asked, at));
                    lemma_free_is_open(guess, target, k, asked, at);
                    lemma_taken_after_insert(guess, target, before, at, letter, n);
                },
                None => {},
            }
        }
    }
}

/// The two passes give every guess position the digit that counting gives
/// it.
pub proof fn lemma_digit_by_counting(guess: Seq<u8>, target: Seq<u8>, i: int)
    requires
        guess.len() == target.len(),
        0 <= i < guess.len(),
    ensures
        feedback_digit(guess, target, i) == counted_digit(guess, target, i),
{
    if guess[i] != target[i] {
        lemma_free_by_count(guess, target, i, guess[i]);
        lemma_taken_by_asking(guess, target, i, guess[i]);
    }
}

} // verus!
