//! Scoring one guess against one target.
//!
//! The score is found in two passes over the letters of the guess. The
//! first pass marks every position where guess and target hold the same
//! letter; both letters are then used up. The second pass takes the
//! remaining guess letters from left to right and pairs each with the
//! leftmost target letter that is equal to it and not yet used up. A
//! letter marked in the first pass gets digit 2, one paired in the second
//! pass gets digit 1, and any other gets digit 0.
//!
//! Words are compared byte by byte.

use crate::codec::{
    digit_char, digits_value, format_spec, lemma_digits_value_5, lemma_pow3_values,
    lemma_score_digits, pow3, score_digit, WordScore, WINNING_SCORE, WORD_LENGTH,
};
use vstd::prelude::*;
use vstd::string::*;

verus! {

/// The letters of a word: its bytes.
pub open spec fn letters(word: &str) -> Seq<u8> {
    word.spec_bytes()
}

/// Whether a word has as many letters as the game's words.
pub fn has_word_length(word: &str) -> (yes: bool)
    ensures
        yes == (letters(word).len() == WORD_LENGTH),
{
    word.as_bytes().len() == WORD_LENGTH
}

/// Whether position `j` of the target holds `letter` and is not used up.
pub open spec fn is_free(target: Seq<u8>, used: Set<int>, letter: u8, j: int) -> bool {
    0 <= j < target.len() && target[j] == letter && !used.contains(j)
}

/// Whether `j` is the leftmost position of the target that holds `letter`
/// and is not used up.
pub open spec fn is_leftmost_free(target: Seq<u8>, used: Set<int>, letter: u8, j: int) -> bool {
    &&& is_free(target, used, letter, j)
    &&& forall|k: int| 0 <= k < j ==> !is_free(target, used, letter, k)
}

/// The leftmost position of the target that holds `letter` and is not used
/// up, if there is one.
pub open spec fn leftmost_free(target: Seq<u8>, used: Set<int>, letter: u8) -> Option<int> {
    if exists|j: int| is_free(target, used, letter, j) {
        Some(choose|j: int| is_leftmost_free(target, used, letter, j))
    } else {
        None
    }
}

/// The positions where guess and target hold the same letter.
pub open spec fn exact_positions(guess: Seq<u8>, target: Seq<u8>) -> Set<int> {
    Set::new(|j: int| 0 <= j < guess.len() && j < target.len() && guess[j] == target[j])
}

/// The target positions that are used up when the second pass reaches guess
/// position `i`: those marked in the first pass, and those paired with one
/// of the guess positions before `i`.
pub open spec fn consumed(guess: Seq<u8>, target: Seq<u8>, i: int) -> Set<int>
    decreases i,
{
    if i <= 0 {
        exact_positions(guess, target)
    } else {
        let k = i - 1;
        let before = consumed(guess, target, k);
        if guess[k] == target[k] {
            before
        } else {
            match leftmost_free(target, before, guess[k]) {
                Some(j) => before.insert(j),
                None => before,
            }
        }
    }
}

/// The digit that guess position `i` gets.
pub open spec fn feedback_digit(guess: Seq<u8>, target: Seq<u8>, i: int) -> int {
    if guess[i] == target[i] {
        2
    } else if leftmost_free(target, consumed(guess, target, i), guess[i]) is Some {
        1
    } else {
        0
    }
}

/// The digits of all guess positions, first position first.
pub open spec fn feedback_digits(guess: Seq<u8>, target: Seq<u8>) -> Seq<int> {
    Seq::new(guess.len(), |i: int| feedback_digit(guess, target, i))
}

/// The feedback score of `guess` against `target`.
pub open spec fn score_spec(guess: Seq<u8>, target: Seq<u8>) -> int {
    digits_value(feedback_digits(guess, target))
}

/// A position that is free, with none free to its left, is the leftmost
/// free one.
pub proof fn lemma_leftmost_free_is(target: Seq<u8>, used: Set<int>, letter: u8, j: int)
    requires
        is_leftmost_free(target, used, letter, j),
    ensures
        leftmost_free(target, used, letter) == Some(j),
{
    let found = choose|k: int| is_leftmost_free(target, used, letter, k);
    assert(is_free(target, used, letter, j));
    assert(is_leftmost_free(target, used, letter, found));
    if found < j {
        assert(!is_free(target, used, letter, found));
    }
    if j < found {
        assert(!is_free(target, used, letter, j));
    }
}

/// Where a position is free, the leftmost free one exists, is free, and
/// lies at or before it.
pub proof fn lemma_leftmost_free_some(target: Seq<u8>, used: Set<int>, letter: u8, j: int)
    requires
        is_free(target, used, letter, j),
    ensures
        leftmost_free(target, used, letter) is Some,
        is_leftmost_free(target, used, letter, leftmost_free(target, used, letter)->0),
        leftmost_free(target, used, letter)->0 <= j,
    decreases j,
{
    if forall|k: int| 0 <= k < j ==> !is_free(target, used, letter, k) {
        lemma_leftmost_free_is(target, used, letter, j);
    } else {
        let k = choose|k: int| 0 <= k < j && is_free(target, used, letter, k);
        lemma_leftmost_free_some(target, used, letter, k);
    }
}

/// Whether bit `j` of `mask` is set.
spec fn has_bit(mask: u32, j: int) -> bool {
    mask & (1u32 << (j as u32)) != 0
}

/// Whether the low `WORD_LENGTH` bits of `mask` mark exactly the positions
/// in `positions`.
spec fn marks(mask: u32, positions: Set<int>) -> bool {
    forall|j: int|
        #![trigger has_bit(mask, j)]
        #![trigger positions.contains(j)]
        0 <= j < 5 ==> has_bit(mask, j) == positions.contains(j)
}

/// The masks of the five positions.
proof fn lemma_bit_values()
    ensures
        1u32 << 0u32 == 1u32,
        1u32 << 1u32 == 2u32,
        1u32 << 2u32 == 4u32,
        1u32 << 3u32 == 8u32,
        1u32 << 4u32 == 16u32,
{
    assert(1u32 << 0u32 == 1u32) by (bit_vector);
    assert(1u32 << 1u32 == 2u32) by (bit_vector);
    assert(1u32 << 2u32 == 4u32) by (bit_vector);
    assert(1u32 << 3u32 == 8u32) by (bit_vector);
    assert(1u32 << 4u32 == 16u32) by (bit_vector);
}

/// Setting bit `j` sets bit `j` and leaves every other bit as it was.
proof fn lemma_set_bit(mask: u32, j: u32, k: u32)
    by (bit_vector)
    requires
        j < 32,
        k < 32,
    ensures
        ((mask | (1u32 << j)) & (1u32 << k) != 0) == (k == j || (mask & (1u32 << k) != 0)),
{
}

/// The empty mask has no bit set.
proof fn lemma_no_bit(k: u32)
    by (bit_vector)
    requires
        k < 32,
    ensures
        0u32 & (1u32 << k) == 0,
{
}

/// Setting bit `j` marks position `j` besides those marked before.
proof fn lemma_mark(mask: u32, positions: Set<int>, j: int)
    requires
        marks(mask, positions),
        0 <= j < 5,
    ensures
        marks(mask | (1u32 << (j as u32)), positions.insert(j)),
{
    let after = mask | (1u32 << (j as u32));
    assert forall|k: int| 0 <= k < 5 implies has_bit(after, k) == positions.insert(j).contains(
        k,
    ) by {
        lemma_set_bit(mask, j as u32, k as u32);
        assert(has_bit(mask, k) == positions.contains(k));
    }
}

/// The empty mask marks no position.
proof fn lemma_mark_none()
    ensures
        marks(0u32, Set::<int>::empty()),
{
    assert forall|k: int| 0 <= k < 5 implies has_bit(0u32, k) == Set::<int>::empty().contains(
        k,
    ) by {
        lemma_no_bit(k as u32);
    }
}

/// One step of the second pass, at guess position `i`: how the used-up
/// target positions change and which digit the position gets. `found` is
/// the target position that the step pairs with `i`, if any.
proof fn lemma_displaced_step(
    guess: Seq<u8>,
    target: Seq<u8>,
    i: int,
    before: u32,
    after: u32,
    found: Option<int>,
)
    requires
        guess.len() == 5,
        target.len() == 5,
        0 <= i < 5,
        marks(before, consumed(guess, target, i)),
        guess[i] == target[i] ==> after == before,
        guess[i] != target[i] ==> match found {
            Some(j) => is_leftmost_free(target, consumed(guess, target, i), guess[i], j)
                && after == before | (1u32 << (j as u32)),
            None => after == before && forall|j: int|
                !is_free(target, consumed(guess, target, i), guess[i], j),
        },
    ensures
        marks(after, consumed(guess, target, i + 1)),
        guess[i] != target[i] ==> feedback_digit(guess, target, i) == (if found is Some {
            1int
        } else {
            0int
        }),
{
    let used = consumed(guess, target, i);
    if guess[i] != target[i] {
        match found {
            Some(j) => {
                lemma_leftmost_free_is(target, used, guess[i], j);
                lemma_mark(before, used, j);
            },
            None => {},
        }
    }
}

/// Whether position `k` of the target holds `letter` and is not marked in
/// `mask`.
spec fn free_at(target: Seq<u8>, letter: u8, mask: u32, k: int) -> bool {
    target[k] == letter && !has_bit(mask, k)
}

/// The leftmost of the five target positions that holds `letter` and is not
/// marked in `mask`, if there is one.
spec fn first_unmarked(target: Seq<u8>, letter: u8, mask: u32) -> Option<int> {
    if free_at(target, letter, mask, 0) {
        Some(0int)
    } else if free_at(target, letter, mask, 1) {
        Some(1int)
    } else if free_at(target, letter, mask, 2) {
        Some(2int)
    } else if free_at(target, letter, mask, 3) {
        Some(3int)
    } else if free_at(target, letter, mask, 4) {
        Some(4int)
    } else {
        None
    }
}

/// The mask after the second pass has dealt with guess position `i`.
spec fn step_mask(guess: Seq<u8>, target: Seq<u8>, i: int, mask: u32) -> u32 {
    if guess[i] == target[i] {
        mask
    } else {
        match first_unmarked(target, guess[i], mask) {
            Some(j) => mask | (1u32 << (j as u32)),
            None => mask,
        }
    }
}

/// The digit that the second pass gives guess position `i`, read off the
/// mask.
spec fn step_digit(guess: Seq<u8>, target: Seq<u8>, i: int, mask: u32) -> int {
    if guess[i] == target[i] {
        2
    } else if first_unmarked(target, guess[i], mask) is Some {
        1
    } else {
        0
    }
}

/// Whether `mask` marks the target positions that are used up when the
/// second pass reaches guess position `i`.
#[verifier::opaque]
spec fn tracks(mask: u32, guess: Seq<u8>, target: Seq<u8>, i: int) -> bool {
    marks(mask, consumed(guess, target, i))
}

/// The digit of guess position `i`.
#[verifier::opaque]
spec fn digit_at(guess: Seq<u8>, target: Seq<u8>, i: int) -> int {
    feedback_digit(guess, target, i)
}

/// What bit `j` adds to a mask, bit by bit.
proof fn lemma_or_bit(mask: u32, j: int)
    requires
        0 <= j < 5,
    ensures
        has_bit(mask | (1u32 << (j as u32)), 0) == (j == 0 || has_bit(mask, 0)),
        has_bit(mask | (1u32 << (j as u32)), 1) == (j == 1 || has_bit(mask, 1)),
        has_bit(mask | (1u32 << (j as u32)), 2) == (j == 2 || has_bit(mask, 2)),
        has_bit(mask | (1u32 << (j as u32)), 3) == (j == 3 || has_bit(mask, 3)),
        has_bit(mask | (1u32 << (j as u32)), 4) == (j == 4 || has_bit(mask, 4)),
{
    lemma_set_bit(mask, j as u32, 0);
    lemma_set_bit(mask, j as u32, 1);
    lemma_set_bit(mask, j as u32, 2);
    lemma_set_bit(mask, j as u32, 3);
    lemma_set_bit(mask, j as u32, 4);
}

/// A mask whose bits are the positions where guess and target agree marks
/// what is used up when the second pass begins.
proof fn lemma_first_pass(guess: Seq<u8>, target: Seq<u8>, mask: u32)
    requires
        guess.len() == 5,
        target.len() == 5,
        has_bit(mask, 0) == (guess[0] == target[0]),
        has_bit(mask, 1) == (guess[1] == target[1]),
        has_bit(mask, 2) == (guess[2] == target[2]),
        has_bit(mask, 3) == (guess[3] == target[3]),
        has_bit(mask, 4) == (guess[4] == target[4]),
    ensures
        tracks(mask, guess, target, 0),
{
    reveal(tracks);
}

/// One step of the second pass on a mask: the mask goes on marking the
/// used-up target positions, and the digit read off it is the digit of the
/// guess position.
proof fn lemma_mask_step(guess: Seq<u8>, target: Seq<u8>, i: int, mask: u32)
    requires
        guess.len() == 5,
        target.len() == 5,
        0 <= i < 5,
        tracks(mask, guess, target, i),
    ensures
        tracks(step_mask(guess, target, i, mask), guess, target, i + 1),
        digit_at(guess, target, i) == step_digit(guess, target, i, mask),
{
    reveal(tracks);
    reveal(digit_at);
    let used = consumed(guess, target, i);
    let letter = guess[i];
    assert forall|k: int| 0 <= k < 5 implies free_at(target, letter, mask, k) == is_free(
        target,
        used,
        letter,
        k,
    ) by {
        assert(has_bit(mask, k) == used.contains(k));
    }
    let found = first_unmarked(target, letter, mask);
    lemma_displaced_step(guess, target, i, mask, step_mask(guess, target, i, mask), found);
}

/// The score is the value of the five digits.
proof fn lemma_score_of_digits(guess: Seq<u8>, target: Seq<u8>)
    requires
        guess.len() == 5,
    ensures
        score_spec(guess, target) == digit_at(guess, target, 0) + 3 * digit_at(guess, target, 1)
            + 9 * digit_at(guess, target, 2) + 27 * digit_at(guess, target, 3) + 81 * digit_at(
            guess,
            target,
            4,
        ),
{
    reveal(digit_at);
    lemma_digits_value_5(feedback_digits(guess, target));
}

/// Scores `guess` against `target`.
///
/// The two passes are written out position by position, and the used-up
/// positions are kept as bits of one word.
#[verifier::rlimit(50)]
pub fn score_word_pair(guess: &str, target: &str) -> (score: WordScore)
    requires
        letters(guess).len() == WORD_LENGTH,
        letters(target).len() == WORD_LENGTH,
    ensures
        score as int == score_spec(letters(guess), letters(target)),
        score <= WINNING_SCORE,
{
    // What follows is written out for words of five letters.
    assert(WORD_LENGTH == 5);
    let ghost gs = letters(guess);
    let ghost ts = letters(target);
    let guess = guess.as_bytes();
    let target = target.as_bytes();
    let mut result: u8 = 0;
    let mut guess_used: u32 = 0;
    proof {
        lemma_bit_values();
        lemma_no_bit(0);
        lemma_no_bit(1);
        lemma_no_bit(2);
        lemma_no_bit(3);
        lemma_no_bit(4);
    }

    if guess[0] == target[0] {
        proof {
            lemma_or_bit(guess_used, 0);
        }
        result += 2;
        guess_used |= 1;
    }
    if guess[1] == target[1] {
        proof {
            lemma_or_bit(guess_used, 1);
        }
        result += 6;
        guess_used |= 2;
    }
    if guess[2] == target[2] {
        proof {
            lemma_or_bit(guess_used, 2);
        }
        result += 18;
        guess_used |= 4;
    }
    if guess[3] == target[3] {
        proof {
            lemma_or_bit(guess_used, 3);
        }
        result += 54;
        guess_used |= 8;
    }
    if guess[4] == target[4] {
        proof {
            lemma_or_bit(guess_used, 4);
        }
        result += 162;
        guess_used |= 16;
    }
    let ghost e0: int = if gs[0] == ts[0] { 2 } else { 0 };
    let ghost e1: int = if gs[1] == ts[1] { 2 } else { 0 };
    let ghost e2: int = if gs[2] == ts[2] { 2 } else { 0 };
    let ghost e3: int = if gs[3] == ts[3] { 2 } else { 0 };
    let ghost e4: int = if gs[4] == ts[4] { 2 } else { 0 };
    assert(has_bit(guess_used, 0) == (gs[0] == ts[0]));
    assert(has_bit(guess_used, 1) == (gs[1] == ts[1]));
    assert(has_bit(guess_used, 2) == (gs[2] == ts[2]));
    assert(has_bit(guess_used, 3) == (gs[3] == ts[3]));
    assert(has_bit(guess_used, 4) == (gs[4] == ts[4]));
    assert(result == e0 + 3 * e1 + 9 * e2 + 27 * e3 + 81 * e4);

    let mut target_used: u32 = guess_used;
    let ghost d0 = digit_at(gs, ts, 0);
    let ghost d1 = digit_at(gs, ts, 1);
    let ghost d2 = digit_at(gs, ts, 2);
    let ghost d3 = digit_at(gs, ts, 3);
    let ghost d4 = digit_at(gs, ts, 4);

    proof {
        lemma_first_pass(gs, ts, target_used);
        lemma_mask_step(gs, ts, 0, target_used);
    }
    let ghost before = target_used;
    if (guess_used & 1) == 0 {
        let g = guess[0];
        if target[1] == g && (target_used & 2) == 0 {
            target_used |= 2;
            result += 1;
        } else if target[2] == g && (target_used & 4) == 0 {
            target_used |= 4;
            result += 1;
        } else if target[3] == g && (target_used & 8) == 0 {
            target_used |= 8;
            result += 1;
        } else if target[4] == g && (target_used & 16) == 0 {
            target_used |= 16;
            result += 1;
        }
    }
    assert(target_used == step_mask(gs, ts, 0, before));
    assert(result == d0 + 3 * e1 + 9 * e2 + 27 * e3 + 81 * e4);

    proof {
        lemma_mask_step(gs, ts, 1, target_used);
    }
    let ghost before = target_used;
    if (guess_used & 2) == 0 {
        let g = guess[1];
        if target[0] == g && (target_used & 1) == 0 {
            target_used |= 1;
            result += 3;
        } else if target[2] == g && (target_used & 4) == 0 {
            target_used |= 4;
            result += 3;
        } else if target[3] == g && (target_used & 8) == 0 {
            target_used |= 8;
            result += 3;
        } else if target[4] == g && (target_used & 16) == 0 {
            target_used |= 16;
            result += 3;
        }
    }
    assert(target_used == step_mask(gs, ts, 1, before));
    assert(result == d0 + 3 * d1 + 9 * e2 + 27 * e3 + 81 * e4);

    proof {
        lemma_mask_step(gs, ts, 2, target_used);
    }
    let ghost before = target_used;
    if (guess_used & 4) == 0 {
        let g = guess[2];
        if target[0] == g && (target_used & 1) == 0 {
            target_used |= 1;
            result += 9;
        } else if target[1] == g && (target_used & 2) == 0 {
            target_used |= 2;
            result += 9;
        } else if target[3] == g && (target_used & 8) == 0 {
            target_used |= 8;
            result += 9;
        } else if target[4] == g && (target_used & 16) == 0 {
            target_used |= 16;
            result += 9;
        }
    }
    assert(target_used == step_mask(gs, ts, 2, before));
    assert(result == d0 + 3 * d1 + 9 * d2 + 27 * e3 + 81 * e4);

    proof {
        lemma_mask_step(gs, ts, 3, target_used);
    }
    let ghost before = target_used;
    if (guess_used & 8) == 0 {
        let g = guess[3];
        if target[0] == g && (target_used & 1) == 0 {
            target_used |= 1;
            result += 27;
        } else if target[1] == g && (target_used & 2) == 0 {
            target_used |= 2;
            result += 27;
        } else if target[2] == g && (target_used & 4) == 0 {
            target_used |= 4;
            result += 27;
        } else if target[4] == g && (target_used & 16) == 0 {
            target_used |= 16;
            result += 27;
        }
    }
    assert(target_used == step_mask(gs, ts, 3, before));
    assert(result == d0 + 3 * d1 + 9 * d2 + 27 * d3 + 81 * e4);

    proof {
        lemma_mask_step(gs, ts, 4, target_used);
    }
    let ghost settled: int = d0 + 3 * d1 + 9 * d2 + 27 * d3;
    assert(result == settled + 81 * e4);
    assert(d4 == step_digit(gs, ts, 4, target_used));
    if (guess_used & 16) == 0 {
        let g = guess[4];
        if (target[0] == g && (target_used & 1) == 0) || (target[1] == g && (target_used & 2) == 0)
            || (target[2] == g && (target_used & 4) == 0) || (target[3] == g && (target_used & 8)
            == 0) {
            result += 81;
        }
    }
    assert(result == settled + 81 * d4);
    proof {
        lemma_score_of_digits(gs, ts);
        lemma_score_range(gs, ts);
    }
    result
}

/// The value of the digits of the guess positions before `i`.
spec fn settled_value(guess: Seq<u8>, target: Seq<u8>, i: int) -> int
    decreases i,
{
    if i <= 0 {
        0
    } else {
        settled_value(guess, target, i - 1) + feedback_digit(guess, target, i - 1) * pow3(
            (i - 1) as nat,
        )
    }
}

/// The value of the 2s that the first pass gives the guess positions before
/// `i`.
spec fn exact_value(guess: Seq<u8>, target: Seq<u8>, i: int) -> int
    decreases i,
{
    if i <= 0 {
        0
    } else {
        exact_value(guess, target, i - 1) + (if guess[i - 1] == target[i - 1] {
            2 * pow3((i - 1) as nat)
        } else {
            0
        })
    }
}

/// The digits before position `i` are worth less than `3^i`.
proof fn lemma_settled_bound(guess: Seq<u8>, target: Seq<u8>, i: int)
    requires
        0 <= i,
    ensures
        0 <= settled_value(guess, target, i) < pow3(i as nat),
    decreases i,
{
    if i > 0 {
        lemma_settled_bound(guess, target, i - 1);
        let p = pow3((i - 1) as nat) as int;
        let d = feedback_digit(guess, target, i - 1);
        assert(d == 0 || d == 1 || d == 2);
        assert(d * p == 0 || d * p == p || d * p == 2 * p);
    }
}

/// The 2s of the first pass from position `i` up to position `n` are worth
/// at most `3^n - 3^i`.
proof fn lemma_exact_bound(guess: Seq<u8>, target: Seq<u8>, i: int, n: int)
    requires
        0 <= i <= n,
    ensures
        0 <= exact_value(guess, target, n) - exact_value(guess, target, i) <= pow3(n as nat)
            - pow3(i as nat),
    decreases n - i,
{
    if i < n {
        lemma_exact_bound(guess, target, i, n - 1);
    }
}

/// The digits before position `i` are worth what `digits_value` gives them.
proof fn lemma_settled_is_value(guess: Seq<u8>, target: Seq<u8>, i: int)
    requires
        0 <= i <= guess.len(),
    ensures
        settled_value(guess, target, i) == digits_value(feedback_digits(guess, target).take(i)),
    decreases i,
{
    let digits = feedback_digits(guess, target);
    if i > 0 {
        lemma_settled_is_value(guess, target, i - 1);
        assert(digits.take(i).drop_last() =~= digits.take(i - 1));
    }
}

/// Scores `guess` against `target`, pass by pass and position by position.
pub fn score_word_pair_simple(guess: &str, target: &str) -> (score: WordScore)
    requires
        letters(guess).len() == WORD_LENGTH,
        letters(target).len() == WORD_LENGTH,
    ensures
        score as int == score_spec(letters(guess), letters(target)),
        score <= WINNING_SCORE,
{
    let ghost gs = letters(guess);
    let ghost ts = letters(target);
    let guess = guess.as_bytes();
    let target = target.as_bytes();
    let mut guess_used: u32 = 0;
    let mut target_used: u32 = 0;
    let mut result: u8 = 0;
    let ghost mut marked: Set<int> = Set::empty();
    proof {
        lemma_mark_none();
        lemma_pow3_values();
    }

    let mut mult: u8 = 1;
    for i in 0..WORD_LENGTH
        invariant
            guess@ == gs,
            target@ == ts,
            gs.len() == 5,
            ts.len() == 5,
            mult as int == pow3(i as nat),
            result as int == exact_value(gs, ts, i as int),
            guess_used == target_used,
            marks(target_used, marked),
            forall|k: int| marked.contains(k) <==> 0 <= k < i && gs[k] == ts[k],
    {
        proof {
            lemma_pow3_values();
            lemma_exact_bound(gs, ts, i as int, i + 1);
            lemma_exact_bound(gs, ts, 0, i as int);
            assert(i == 0 || i == 1 || i == 2 || i == 3 || i == 4);
        }
        if guess[i] == target[i] {
            proof {
                lemma_mark(target_used, marked, i as int);
                marked = marked.insert(i as int);
            }
            result += 2 * mult;
            guess_used |= 1u32 << (i as u32);
            target_used |= 1u32 << (i as u32);
        }
        mult *= 3;
    }
    assert(marked =~= exact_positions(gs, ts));

    mult = 1;
    for i in 0..WORD_LENGTH
        invariant
            guess@ == gs,
            target@ == ts,
            gs.len() == 5,
            ts.len() == 5,
            mult as int == pow3(i as nat),
            result as int == settled_value(gs, ts, i as int) + exact_value(gs, ts, 5)
                - exact_value(gs, ts, i as int),
            marks(target_used, consumed(gs, ts, i as int)),
            forall|k: int| i <= k < 5 ==> has_bit(guess_used, k) == (gs[k] == ts[k]),
    {
        proof {
            lemma_pow3_values();
            assert(i == 0 || i == 1 || i == 2 || i == 3 || i == 4);
            lemma_settled_bound(gs, ts, i as int);
            lemma_exact_bound(gs, ts, i + 1, 5);
            assert(has_bit(guess_used, i as int) == (gs[i as int] == ts[i as int]));
        }
        if (guess_used & (1u32 << (i as u32))) == 0 {
            let g = guess[i];
            let ghost before = target_used;
            let ghost result_before = result;
            let ghost used_before = guess_used;
            let ghost mut found: Option<int> = None;
            let mut j: usize = 0;
            while j < WORD_LENGTH
                invariant_except_break
                    target_used == before,
                    result == result_before,
                    guess_used == used_before,
                    found is None,
                    j <= 5,
                    forall|k: int| 0 <= k < j ==> !is_free(ts, consumed(gs, ts, i as int), g, k),
                invariant
                    target@ == ts,
                    gs.len() == 5,
                    ts.len() == 5,
                    0 <= i < 5,
                    g == gs[i as int],
                    gs[i as int] != ts[i as int],
                    mult as int == pow3(i as nat),
                    result_before + mult <= 242,
                    marks(before, consumed(gs, ts, i as int)),
                ensures
                    match found {
                        Some(at) => {
                            &&& is_leftmost_free(ts, consumed(gs, ts, i as int), g, at)
                            &&& target_used == before | (1u32 << (at as u32))
                            &&& guess_used == used_before | (1u32 << (i as u32))
                            &&& result == result_before + mult
                        },
                        None => {
                            &&& forall|k: int| !is_free(ts, consumed(gs, ts, i as int), g, k)
                            &&& target_used == before
                            &&& guess_used == used_before
                            &&& result == result_before
                        },
                    },
                decreases WORD_LENGTH - j,
            {
                proof {
                    assert(has_bit(target_used, j as int) == consumed(gs, ts, i as int).contains(
                        j as int,
                    ));
                }
                if (target_used & (1u32 << (j as u32))) == 0 && g == target[j] {
                    guess_used |= 1u32 << (i as u32);
                    target_used |= 1u32 << (j as u32);
                    result += 1 * mult;
                    proof {
                        found = Some(j as int);
                    }
                    break;
                }
                j += 1;
            }
            proof {
                lemma_displaced_step(gs, ts, i as int, before, target_used, found);
                assert forall|k: int| i + 1 <= k < 5 implies has_bit(guess_used, k) == (gs[k]
                    == ts[k]) by {
                    lemma_set_bit(used_before, i as u32, k as u32);
                }
            }
        } else {
            proof {
                lemma_displaced_step(gs, ts, i as int, target_used, target_used, None);
            }
        }
        mult *= 3;
    }
    proof {
        lemma_settled_is_value(gs, ts, 5);
        assert(feedback_digits(gs, ts).take(5) =~= feedback_digits(gs, ts));
        lemma_score_range(gs, ts);
    }
    result
}

/// The score of two words of five letters is a feedback score.
pub proof fn lemma_score_range(guess: Seq<u8>, target: Seq<u8>)
    requires
        guess.len() == WORD_LENGTH,
    ensures
        0 <= score_spec(guess, target) <= WINNING_SCORE,
{
    lemma_digits_value_5(feedback_digits(guess, target));
}

/// A word scored against itself gets the winning score: every digit is 2.
pub proof fn lemma_self_match(word: Seq<u8>)
    requires
        word.len() == WORD_LENGTH,
    ensures
        score_spec(word, word) == WINNING_SCORE,
        forall|i: int| 0 <= i < WORD_LENGTH ==> feedback_digit(word, word, i) == 2,
{
    lemma_digits_value_5(feedback_digits(word, word));
}

/// Only the target itself gets the winning score.
pub proof fn lemma_winning_iff_equal(guess: Seq<u8>, target: Seq<u8>)
    requires
        guess.len() == WORD_LENGTH,
        target.len() == WORD_LENGTH,
    ensures
        score_spec(guess, target) == WINNING_SCORE <==> guess == target,
{
    lemma_digits_value_5(feedback_digits(guess, target));
    if guess == target {
        lemma_self_match(guess);
    }
    if score_spec(guess, target) == WINNING_SCORE {
        let d = feedback_digits(guess, target);
        assert(d[0] == 2 && d[1] == 2 && d[2] == 2 && d[3] == 2 && d[4] == 2);
        assert(guess =~= target);
    }
}

/// The text form of a score shows, letter by letter, the digit of each
/// guess position.
pub proof fn lemma_format_of_score(guess: Seq<u8>, target: Seq<u8>)
    requires
        guess.len() == WORD_LENGTH,
    ensures
        format_spec(score_spec(guess, target)) == Seq::new(
            WORD_LENGTH as nat,
            |i: int| digit_char(feedback_digit(guess, target, i)),
        ),
{
    let digits = feedback_digits(guess, target);
    lemma_score_digits(digits);
    assert forall|i: int| 0 <= i < WORD_LENGTH implies format_spec(score_spec(guess, target))[i]
        == digit_char(feedback_digit(guess, target, i)) by {
        assert(score_digit(digits_value(digits), i as nat) == digits[i]);
    }
    assert(format_spec(score_spec(guess, target)) =~= Seq::new(
        WORD_LENGTH as nat,
        |i: int| digit_char(feedback_digit(guess, target, i)),
    ));
}

/// Scoring is not symmetric: some guess and target, with letters that
/// occur twice, give another score when they change places.
pub proof fn lemma_score_not_symmetric()
    ensures
        exists|guess: Seq<u8>, target: Seq<u8>|
            guess.len() == WORD_LENGTH && target.len() == WORD_LENGTH && score_spec(guess, target)
                != score_spec(target, guess),
{
    let caddy: Seq<u8> = seq![0x63, 0x61, 0x64, 0x64, 0x79];
    let abbey: Seq<u8> = seq![0x61, 0x62, 0x62, 0x65, 0x79];
    lemma_digits_value_5(feedback_digits(caddy, abbey));
    lemma_digits_value_5(feedback_digits(abbey, caddy));
    let used = consumed(caddy, abbey, 0);
    assert forall|j: int| !is_free(abbey, used, 0x63, j) by {
        if 0 <= j < 5 {
            assert(abbey[j] != 0x63);
        }
    }
    assert(feedback_digit(caddy, abbey, 0) == 0);
    let used = consumed(abbey, caddy, 0);
    assert(!used.contains(1));
    assert(is_free(caddy, used, 0x61, 1));
    lemma_leftmost_free_some(caddy, used, 0x61, 1);
    assert(feedback_digit(abbey, caddy, 0) == 1);
    assert(score_spec(caddy, abbey) != score_spec(abbey, caddy));
}

} // verus!
