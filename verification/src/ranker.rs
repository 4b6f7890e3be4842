//! The order in which guesses are suggested.
//!
//! A guess comes before another if, in this order of importance: its cost
//! is smaller, where the cost is the size of its largest bucket times the
//! mean number of targets left; it can win at once and the other cannot;
//! its largest bucket is smaller; its mean number of targets left is
//! smaller; its word comes first in the dictionary.
//!
//! The mean of a quality is the fraction `squares_sum / num_targets`. Two
//! fractions are compared by multiplying each with the other's
//! denominator, so no rounding takes part in the order.

use crate::estimator::GuessQuality;
use crate::scorer::letters;
use vstd::prelude::*;

verus! {

/// Where one guess stands with respect to another.
#[derive(Clone, Copy, Debug, PartialEq, Eq, Structural)]
pub enum Rank {
    /// It is suggested first.
    Before,
    /// Neither is suggested before the other.
    Same,
    /// It is suggested last.
    After,
}

/// Whether word `a` comes before word `b` in the dictionary: at the first
/// position where they differ `a` has the smaller letter, or `a` ends
/// there and `b` goes on.
pub open spec fn lex_less(a: Seq<u8>, b: Seq<u8>) -> bool
    decreases a.len(),
{
    if b.len() == 0 {
        false
    } else if a.len() == 0 {
        true
    } else if a[0] != b[0] {
        a[0] < b[0]
    } else {
        lex_less(a.drop_first(), b.drop_first())
    }
}

/// The cost of `q`, the size of its largest bucket times its mean, brought
/// to the denominator that it shares with `other`.
pub open spec fn scaled_cost(q: GuessQuality, other: GuessQuality) -> int {
    q.max_remaining * q.squares_sum * other.num_targets
}

/// The mean of `q`, brought to the denominator that it shares with `other`.
pub open spec fn scaled_mean(q: GuessQuality, other: GuessQuality) -> int {
    q.squares_sum * other.num_targets
}

/// Whether `a` is suggested before `b`.
pub open spec fn precedes(a: GuessQuality, b: GuessQuality) -> bool {
    if scaled_cost(a, b) != scaled_cost(b, a) {
        scaled_cost(a, b) < scaled_cost(b, a)
    } else if a.has_winning != b.has_winning {
        a.has_winning
    } else if a.max_remaining != b.max_remaining {
        a.max_remaining < b.max_remaining
    } else if scaled_mean(a, b) != scaled_mean(b, a) {
        scaled_mean(a, b) < scaled_mean(b, a)
    } else {
        lex_less(letters(a.guess), letters(b.guess))
    }
}

/// Where `a` stands with respect to `b`.
pub open spec fn rank_spec(a: GuessQuality, b: GuessQuality) -> Rank {
    if precedes(a, b) {
        Rank::Before
    } else if precedes(b, a) {
        Rank::After
    } else {
        Rank::Same
    }
}

/// Words that agree on their first `i` letters are in the order of what
/// follows.
proof fn lemma_lex_skip(a: Seq<u8>, b: Seq<u8>, i: int)
    requires
        0 <= i <= a.len(),
        i <= b.len(),
        a.take(i) == b.take(i),
    ensures
        lex_less(a, b) == lex_less(a.skip(i), b.skip(i)),
    decreases i,
{
    if i > 0 {
        assert(a[0] == a.take(i)[0]);
        assert(b[0] == b.take(i)[0]);
        let a1 = a.drop_first();
        let b1 = b.drop_first();
        assert(a1.take(i - 1) =~= a.take(i).drop_first());
        assert(b1.take(i - 1) =~= b.take(i).drop_first());
        lemma_lex_skip(a1, b1, i - 1);
        assert(a1.skip(i - 1) =~= a.skip(i));
        assert(b1.skip(i - 1) =~= b.skip(i));
    } else {
        assert(a.skip(0) =~= a);
        assert(b.skip(0) =~= b);
    }
}

/// No word comes before itself.
pub proof fn lemma_lex_irreflexive(a: Seq<u8>)
    ensures
        !lex_less(a, a),
    decreases a.len(),
{
    if a.len() > 0 {
        lemma_lex_irreflexive(a.drop_first());
    }
}

/// Of two words that differ, exactly one comes before the other.
pub proof fn lemma_lex_total(a: Seq<u8>, b: Seq<u8>)
    ensures
        !(lex_less(a, b) && lex_less(b, a)),
        !lex_less(a, b) && !lex_less(b, a) ==> a == b,
    decreases a.len(),
{
    if a.len() > 0 && b.len() > 0 {
        lemma_lex_total(a.drop_first(), b.drop_first());
        if !lex_less(a, b) && !lex_less(b, a) {
            assert(a =~= seq![a[0]] + a.drop_first());
            assert(b =~= seq![b[0]] + b.drop_first());
        }
    } else if a.len() == 0 && b.len() == 0 {
        assert(a =~= b);
    }
}

/// If `a` comes before `b` and `b` before `c`, then `a` comes before `c`.
pub proof fn lemma_lex_transitive(a: Seq<u8>, b: Seq<u8>, c: Seq<u8>)
    requires
        lex_less(a, b),
        lex_less(b, c),
    ensures
        lex_less(a, c),
    decreases a.len(),
{
    if a.len() > 0 && b.len() > 0 && c.len() > 0 {
        if a[0] == b[0] && b[0] == c[0] {
            lemma_lex_transitive(a.drop_first(), b.drop_first(), c.drop_first());
        }
    }
}

/// Two guesses are never each suggested before the other.
pub proof fn lemma_precedes_asymmetric(a: GuessQuality, b: GuessQuality)
    ensures
        !(precedes(a, b) && precedes(b, a)),
{
    lemma_lex_total(letters(a.guess), letters(b.guess));
}

/// No guess is suggested before itself.
pub proof fn lemma_precedes_irreflexive(a: GuessQuality)
    ensures
        !precedes(a, a),
{
    lemma_lex_irreflexive(letters(a.guess));
}

/// The order of fractions with positive denominators carries over: from
/// `x/nx <= y/ny` and `y/ny <= z/nz` follows `x/nx <= z/nz`, and strictly
/// so where one of the two is strict.
proof fn lemma_fraction_chain(x: int, nx: int, y: int, ny: int, z: int, nz: int)
    by (nonlinear_arith)
    requires
        nx > 0,
        ny > 0,
        nz > 0,
    ensures
        x * ny <= y * nx && y * nz <= z * ny ==> x * nz <= z * nx,
        x * ny < y * nx && y * nz <= z * ny ==> x * nz < z * nx,
        x * ny <= y * nx && y * nz < z * ny ==> x * nz < z * nx,
{
    if x * ny <= y * nx && y * nz <= z * ny {
        assert((x * ny) * nz <= (y * nx) * nz);
        assert((y * nz) * nx <= (z * ny) * nx);
        assert((x * nz) * ny <= (z * nx) * ny);
        if x * ny < y * nx {
            assert((x * ny) * nz < (y * nx) * nz);
            assert((x * nz) * ny < (z * nx) * ny);
        }
        if y * nz < z * ny {
            assert((y * nz) * nx < (z * ny) * nx);
            assert((x * nz) * ny < (z * nx) * ny);
        }
    }
}

/// What the fractions of three qualities have of `lemma_fraction_chain`,
/// for their costs and for their means, read in both directions.
proof fn lemma_key_chains(a: GuessQuality, b: GuessQuality, c: GuessQuality)
    requires
        a.num_targets > 0,
        b.num_targets > 0,
        c.num_targets > 0,
    ensures
        scaled_cost(a, b) <= scaled_cost(b, a) && scaled_cost(b, c) <= scaled_cost(c, b)
            ==> scaled_cost(a, c) <= scaled_cost(c, a),
        scaled_cost(a, b) < scaled_cost(b, a) && scaled_cost(b, c) <= scaled_cost(c, b)
            ==> scaled_cost(a, c) < scaled_cost(c, a),
        scaled_cost(a, b) <= scaled_cost(b, a) && scaled_cost(b, c) < scaled_cost(c, b)
            ==> scaled_cost(a, c) < scaled_cost(c, a),
        scaled_mean(a, b) <= scaled_mean(b, a) && scaled_mean(b, c) <= scaled_mean(c, b)
            ==> scaled_mean(a, c) <= scaled_mean(c, a),
        scaled_mean(a, b) < scaled_mean(b, a) && scaled_mean(b, c) <= scaled_mean(c, b)
            ==> scaled_mean(a, c) < scaled_mean(c, a),
        scaled_mean(a, b) <= scaled_mean(b, a) && scaled_mean(b, c) < scaled_mean(c, b)
            ==> scaled_mean(a, c) < scaled_mean(c, a),
{
    lemma_fraction_chain(
        a.max_remaining * a.squares_sum,
        a.num_targets as int,
        b.max_remaining * b.squares_sum,
        b.num_targets as int,
        c.max_remaining * c.squares_sum,
        c.num_targets as int,
    );
    lemma_fraction_chain(
        a.squares_sum as int,
        a.num_targets as int,
        b.squares_sum as int,
        b.num_targets as int,
        c.squares_sum as int,
        c.num_targets as int,
    );
}

/// If `a` is suggested before `b` and `b` before `c`, then `a` is suggested
/// before `c`.
pub proof fn lemma_precedes_transitive(a: GuessQuality, b: GuessQuality, c: GuessQuality)
    requires
        a.num_targets > 0,
        b.num_targets > 0,
        c.num_targets > 0,
        precedes(a, b),
        precedes(b, c),
    ensures
        precedes(a, c),
{
    lemma_key_chains(a, b, c);
    lemma_key_chains(c, b, a);
    let (wa, wb, wc) = (letters(a.guess), letters(b.guess), letters(c.guess));
    if lex_less(wa, wb) && lex_less(wb, wc) {
        lemma_lex_transitive(wa, wb, wc);
    }
}

/// If `a` is not suggested before `b`, nor `b` before `c`, then `a` is not
/// suggested before `c`.
pub proof fn lemma_not_precedes_transitive(a: GuessQuality, b: GuessQuality, c: GuessQuality)
    requires
        a.num_targets > 0,
        b.num_targets > 0,
        c.num_targets > 0,
        !precedes(a, b),
        !precedes(b, c),
    ensures
        !precedes(a, c),
{
    lemma_key_chains(a, b, c);
    lemma_key_chains(c, b, a);
    let (wa, wb, wc) = (letters(a.guess), letters(b.guess), letters(c.guess));
    lemma_lex_total(wa, wb);
    lemma_lex_total(wb, wc);
    lemma_lex_total(wa, wc);
    if lex_less(wc, wb) && lex_less(wb, wa) {
        lemma_lex_transitive(wc, wb, wa);
    }
}

/// Two guesses of which neither is suggested before the other are the same
/// word, and agree on every number that the order looks at.
pub proof fn lemma_tie(a: GuessQuality, b: GuessQuality)
    requires
        !precedes(a, b),
        !precedes(b, a),
    ensures
        letters(a.guess) == letters(b.guess),
        a.has_winning == b.has_winning,
        a.max_remaining == b.max_remaining,
        scaled_mean(a, b) == scaled_mean(b, a),
{
    lemma_lex_total(letters(a.guess), letters(b.guess));
}

/// The number of letters on which two words agree from their start.
fn common_prefix(a: &[u8], b: &[u8]) -> (n: usize)
    ensures
        n <= a@.len(),
        n <= b@.len(),
        a@.take(n as int) == b@.take(n as int),
        n < a@.len() && n < b@.len() ==> a@[n as int] != b@[n as int],
{
    let mut n: usize = 0;
    while n < a.len() && n < b.len() && a[n] == b[n]
        invariant
            n <= a@.len(),
            n <= b@.len(),
            a@.take(n as int) == b@.take(n as int),
        decreases a@.len() - n,
    {
        assert(a@.take(n + 1) =~= a@.take(n as int).push(a@[n as int]));
        assert(b@.take(n + 1) =~= b@.take(n as int).push(b@[n as int]));
        n += 1;
    }
    n
}

/// Where word `a` stands in the dictionary with respect to word `b`.
pub fn compare_words(a: &str, b: &str) -> (rank: Rank)
    ensures
        rank == Rank::Before <==> lex_less(letters(a), letters(b)),
        rank == Rank::After <==> lex_less(letters(b), letters(a)),
        rank == Rank::Same <==> letters(a) == letters(b),
{
    let a = a.as_bytes();
    let b = b.as_bytes();
    let n = common_prefix(a, b);
    proof {
        lemma_lex_skip(a@, b@, n as int);
        lemma_lex_skip(b@, a@, n as int);
        lemma_lex_total(a@, b@);
        lemma_lex_irreflexive(a@);
        let x = a@.skip(n as int);
        let y = b@.skip(n as int);
        if n < a@.len() {
            assert(x[0] == a@[n as int]);
        }
        if n < b@.len() {
            assert(y[0] == b@[n as int]);
        }
    }
    if n < a.len() && n < b.len() {
        if a[n] < b[n] {
            Rank::Before
        } else {
            Rank::After
        }
    } else if n < b.len() {
        Rank::Before
    } else if n < a.len() {
        Rank::After
    } else {
        Rank::Same
    }
}

/// Where the guess of quality `a` stands with respect to that of `b`.
pub fn compare_quality(a: &GuessQuality, b: &GuessQuality) -> (rank: Rank)
    ensures
        rank == rank_spec(*a, *b),
        rank == Rank::Before <==> precedes(*a, *b),
        rank == Rank::After <==> precedes(*b, *a),
{
    let a_sum: u128 = a.squares_sum as u128;
    let b_sum: u128 = b.squares_sum as u128;
    let a_max: u128 = a.max_remaining as u128;
    let b_max: u128 = b.max_remaining as u128;
    let a_num: u128 = a.num_targets as u128;
    let b_num: u128 = b.num_targets as u128;
    proof {
        assert(a_sum * b_num <= 0xFFFF_FFFF_FFFF_FFFF * 0xFFFF) by (nonlinear_arith)
            requires
                a_sum <= 0xFFFF_FFFF_FFFF_FFFF,
                b_num <= 0xFFFF,
        ;
        assert(b_sum * a_num <= 0xFFFF_FFFF_FFFF_FFFF * 0xFFFF) by (nonlinear_arith)
            requires
                b_sum <= 0xFFFF_FFFF_FFFF_FFFF,
                a_num <= 0xFFFF,
        ;
    }
    let a_mean: u128 = a_sum * b_num;
    let b_mean: u128 = b_sum * a_num;
    proof {
        assert(a_max * a_mean <= 0xFFFF * (0xFFFF_FFFF_FFFF_FFFF * 0xFFFF)) by (nonlinear_arith)
            requires
                a_max <= 0xFFFF,
                a_mean <= 0xFFFF_FFFF_FFFF_FFFF * 0xFFFF,
        ;
        assert(b_max * b_mean <= 0xFFFF * (0xFFFF_FFFF_FFFF_FFFF * 0xFFFF)) by (nonlinear_arith)
            requires
                b_max <= 0xFFFF,
                b_mean <= 0xFFFF_FFFF_FFFF_FFFF * 0xFFFF,
        ;
        assert(a_max * (a_sum * b_num) == a_max * a_sum * b_num) by (nonlinear_arith);
        assert(b_max * (b_sum * a_num) == b_max * b_sum * a_num) by (nonlinear_arith);
    }
    let a_cost: u128 = a_max * a_mean;
    let b_cost: u128 = b_max * b_mean;
    proof {
        lemma_lex_total(letters(a.guess), letters(b.guess));
    }
    if a_cost < b_cost {
        Rank::Before
    } else if a_cost > b_cost {
        Rank::After
    } else if a.has_winning && !b.has_winning {
        Rank::Before
    } else if b.has_winning && !a.has_winning {
        Rank::After
    } else if a.max_remaining < b.max_remaining {
        Rank::Before
    } else if a.max_remaining > b.max_remaining {
        Rank::After
    } else if a_mean < b_mean {
        Rank::Before
    } else if a_mean > b_mean {
        Rank::After
    } else {
        compare_words(a.guess, b.guess)
    }
}

} // verus!
