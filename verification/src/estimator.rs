//! How well a guess splits a list of possible targets.
//!
//! Every target gives the guess one feedback score. The targets that give
//! the same score form a bucket: after the guess they cannot be told apart.
//! A guess is the better the smaller its buckets are. Its quality records
//! the largest bucket, and the sum of the squared bucket sizes: divided by
//! the number of targets that sum is the mean, over all targets, of the
//! size of the bucket that the target falls in.

use crate::codec::{WordScore, NUM_SCORES, WINNING_SCORE, WORD_LENGTH};
use crate::scorer::{
    has_word_length, lemma_score_range, lemma_winning_iff_equal, letters, score_spec,
    score_word_pair,
};
use vstd::prelude::*;

verus! {

/// The letters of each word of a list.
pub open spec fn word_list(words: Seq<&str>) -> Seq<Seq<u8>> {
    Seq::new(words.len(), |i: int| letters(words[i]))
}

/// Whether every word of the list has `WORD_LENGTH` letters.
pub open spec fn all_words(words: Seq<Seq<u8>>) -> bool {
    forall|i: int| 0 <= i < words.len() ==> (#[trigger] words[i]).len() == WORD_LENGTH
}

/// Whether every word of the list has as many letters as the game's
/// words.
pub fn have_word_length(words: &[&str]) -> (yes: bool)
    ensures
        yes == all_words(word_list(words@)),
{
    for i in 0..words.len()
        invariant
            forall|k: int| 0 <= k < i ==> letters(#[trigger] words@[k]).len() == WORD_LENGTH,
    {
        if !has_word_length(words[i]) {
            proof {
                assert(word_list(words@)[i as int].len() != WORD_LENGTH);
            }
            return false;
        }
    }
    proof {
        assert forall|k: int| 0 <= k < words@.len() implies (#[trigger] word_list(words@)[k]).len()
            == WORD_LENGTH by {
            assert(letters(words@[k]).len() == WORD_LENGTH);
        }
    }
    true
}

/// The number of targets that give `guess` the feedback score `score`.
pub open spec fn bucket_count(guess: Seq<u8>, targets: Seq<Seq<u8>>, score: int) -> nat
    decreases targets.len(),
{
    if targets.len() == 0 {
        0
    } else {
        let before = bucket_count(guess, targets.drop_last(), score);
        if score_spec(guess, targets.last()) == score {
            before + 1
        } else {
            before
        }
    }
}

/// Whether some target gives `guess` the winning score.
pub open spec fn can_win(guess: Seq<u8>, targets: Seq<Seq<u8>>) -> bool {
    bucket_count(guess, targets, WINNING_SCORE as int) > 0
}

/// The size of the largest bucket of the scores below `n`.
pub open spec fn largest_bucket(guess: Seq<u8>, targets: Seq<Seq<u8>>, n: int) -> nat
    decreases n,
{
    if n <= 0 {
        0
    } else {
        let before = largest_bucket(guess, targets, n - 1);
        let here = bucket_count(guess, targets, n - 1);
        if here > before {
            here
        } else {
            before
        }
    }
}

/// No bucket of a score below `n` is larger than the largest, and one of
/// them has its size.
pub proof fn lemma_largest_bucket(guess: Seq<u8>, targets: Seq<Seq<u8>>, n: int)
    requires
        0 < n,
    ensures
        forall|s: int|
            0 <= s < n ==> #[trigger] bucket_count(guess, targets, s) <= largest_bucket(
                guess,
                targets,
                n,
            ),
        exists|s: int|
            0 <= s < n && #[trigger] bucket_count(guess, targets, s) == largest_bucket(
                guess,
                targets,
                n,
            ),
    decreases n,
{
    if n == 1 {
        assert(largest_bucket(guess, targets, 0) == 0);
        assert(bucket_count(guess, targets, 0) == largest_bucket(guess, targets, 1));
    } else {
        lemma_largest_bucket(guess, targets, n - 1);
        let before = largest_bucket(guess, targets, n - 1);
        let here = bucket_count(guess, targets, n - 1);
        if here > before {
            assert(bucket_count(guess, targets, n - 1) == largest_bucket(guess, targets, n));
        } else {
            let s = choose|s: int|
                0 <= s < n - 1 && #[trigger] bucket_count(guess, targets, s) == before;
            assert(bucket_count(guess, targets, s) == largest_bucket(guess, targets, n));
        }
    }
}

/// The sum of the sizes of the buckets of the scores below `n`.
pub open spec fn buckets_total(guess: Seq<u8>, targets: Seq<Seq<u8>>, n: int) -> nat
    decreases n,
{
    if n <= 0 {
        0
    } else {
        buckets_total(guess, targets, n - 1) + bucket_count(guess, targets, n - 1)
    }
}

/// The sum of the squared sizes of the buckets of the scores below `n`.
pub open spec fn squares_total(guess: Seq<u8>, targets: Seq<Seq<u8>>, n: int) -> nat
    decreases n,
{
    if n <= 0 {
        0
    } else {
        squares_total(guess, targets, n - 1) + bucket_count(guess, targets, n - 1) * bucket_count(
            guess,
            targets,
            n - 1,
        )
    }
}

/// A bucket holds no more targets than there are.
pub proof fn lemma_bucket_count_bound(guess: Seq<u8>, targets: Seq<Seq<u8>>, score: int)
    ensures
        bucket_count(guess, targets, score) <= targets.len(),
    decreases targets.len(),
{
    if targets.len() > 0 {
        lemma_bucket_count_bound(guess, targets.drop_last(), score);
    }
}

/// A bucket is non-empty exactly when some target gives its score.
pub proof fn lemma_bucket_nonempty(guess: Seq<u8>, targets: Seq<Seq<u8>>, score: int)
    ensures
        bucket_count(guess, targets, score) > 0 <==> exists|i: int|
            0 <= i < targets.len() && score_spec(guess, #[trigger] targets[i]) == score,
    decreases targets.len(),
{
    if targets.len() > 0 {
        let front = targets.drop_last();
        lemma_bucket_nonempty(guess, front, score);
        if bucket_count(guess, targets, score) > 0 {
            if score_spec(guess, targets.last()) == score {
                assert(score_spec(guess, targets[targets.len() - 1]) == score);
            } else {
                let i = choose|i: int|
                    0 <= i < front.len() && score_spec(guess, #[trigger] front[i]) == score;
                assert(score_spec(guess, targets[i]) == score);
            }
        }
        if exists|i: int|
            0 <= i < targets.len() && score_spec(guess, #[trigger] targets[i]) == score {
            let i = choose|i: int|
                0 <= i < targets.len() && score_spec(guess, #[trigger] targets[i]) == score;
            if i < front.len() {
                assert(score_spec(guess, front[i]) == score);
            }
        }
    }
}

/// One more target adds one to the total of the buckets that reach its
/// score.
proof fn lemma_buckets_total_step(guess: Seq<u8>, targets: Seq<Seq<u8>>, n: int)
    requires
        targets.len() > 0,
        0 <= n,
    ensures
        buckets_total(guess, targets, n) == buckets_total(guess, targets.drop_last(), n) + (if 0
            <= score_spec(guess, targets.last()) < n {
            1nat
        } else {
            0nat
        }),
    decreases n,
{
    if n > 0 {
        lemma_buckets_total_step(guess, targets, n - 1);
    }
}

/// The buckets hold every target once: their sizes add up to the number of
/// targets.
pub proof fn lemma_histogram_conservation(guess: Seq<u8>, targets: Seq<Seq<u8>>)
    requires
        guess.len() == WORD_LENGTH,
    ensures
        buckets_total(guess, targets, NUM_SCORES as int) == targets.len(),
    decreases targets.len(),
{
    if targets.len() == 0 {
        lemma_buckets_total_empty(guess, targets, NUM_SCORES as int);
    } else {
        lemma_histogram_conservation(guess, targets.drop_last());
        lemma_buckets_total_step(guess, targets, NUM_SCORES as int);
        lemma_score_range(guess, targets.last());
    }
}

/// Without targets every bucket is empty.
proof fn lemma_buckets_total_empty(guess: Seq<u8>, targets: Seq<Seq<u8>>, n: int)
    requires
        targets.len() == 0,
    ensures
        buckets_total(guess, targets, n) == 0,
    decreases n,
{
    if n > 0 {
        lemma_buckets_total_empty(guess, targets, n - 1);
    }
}

/// The sum of the first `n` counts.
pub open spec fn counts_total(counts: Seq<u16>, n: int) -> nat
    decreases n,
{
    if n <= 0 {
        0
    } else {
        counts_total(counts, n - 1) + counts[n - 1] as nat
    }
}

/// Counts that are the bucket sizes add up to `buckets_total`.
proof fn lemma_counts_of_buckets(counts: Seq<u16>, guess: Seq<u8>, targets: Seq<Seq<u8>>, n: int)
    requires
        0 <= n <= counts.len(),
        forall|s: int| 0 <= s < n ==> #[trigger] counts[s] == bucket_count(guess, targets, s),
    ensures
        counts_total(counts, n) == buckets_total(guess, targets, n),
    decreases n,
{
    if n > 0 {
        lemma_counts_of_buckets(counts, guess, targets, n - 1);
        assert(counts[n - 1] == bucket_count(guess, targets, n - 1));
    }
}

/// Counts, for each feedback score, the targets that give `guess` that
/// score. The counts add up to the number of targets.
pub fn score_histogram(guess: &str, targets: &[&str]) -> (histogram: [u16; NUM_SCORES])
    requires
        letters(guess).len() == WORD_LENGTH,
        all_words(word_list(targets@)),
        targets.len() <= u16::MAX,
    ensures
        forall|score: int|
            0 <= score < NUM_SCORES ==> #[trigger] histogram[score] == bucket_count(
                letters(guess),
                word_list(targets@),
                score,
            ),
        counts_total(histogram@, NUM_SCORES as int) == targets.len(),
{
    let ghost gs = letters(guess);
    let ghost ts = word_list(targets@);
    let mut histogram: [u16; NUM_SCORES] = [0u16;NUM_SCORES];
    for i in 0..targets.len()
        invariant
            gs == letters(guess),
            ts == word_list(targets@),
            gs.len() == WORD_LENGTH,
            all_words(ts),
            targets.len() <= u16::MAX,
            forall|score: int|
                0 <= score < NUM_SCORES ==> #[trigger] histogram[score] == bucket_count(
                    gs,
                    ts.take(i as int),
                    score,
                ),
    {
        proof {
            assert(ts[i as int].len() == WORD_LENGTH);
            assert(ts[i as int] == letters(targets[i as int]));
        }
        let score = score_word_pair(guess, targets[i]);
        proof {
            assert(ts.take(i + 1).drop_last() =~= ts.take(i as int));
            lemma_bucket_count_bound(gs, ts.take(i as int), score as int);
        }
        histogram[score as usize] += 1;
    }
    proof {
        assert(ts.take(targets.len() as int) =~= ts);
        assert forall|s: int| 0 <= s < NUM_SCORES implies #[trigger] histogram@[s]
            == bucket_count(gs, ts, s) by {
            assert(histogram[s] == bucket_count(gs, ts, s));
        }
        lemma_counts_of_buckets(histogram@, gs, ts, NUM_SCORES as int);
        lemma_histogram_conservation(gs, ts);
    }
    histogram
}

/// What a histogram of bucket sizes comes down to.
#[derive(Clone, Copy, Debug)]
pub struct HistogramSummary {
    /// The size of the largest bucket.
    pub max_remaining: u16,
    /// The lowest index whose bucket is the largest.
    pub score_with_max_remaining: usize,
    /// The sum of the squared bucket sizes.
    pub squares_sum: u64,
}

/// The sum of the squares of the first `n` counts.
pub open spec fn squares_sum_spec(counts: Seq<u16>, n: int) -> nat
    decreases n,
{
    if n <= 0 {
        0
    } else {
        squares_sum_spec(counts, n - 1) + (counts[n - 1] as nat) * (counts[n - 1] as nat)
    }
}

/// Whether `score` is the lowest index of a largest count, and `max` that
/// count.
pub open spec fn is_first_maximum(counts: Seq<u16>, max: int, score: int) -> bool {
    &&& 0 <= score < counts.len()
    &&& counts[score] == max
    &&& forall|s: int| 0 <= s < counts.len() ==> counts[s] <= max
    &&& forall|s: int| 0 <= s < score ==> counts[s] < max
}

proof fn lemma_squares_sum_bound(counts: Seq<u16>, n: int)
    requires
        0 <= n <= counts.len(),
    ensures
        squares_sum_spec(counts, n) <= n * 0xFFFE_0001,
    decreases n,
{
    if n > 0 {
        lemma_squares_sum_bound(counts, n - 1);
        let c = counts[n - 1] as nat;
        assert(c * c <= 0xFFFE_0001) by (nonlinear_arith)
            requires
                c <= 0xFFFF,
        ;
    }
}

/// Finds the largest bucket of a histogram, the lowest index that has it,
/// and the sum of the squared bucket sizes. The histogram may be that of
/// one guess, with a bucket for each score, or one with a bucket for each
/// outcome of several guesses.
pub fn summarize_histogram(histogram: &[u16]) -> (summary: HistogramSummary)
    requires
        0 < histogram@.len() <= u32::MAX,
    ensures
        is_first_maximum(
            histogram@,
            summary.max_remaining as int,
            summary.score_with_max_remaining as int,
        ),
        summary.squares_sum == squares_sum_spec(histogram@, histogram@.len() as int),
{
    let mut max_with_score: u16 = 0;
    let mut score_with_max: usize = 0;
    let mut squares: u64 = 0;
    for score in 0..histogram.len()
        invariant
            0 < histogram@.len() <= u32::MAX,
            squares == squares_sum_spec(histogram@, score as int),
            forall|s: int| 0 <= s < score ==> histogram@[s] <= max_with_score,
            score_with_max as int <= score,
            score_with_max < histogram@.len(),
            score > 0 ==> score_with_max < score,
            histogram@[score_with_max as int] == max_with_score || (score == 0 && max_with_score
                == 0),
            forall|s: int| 0 <= s < score_with_max ==> histogram@[s] < max_with_score,
    {
        let num_with_score: u16 = histogram[score];
        proof {
            lemma_squares_sum_bound(histogram@, score as int);
            let c = num_with_score as nat;
            assert(c * c <= 0xFFFE_0001) by (nonlinear_arith)
                requires
                    c <= 0xFFFF,
            ;
        }
        if num_with_score > max_with_score {
            max_with_score = num_with_score;
            score_with_max = score;
        }
        squares += num_with_score as u64 * num_with_score as u64;
    }
    HistogramSummary {
        max_remaining: max_with_score,
        score_with_max_remaining: score_with_max,
        squares_sum: squares,
    }
}

/// How well one guess splits a list of targets.
///
/// The mean number of targets that are left after the guess is
/// `squares_sum / num_targets`. It is kept as these two whole numbers, so
/// that two qualities compare exactly.
#[derive(Clone, Copy, Debug)]
pub struct GuessQuality<'a> {
    /// Whether some target gives the guess the winning score.
    pub has_winning: bool,
    /// The sum of the squared bucket sizes.
    pub squares_sum: u64,
    /// The number of targets.
    pub num_targets: u16,
    /// The size of the largest bucket.
    pub max_remaining: u16,
    /// The lowest score whose bucket is the largest.
    pub score_with_max_remaining: WordScore,
    /// The guess.
    pub guess: &'a str,
}

impl<'a> GuessQuality<'a> {
    /// What holds of the quality of a guess against a list that is not
    /// empty: the largest bucket holds at least one target and at most all
    /// of them, and the squared sizes add up to no more than the largest
    /// size times the number of targets.
    pub open spec fn wf(self) -> bool {
        &&& self.num_targets > 0
        &&& 0 < self.max_remaining <= self.num_targets
        &&& self.score_with_max_remaining < NUM_SCORES
        &&& 0 < self.squares_sum <= self.max_remaining * self.num_targets
    }
}

/// Whether `quality` is the quality of `guess` against `targets`.
pub open spec fn is_quality_of(quality: GuessQuality, guess: &str, targets: Seq<Seq<u8>>) -> bool {
    let g = letters(guess);
    let top = quality.score_with_max_remaining as int;
    &&& quality.guess == guess
    &&& quality.num_targets == targets.len()
    &&& quality.has_winning == can_win(g, targets)
    &&& 0 <= top < NUM_SCORES
    &&& bucket_count(g, targets, top) == quality.max_remaining
    &&& forall|s: int|
        0 <= s < NUM_SCORES ==> #[trigger] bucket_count(g, targets, s) <= quality.max_remaining
    &&& forall|s: int|
        0 <= s < top ==> #[trigger] bucket_count(g, targets, s) < quality.max_remaining
    &&& quality.squares_sum == squares_total(g, targets, NUM_SCORES as int)
}

/// What a quality shows of its guess: its numbers, and the letters of the
/// guess.
pub struct SuggestionRow {
    /// Whether some target gives the guess the winning score.
    pub has_winning: bool,
    /// The sum of the squared bucket sizes.
    pub squares_sum: u64,
    /// The number of targets.
    pub num_targets: u16,
    /// The size of the largest bucket.
    pub max_remaining: u16,
    /// The lowest score whose bucket is the largest.
    pub score_with_max_remaining: u8,
    /// The letters of the guess.
    pub word: Seq<u8>,
}

impl<'a> View for GuessQuality<'a> {
    type V = SuggestionRow;

    /// What the quality shows of its guess.
    open spec fn view(&self) -> SuggestionRow {
        row(*self)
    }
}

/// What `quality` shows of its guess.
pub open spec fn row(quality: GuessQuality) -> SuggestionRow {
    SuggestionRow {
        has_winning: quality.has_winning,
        squares_sum: quality.squares_sum,
        num_targets: quality.num_targets,
        max_remaining: quality.max_remaining,
        score_with_max_remaining: quality.score_with_max_remaining,
        word: letters(quality.guess),
    }
}

/// The largest bucket of a quality is the largest bucket of its guess.
pub proof fn lemma_quality_largest(quality: GuessQuality, guess: &str, targets: Seq<Seq<u8>>)
    requires
        is_quality_of(quality, guess, targets),
    ensures
        quality.max_remaining == largest_bucket(letters(guess), targets, NUM_SCORES as int),
{
    let g = letters(guess);
    lemma_largest_bucket(g, targets, NUM_SCORES as int);
    let top = quality.score_with_max_remaining as int;
    assert(bucket_count(g, targets, top) <= largest_bucket(g, targets, NUM_SCORES as int));
    let s = choose|s: int|
        0 <= s < NUM_SCORES && #[trigger] bucket_count(g, targets, s) == largest_bucket(
            g,
            targets,
            NUM_SCORES as int,
        );
    assert(bucket_count(g, targets, s) <= quality.max_remaining);
}

/// A word has one quality against a list of targets: the qualities of two
/// guesses with the same letters show the same.
pub proof fn lemma_quality_determined(
    a: GuessQuality,
    guess_a: &str,
    b: GuessQuality,
    guess_b: &str,
    targets: Seq<Seq<u8>>,
)
    requires
        is_quality_of(a, guess_a, targets),
        is_quality_of(b, guess_b, targets),
        letters(guess_a) == letters(guess_b),
    ensures
        row(a) == row(b),
{
    let g = letters(guess_a);
    let top_a = a.score_with_max_remaining as int;
    let top_b = b.score_with_max_remaining as int;
    assert(bucket_count(g, targets, top_a) <= b.max_remaining);
    assert(bucket_count(g, targets, top_b) <= a.max_remaining);
    if top_a < top_b {
        assert(bucket_count(g, targets, top_a) < b.max_remaining);
    }
    if top_b < top_a {
        assert(bucket_count(g, targets, top_b) < a.max_remaining);
    }
}

/// The squares of counts that are the bucket sizes add up to
/// `squares_total`.
proof fn lemma_squares_of_buckets(
    counts: Seq<u16>,
    guess: Seq<u8>,
    targets: Seq<Seq<u8>>,
    n: int,
)
    requires
        0 <= n <= counts.len(),
        forall|s: int| 0 <= s < n ==> #[trigger] counts[s] == bucket_count(guess, targets, s),
    ensures
        squares_sum_spec(counts, n) == squares_total(guess, targets, n),
    decreases n,
{
    if n > 0 {
        lemma_squares_of_buckets(counts, guess, targets, n - 1);
        assert(counts[n - 1] == bucket_count(guess, targets, n - 1));
    }
}

/// Where no bucket is larger than `max`, the squared sizes of the buckets
/// below `n` add up to no more than `max` times their sizes.
proof fn lemma_squares_total_bound(guess: Seq<u8>, targets: Seq<Seq<u8>>, max: nat, n: int)
    requires
        0 <= n <= NUM_SCORES,
        forall|s: int| 0 <= s < n ==> #[trigger] bucket_count(guess, targets, s) <= max,
    ensures
        squares_total(guess, targets, n) <= max * buckets_total(guess, targets, n),
    decreases n,
{
    if n > 0 {
        lemma_squares_total_bound(guess, targets, max, n - 1);
        let c = bucket_count(guess, targets, n - 1);
        let before = buckets_total(guess, targets, n - 1);
        assert(c <= max);
        assert(c * c <= max * c) by (nonlinear_arith)
            requires
                c <= max,
        ;
        assert(max * (before + c) == max * before + max * c) by (nonlinear_arith);
    }
}

/// The squared sizes of the buckets below `n` add up to at least the
/// square of each of them.
proof fn lemma_squares_total_lower(guess: Seq<u8>, targets: Seq<Seq<u8>>, score: int, n: int)
    requires
        0 <= score < n,
    ensures
        squares_total(guess, targets, n) >= bucket_count(guess, targets, score) * bucket_count(
            guess,
            targets,
            score,
        ),
    decreases n,
{
    if score < n - 1 {
        lemma_squares_total_lower(guess, targets, score, n - 1);
    }
}

/// The quality of a guess against a list of targets that is not empty is
/// well formed.
pub proof fn lemma_quality_wf(quality: GuessQuality, guess: &str, targets: Seq<Seq<u8>>)
    requires
        is_quality_of(quality, guess, targets),
        letters(guess).len() == WORD_LENGTH,
        0 < targets.len(),
    ensures
        quality.wf(),
{
    let g = letters(guess);
    let max = quality.max_remaining as nat;
    let top = quality.score_with_max_remaining as int;
    lemma_histogram_conservation(g, targets);
    lemma_squares_total_bound(g, targets, max, NUM_SCORES as int);
    lemma_squares_total_lower(g, targets, top, NUM_SCORES as int);
    lemma_bucket_count_bound(g, targets, top);
    if max == 0 {
        lemma_buckets_total_zero(g, targets, NUM_SCORES as int);
    }
    assert(max * max > 0) by (nonlinear_arith)
        requires
            max > 0,
    ;
}

/// Where every bucket below `n` is empty, they hold nothing in all.
proof fn lemma_buckets_total_zero(guess: Seq<u8>, targets: Seq<Seq<u8>>, n: int)
    requires
        0 <= n,
        forall|s: int| 0 <= s < n ==> #[trigger] bucket_count(guess, targets, s) <= 0,
    ensures
        buckets_total(guess, targets, n) == 0,
    decreases n,
{
    if n > 0 {
        lemma_buckets_total_zero(guess, targets, n - 1);
        assert(bucket_count(guess, targets, n - 1) <= 0);
    }
}

/// The sum, over the targets of `part`, of the number of targets of `all`
/// that give the guess the same score: of those that are left when that
/// target is the word.
pub open spec fn survivors_total(guess: Seq<u8>, part: Seq<Seq<u8>>, all: Seq<Seq<u8>>) -> nat
    decreases part.len(),
{
    if part.len() == 0 {
        0
    } else {
        survivors_total(guess, part.drop_last(), all) + bucket_count(
            guess,
            all,
            score_spec(guess, part.last()),
        )
    }
}

/// The sum, over the scores below `n`, of the size of the bucket in `part`
/// times its size in `all`.
spec fn paired_total(guess: Seq<u8>, part: Seq<Seq<u8>>, all: Seq<Seq<u8>>, n: int) -> nat
    decreases n,
{
    if n <= 0 {
        0
    } else {
        paired_total(guess, part, all, n - 1) + bucket_count(guess, part, n - 1) * bucket_count(
            guess,
            all,
            n - 1,
        )
    }
}

/// One more target in `part` adds the size of its bucket in `all`.
proof fn lemma_paired_total_step(guess: Seq<u8>, part: Seq<Seq<u8>>, all: Seq<Seq<u8>>, n: int)
    requires
        part.len() > 0,
        0 <= n,
    ensures
        paired_total(guess, part, all, n) == paired_total(guess, part.drop_last(), all, n) + (if 0
            <= score_spec(guess, part.last()) < n {
            bucket_count(guess, all, score_spec(guess, part.last()))
        } else {
            0nat
        }),
    decreases n,
{
    if n > 0 {
        lemma_paired_total_step(guess, part, all, n - 1);
        let before = bucket_count(guess, part.drop_last(), n - 1);
        let whole = bucket_count(guess, all, n - 1);
        assert((before + 1) * whole == before * whole + whole) by (nonlinear_arith);
    }
}

/// Without targets in `part` the paired sizes add up to nothing.
proof fn lemma_paired_total_empty(guess: Seq<u8>, part: Seq<Seq<u8>>, all: Seq<Seq<u8>>, n: int)
    requires
        part.len() == 0,
    ensures
        paired_total(guess, part, all, n) == 0,
    decreases n,
{
    if n > 0 {
        lemma_paired_total_empty(guess, part, all, n - 1);
        assert(0 * bucket_count(guess, all, n - 1) == 0) by (nonlinear_arith);
    }
}

/// The survivors of the targets of `part` add up to the paired sizes of the
/// buckets.
proof fn lemma_survivors_are_paired(guess: Seq<u8>, part: Seq<Seq<u8>>, all: Seq<Seq<u8>>)
    requires
        guess.len() == WORD_LENGTH,
    ensures
        survivors_total(guess, part, all) == paired_total(guess, part, all, NUM_SCORES as int),
    decreases part.len(),
{
    if part.len() == 0 {
        lemma_paired_total_empty(guess, part, all, NUM_SCORES as int);
    } else {
        lemma_survivors_are_paired(guess, part.drop_last(), all);
        lemma_paired_total_step(guess, part, all, NUM_SCORES as int);
        lemma_score_range(guess, part.last());
    }
}

/// A list paired with itself gives the squares of its bucket sizes.
proof fn lemma_paired_with_itself(guess: Seq<u8>, targets: Seq<Seq<u8>>, n: int)
    ensures
        paired_total(guess, targets, targets, n) == squares_total(guess, targets, n),
    decreases n,
{
    if n > 0 {
        lemma_paired_with_itself(guess, targets, n - 1);
    }
}

/// The squared bucket sizes add up to what is left after the guess, summed
/// over every target as the word: each target leaves the targets of its own
/// bucket. Divided by the number of targets this is the mean number left
/// when every target is as likely as any other.
pub proof fn lemma_squares_are_survivors(guess: Seq<u8>, targets: Seq<Seq<u8>>)
    requires
        guess.len() == WORD_LENGTH,
    ensures
        squares_total(guess, targets, NUM_SCORES as int) == survivors_total(
            guess,
            targets,
            targets,
        ),
{
    lemma_survivors_are_paired(guess, targets, targets);
    lemma_paired_with_itself(guess, targets, NUM_SCORES as int);
}

/// A guess can win exactly when it is one of the targets, letter for
/// letter. This holds of every list of targets, however long.
pub proof fn lemma_has_winning(guess: Seq<u8>, targets: Seq<Seq<u8>>)
    requires
        guess.len() == WORD_LENGTH,
        all_words(targets),
    ensures
        can_win(guess, targets) <==> exists|i: int|
            0 <= i < targets.len() && #[trigger] targets[i] == guess,
{
    lemma_bucket_nonempty(guess, targets, WINNING_SCORE as int);
    if bucket_count(guess, targets, WINNING_SCORE as int) > 0 {
        let i = choose|i: int|
            0 <= i < targets.len() && score_spec(guess, #[trigger] targets[i]) == WINNING_SCORE;
        lemma_winning_iff_equal(guess, targets[i]);
        assert(targets[i] == guess);
    }
    if exists|i: int| 0 <= i < targets.len() && #[trigger] targets[i] == guess {
        let i = choose|i: int| 0 <= i < targets.len() && #[trigger] targets[i] == guess;
        lemma_winning_iff_equal(guess, targets[i]);
        assert(score_spec(guess, targets[i]) == WINNING_SCORE);
    }
}

/// Estimates how well `guess` splits `targets`.
pub fn estimate_guess_quality<'a>(guess: &'a str, targets: &[&str]) -> (quality: GuessQuality<'a>)
    requires
        letters(guess).len() == WORD_LENGTH,
        all_words(word_list(targets@)),
        0 < targets.len() <= u16::MAX,
    ensures
        is_quality_of(quality, guess, word_list(targets@)),
        quality.wf(),
        quality.has_winning <==> exists|i: int|
            0 <= i < targets.len() && letters(#[trigger] targets[i]) == letters(guess),
{
    let ghost gs = letters(guess);
    let ghost ts = word_list(targets@);
    let histogram = score_histogram(guess, targets);
    let summary = summarize_histogram(histogram.as_slice());
    let quality = GuessQuality {
        has_winning: histogram[WINNING_SCORE as usize] > 0,
        squares_sum: summary.squares_sum,
        num_targets: targets.len() as u16,
        max_remaining: summary.max_remaining,
        score_with_max_remaining: summary.score_with_max_remaining as WordScore,
        guess,
    };
    proof {
        lemma_squares_of_buckets(histogram@, gs, ts, NUM_SCORES as int);
        assert forall|s: int| 0 <= s < NUM_SCORES implies #[trigger] bucket_count(gs, ts, s)
            == histogram@[s] by {
            assert(histogram[s] == bucket_count(gs, ts, s));
        }
        assert(is_quality_of(quality, guess, ts));
        lemma_quality_wf(quality, guess, ts);
        lemma_has_winning(gs, ts);
        if quality.has_winning {
            let i = choose|i: int| 0 <= i < ts.len() && #[trigger] ts[i] == gs;
            assert(letters(targets[i]) == letters(guess));
        }
        if exists|i: int|
            0 <= i < targets.len() && letters(#[trigger] targets[i]) == letters(guess) {
            let i = choose|i: int|
                0 <= i < targets.len() && letters(#[trigger] targets[i]) == letters(guess);
            assert(ts[i] == gs);
        }
    }
    quality
}

} // verus!
