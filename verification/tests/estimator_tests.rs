use wordle_guesser::estimator::{
    estimate_guess_quality, have_word_length, score_histogram, summarize_histogram, GuessQuality,
};
use wordle_guesser::scorer::score_word_pair;

const TARGETS: [&str; 10] = [
    "abbey", "caddy", "sorry", "rotor", "cheer", "eerie", "daddy", "sassy", "berry", "merry",
];

fn expected_remaining(quality: &GuessQuality) -> f64 {
    quality.squares_sum as f64 / quality.num_targets as f64
}

#[test]
fn histogram_counts_each_target_once() {
    for guess in ["caddy", "sorry", "zzzzz", "eerie", "crane"] {
        let histogram = score_histogram(guess, &TARGETS);
        let total: u32 = histogram.iter().map(|&count| count as u32).sum();
        assert_eq!(total as usize, TARGETS.len());
    }
}

#[test]
fn histogram_counts_the_targets_of_each_score() {
    let histogram = score_histogram("caddy", &TARGETS);
    for score in 0..243usize {
        let expected = TARGETS
            .iter()
            .filter(|target| score_word_pair("caddy", target) as usize == score)
            .count();
        assert_eq!(histogram[score] as usize, expected);
    }
}

#[test]
fn histogram_of_no_targets_is_empty() {
    let histogram = score_histogram("caddy", &[]);
    assert!(histogram.iter().all(|&count| count == 0));
}

#[test]
fn histogram_of_repeated_target() {
    let histogram = score_histogram("caddy", &["abbey", "abbey", "abbey"]);
    assert_eq!(histogram[165], 3);
    assert_eq!(histogram.iter().map(|&c| c as u32).sum::<u32>(), 3);
}

#[test]
fn summary_takes_the_lowest_score_among_the_largest_buckets() {
    let mut histogram = [0u16; 243];
    histogram[7] = 4;
    histogram[100] = 9;
    histogram[200] = 9;
    histogram[242] = 1;
    let summary = summarize_histogram(&histogram);
    assert_eq!(summary.max_remaining, 9);
    assert_eq!(summary.score_with_max_remaining, 100);
    assert_eq!(summary.squares_sum, 16 + 81 + 81 + 1);
}

#[test]
fn summary_of_empty_histogram() {
    let summary = summarize_histogram(&[0u16; 243]);
    assert_eq!(summary.max_remaining, 0);
    assert_eq!(summary.score_with_max_remaining, 0);
    assert_eq!(summary.squares_sum, 0);
}

#[test]
fn summary_of_full_buckets_does_not_overflow() {
    let summary = summarize_histogram(&[u16::MAX; 243]);
    assert_eq!(summary.max_remaining, u16::MAX);
    assert_eq!(summary.score_with_max_remaining, 0);
    assert_eq!(summary.squares_sum, 243 * 65535u64 * 65535u64);
    let joint = summarize_histogram(&vec![u16::MAX; 243 * 243]);
    assert_eq!(joint.squares_sum, 243 * 243 * 65535u64 * 65535u64);
}

#[test]
fn summary_sees_the_last_bucket() {
    let mut histogram = [0u16; 243];
    histogram[242] = 5;
    let summary = summarize_histogram(&histogram);
    assert_eq!(summary.max_remaining, 5);
    assert_eq!(summary.score_with_max_remaining, 242);
    assert_eq!(summary.squares_sum, 25);
}

#[test]
fn estimate_of_a_guess_among_the_targets() {
    let quality = estimate_guess_quality("caddy", &TARGETS);
    assert!(quality.has_winning);
    assert_eq!(quality.squares_sum, 18);
    assert_eq!(quality.num_targets, 10);
    assert_eq!(quality.max_remaining, 3);
    assert_eq!(quality.score_with_max_remaining, 162);
    assert_eq!(quality.guess, "caddy");
    assert_eq!(expected_remaining(&quality), 1.8);
}

#[test]
fn estimate_of_a_guess_outside_the_targets() {
    let quality = estimate_guess_quality("zzzzz", &TARGETS);
    assert!(!quality.has_winning);
    assert_eq!(quality.squares_sum, 100);
    assert_eq!(quality.num_targets, 10);
    assert_eq!(quality.max_remaining, 10);
    assert_eq!(quality.score_with_max_remaining, 0);
    assert_eq!(expected_remaining(&quality), 10.0);
}

#[test]
fn estimate_of_further_guesses() {
    let berry = estimate_guess_quality("berry", &TARGETS);
    assert_eq!((berry.max_remaining, berry.squares_sum), (3, 16));
    assert_eq!(berry.score_with_max_remaining, 162);
    let eerie = estimate_guess_quality("eerie", &TARGETS);
    assert_eq!((eerie.max_remaining, eerie.squares_sum), (3, 18));
    assert_eq!(eerie.score_with_max_remaining, 0);
    let abbey = estimate_guess_quality("abbey", &TARGETS);
    assert_eq!((abbey.max_remaining, abbey.squares_sum), (3, 16));
    assert_eq!(abbey.score_with_max_remaining, 163);
}

#[test]
fn estimate_against_one_target() {
    let quality = estimate_guess_quality("caddy", &["abbey"]);
    assert!(!quality.has_winning);
    assert_eq!(quality.max_remaining, 1);
    assert_eq!(quality.score_with_max_remaining, 165);
    assert_eq!(quality.squares_sum, 1);
    assert_eq!(quality.num_targets, 1);
    assert_eq!(expected_remaining(&quality), 1.0);
}

#[test]
fn estimate_against_the_guess_alone_wins() {
    let quality = estimate_guess_quality("caddy", &["caddy"]);
    assert!(quality.has_winning);
    assert_eq!(quality.max_remaining, 1);
    assert_eq!(quality.score_with_max_remaining, 242);
}

#[test]
fn has_winning_tells_whether_the_guess_is_a_target() {
    let guesses = [
        "abbey", "caddy", "sorry", "rotor", "zzzzz", "crane", "merry", "marry", "eerie", "eerip",
    ];
    for guess in guesses {
        let quality = estimate_guess_quality(guess, &TARGETS);
        assert_eq!(quality.has_winning, TARGETS.contains(&guess), "{}", guess);
    }
}

#[test]
fn squares_lie_between_the_largest_bucket_and_its_share() {
    for guess in ["abbey", "caddy", "zzzzz", "crane", "eerie"] {
        let q = estimate_guess_quality(guess, &TARGETS);
        let max = q.max_remaining as u64;
        assert!(max * max <= q.squares_sum);
        assert!(q.squares_sum <= max * q.num_targets as u64);
        assert!(1 <= q.max_remaining && q.max_remaining <= q.num_targets);
    }
}

#[test]
fn estimate_counts_many_targets() {
    let targets = vec!["sassy"; 60000];
    let quality = estimate_guess_quality("sassy", &targets);
    assert!(quality.has_winning);
    assert_eq!(quality.num_targets, 60000);
    assert_eq!(quality.max_remaining, 60000);
    assert_eq!(quality.score_with_max_remaining, 242);
    assert_eq!(quality.squares_sum, 3_600_000_000);
}

#[test]
fn summary_of_a_histogram_of_another_size() {
    let summary = summarize_histogram(&[2, 0, 7, 7, 1]);
    assert_eq!(summary.max_remaining, 7);
    assert_eq!(summary.score_with_max_remaining, 2);
    assert_eq!(summary.squares_sum, 4 + 49 + 49 + 1);
    let single = summarize_histogram(&[3]);
    assert_eq!(single.max_remaining, 3);
    assert_eq!(single.score_with_max_remaining, 0);
    assert_eq!(single.squares_sum, 9);
}

#[test]
fn word_lists_are_tested_for_length() {
    assert!(have_word_length(&TARGETS));
    assert!(have_word_length(&[]));
    assert!(!have_word_length(&["abbey", "cads", "sorry"]));
    assert!(!have_word_length(&["abbey", "caddy", "sorrow"]));
}

#[test]
fn squares_count_what_each_target_leaves() {
    for guess in ["abbey", "caddy", "zzzzz", "crane", "eerie"] {
        let quality = estimate_guess_quality(guess, &TARGETS);
        let mut left = 0u64;
        for word in TARGETS {
            let score = score_word_pair(guess, word);
            left += TARGETS.iter().filter(|t| score_word_pair(guess, t) == score).count() as u64;
        }
        assert_eq!(quality.squares_sum, left);
    }
}
