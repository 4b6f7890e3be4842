use wordle_guesser::game::{narrowing, targets_with_score, Narrowing};
use wordle_guesser::scorer::score_word_pair;

const WORDS: [&str; 10] = [
    "abbey", "caddy", "sorry", "rotor", "cheer", "eerie", "daddy", "sassy", "berry", "merry",
];

#[test]
fn targets_of_a_score_keep_their_order() {
    // `y` in place and nothing else: 162.
    let found = targets_with_score("caddy", &WORDS, 162, WORDS.len());
    assert_eq!(found, ["sorry", "berry", "merry"]);
}

#[test]
fn targets_of_a_score_stop_at_the_limit() {
    assert_eq!(targets_with_score("caddy", &WORDS, 162, 2), ["sorry", "berry"]);
    assert_eq!(targets_with_score("caddy", &WORDS, 162, 3), ["sorry", "berry", "merry"]);
    assert_eq!(targets_with_score("caddy", &WORDS, 162, 1), ["sorry"]);
    assert!(targets_with_score("caddy", &WORDS, 162, 0).is_empty());
}

#[test]
fn targets_of_a_score_that_none_gives() {
    assert!(targets_with_score("caddy", &WORDS, 1, 10).is_empty());
    assert!(targets_with_score("caddy", &[], 162, 10).is_empty());
}

#[test]
fn targets_of_the_winning_score() {
    assert_eq!(targets_with_score("rotor", &WORDS, 242, usize::MAX), ["rotor"]);
    assert!(targets_with_score("zzzzz", &WORDS, 242, usize::MAX).is_empty());
}

#[test]
fn targets_of_a_score_are_those_that_score_it() {
    for guess in WORDS {
        for score in [0u8, 2, 42, 162, 165, 242] {
            let expected: Vec<&str> = WORDS
                .iter()
                .copied()
                .filter(|target| score_word_pair(guess, target) == score)
                .collect();
            assert_eq!(targets_with_score(guess, &WORDS, score, WORDS.len()), expected);
        }
    }
}

#[test]
fn culling_narrows_to_the_target() {
    let target = "berry";
    let mut remaining: Vec<&str> = WORDS.to_vec();
    for guess in ["caddy", "merry"] {
        let score = score_word_pair(guess, target);
        remaining = targets_with_score(guess, &remaining, score, remaining.len());
        assert!(remaining.contains(&target));
    }
    assert_eq!(remaining, ["berry"]);
}

#[test]
fn narrowing_by_count() {
    assert_eq!(narrowing(0), Narrowing::Impossible);
    assert_eq!(narrowing(1), Narrowing::Solved);
    assert_eq!(narrowing(2), Narrowing::Pair);
    assert_eq!(narrowing(3), Narrowing::Open);
    assert_eq!(narrowing(5000), Narrowing::Open);
}
