use wordle_guesser::estimator::GuessQuality;
use wordle_guesser::suggest::{
    generate_suggestions, suggested_guess_lines, SuggestionLine, ALWAYS_SHOWN, ENOUGH_WINNING,
    LEAST_LAST, MAX_TARGETS_SHOWN,
};

const SOME_TARGETS: [&str; 10] = [
    "abbey", "caddy", "sorry", "rotor", "cheer", "eerie", "daddy", "sassy", "berry", "merry",
];

const SOME_GUESSES: [&str; 11] = [
    "caddy", "sorry", "berry", "eerie", "zzzzz", "merry", "abbey", "rotor", "cheer", "daddy",
    "sassy",
];

fn shown(quality: &GuessQuality) -> (String, u16, u64, u16, bool, u8) {
    (
        quality.guess.to_string(),
        quality.max_remaining,
        quality.squares_sum,
        quality.num_targets,
        quality.has_winning,
        quality.score_with_max_remaining,
    )
}

fn entries(wins: &[bool]) -> Vec<GuessQuality<'static>> {
    wins.iter()
        .map(|&has_winning| GuessQuality {
            has_winning,
            squares_sum: 1,
            num_targets: 1,
            max_remaining: 1,
            score_with_max_remaining: 0,
            guess: "guess",
        })
        .collect()
}

#[test]
fn suggestions_come_best_first() {
    let ranking = generate_suggestions(&SOME_GUESSES, &SOME_TARGETS);
    let got: Vec<(&str, u16, u64, bool, u8)> = ranking
        .iter()
        .map(|q| {
            (q.guess, q.max_remaining, q.squares_sum, q.has_winning, q.score_with_max_remaining)
        })
        .collect();
    let expected = [
        ("cheer", 2, 14, true, 0),
        ("abbey", 3, 16, true, 163),
        ("berry", 3, 16, true, 162),
        ("merry", 3, 16, true, 162),
        ("caddy", 3, 18, true, 162),
        ("eerie", 3, 18, true, 0),
        ("sorry", 3, 18, true, 162),
        ("sassy", 3, 20, true, 0),
        ("daddy", 3, 22, true, 0),
        ("rotor", 4, 24, true, 0),
        ("zzzzz", 10, 100, false, 0),
    ];
    assert_eq!(got, expected);
    assert!(ranking.iter().all(|q| q.num_targets == 10));
}

#[test]
fn suggestions_do_not_depend_on_the_order_of_the_guesses() {
    let first = generate_suggestions(&SOME_GUESSES, &SOME_TARGETS);
    let mut reversed = SOME_GUESSES.to_vec();
    reversed.reverse();
    let second = generate_suggestions(&reversed, &SOME_TARGETS);
    let mut rotated = SOME_GUESSES.to_vec();
    rotated.rotate_left(4);
    let third = generate_suggestions(&rotated, &SOME_TARGETS);
    let first: Vec<_> = first.iter().map(shown).collect();
    let second: Vec<_> = second.iter().map(shown).collect();
    let third: Vec<_> = third.iter().map(shown).collect();
    assert_eq!(first, second);
    assert_eq!(first, third);
}

#[test]
fn suggestions_repeat_when_run_again() {
    let first = generate_suggestions(&SOME_GUESSES, &SOME_TARGETS);
    let second = generate_suggestions(&SOME_GUESSES, &SOME_TARGETS);
    let first: Vec<_> = first.iter().map(shown).collect();
    let second: Vec<_> = second.iter().map(shown).collect();
    assert_eq!(first, second);
}

#[test]
fn suggestions_keep_repeated_guesses() {
    let ranking = generate_suggestions(&["sorry", "abbey", "sorry"], &SOME_TARGETS);
    let words: Vec<&str> = ranking.iter().map(|q| q.guess).collect();
    assert_eq!(words, ["abbey", "sorry", "sorry"]);
}

#[test]
fn suggestions_for_no_guesses() {
    assert!(generate_suggestions(&[], &SOME_TARGETS).is_empty());
}

#[test]
fn layout_constants() {
    assert_eq!(ALWAYS_SHOWN, 15);
    assert_eq!(ENOUGH_WINNING, 4);
    assert_eq!(LEAST_LAST, 10);
    assert_eq!(MAX_TARGETS_SHOWN, 10);
}

#[test]
fn layout_of_nothing() {
    assert!(suggested_guess_lines(&[]).is_empty());
}

#[test]
fn layout_shows_a_short_list_whole() {
    let lines = suggested_guess_lines(&entries(&[false; 9]));
    let expected: Vec<SuggestionLine> = (0..9).map(SuggestionLine::Entry).collect();
    assert_eq!(lines, expected);
}

#[test]
fn layout_drops_what_follows_the_first_fifteen() {
    let lines = suggested_guess_lines(&entries(&[false; 40]));
    let expected: Vec<SuggestionLine> = (0..15).map(SuggestionLine::Entry).collect();
    assert_eq!(lines, expected);
}

#[test]
fn layout_notes_what_it_passes_over_before_a_winning_entry() {
    let mut wins = [false; 30];
    wins[20] = true;
    wins[21] = true;
    wins[29] = true;
    let lines = suggested_guess_lines(&entries(&wins));
    let mut expected: Vec<SuggestionLine> = (0..15).map(SuggestionLine::Entry).collect();
    expected.push(SuggestionLine::Omitted(5));
    expected.push(SuggestionLine::Entry(20));
    expected.push(SuggestionLine::Entry(21));
    expected.push(SuggestionLine::Omitted(7));
    expected.push(SuggestionLine::Entry(29));
    assert_eq!(lines, expected);
}

#[test]
fn layout_ends_with_the_fifth_winning_entry_after_the_eleventh() {
    let mut wins = [false; 40];
    for i in [1, 3, 16, 18, 25, 30, 35] {
        wins[i] = true;
    }
    let lines = suggested_guess_lines(&entries(&wins));
    let mut expected: Vec<SuggestionLine> = (0..15).map(SuggestionLine::Entry).collect();
    expected.push(SuggestionLine::Omitted(1));
    expected.push(SuggestionLine::Entry(16));
    expected.push(SuggestionLine::Omitted(1));
    expected.push(SuggestionLine::Entry(18));
    expected.push(SuggestionLine::Omitted(6));
    expected.push(SuggestionLine::Entry(25));
    assert_eq!(lines, expected);
}

#[test]
fn layout_does_not_end_before_the_twelfth_entry() {
    let lines = suggested_guess_lines(&entries(&[true; 20]));
    let expected: Vec<SuggestionLine> = (0..12).map(SuggestionLine::Entry).collect();
    assert_eq!(lines, expected);
}

#[test]
fn layout_of_five_winning_entries_in_a_short_list() {
    let lines = suggested_guess_lines(&entries(&[true; 8]));
    let expected: Vec<SuggestionLine> = (0..8).map(SuggestionLine::Entry).collect();
    assert_eq!(lines, expected);
}
