use wordle_guesser::codec::{format_score, parse_score, NUM_SCORES, WINNING_SCORE, WORD_LENGTH};

#[test]
fn constants_fit_together() {
    assert_eq!(WORD_LENGTH, 5);
    assert_eq!(NUM_SCORES, 3usize.pow(WORD_LENGTH as u32));
    assert_eq!(WINNING_SCORE as usize, NUM_SCORES - 1);
}

#[test]
fn format_worked_example() {
    assert_eq!(format_score(165), ".y..G");
}

#[test]
fn format_duplicate_letter_score() {
    assert_eq!(format_score(42), ".Gyy.");
}

#[test]
fn format_winning_score() {
    assert_eq!(format_score(WINNING_SCORE), "GGGGG");
    assert_eq!(format_score(242), "GGGGG");
}

#[test]
fn format_zero_score() {
    assert_eq!(format_score(0), ".....");
}

#[test]
fn format_puts_lowest_digit_first() {
    assert_eq!(format_score(1), "y....");
    assert_eq!(format_score(2), "G....");
    assert_eq!(format_score(3), ".y...");
    assert_eq!(format_score(81), "....y");
    assert_eq!(format_score(162), "....G");
}

#[test]
fn format_has_five_characters() {
    for score in 0..NUM_SCORES {
        assert_eq!(format_score(score as u8).chars().count(), WORD_LENGTH);
    }
}

#[test]
fn parse_worked_example() {
    assert_eq!(parse_score(".y..G"), Some(165));
}

#[test]
fn parse_duplicate_letter_text() {
    assert_eq!(parse_score(".Gyy."), Some(42));
}

#[test]
fn parse_accepts_either_case() {
    assert_eq!(parse_score(".Y..g"), Some(165));
    assert_eq!(parse_score("ggggg"), Some(242));
    assert_eq!(parse_score("GGGGG"), Some(242));
    assert_eq!(parse_score("yYyYy"), Some(121));
    assert_eq!(parse_score("....."), Some(0));
}

#[test]
fn parse_rejects_wrong_length() {
    assert_eq!(parse_score(""), None);
    assert_eq!(parse_score("."), None);
    assert_eq!(parse_score(".y.."), None);
    assert_eq!(parse_score(".y..GG"), None);
    assert_eq!(parse_score("GGGGGGGGGG"), None);
}

#[test]
fn parse_rejects_other_characters() {
    assert_eq!(parse_score(".y..x"), None);
    assert_eq!(parse_score("x...."), None);
    assert_eq!(parse_score(".. .."), None);
    assert_eq!(parse_score("01201"), None);
    assert_eq!(parse_score(".y,.G"), None);
    assert_eq!(parse_score("..\n.."), None);
}

#[test]
fn parse_rejects_text_beyond_ascii() {
    // Five bytes, but four characters.
    assert_eq!(parse_score("..\u{e9}."), None);
    // Five characters, but more bytes.
    assert_eq!(parse_score("..\u{e9}.."), None);
    assert_eq!(parse_score("\u{1f600}."), None);
}

#[test]
fn parse_inverts_format_for_every_score() {
    for score in 0..NUM_SCORES {
        let score = score as u8;
        assert_eq!(parse_score(&format_score(score)), Some(score));
    }
}

#[test]
fn format_inverts_parse_up_to_case() {
    for text in ["GyG.y", "gYg.Y", ".....", "yyyyy", "G.G.G"] {
        let score = parse_score(text).unwrap();
        assert_eq!(format_score(score).to_lowercase(), text.to_lowercase());
    }
}

#[test]
fn every_score_has_its_own_text() {
    let mut texts: Vec<String> = (0..NUM_SCORES).map(|s| format_score(s as u8)).collect();
    texts.sort();
    texts.dedup();
    assert_eq!(texts.len(), NUM_SCORES);
}
