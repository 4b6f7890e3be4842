use wordle_guesser::codec::{format_score, WINNING_SCORE};
use wordle_guesser::scorer::{has_word_length, score_word_pair, score_word_pair_simple};

/// The score by counting: a letter out of place is reported as long as the
/// target has more of it out of place than the guess had so far.
fn score_by_counting(guess: &str, target: &str) -> u8 {
    let g = guess.as_bytes();
    let t = target.as_bytes();
    let mut score = 0u32;
    for i in 0..5 {
        let digit = if g[i] == t[i] {
            2
        } else {
            let earlier = (0..i).filter(|&k| g[k] == g[i] && g[k] != t[k]).count();
            let available = (0..5).filter(|&j| t[j] == g[i] && g[j] != t[j]).count();
            if earlier < available {
                1
            } else {
                0
            }
        };
        score += digit * 3u32.pow(i as u32);
    }
    score as u8
}

fn words_over(alphabet: &[u8]) -> Vec<String> {
    let mut words = vec![String::new()];
    for _ in 0..5 {
        let mut longer = Vec::new();
        for word in &words {
            for &letter in alphabet {
                let mut next = word.clone();
                next.push(letter as char);
                longer.push(next);
            }
        }
        words = longer;
    }
    words
}

#[test]
fn score_worked_example() {
    assert_eq!(score_word_pair("caddy", "abbey"), 165);
    assert_eq!(format_score(score_word_pair("caddy", "abbey")), ".y..G");
}

#[test]
fn score_duplicate_letter_example() {
    assert_eq!(score_word_pair("sorry", "rotor"), 42);
    assert_eq!(format_score(score_word_pair("sorry", "rotor")), ".Gyy.");
}

#[test]
fn score_simple_worked_examples() {
    assert_eq!(score_word_pair_simple("caddy", "abbey"), 165);
    assert_eq!(score_word_pair_simple("sorry", "rotor"), 42);
}

#[test]
fn score_is_not_symmetric() {
    assert_eq!(score_word_pair("caddy", "abbey"), 165);
    assert_eq!(score_word_pair("abbey", "caddy"), 163);
    assert_ne!(score_word_pair("speed", "erase"), score_word_pair("erase", "speed"));
    assert_eq!(score_word_pair("speed", "erase"), 37);
    assert_eq!(score_word_pair("erase", "speed"), 109);
}

#[test]
fn score_of_a_word_against_itself_wins() {
    for word in ["caddy", "abbey", "sorry", "rotor", "aaaaa", "zzzzz", "eerie"] {
        assert_eq!(score_word_pair(word, word), WINNING_SCORE);
        assert_eq!(score_word_pair_simple(word, word), 242);
        assert_eq!(format_score(score_word_pair(word, word)), "GGGGG");
    }
}

#[test]
fn score_wins_only_against_the_word_itself() {
    let words = words_over(b"ab");
    for guess in &words {
        for target in &words {
            assert_eq!(score_word_pair(guess, target) == 242, guess == target);
        }
    }
}

#[test]
fn exact_match_goes_before_displaced_match() {
    // The second `e` of the guess is in place; the first finds no other.
    assert_eq!(score_word_pair("cheer", "abbey"), 54);
    assert_eq!(format_score(54), "...G.");
}

#[test]
fn displaced_letters_take_the_leftmost_free_slot() {
    assert_eq!(score_word_pair("eerie", "cheer"), 13);
    assert_eq!(format_score(13), "yyy..");
    assert_eq!(score_word_pair("cheer", "eerie"), 117);
    assert_eq!(format_score(117), "..yyy");
    assert_eq!(score_word_pair("allee", "eagle"), 193);
    assert_eq!(score_word_pair("llama", "alley"), 16);
}

#[test]
fn score_of_rotated_word_is_all_displaced() {
    assert_eq!(score_word_pair("abcde", "eabcd"), 121);
    assert_eq!(format_score(121), "yyyyy");
}

#[test]
fn score_without_common_letters_is_zero() {
    assert_eq!(score_word_pair("abcde", "fghij"), 0);
    assert_eq!(score_word_pair_simple("abcde", "fghij"), 0);
}

#[test]
fn score_of_repeated_letter_against_one_occurrence() {
    assert_eq!(score_word_pair("aaaaa", "aaaab"), 80);
    assert_eq!(score_word_pair("aaaab", "aaaaa"), 80);
    assert_eq!(score_word_pair("baaaa", "abbbb"), 4);
}

#[test]
fn unrolled_and_simple_agree_on_a_small_alphabet() {
    let words = words_over(b"abc");
    assert_eq!(words.len(), 243);
    for guess in &words {
        for target in &words {
            assert_eq!(
                score_word_pair(guess, target),
                score_word_pair_simple(guess, target),
                "{} against {}",
                guess,
                target
            );
        }
    }
}

#[test]
fn scores_agree_with_counting_on_a_small_alphabet() {
    let words = words_over(b"xyz");
    for guess in &words {
        for target in &words {
            assert_eq!(
                score_word_pair(guess, target),
                score_by_counting(guess, target),
                "{} against {}",
                guess,
                target
            );
        }
    }
}

#[test]
fn scores_agree_on_english_words() {
    let words = [
        "abbey", "caddy", "sorry", "rotor", "cheer", "eerie", "daddy", "sassy", "berry", "merry",
        "speed", "erase", "allee", "eagle", "llama", "alley", "crane", "slate", "tares", "aloes",
    ];
    for guess in words {
        for target in words {
            let score = score_word_pair(guess, target);
            assert_eq!(score, score_word_pair_simple(guess, target));
            assert_eq!(score, score_by_counting(guess, target));
            assert!(score <= 242);
        }
    }
}

#[test]
fn score_compares_bytes() {
    // Five bytes each, with letters beyond ASCII.
    assert_eq!(score_word_pair("h\u{e9}lo", "h\u{e9}lo"), 242);
    assert_eq!(score_word_pair("h\u{e9}lo", "hallo"), 2 + 54 + 162);
}

#[test]
fn word_length_counts_bytes() {
    assert!(has_word_length("caddy"));
    assert!(has_word_length("h\u{e9}lo"));
    assert!(!has_word_length(""));
    assert!(!has_word_length("cadd"));
    assert!(!has_word_length("caddie"));
    assert!(!has_word_length("h\u{e9}llo"));
}
