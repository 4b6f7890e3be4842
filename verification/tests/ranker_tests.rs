use wordle_guesser::estimator::GuessQuality;
use wordle_guesser::ranker::{compare_quality, compare_words, Rank};
use wordle_guesser::sorting::{ordering_of, rank_qualities};
use std::cmp::Ordering;

fn quality(
    guess: &str,
    max_remaining: u16,
    squares_sum: u64,
    num_targets: u16,
    has_winning: bool,
) -> GuessQuality<'_> {
    GuessQuality {
        has_winning,
        squares_sum,
        num_targets,
        max_remaining,
        score_with_max_remaining: 0,
        guess,
    }
}

#[test]
fn words_compare_as_in_the_dictionary() {
    assert_eq!(compare_words("abbey", "caddy"), Rank::Before);
    assert_eq!(compare_words("caddy", "abbey"), Rank::After);
    assert_eq!(compare_words("caddy", "caddy"), Rank::Same);
    assert_eq!(compare_words("berry", "merry"), Rank::Before);
    assert_eq!(compare_words("merry", "marry"), Rank::After);
    assert_eq!(compare_words("abbey", "abbez"), Rank::Before);
}

#[test]
fn shorter_word_comes_before_its_extension() {
    assert_eq!(compare_words("", ""), Rank::Same);
    assert_eq!(compare_words("", "a"), Rank::Before);
    assert_eq!(compare_words("abb", "abbey"), Rank::Before);
    assert_eq!(compare_words("abbey", "abb"), Rank::After);
}

#[test]
fn words_compare_as_std_does() {
    let words = ["", "a", "ab", "abbey", "abbot", "b", "caddy", "z", "zz", "h\u{e9}lo", "hallo"];
    for a in words {
        for b in words {
            let expected = match a.cmp(b) {
                Ordering::Less => Rank::Before,
                Ordering::Equal => Rank::Same,
                Ordering::Greater => Rank::After,
            };
            assert_eq!(compare_words(a, b), expected, "{:?} and {:?}", a, b);
        }
    }
}

#[test]
fn smaller_cost_comes_first() {
    // 3 * 18 / 10 against 4 * 14 / 10.
    let a = quality("zzzzz", 3, 18, 10, false);
    let b = quality("aaaaa", 4, 14, 10, true);
    assert_eq!(compare_quality(&a, &b), Rank::Before);
    assert_eq!(compare_quality(&b, &a), Rank::After);
}

#[test]
fn cost_is_the_product_not_either_factor() {
    // 2 * 30 / 10 = 6 against 5 * 11 / 10 = 5.5.
    let a = quality("aaaaa", 2, 30, 10, true);
    let b = quality("zzzzz", 5, 11, 10, false);
    assert_eq!(compare_quality(&a, &b), Rank::After);
}

#[test]
fn costs_over_different_target_counts_compare_as_fractions() {
    // 3 * 10 / 4 = 7.5 against 3 * 20 / 9 = 6.67.
    let a = quality("aaaaa", 3, 10, 4, true);
    let b = quality("bbbbb", 3, 20, 9, true);
    assert_eq!(compare_quality(&a, &b), Rank::After);
    // 2 * 6 / 4 = 3 against 3 * 9 / 9 = 3: a tie that the win cannot
    // break, so the smaller largest bucket decides.
    let c = quality("zzzzz", 2, 6, 4, true);
    let d = quality("aaaaa", 3, 9, 9, true);
    assert_eq!(compare_quality(&c, &d), Rank::Before);
}

#[test]
fn winning_guess_breaks_a_tie_of_costs() {
    let a = quality("zzzzz", 3, 16, 10, true);
    let b = quality("aaaaa", 3, 16, 10, false);
    assert_eq!(compare_quality(&a, &b), Rank::Before);
    assert_eq!(compare_quality(&b, &a), Rank::After);
    // 2 * 12 = 3 * 8: the win decides before the largest bucket.
    let c = quality("zzzzz", 3, 8, 10, true);
    let d = quality("aaaaa", 2, 12, 10, false);
    assert_eq!(compare_quality(&c, &d), Rank::Before);
}

#[test]
fn smaller_largest_bucket_breaks_the_next_tie() {
    // 2 * 12 = 3 * 8.
    let a = quality("zzzzz", 2, 12, 10, true);
    let b = quality("aaaaa", 3, 8, 10, true);
    assert_eq!(compare_quality(&a, &b), Rank::Before);
    assert_eq!(compare_quality(&b, &a), Rank::After);
}

#[test]
fn smaller_mean_breaks_a_tie_of_empty_buckets() {
    // Both costs are 0, neither wins, both largest buckets are 0.
    let a = quality("zzzzz", 0, 5, 10, false);
    let b = quality("aaaaa", 0, 7, 10, false);
    assert_eq!(compare_quality(&a, &b), Rank::Before);
    assert_eq!(compare_quality(&b, &a), Rank::After);
}

#[test]
fn word_breaks_the_last_tie() {
    let a = quality("berry", 3, 16, 10, true);
    let b = quality("merry", 3, 16, 10, true);
    assert_eq!(compare_quality(&a, &b), Rank::Before);
    assert_eq!(compare_quality(&b, &a), Rank::After);
    assert_eq!(compare_quality(&a, &a), Rank::Same);
}

#[test]
fn equal_fractions_written_differently_tie() {
    let a = quality("berry", 3, 16, 10, true);
    let b = quality("berry", 3, 32, 20, true);
    assert_eq!(compare_quality(&a, &b), Rank::Same);
}

#[test]
fn largest_numbers_compare_without_overflow() {
    let a = quality("aaaaa", u16::MAX, u64::MAX, u16::MAX, false);
    let b = quality("bbbbb", u16::MAX, u64::MAX, u16::MAX, false);
    assert_eq!(compare_quality(&a, &b), Rank::Before);
    let c = quality("aaaaa", u16::MAX, u64::MAX - 1, u16::MAX, false);
    assert_eq!(compare_quality(&a, &c), Rank::After);
}

#[test]
fn ordering_follows_rank() {
    let a = quality("berry", 3, 16, 10, true);
    let b = quality("merry", 3, 16, 10, true);
    assert_eq!(ordering_of(&a, &b), Ordering::Less);
    assert_eq!(ordering_of(&b, &a), Ordering::Greater);
    assert_eq!(ordering_of(&a, &a), Ordering::Equal);
}

#[test]
fn ranking_sorts_by_every_key() {
    let mut list = vec![
        quality("zzzzz", 10, 100, 10, false),
        quality("sorry", 3, 18, 10, true),
        quality("merry", 3, 16, 10, true),
        quality("rotor", 4, 24, 10, true),
        quality("berry", 3, 16, 10, true),
        quality("cheer", 2, 14, 10, true),
        quality("other", 3, 16, 10, false),
        quality("caddy", 3, 18, 10, true),
    ];
    rank_qualities(&mut list);
    let words: Vec<&str> = list.iter().map(|q| q.guess).collect();
    assert_eq!(
        words,
        ["cheer", "berry", "merry", "other", "caddy", "sorry", "rotor", "zzzzz"]
    );
}

#[test]
fn ranking_keeps_every_entry() {
    let mut list = vec![
        quality("caddy", 3, 18, 10, true),
        quality("caddy", 3, 18, 10, true),
        quality("abbey", 3, 16, 10, true),
    ];
    rank_qualities(&mut list);
    let words: Vec<&str> = list.iter().map(|q| q.guess).collect();
    assert_eq!(words, ["abbey", "caddy", "caddy"]);
}

#[test]
fn ranking_of_nothing_and_of_one() {
    let mut none: Vec<GuessQuality> = Vec::new();
    rank_qualities(&mut none);
    assert!(none.is_empty());
    let mut one = vec![quality("caddy", 3, 18, 10, true)];
    rank_qualities(&mut one);
    assert_eq!(one[0].guess, "caddy");
}

#[test]
fn ranked_list_has_no_entry_before_an_earlier_one() {
    let mut list = Vec::new();
    let words = ["aaaaa", "bbbbb", "ccccc", "ddddd", "eeeee", "fffff"];
    for (i, word) in words.iter().enumerate() {
        for max in 1..4u16 {
            let squares = (7 * i as u64 + 3 * max as u64) % 11 + max as u64;
            list.push(quality(word, max, squares, 12, (i + max as usize) % 2 == 0));
        }
    }
    rank_qualities(&mut list);
    for i in 0..list.len() {
        for j in i + 1..list.len() {
            assert_ne!(compare_quality(&list[j], &list[i]), Rank::Before);
        }
    }
}

#[test]
fn tied_entries_keep_their_order() {
    let mut list = Vec::new();
    for score in [7u8, 3, 9, 1] {
        let merry = quality("merry", 3, 16, 10, true);
        let berry = quality("berry", 3, 32, 20, true);
        list.push(GuessQuality { score_with_max_remaining: score, ..merry });
        list.push(GuessQuality { score_with_max_remaining: score, ..berry });
    }
    rank_qualities(&mut list);
    let got: Vec<(&str, u8)> = list.iter().map(|q| (q.guess, q.score_with_max_remaining)).collect();
    assert_eq!(
        got,
        [
            ("berry", 7),
            ("berry", 3),
            ("berry", 9),
            ("berry", 1),
            ("merry", 7),
            ("merry", 3),
            ("merry", 9),
            ("merry", 1)
        ]
    );
}
