use wordle_guesser::word_lists::by_frequency;

#[test]
fn most_common_word_comes_first() {
    let ordered = by_frequency(vec![(5, "caddy"), (900, "sorry"), (17, "abbey")]);
    assert_eq!(ordered, [(900, "sorry"), (17, "abbey"), (5, "caddy")]);
}

#[test]
fn equally_common_words_come_by_the_dictionary() {
    let ordered = by_frequency(vec![
        (7, "merry"),
        (0, "zzzzz"),
        (7, "berry"),
        (0, "aaaaa"),
        (7, "cheer"),
    ]);
    assert_eq!(
        ordered,
        [(7, "berry"), (7, "cheer"), (7, "merry"), (0, "aaaaa"), (0, "zzzzz")]
    );
}

#[test]
fn frequency_order_keeps_repeated_words() {
    let ordered = by_frequency(vec![(1, "abbey"), (3, "abbey"), (1, "abbey")]);
    assert_eq!(ordered, [(3, "abbey"), (1, "abbey"), (1, "abbey")]);
}

#[test]
fn frequency_order_of_extreme_counts() {
    let ordered = by_frequency(vec![(0, "caddy"), (u32::MAX, "sorry"), (u32::MAX - 1, "abbey")]);
    assert_eq!(ordered, [(u32::MAX, "sorry"), (u32::MAX - 1, "abbey"), (0, "caddy")]);
}

#[test]
fn frequency_order_of_nothing() {
    assert!(by_frequency(Vec::new()).is_empty());
}
