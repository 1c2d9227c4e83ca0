use boggle::results::{
    calc_shared, calc_winner, greatest_len_word, pretty_print, print_shared_words, print_test,
    results, unit_tests, GameResult, PlayerResult,
};

fn player(name: &str, words: &[&str]) -> PlayerResult {
    PlayerResult {
        name: name.to_string(),
        words: words.iter().map(|w| w.to_string()).collect(),
    }
}

fn sample_text() -> String {
    [
        "Results:\njeff won!\n\nWords Found:\n\n",
        "this  this  \n",
        "is    is    \n",
        "a     a     \n",
        "test  stick \n",
        "      up    \n",
        "            \n",
    ]
    .concat()
}

#[test]
fn print_test_gives_the_sample_report() {
    assert_eq!(print_test(), sample_text());
    assert_eq!(unit_tests(), sample_text());
}

#[test]
fn calc_shared_keeps_words_everyone_found_in_first_order() {
    let players = vec![
        player("ann", &["up", "this", "cat", "is"]),
        player("bob", &["is", "this", "dog"]),
        player("cy", &["this", "is", "up"]),
    ];
    assert_eq!(calc_shared(&players), vec!["this".to_string(), "is".to_string()]);
}

#[test]
fn calc_shared_single_player_keeps_all_words() {
    let players = vec![player("ann", &["b", "a", "b"])];
    assert_eq!(
        calc_shared(&players),
        vec!["b".to_string(), "a".to_string(), "b".to_string()]
    );
}

#[test]
fn calc_winner_picks_first_with_most_words() {
    let players = vec![
        player("ann", &["a"]),
        player("bob", &["a", "b"]),
        player("cy", &["c", "d"]),
    ];
    assert_eq!(calc_winner(&players).name, "bob");
    let tie = vec![player("ann", &["a"]), player("bob", &["b"])];
    assert_eq!(calc_winner(&tie).name, "ann");
}

#[test]
fn greatest_len_word_counts_characters() {
    let players = vec![player("ann", &["ab", "héllo"]), player("bob", &["xyz"])];
    assert_eq!(greatest_len_word(&players), 5);
    let empty = vec![player("ann", &[])];
    assert_eq!(greatest_len_word(&empty), 0);
    let none: Vec<PlayerResult> = Vec::new();
    assert_eq!(greatest_len_word(&none), 0);
}

#[test]
fn print_shared_words_repeats_each_word_per_player() {
    let players = vec![player("ann", &["to"]), player("bob", &["to"])];
    let gr = GameResult {
        players: &players,
        shared: vec!["to".to_string()],
        winner: &players[0],
    };
    assert_eq!(print_shared_words(&gr, 3), "to to \n");
}

#[test]
fn pretty_print_pads_columns_and_ends_with_blank_line() {
    let players = vec![player("ann", &["cat", "up"]), player("bo", &["up"])];
    let gr = GameResult {
        players: &players,
        shared: vec!["up".to_string()],
        winner: &players[0],
    };
    let expected = [
        "Results:\nann won!\n\nWords Found:\n\n",
        "up  up  \n",
        "cat     \n",
        "        \n",
    ]
    .concat();
    assert_eq!(pretty_print(&gr), expected);
}

#[test]
fn results_with_no_shared_words() {
    let players = vec![player("ann", &["ab"]), player("bob", &["cd", "e"])];
    let expected = [
        "Results:\nbob won!\n\nWords Found:\n\n",
        "ab cd \n",
        "   e  \n",
        "      \n",
    ]
    .concat();
    assert_eq!(results(players), expected);
}

#[test]
fn results_single_player_all_shared() {
    let players = vec![player("solo", &["ox"])];
    let expected = "Results:\nsolo won!\n\nWords Found:\n\nox \n   \n";
    assert_eq!(results(players), expected);
}
