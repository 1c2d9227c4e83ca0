use boggle::board::{
    board_contains, board_search_is_safe, board_text, search_is_safe, worm, Board, Previous,
};
use boggle::text::substr_compare;

fn sample_board() -> Board {
    [
        ['c', 'a', 't', 's'],
        ['d', 'o', 'g', 'e'],
        ['x', 'y', 'z', 'q'],
        ['r', 'u', 'n', 's'],
    ]
}

fn s(text: &str) -> String {
    text.to_string()
}

#[test]
fn substr_compare_prefixes() {
    assert!(substr_compare(&s("ca"), &s("cat")));
    assert!(substr_compare(&s("cat"), &s("cat")));
    assert!(substr_compare(&s(""), &s("cat")));
    assert!(!substr_compare(&s("cat"), &s("ca")));
    assert!(!substr_compare(&s("co"), &s("cat")));
    assert!(substr_compare(&s("hé"), &s("hél")));
    assert!(!substr_compare(&s("hè"), &s("hél")));
}

#[test]
fn board_contains_straight_words() {
    let b = sample_board();
    assert!(board_contains(&s("cat"), &b));
    assert!(board_contains(&s("cats"), &b));
    assert!(board_contains(&s("dog"), &b));
    assert!(board_contains(&s("run"), &b));
    assert!(board_contains(&s("runs"), &b));
}

#[test]
fn board_contains_diagonal_and_turning_words() {
    let b = sample_board();
    // c(0,0) o(1,1) d(1,0) a(0,1): diagonal, down, diagonal
    assert!(board_contains(&s("coda"), &b));
    assert!(board_contains(&s("god"), &b));
    assert!(board_contains(&s("zyx"), &b));
}

#[test]
fn board_contains_rejects_reused_and_far_cells() {
    let b = sample_board();
    // only one 'c' on the board
    assert!(!board_contains(&s("cac"), &b));
    // only one 't'
    assert!(!board_contains(&s("catt"), &b));
    // 'g' and 'u' do not touch
    assert!(!board_contains(&s("gun"), &b));
    assert!(!board_contains(&s("w"), &b));
}

#[test]
fn board_contains_single_letter() {
    let b = sample_board();
    assert!(board_contains(&s("q"), &b));
    assert!(board_contains(&s("s"), &b));
}

#[test]
fn prefix_of_traceable_word_is_traceable() {
    let b = sample_board();
    let word = "coda";
    assert!(board_contains(&s(word), &b));
    for k in 1..=word.len() {
        assert!(board_contains(&s(&word[..k]), &b));
    }
}

#[test]
fn reversed_word_is_traceable_exactly_when_word_is() {
    let b = sample_board();
    for word in ["cats", "coda", "runs", "gun", "cac", "zyx"] {
        let reversed: String = word.chars().rev().collect();
        assert_eq!(board_contains(&s(word), &b), board_contains(&reversed, &b));
    }
}

#[test]
fn worm_continues_from_a_cell() {
    let b = sample_board();
    let none: Vec<Previous> = Vec::new();
    assert!(worm(0, 0, s("c"), &s("cat"), &b, &none));
    assert!(worm(0, 0, s("c"), &s("c"), &b, &none));
    assert!(worm(0, 0, s("c"), &s("cot"), &b, &none));
    assert!(!worm(0, 0, s("c"), &s("cab"), &b, &none));
    // the 'a' at (0, 1) is already used
    let used = vec![Previous { x: 0, y: 1 }];
    assert!(!worm(0, 0, s("c"), &s("cat"), &b, &used));
    // a prefix that does not begin the target leads nowhere
    assert!(!worm(0, 0, s("x"), &s("cat"), &b, &none));
}

#[test]
fn board_text_lays_out_columns_as_lines() {
    let b = sample_board();
    assert_eq!(
        board_text(&b),
        "c d x r\na o y u\nt g z n\ns e q s\n"
    );
}

#[test]
fn board_search_safety_on_non_ascii_words() {
    let b = sample_board();
    // no 'b' touches the 'a', and every cut falls on a character boundary
    assert!(board_search_is_safe(&s("ab€"), &b));
    assert!(!board_contains(&s("ab€"), &b));
    // after "a", a one-byte neighbour would cut inside the euro sign
    assert!(!board_search_is_safe(&s("a€"), &b));
    assert!(!board_search_is_safe(&s(""), &b));
    assert!(!board_search_is_safe(&s("€a"), &b));
    assert!(board_search_is_safe(&s("cat"), &b));
}

#[test]
fn search_is_safe_reports_search_result() {
    let b = sample_board();
    let none: Vec<Previous> = Vec::new();
    assert_eq!(search_is_safe(0, 0, s("c"), &s("cat"), &b, &none), (true, true));
    assert_eq!(search_is_safe(0, 0, s("c"), &s("cab"), &b, &none), (true, false));
    assert_eq!(search_is_safe(0, 1, s("a"), &s("a€"), &b, &none), (false, false));
}
