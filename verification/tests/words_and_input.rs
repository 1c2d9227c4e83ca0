use boggle::board::Board;
use boggle::dice::{_old_rand_board, rand_board};
use boggle::dict::{is_sub_word, is_word, scraper, scraper_worm, Dictionary};
use boggle::input::{
    browser_action, check_input, get_online, input_is_str, judge_guess, BrowserAction,
    CheckOutcome, CHARS,
};
use boggle::board::Previous;

fn s(text: &str) -> String {
    text.to_string()
}

fn dictionary() -> Dictionary {
    Dictionary::from_entries(vec![
        (s("ca"), false),
        (s("cat"), true),
        (s("cats"), true),
        (s("do"), true),
        (s("dog"), true),
        (s("gun"), true),
        (s("cat"), false),
    ])
}

fn sample_board() -> Board {
    [
        ['c', 'a', 't', 's'],
        ['d', 'o', 'g', 'e'],
        ['x', 'y', 'z', 'q'],
        ['r', 'u', 'n', 's'],
    ]
}

#[test]
fn dictionary_first_entry_counts() {
    let d = dictionary();
    assert_eq!(d.get(&s("cat")), Some(true));
    assert_eq!(d.get(&s("ca")), Some(false));
    assert_eq!(d.get(&s("zebra")), None);
}

#[test]
fn is_word_and_is_sub_word() {
    let d = dictionary();
    assert!(is_word(&s("cat"), &d));
    assert!(!is_sub_word(&s("cat"), &d));
    assert!(is_sub_word(&s("ca"), &d));
    assert!(!is_word(&s("ca"), &d));
    assert!(!is_word(&s("zebra"), &d));
    assert!(!is_sub_word(&s("zebra"), &d));
}

#[test]
fn scraper_reports_nothing() {
    let d = dictionary();
    assert!(scraper(&sample_board(), &d).is_empty());
    let mut found = vec![s("kept")];
    let none: Vec<Previous> = Vec::new();
    scraper_worm(0, 0, s("c"), &sample_board(), &none, &mut found, &d);
    assert_eq!(found, vec![s("kept")]);
}

#[test]
fn input_is_str_trims_then_checks_letters() {
    assert!(input_is_str(&s("cat")));
    assert!(input_is_str(&s("  cat \n")));
    assert!(input_is_str(&s("")));
    assert!(input_is_str(&s(" \t ")));
    assert!(input_is_str(&s("\u{3000}cat\u{a0}")));
    assert!(!input_is_str(&s("\u{200b}cat")));
    assert!(!input_is_str(&s("Cat")));
    assert!(!input_is_str(&s("ca t")));
    assert!(!input_is_str(&s("cat1")));
    assert_eq!(CHARS.len(), 26);
}

#[test]
fn get_online_reads_the_choice() {
    assert_eq!(get_online(&s("online")), Some(true));
    assert_eq!(get_online(&s("offline")), Some(false));
    assert_eq!(get_online(&s("Online")), None);
    assert_eq!(get_online(&s("")), None);
}

#[test]
fn check_input_each_outcome() {
    let d = dictionary();
    let b = sample_board();
    assert_eq!(check_input(&s("cat"), &b, &d), CheckOutcome::Found);
    assert_eq!(check_input(&s("dog"), &b, &d), CheckOutcome::Found);
    assert_eq!(check_input(&s("gun"), &b, &d), CheckOutcome::NotOnBoard);
    assert_eq!(check_input(&s("ca"), &b, &d), CheckOutcome::NotRecognised);
    assert_eq!(check_input(&s("tac"), &b, &d), CheckOutcome::NotRecognised);
    assert_eq!(check_input(&s("c4t"), &b, &d), CheckOutcome::NotLetters);
}

#[test]
fn rand_board_faces_come_from_their_dice() {
    let mut dice = [['a'; 6]; 16];
    for (i, die) in dice.iter_mut().enumerate() {
        for (j, face) in die.iter_mut().enumerate() {
            *face = char::from(b'a' + ((i + j) % 26) as u8);
        }
    }
    for _ in 0..20 {
        let b = rand_board(&dice);
        for x in 0..4 {
            for y in 0..4 {
                assert!(dice[4 * x + y].contains(&b[x][y]));
            }
        }
    }
    let single = [['q'; 6]; 16];
    assert_eq!(rand_board(&single), [['q'; 4]; 4]);
}

#[test]
fn old_rand_board_uses_letters() {
    for _ in 0..20 {
        let b = _old_rand_board();
        for row in b.iter() {
            for c in row.iter() {
                assert!(CHARS.contains(c));
            }
        }
    }
}

#[test]
fn check_input_non_letter_dictionary_word_is_not_letters() {
    let d = Dictionary::from_entries(vec![(s("é"), true), (s(""), true)]);
    let b = sample_board();
    assert_eq!(check_input(&s("é"), &b, &d), CheckOutcome::NotLetters);
    assert_eq!(judge_guess(&s("é"), &b, &d), Some(CheckOutcome::NotLetters));
}

#[test]
fn judge_guess_refuses_unsearchable_guesses() {
    let d = Dictionary::from_entries(vec![
        (s(""), true),
        (s("cat"), true),
        (s("ca\u{3000}"), true),
    ]);
    let b = sample_board();
    assert_eq!(judge_guess(&s(""), &b, &d), None);
    // the search reaches "ca", then cuts inside the ideographic space
    assert_eq!(judge_guess(&s("ca\u{3000}"), &b, &d), None);
    assert_eq!(judge_guess(&s("cat"), &b, &d), Some(CheckOutcome::Found));
    assert_eq!(judge_guess(&s("dog"), &b, &d), Some(CheckOutcome::NotRecognised));
}

#[test]
fn judge_guess_answers_safe_non_ascii_guesses() {
    let mut b: Board = [['é'; 4]; 4];
    b[0][0] = 'x';
    let d = Dictionary::from_entries(vec![(s("x\u{a0}"), true)]);
    // every neighbour of 'x' is two bytes long, as is the no-break space
    assert_eq!(judge_guess(&s("x\u{a0}"), &b, &d), Some(CheckOutcome::NotOnBoard));
    assert_eq!(check_input(&s("x\u{a0}"), &b, &d), CheckOutcome::NotOnBoard);
}

#[test]
fn browser_action_reads_first_word() {
    assert_eq!(browser_action(&s("host")), BrowserAction::StartGame);
    assert_eq!(browser_action(&s("join game1")), BrowserAction::StartGame);
    assert_eq!(browser_action(&s("list")), BrowserAction::ListHosts);
    assert_eq!(browser_action(&s("list all")), BrowserAction::ListHosts);
    assert_eq!(browser_action(&s(" host")), BrowserAction::AskAgain);
    assert_eq!(browser_action(&s("hostx")), BrowserAction::AskAgain);
    assert_eq!(browser_action(&s("")), BrowserAction::AskAgain);
}
