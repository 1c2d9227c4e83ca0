//! Judging what a player types: the mode choice and guessed words.
use vstd::prelude::*;
use vstd::string::*;
use crate::board::{
    Board, board_contains, board_search_is_safe, board_search_safe, lemma_ascii_words_searchable,
    traceable,
};
use vstd::utf8::is_ascii_chars;
use crate::dict::{Dictionary, is_word};
use crate::text::utf8_len;

verus! {

broadcast use vstd::string::group_string_axioms;

/// The letters a word may be made of.
pub const CHARS: [char; 26] = [
    'a', 'b', 'c', 'd', 'e', 'f', 'g', 'h', 'i', 'j', 'k', 'l', 'm',
    'n', 'o', 'p', 'q', 'r', 's', 't', 'u', 'v', 'w', 'x', 'y', 'z',
];

/// Every character of `s` is one of `CHARS`.
pub open spec fn letters_only(s: Seq<char>) -> bool {
    forall|i: int| 0 <= i < s.len() ==> CHARS@.contains(#[trigger] s[i])
}

/// `c` has the Unicode White_Space property, which is what `str::trim`
/// removes (`char::is_whitespace`).
pub open spec fn is_white_space(c: char) -> bool {
    ||| '\u{9}' <= c <= '\u{d}'
    ||| c == ' '
    ||| c == '\u{85}'
    ||| c == '\u{a0}'
    ||| c == '\u{1680}'
    ||| '\u{2000}' <= c <= '\u{200a}'
    ||| c == '\u{2028}'
    ||| c == '\u{2029}'
    ||| c == '\u{202f}'
    ||| c == '\u{205f}'
    ||| c == '\u{3000}'
}

/// `s` without its leading white space.
pub open spec fn trim_front(s: Seq<char>) -> Seq<char>
    decreases s.len(),
{
    if s.len() > 0 && is_white_space(s[0]) {
        trim_front(s.drop_first())
    } else {
        s
    }
}

/// `s` without its trailing white space.
pub open spec fn trim_back(s: Seq<char>) -> Seq<char>
    decreases s.len(),
{
    if s.len() > 0 && is_white_space(s.last()) {
        trim_back(s.drop_last())
    } else {
        s
    }
}

/// `s` without leading and trailing white space, as `str::trim` gives it.
pub open spec fn trimmed(s: Seq<char>) -> Seq<char> {
    trim_back(trim_front(s))
}

/// Whether `c` has the Unicode White_Space property.
pub fn white_space(c: char) -> (r: bool)
    ensures
        r == is_white_space(c),
{
    ('\u{9}' <= c && c <= '\u{d}') || c == ' ' || c == '\u{85}' || c == '\u{a0}' || c
        == '\u{1680}' || ('\u{2000}' <= c && c <= '\u{200a}') || c == '\u{2028}' || c
        == '\u{2029}' || c == '\u{202f}' || c == '\u{205f}' || c == '\u{3000}'
}

/// Where the text of `s` without leading and trailing white space begins
/// and ends, in characters.
pub fn trim_bounds(s: &str) -> (r: (usize, usize))
    ensures
        r.0 <= r.1 <= s@.len(),
        trimmed(s@) == s@.subrange(r.0 as int, r.1 as int),
{
    let n = s.unicode_len();
    let mut i: usize = 0;
    assert(s@.subrange(0, n as int) =~= s@);
    loop
        invariant
            n == s@.len(),
            i <= n,
            trim_front(s@) == trim_front(s@.subrange(i as int, n as int)),
        ensures
            i <= n,
            trim_front(s@) == s@.subrange(i as int, n as int),
        decreases n - i,
    {
        if i == n {
            assert(s@.subrange(i as int, n as int) =~= Seq::<char>::empty());
            break;
        }
        let c = s.get_char(i);
        assert(s@.subrange(i as int, n as int)[0] == c);
        if !white_space(c) {
            break;
        }
        assert(s@.subrange(i as int, n as int).drop_first() =~= s@.subrange(i + 1, n as int));
        i = i + 1;
    }
    let mut j: usize = n;
    loop
        invariant
            n == s@.len(),
            i <= j <= n,
            trimmed(s@) == trim_back(s@.subrange(i as int, j as int)),
        ensures
            i <= j <= n,
            trimmed(s@) == s@.subrange(i as int, j as int),
        decreases j - i,
    {
        if j == i {
            assert(s@.subrange(i as int, j as int) =~= Seq::<char>::empty());
            break;
        }
        let c = s.get_char(j - 1);
        assert(s@.subrange(i as int, j as int).last() == c);
        if !white_space(c) {
            break;
        }
        assert(s@.subrange(i as int, j as int).drop_last() =~= s@.subrange(i as int, j - 1));
        j = j - 1;
    }
    (i, j)
}

/// Whether `c` is one of `CHARS`.
fn is_letter(c: char) -> (r: bool)
    ensures
        r == CHARS@.contains(c),
{
    let mut i: usize = 0;
    while i < 26
        invariant
            i <= 26,
            forall|j: int| 0 <= j < i ==> CHARS@[j] != c,
        decreases 26 - i,
    {
        if CHARS[i] == c {
            assert(CHARS@[i as int] == c);
            return true;
        }
        i = i + 1;
    }
    false
}

/// Whether the input, without surrounding white space, holds only letters.
pub fn input_is_str(inp: &String) -> (r: bool)
    ensures
        r == letters_only(trimmed(inp@)),
        inp@.len() == 0 ==> r,
{
    let (start, end) = trim_bounds(inp.as_str());
    let ghost t = trimmed(inp@);
    let mut k: usize = start;
    while k < end
        invariant
            start <= k <= end,
            end <= inp@.len(),
            t == inp@.subrange(start as int, end as int),
            t == trimmed(inp@),
            forall|m: int| 0 <= m < k - start ==> CHARS@.contains(#[trigger] t[m]),
        decreases end - k,
    {
        let x = inp.as_str().get_char(k);
        assert(t[k - start] == x);
        if !is_letter(x) {
            assert(0 <= k - start < t.len());
            assert(!CHARS@.contains(t[k - start]));
            assert(!letters_only(t));
            return false;
        }
        k = k + 1;
    }
    true
}

/// The mode the player chose: `Some(true)` for "online", `Some(false)` for
/// "offline", `None` for anything else (the question is then asked again).
pub fn get_online(choice: &String) -> (r: Option<bool>)
    ensures
        r == (if choice@ == "online"@ {
            Some(true)
        } else if choice@ == "offline"@ {
            Some(false)
        } else {
            None
        }),
{
    let online = String::from_str("online");
    let offline = String::from_str("offline");
    if choice.eq(&online) {
        return Some(true);
    } else if choice.eq(&offline) {
        return Some(false);
    }
    None
}

/// The verdict on a guessed word.
#[derive(Clone, Copy, Debug, PartialEq, Eq)]
pub enum CheckOutcome {
    /// A dictionary word that can be traced on the board.
    Found,
    /// A dictionary word that cannot be traced on the board.
    NotOnBoard,
    /// Letters only, but not a dictionary word.
    NotRecognised,
    /// Something other than letters.
    NotLetters,
}

/// The verdict on a guess, as the checks run: letters only, then a
/// dictionary word, then traceable on the board.
pub open spec fn check_spec(inp: Seq<char>, board: Board, dict: Map<Seq<char>, bool>) -> CheckOutcome {
    if !letters_only(trimmed(inp)) {
        CheckOutcome::NotLetters
    } else if !(dict.contains_key(inp) && dict[inp]) {
        CheckOutcome::NotRecognised
    } else if !traceable(board, inp) {
        CheckOutcome::NotOnBoard
    } else {
        CheckOutcome::Found
    }
}

/// Judges a guessed word. A guess counts (`Found`) when it is made of
/// letters, is a dictionary word and can be traced on the board.
pub fn check_input(inp: &String, board: &Board, dict: &Dictionary) -> (r: CheckOutcome)
    requires
        (letters_only(trimmed(inp@)) && dict@.contains_key(inp@) && dict@[inp@])
            ==> board_search_safe(*board, inp@),
        utf8_len(inp@) + 4 <= usize::MAX,
    ensures
        r == check_spec(inp@, *board, dict@),
{
    if input_is_str(inp) {
        if is_word(inp, dict) {
            if board_contains(inp, board) {
                return CheckOutcome::Found;
            } else {
                return CheckOutcome::NotOnBoard;
            }
        } else {
            return CheckOutcome::NotRecognised;
        }
    } else {
        return CheckOutcome::NotLetters;
    }
}

/// A guess on which the board search cannot run: it passes the letter and
/// dictionary checks, yet the search would cut it inside a character (see
/// `board_search_safe`).
pub open spec fn unsearchable(inp: Seq<char>, board: Board, dict: Map<Seq<char>, bool>) -> bool {
    &&& letters_only(trimmed(inp))
    &&& dict.contains_key(inp) && dict[inp]
    &&& !board_search_safe(board, inp)
}

/// The verdict on a guess, or `None` for a guess on which the board search
/// cannot run (see `unsearchable`).
pub fn judge_guess(inp: &String, board: &Board, dict: &Dictionary) -> (r: Option<CheckOutcome>)
    requires
        utf8_len(inp@) + 4 <= usize::MAX,
    ensures
        r == (if unsearchable(inp@, *board, dict@) {
            None
        } else {
            Some(check_spec(inp@, *board, dict@))
        }),
        inp@.len() > 0 && is_ascii_chars(inp@) ==> r == Some(check_spec(inp@, *board, dict@)),
{
    proof {
        if inp@.len() > 0 && is_ascii_chars(inp@) {
            lemma_ascii_words_searchable(*board, inp@);
        }
    }
    if input_is_str(inp) && is_word(inp, dict) && !board_search_is_safe(inp, board) {
        return None;
    }
    Some(check_input(inp, board, dict))
}

/// What the player's server-browser command asks for.
#[derive(Clone, Copy, Debug, PartialEq, Eq)]
pub enum BrowserAction {
    /// "host" or "join": send the command and start the game.
    StartGame,
    /// "list": send the command and show the hosts that come back.
    ListHosts,
    /// Anything else: ask again.
    AskAgain,
}

/// The text before the first space (all of it when there is none).
pub open spec fn first_token(s: Seq<char>) -> Seq<char>
    decreases s.len(),
{
    if s.len() == 0 || s[0] == ' ' {
        Seq::empty()
    } else {
        seq![s[0]] + first_token(s.drop_first())
    }
}

/// The action asked for by a server-browser command, chosen by its first
/// space-separated word.
pub fn browser_action(command: &String) -> (r: BrowserAction)
    ensures
        r == (if first_token(command@) == "host"@ || first_token(command@) == "join"@ {
            BrowserAction::StartGame
        } else if first_token(command@) == "list"@ {
            BrowserAction::ListHosts
        } else {
            BrowserAction::AskAgain
        }),
{
    let n = command.as_str().unicode_len();
    let mut token = String::new();
    let mut i: usize = 0;
    assert(command@.skip(0) =~= command@);
    while i < n
        invariant
            n == command@.len(),
            i <= n,
            first_token(command@) == token@ + first_token(command@.skip(i as int)),
        ensures
            i <= n,
            first_token(command@) == token@ + first_token(command@.skip(i as int)),
            i < n ==> command@[i as int] == ' ',
        decreases n - i,
    {
        let c = command.as_str().get_char(i);
        if c == ' ' {
            break;
        }
        assert(command@.skip(i as int)[0] == c);
        assert(command@.skip(i as int).drop_first() =~= command@.skip(i + 1));
        token.push(c);
        assert(first_token(command@) =~= token@ + first_token(command@.skip(i + 1)));
        i = i + 1;
    }
    assert(first_token(command@.skip(i as int)) =~= Seq::<char>::empty()) by {
        if i < n {
            assert(command@.skip(i as int)[0] == command@[i as int]);
        }
    }
    assert(token@ =~= first_token(command@));
    let host = String::from_str("host");
    let join = String::from_str("join");
    let list = String::from_str("list");
    if token.eq(&host) || token.eq(&join) {
        BrowserAction::StartGame
    } else if token.eq(&list) {
        BrowserAction::ListHosts
    } else {
        BrowserAction::AskAgain
    }
}

} // verus!
