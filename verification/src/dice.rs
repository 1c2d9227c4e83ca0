//! Rolling a fresh board.
use vstd::prelude::*;
use rand::seq::SliceRandom;
use crate::board::Board;
use crate::input::CHARS;

verus! {

/// The sixteen dice of the game, six faces each.
pub const DICE: [[char; 6]; 16] = [
    ['a', 'a', 'e', 'e', 'g', 'n'],
    ['a', 'b', 'b', 'j', 'o', 'o'],
    ['a', 'c', 'h', 'o', 'p', 's'],
    ['a', 'f', 'f', 'k', 'p', 's'],
    ['a', 'o', 'o', 't', 't', 'w'],
    ['c', 'i', 'm', 'o', 't', 'u'],
    ['d', 'e', 'i', 'l', 'r', 'x'],
    ['d', 'e', 'l', 'r', 'v', 'y'],
    ['d', 'i', 's', 't', 't', 'y'],
    ['e', 'e', 'g', 'h', 'n', 'w'],
    ['e', 'e', 'i', 'n', 's', 'u'],
    ['e', 'h', 'r', 't', 'v', 'w'],
    ['e', 'i', 'o', 's', 's', 't'],
    ['e', 'l', 'r', 't', 't', 'y'],
    ['h', 'i', 'm', 'n', 'q', 'u'],
    ['h', 'l', 'n', 'n', 'r', 'z'],
];

/// Picks one element of `options` at random, through
/// `rand::seq::SliceRandom::choose` on the thread-local generator
/// `rand::thread_rng()`. Claims what `choose` documents: `None` exactly when
/// `options` is empty, otherwise one of its elements; which one is left to
/// chance.
#[verifier::external_body]
fn choose_random(options: &[char]) -> (picked: Option<char>)
    ensures
        picked is None <==> options@.len() == 0,
        picked matches Some(c) ==> options@.contains(c),
{
    options.choose(&mut rand::thread_rng()).copied()
}

/// Every cell of the board shows a face of its own die: cell `(x, y)` is
/// rolled with die `4 * x + y`.
pub open spec fn rolled_from(b: Board, dice: [[char; 6]; 16]) -> bool {
    forall|x: int, y: int|
        0 <= x < 4 && 0 <= y < 4 ==> dice@[4 * x + y]@.contains(#[trigger] b@[x]@[y])
}

/// A board rolled from sixteen six-sided dice, one die per cell.
pub fn rand_board(dice: &[[char; 6]; 16]) -> (b: Board)
    ensures
        rolled_from(b, *dice),
{
    let mut b: Board = [['a'; 4]; 4];
    let mut i: usize = 0;
    for x in 0..4usize
        invariant
            i == 4 * x,
            forall|cx: int, cy: int|
                0 <= cx < x && 0 <= cy < 4 ==> dice@[4 * cx + cy]@.contains(#[trigger] b@[cx]@[cy]),
    {
        for y in 0..4usize
            invariant
                x < 4,
                i == 4 * x + y,
                forall|cx: int, cy: int|
                    (0 <= cx < x && 0 <= cy < 4) || (cx == x && 0 <= cy < y) ==> dice@[4 * cx
                        + cy]@.contains(#[trigger] b@[cx]@[cy]),
        {
            let die: &[char; 6] = &dice[i];
            let face = choose_random(die.as_slice());
            match face {
                Some(c) => {
                    let mut row = b[x];
                    row[y] = c;
                    b[x] = row;
                },
                None => {
                    assert(false);
                },
            }
            i += 1;
        }
    }
    b
}

/// A board of letters drawn at random, each one of `CHARS`.
pub fn _old_rand_board() -> (b: Board)
    ensures
        forall|x: int, y: int| 0 <= x < 4 && 0 <= y < 4 ==> CHARS@.contains(#[trigger] b@[x]@[y]),
{
    let mut b: Board = [['a'; 4]; 4];
    for x in 0..4usize
        invariant
            forall|cx: int, cy: int|
                0 <= cx < x && 0 <= cy < 4 ==> CHARS@.contains(#[trigger] b@[cx]@[cy]),
    {
        for y in 0..4usize
            invariant
                x < 4,
                forall|cx: int, cy: int|
                    (0 <= cx < x && 0 <= cy < 4) || (cx == x && 0 <= cy < y) ==> CHARS@.contains(
                        #[trigger] b@[cx]@[cy],
                    ),
        {
            let face = choose_random(CHARS.as_slice());
            match face {
                Some(c) => {
                    let mut row = b[x];
                    row[y] = c;
                    b[x] = row;
                },
                None => {
                    assert(false);
                },
            }
        }
    }
    b
}

} // verus!
