//! The letter grid and the search that traces a word through it.
use vstd::prelude::*;
use vstd::string::*;
use vstd::utf8::*;
use crate::text::{lemma_ascii_boundaries, lemma_ascii_char_len, lemma_char_utf8_len, lemma_encode_concat, substr_compare, utf8_len};

verus! {

broadcast use vstd::string::group_string_axioms;

/// A 4 by 4 grid of letters, indexed `board[x][y]`.
pub type Board = [[char; 4]; 4];

/// A grid position that a trail has already passed through.
#[derive(Clone, Copy, Debug, PartialEq, Eq)]
pub struct Previous {
    pub x: i32,
    pub y: i32,
}

/// The position lies on the grid.
pub open spec fn on_board(c: Previous) -> bool {
    0 <= c.x < 4 && 0 <= c.y < 4
}

/// `b` is one of the (up to eight) cells around `a`, or `a` itself.
pub open spec fn touching(a: Previous, b: Previous) -> bool {
    -1 <= b.x - a.x <= 1 && -1 <= b.y - a.y <= 1
}

/// The letter at an on-board position.
pub open spec fn letter_at(board: Board, c: Previous) -> char {
    board@[c.x as int]@[c.y as int]
}

/// The letters read along a sequence of positions.
pub open spec fn letters(board: Board, path: Seq<Previous>) -> Seq<char> {
    path.map_values(|c: Previous| letter_at(board, c))
}

/// A trail: on-board positions, each touching the one before it, none
/// used twice.
pub open spec fn is_trail(path: Seq<Previous>) -> bool {
    &&& forall|i: int| 0 <= i < path.len() ==> on_board(#[trigger] path[i])
    &&& forall|i: int| 0 < i < path.len() ==> touching(path[i - 1], #[trigger] path[i])
    &&& forall|i: int, j: int| 0 <= i < j < path.len() ==> path[i] != path[j]
}

/// `word` can be traced on the board: some trail spells it.
pub open spec fn traceable(board: Board, word: Seq<char>) -> bool {
    exists|path: Seq<Previous>| #[trigger] spells(board, path, word)
}

/// `path` is a non-empty trail that spells `word`.
pub open spec fn spells(board: Board, path: Seq<Previous>, word: Seq<char>) -> bool {
    &&& path.len() > 0
    &&& is_trail(path)
    &&& letters(board, path) == word
}

/// `ext` continues a trail that stands at `start`, through cells not in `used`,
/// and the letters read so far, `prog`, followed by the letters of `ext`, give `fin`.
pub open spec fn completes(
    board: Board,
    start: Previous,
    used: Seq<Previous>,
    ext: Seq<Previous>,
    prog: Seq<char>,
    fin: Seq<char>,
) -> bool {
    &&& is_trail(seq![start] + ext)
    &&& forall|i: int| 0 <= i < ext.len() ==> !used.contains(#[trigger] ext[i])
    &&& prog + letters(board, ext) == fin
}

/// The trail standing at `start`, having read `prog` and used the cells in
/// `used`, can be continued until it reads exactly `fin`.
pub open spec fn can_finish(
    board: Board,
    start: Previous,
    prog: Seq<char>,
    fin: Seq<char>,
    used: Seq<Previous>,
) -> bool {
    exists|ext: Seq<Previous>| #[trigger] completes(board, start, used, ext, prog, fin)
}

/// The cell `k` of the grid in row-major numbering.
pub open spec fn cell_number(k: int) -> Previous {
    Previous { x: (k / 4) as i32, y: (k % 4) as i32 }
}

/// How many of the first `k` grid cells are not in `used`.
pub open spec fn free_cells(used: Seq<Previous>, k: nat) -> nat
    decreases k,
{
    if k == 0 {
        0
    } else {
        free_cells(used, (k - 1) as nat) + if used.contains(cell_number(k - 1)) {
            0nat
        } else {
            1nat
        }
    }
}

pub proof fn lemma_free_cells_push(used: Seq<Previous>, c: Previous, k: nat)
    requires
        on_board(c),
        k <= 16,
    ensures
        free_cells(used.push(c), k) + (if c.x * 4 + c.y < k && !used.contains(c) {
            1nat
        } else {
            0nat
        }) == free_cells(used, k),
    decreases k,
{
    if k > 0 {
        lemma_free_cells_push(used, c, (k - 1) as nat);
        let d = cell_number(k - 1);
        assert(used.push(c).contains(d) <==> used.contains(d) || d == c) by {
            if used.push(c).contains(d) {
                let i = choose|i: int| 0 <= i < used.push(c).len() && used.push(c)[i] == d;
                if i < used.len() {
                    assert(used[i] == d);
                }
            }
            if used.contains(d) {
                let i = choose|i: int| 0 <= i < used.len() && used[i] == d;
                assert(used.push(c)[i] == d);
            }
            if d == c {
                assert(used.push(c)[used.len() as int] == d);
            }
        }
        assert(d == c <==> c.x * 4 + c.y == k - 1);
    }
}

/// Adding an unused on-board cell leaves fewer free cells.
pub proof fn lemma_free_cells_decrease(used: Seq<Previous>, c: Previous)
    requires
        on_board(c),
        !used.contains(c),
    ensures
        free_cells(used.push(c), 16) < free_cells(used, 16),
{
    lemma_free_cells_push(used, c, 16);
}

/// Whether `c` occurs in `cells`.
pub(crate) fn cell_listed(cells: &Vec<Previous>, c: Previous) -> (r: bool)
    ensures
        r == cells@.contains(c),
{
    let mut i: usize = 0;
    while i < cells.len()
        invariant
            i <= cells.len(),
            forall|j: int| 0 <= j < i ==> cells@[j] != c,
        decreases cells.len() - i,
    {
        if cells[i].x == c.x && cells[i].y == c.y {
            assert(cells@[i as int] == c);
            return true;
        }
        i = i + 1;
    }
    false
}

/// The neighbour reached by the offsets `(rx - 1, ry - 1)`.
pub open spec fn offset_cell(start: Previous, rx: int, ry: int) -> Previous {
    Previous { x: (start.x + rx - 1) as i32, y: (start.y + ry - 1) as i32 }
}

/// Moving to the neighbour at offsets `(rx - 1, ry - 1)` keeps the search alive
/// and leads to `fin`.
pub open spec fn step_leads_to(
    board: Board,
    start: Previous,
    prog: Seq<char>,
    fin: Seq<char>,
    used: Seq<Previous>,
    rx: int,
    ry: int,
) -> bool {
    let n = offset_cell(start, rx, ry);
    &&& on_board(n)
    &&& !used.push(start).contains(n)
    &&& prog.push(letter_at(board, n)).is_prefix_of(fin)
    &&& can_finish(board, n, prog.push(letter_at(board, n)), fin, used.push(start))
}

proof fn lemma_step_sound(
    board: Board,
    start: Previous,
    n: Previous,
    prog: Seq<char>,
    fin: Seq<char>,
    used: Seq<Previous>,
)
    requires
        on_board(start),
        on_board(n),
        touching(start, n),
        !used.push(start).contains(n),
        can_finish(board, n, prog.push(letter_at(board, n)), fin, used.push(start)),
    ensures
        can_finish(board, start, prog, fin, used),
{
    let used2 = used.push(start);
    let prog2 = prog.push(letter_at(board, n));
    let rest = choose|ext: Seq<Previous>| #[trigger] completes(board, n, used2, ext, prog2, fin);
    let ext = seq![n] + rest;
    let inner = seq![n] + rest;
    let path = seq![start] + ext;
    assert forall|i: int| 0 <= i < rest.len() implies rest[i] != start && !used.contains(
        rest[i],
    ) by {
        assert(!used2.contains(rest[i]));
        if rest[i] == start {
            assert(used2[used.len() as int] == start);
        }
        if used.contains(rest[i]) {
            let j = choose|j: int| 0 <= j < used.len() && used[j] == rest[i];
            assert(used2[j] == rest[i]);
        }
    }
    assert(!used.contains(n)) by {
        if used.contains(n) {
            let j = choose|j: int| 0 <= j < used.len() && used[j] == n;
            assert(used2[j] == n);
        }
    }
    assert(n != start) by {
        assert(used2[used.len() as int] == start);
    }
    assert forall|i: int| 0 <= i < path.len() implies on_board(#[trigger] path[i]) by {
        if i > 0 {
            assert(path[i] == inner[i - 1]);
        }
    }
    assert forall|i: int| 0 < i < path.len() implies touching(path[i - 1], #[trigger] path[i]) by {
        if i > 1 {
            assert(path[i] == inner[i - 1]);
            assert(path[i - 1] == inner[i - 2]);
        }
    }
    assert forall|i: int, j: int| 0 <= i < j < path.len() implies path[i] != path[j] by {
        assert(path[j] == inner[j - 1]);
        if i > 0 {
            assert(path[i] == inner[i - 1]);
        } else if j > 1 {
            assert(inner[j - 1] == rest[j - 2]);
        }
    }
    assert forall|i: int| 0 <= i < ext.len() implies !used.contains(#[trigger] ext[i]) by {
        if i > 0 {
            assert(ext[i] == rest[i - 1]);
        }
    }
    assert(letters(board, ext) =~= seq![letter_at(board, n)] + letters(board, rest));
    assert(prog + letters(board, ext) =~= prog2 + letters(board, rest));
    assert(completes(board, start, used, ext, prog, fin));
}

proof fn lemma_step_complete(
    board: Board,
    start: Previous,
    prog: Seq<char>,
    fin: Seq<char>,
    used: Seq<Previous>,
    ext: Seq<Previous>,
)
    requires
        completes(board, start, used, ext, prog, fin),
        ext.len() > 0,
    ensures
        step_leads_to(board, start, prog, fin, used, ext[0].x - start.x + 1, ext[0].y - start.y + 1),
        0 <= ext[0].x - start.x + 1 < 3,
        0 <= ext[0].y - start.y + 1 < 3,
{
    let n = ext[0];
    let rest = ext.drop_first();
    let path = seq![start] + ext;
    let used2 = used.push(start);
    let prog2 = prog.push(letter_at(board, n));
    assert(path[1] == n);
    assert(on_board(path[1]));
    assert(touching(path[0], path[1]));
    assert(offset_cell(start, ext[0].x - start.x + 1, ext[0].y - start.y + 1) == n);
    assert(!used2.contains(n)) by {
        assert(!used.contains(ext[0]));
        assert(path[0] != path[1]);
        if used2.contains(n) {
            let j = choose|j: int| 0 <= j < used2.len() && used2[j] == n;
            if j < used.len() {
                assert(used[j] == n);
            }
        }
    }
    assert(letters(board, ext) =~= seq![letter_at(board, n)] + letters(board, rest));
    assert(prog + letters(board, ext) =~= prog2 + letters(board, rest));
    assert(prog2 =~= fin.subrange(0, prog2.len() as int));
    let inner = seq![n] + rest;
    assert(inner =~= ext);
    assert forall|i: int| 0 <= i < inner.len() implies on_board(#[trigger] inner[i]) by {
        assert(inner[i] == path[i + 1]);
    }
    assert forall|i: int| 0 < i < inner.len() implies touching(inner[i - 1], #[trigger] inner[i]) by {
        assert(inner[i] == path[i + 1]);
        assert(inner[i - 1] == path[i]);
    }
    assert forall|i: int, j: int| 0 <= i < j < inner.len() implies inner[i] != inner[j] by {
        assert(inner[i] == path[i + 1]);
        assert(inner[j] == path[j + 1]);
    }
    assert forall|i: int| 0 <= i < rest.len() implies !used2.contains(#[trigger] rest[i]) by {
        assert(rest[i] == ext[i + 1]);
        assert(!used.contains(ext[i + 1]));
        assert(path[0] != path[i + 2]);
        if used2.contains(rest[i]) {
            let j = choose|j: int| 0 <= j < used2.len() && used2[j] == rest[i];
            if j < used.len() {
                assert(used[j] == rest[i]);
            }
        }
    }
    assert(completes(board, n, used2, rest, prog2, fin));
}

/// Cutting `fin` after as many bytes as `sub` has does not split one of
/// its characters (or `sub` is longer than `fin` in bytes).
pub open spec fn cut_ok(sub: Seq<char>, fin: Seq<char>) -> bool {
    utf8_len(sub) <= utf8_len(fin) ==> is_char_boundary(encode_utf8(fin), utf8_len(sub) as int)
}

/// The search from `start` (having read `prog`, with `used` taken) never cuts
/// `fin` inside a character, up to the point where it succeeds.
pub open spec fn search_ok(
    board: Board,
    start: Previous,
    prog: Seq<char>,
    fin: Seq<char>,
    used: Seq<Previous>,
) -> bool
    decreases free_cells(used.push(start), 16), 10nat,
{
    prog == fin || steps_ok(board, start, prog, fin, used, 0)
}

/// The neighbours tried from step `k` on (offsets `(k / 3 - 1, k % 3 - 1)`,
/// in order) never cut `fin` inside a character, up to the first step that
/// succeeds.
pub open spec fn steps_ok(
    board: Board,
    start: Previous,
    prog: Seq<char>,
    fin: Seq<char>,
    used: Seq<Previous>,
    k: int,
) -> bool
    decreases free_cells(used.push(start), 16), (9 - k) as nat,
{
    if k < 0 || k >= 9 {
        true
    } else {
        let n = offset_cell(start, k / 3, k % 3);
        let used2 = used.push(start);
        let next = prog.push(letter_at(board, n));
        let here_ok = if on_board(n) && !used2.contains(n) {
            cut_ok(next, fin) && if next.is_prefix_of(fin) {
                proof {
                    lemma_free_cells_decrease(used2, n);
                }
                search_ok(board, n, next, fin, used2)
            } else {
                true
            }
        } else {
            true
        };
        here_ok && (step_leads_to(board, start, prog, fin, used, k / 3, k % 3) || steps_ok(
            board,
            start,
            prog,
            fin,
            used,
            k + 1,
        ))
    }
}

/// A search for an ASCII word never cuts it inside a character, whatever
/// the board and wherever the search stands.
pub proof fn lemma_ascii_search_ok(
    board: Board,
    start: Previous,
    prog: Seq<char>,
    fin: Seq<char>,
    used: Seq<Previous>,
)
    requires
        is_ascii_chars(fin),
    ensures
        search_ok(board, start, prog, fin, used),
    decreases free_cells(used.push(start), 16), 10nat,
{
    if prog != fin {
        lemma_ascii_steps_ok(board, start, prog, fin, used, 0);
    }
}

proof fn lemma_ascii_steps_ok(
    board: Board,
    start: Previous,
    prog: Seq<char>,
    fin: Seq<char>,
    used: Seq<Previous>,
    k: int,
)
    requires
        is_ascii_chars(fin),
        0 <= k <= 9,
    ensures
        steps_ok(board, start, prog, fin, used, k),
    decreases free_cells(used.push(start), 16), (9 - k) as nat,
{
    if k < 9 {
        let n = offset_cell(start, k / 3, k % 3);
        let used2 = used.push(start);
        let next = prog.push(letter_at(board, n));
        if on_board(n) && !used2.contains(n) {
            if utf8_len(next) <= utf8_len(fin) {
                lemma_ascii_boundaries(fin, utf8_len(next) as int);
            }
            if next.is_prefix_of(fin) {
                lemma_free_cells_decrease(used2, n);
                lemma_ascii_search_ok(board, n, next, fin, used2);
            }
        }
        lemma_ascii_steps_ok(board, start, prog, fin, used, k + 1);
    }
}

/// Continues the trail that stands at `(x, y)`, has read `prog` and has
/// used the cells in `p`: whether it can be continued, through unused
/// touching cells, until it reads exactly `fin`.
pub fn worm(x: usize, y: usize, prog: String, fin: &String, board: &Board, p: &Vec<Previous>) -> (r:
    bool)
    requires
        x < 4,
        y < 4,
        search_ok(*board, Previous { x: x as i32, y: y as i32 }, prog@, fin@, p@),
        utf8_len(prog@) + 4 <= usize::MAX,
        utf8_len(fin@) + 4 <= usize::MAX,
    ensures
        r == can_finish(*board, Previous { x: x as i32, y: y as i32 }, prog@, fin@, p@),
    decreases free_cells(p@.push(Previous { x: x as i32, y: y as i32 }), 16),
{
    let ghost start = Previous { x: x as i32, y: y as i32 };
    let mut prev = p.clone();
    assert(prev@ =~= p@);
    prev.push(Previous { x: x as i32, y: y as i32 });
    if prog.eq(fin) {
        assert(completes(*board, start, p@, Seq::empty(), prog@, fin@)) by {
            assert(letters(*board, Seq::empty()) =~= Seq::<char>::empty());
            assert(prog@ + Seq::<char>::empty() =~= prog@);
            assert(seq![start] + Seq::<Previous>::empty() =~= seq![start]);
        }
        return true;
    }
    for relx in 0..3usize
        invariant
            x < 4,
            y < 4,
            steps_ok(*board, start, prog@, fin@, p@, 3 * relx),
            utf8_len(prog@) + 4 <= usize::MAX,
            utf8_len(fin@) + 4 <= usize::MAX,
            prev@ == p@.push(start),
            start == (Previous { x: x as i32, y: y as i32 }),
            forall|rx: int, ry: int|
                0 <= rx < relx && 0 <= ry < 3 ==> !step_leads_to(*board, start, prog@, fin@, p@, rx, ry),
    {
        for rely in 0..3usize
            invariant
                x < 4,
                y < 4,
                relx < 3,
                steps_ok(*board, start, prog@, fin@, p@, 3 * relx + rely),
                utf8_len(prog@) + 4 <= usize::MAX,
                utf8_len(fin@) + 4 <= usize::MAX,
                prev@ == p@.push(start),
                start == (Previous { x: x as i32, y: y as i32 }),
                forall|rx: int, ry: int|
                    (0 <= rx < relx && 0 <= ry < 3) || (rx == relx && 0 <= ry < rely) ==> !step_leads_to(
                        *board,
                        start,
                        prog@,
                        fin@,
                        p@,
                        rx,
                        ry,
                    ),
        {
            let newx: i32 = (x as i32) + (relx as i32) - 1;
            let newy: i32 = (y as i32) + (rely as i32) - 1;
            let ghost n = offset_cell(start, relx as int, rely as int);
            let ghost k: int = 3 * relx + rely;
            assert(k / 3 == relx && k % 3 == rely);
            assert(steps_ok(*board, start, prog@, fin@, p@, k));
            assert(n == Previous { x: newx, y: newy });
            if newx > -1 && newx < 4 && newy > -1 && newy < 4 {
                let newxy = Previous { x: newx, y: newy };
                if !cell_listed(&prev, newxy) {
                    let mut new_prog: String = prog.clone();
                    let throwaway: [char; 4] = board[newx as usize];
                    let throwfarther: char = throwaway[newy as usize];
                    new_prog.push(throwfarther);
                    assert(throwfarther == letter_at(*board, n));
                    proof {
                        lemma_encode_concat(prog@, seq![throwfarther]);
                        assert(new_prog@ =~= prog@ + seq![throwfarther]);
                        lemma_char_utf8_len(throwfarther);
                    }
                    if substr_compare(&new_prog, fin) {
                        proof {
                            let rest = fin@.subrange(new_prog@.len() as int, fin@.len() as int);
                            assert(fin@ =~= new_prog@ + rest);
                            lemma_encode_concat(new_prog@, rest);
                            lemma_free_cells_decrease(prev@, newxy);
                        }
                        let res = worm(newx as usize, newy as usize, new_prog, fin, board, &prev);
                        if res {
                            proof {
                                lemma_step_sound(*board, start, n, prog@, fin@, p@);
                            }
                            return true;
                        }
                    }
                }
            }
        }
    }
    proof {
        if can_finish(*board, start, prog@, fin@, p@) {
            let ext = choose|ext: Seq<Previous>| #[trigger]
                completes(*board, start, p@, ext, prog@, fin@);
            if ext.len() == 0 {
                assert(letters(*board, ext) =~= Seq::<char>::empty());
                assert(prog@ =~= fin@);
            } else {
                lemma_step_complete(*board, start, prog@, fin@, p@, ext);
            }
        }
    }
    return false;
}

/// The first character of a word whose first character is ASCII, as a
/// string (the word cut after its first byte).
fn first_letter(word: &String) -> (letter: String)
    requires
        word@.len() > 0,
        '\0' <= word@[0] <= '\u{7f}',
        utf8_len(word@) + 4 <= usize::MAX,
    ensures
        letter@ == seq![word@[0]],
{
    let ghost bytes = encode_utf8(word@);
    let ghost rest = word@.drop_first();
    proof {
        encode_utf8_valid_utf8(word@);
        encode_utf8_decode_utf8(word@);
        encode_utf8_decode_utf8(seq![word@[0]]);
        assert(word@ =~= seq![word@[0]] + rest);
        lemma_encode_concat(seq![word@[0]], rest);
        lemma_ascii_char_len(word@[0]);
        encode_utf8_first_scalar(word@);
        assert(is_char_boundary(bytes, 1)) by {
            reveal_with_fuel(is_char_boundary, 2);
            encode_utf8_valid_utf8(rest);
            assert(pop_first_scalar(bytes) =~= bytes.subrange(1, bytes.len() as int));
        }
        assert(bytes.subrange(0, 1) =~= encode_utf8(seq![word@[0]]));
    }
    let (head, _tail) = word.as_str().split_at(1);
    proof {
        encode_utf8_decode_utf8(head@);
    }
    head.to_string()
}

/// The word can be cut after its first byte, and the search from every cell
/// that it tries, in order, up to the first that succeeds, never cuts the
/// word inside a character.
pub open spec fn board_search_ok(board: Board, word: Seq<char>, c: int) -> bool
    decreases 16 - c,
{
    if c < 0 || c >= 16 {
        true
    } else {
        let cell = cell_number(c);
        let here_ok = letter_at(board, cell) != word[0] || search_ok(
            board,
            cell,
            seq![word[0]],
            word,
            Seq::empty(),
        );
        here_ok && (start_succeeds(board, word, cell.x as int, cell.y as int) || board_search_ok(
            board,
            word,
            c + 1,
        ))
    }
}

proof fn lemma_ascii_board_search_ok(board: Board, word: Seq<char>, c: int)
    requires
        is_ascii_chars(word),
        word.len() > 0,
        0 <= c <= 16,
    ensures
        board_search_ok(board, word, c),
    decreases 16 - c,
{
    if c < 16 {
        lemma_ascii_search_ok(board, cell_number(c), seq![word[0]], word, Seq::empty());
        lemma_ascii_board_search_ok(board, word, c + 1);
    }
}

/// Every non-empty ASCII word can be searched for on every board without
/// being cut inside a character, whichever letters the board shows.
pub proof fn lemma_ascii_words_searchable(board: Board, word: Seq<char>)
    requires
        is_ascii_chars(word),
        word.len() > 0,
    ensures
        board_search_safe(board, word),
{
    lemma_ascii_board_search_ok(board, word, 0);
}

/// `board_contains` runs on `word` without cutting it inside a character:
/// the word is not empty, its first character is one byte long, and no
/// search it starts cuts it inside a character.
pub open spec fn board_search_safe(board: Board, word: Seq<char>) -> bool {
    &&& word.len() > 0
    &&& '\0' <= word[0] <= '\u{7f}'
    &&& board_search_ok(board, word, 0)
}

/// A trail that starts at `(cx, cy)` with the word's first letter can be
/// continued to spell the whole word.
pub open spec fn start_succeeds(board: Board, word: Seq<char>, cx: int, cy: int) -> bool {
    let start = Previous { x: cx as i32, y: cy as i32 };
    &&& letter_at(board, start) == word[0]
    &&& can_finish(board, start, seq![word[0]], word, Seq::empty())
}

/// Whether `word` can be traced on the board: read along a trail of
/// touching cells that uses no cell twice.
pub fn board_contains(word: &String, board: &Board) -> (r: bool)
    requires
        board_search_safe(*board, word@),
        utf8_len(word@) + 4 <= usize::MAX,
    ensures
        r == traceable(*board, word@),
{
    let ghost w0 = word@[0];
    for x in 0..4usize
        invariant
            word@.len() > 0,
            '\0' <= word@[0] <= '\u{7f}',
            utf8_len(word@) + 4 <= usize::MAX,
            w0 == word@[0],
            board_search_ok(*board, word@, 4 * x),
            forall|cx: int, cy: int|
                0 <= cx < x && 0 <= cy < 4 ==> !#[trigger] start_succeeds(*board, word@, cx, cy),
    {
        for y in 0..4usize
            invariant
                x < 4,
                word@.len() > 0,
                '\0' <= word@[0] <= '\u{7f}',
                utf8_len(word@) + 4 <= usize::MAX,
                w0 == word@[0],
                board_search_ok(*board, word@, 4 * x + y),
                forall|cx: int, cy: int|
                    (0 <= cx < x && 0 <= cy < 4) || (cx == x && 0 <= cy < y)
                        ==> !#[trigger] start_succeeds(*board, word@, cx, cy),
        {
            let ghost c: int = 4 * x + y;
            assert(cell_number(c) == Previous { x: x as i32, y: y as i32 });
            assert(board_search_ok(*board, word@, c));
            let letter = first_letter(word);
            let mut cell_text = String::new();
            cell_text.push(board[x][y]);
            assert(cell_text@ =~= seq![letter_at(*board, Previous { x: x as i32, y: y as i32 })]);
            if cell_text.eq(&letter) {
                let prev: Vec<Previous> = Vec::new();
                proof {
                    lemma_ascii_char_len(w0);
                }
                let res = worm(x, y, letter, word, board, &prev);
                if res {
                    proof {
                        let start = Previous { x: x as i32, y: y as i32 };
                        let ext = choose|ext: Seq<Previous>| #[trigger]
                            completes(*board, start, prev@, ext, seq![w0], word@);
                        let path = seq![start] + ext;
                        assert(letters(*board, path) =~= seq![w0] + letters(*board, ext));
                        assert(spells(*board, path, word@));
                    }
                    return true;
                }
            }
        }
    }
    proof {
        if traceable(*board, word@) {
            let path = choose|path: Seq<Previous>| #[trigger] spells(*board, path, word@);
            let start = path[0];
            let ext = path.drop_first();
            assert(seq![start] + ext =~= path);
            assert(on_board(path[0]));
            assert(letters(*board, path)[0] == w0);
            assert(letters(*board, path) =~= seq![w0] + letters(*board, ext));
            assert(completes(*board, start, Seq::empty(), ext, seq![w0], word@));
            assert(Previous { x: start.x as int as i32, y: start.y as int as i32 } == start);
            assert(start_succeeds(*board, word@, start.x as int, start.y as int));
        }
    }
    false
}

/// Line `y` of the printed board: the letters `board[0][y]` to
/// `board[3][y]`, separated by spaces.
pub open spec fn board_line(board: Board, y: int) -> Seq<char> {
    seq![
        board@[0]@[y],
        ' ',
        board@[1]@[y],
        ' ',
        board@[2]@[y],
        ' ',
        board@[3]@[y],
        '\n',
    ]
}

/// The board as printed: four lines, line `y` holding column `y` of every row.
pub open spec fn board_picture(board: Board) -> Seq<char> {
    board_line(board, 0) + board_line(board, 1) + board_line(board, 2) + board_line(board, 3)
}

/// The board as text, one line per `y`, letters separated by spaces.
pub fn board_text(b: &Board) -> (out: String)
    ensures
        out@ == board_picture(*b),
{
    let mut out = String::new();
    for y in 0..4usize
        invariant
            y <= 4,
            out@ == (if y == 0 {
                Seq::<char>::empty()
            } else if y == 1 {
                board_line(*b, 0)
            } else if y == 2 {
                board_line(*b, 0) + board_line(*b, 1)
            } else if y == 3 {
                board_line(*b, 0) + board_line(*b, 1) + board_line(*b, 2)
            } else {
                board_picture(*b)
            }),
    {
        let ghost line_start = out@;
        for x in 0..4usize
            invariant
                y < 4,
                out@ == line_start + board_line(*b, y as int).take(if x < 4 { 2 * x as int } else { 7 }),
        {
            out.push(b[x][y]);
            if x != 3 {
                out.push(' ');
            }
            assert(out@ =~= line_start + board_line(*b, y as int).take(
                if x + 1 < 4 { 2 * (x + 1) as int } else { 7 },
            ));
        }
        out.push('\n');
        assert(out@ =~= line_start + board_line(*b, y as int));
    }
    out
}

/// Every non-empty beginning of a word that can be traced on the board can
/// be traced too.
pub proof fn lemma_prefix_traceable(board: Board, word: Seq<char>, k: int)
    requires
        traceable(board, word),
        0 < k <= word.len(),
    ensures
        traceable(board, word.take(k)),
{
    let path = choose|path: Seq<Previous>| #[trigger] spells(board, path, word);
    let short = path.take(k);
    assert(letters(board, short) =~= word.take(k));
    assert forall|i: int, j: int| 0 <= i < j < short.len() implies short[i] != short[j] by {
        assert(path[i] != path[j]);
    }
    assert forall|i: int| 0 < i < short.len() implies touching(short[i - 1], #[trigger] short[i]) by {
        assert(touching(path[i - 1], path[i]));
    }
    assert forall|i: int| 0 <= i < short.len() implies on_board(#[trigger] short[i]) by {
        assert(on_board(path[i]));
    }
    assert(spells(board, short, word.take(k)));
}

/// A word can be traced on the board exactly when its reversal can: the
/// same trail, walked backwards.
pub proof fn lemma_reverse_traceable(board: Board, word: Seq<char>)
    ensures
        traceable(board, word) <==> traceable(board, word.reverse()),
{
    if traceable(board, word) {
        let path = choose|path: Seq<Previous>| #[trigger] spells(board, path, word);
        lemma_reverse_spells(board, path, word);
    }
    if traceable(board, word.reverse()) {
        let path = choose|path: Seq<Previous>| #[trigger] spells(board, path, word.reverse());
        lemma_reverse_spells(board, path, word.reverse());
        assert(word.reverse().reverse() =~= word);
    }
}

proof fn lemma_reverse_spells(board: Board, path: Seq<Previous>, word: Seq<char>)
    requires
        spells(board, path, word),
    ensures
        spells(board, path.reverse(), word.reverse()),
{
    let back = path.reverse();
    let n = path.len();
    assert forall|i: int| 0 <= i < back.len() implies on_board(#[trigger] back[i]) by {
        assert(back[i] == path[n - 1 - i]);
    }
    assert forall|i: int| 0 < i < back.len() implies touching(back[i - 1], #[trigger] back[i]) by {
        assert(back[i] == path[n - 1 - i]);
        assert(back[i - 1] == path[n - i]);
        assert(touching(path[n - 1 - i], path[n - i]));
    }
    assert forall|i: int, j: int| 0 <= i < j < back.len() implies back[i] != back[j] by {
        assert(back[i] == path[n - 1 - i]);
        assert(back[j] == path[n - 1 - j]);
        assert(path[n - 1 - j] != path[n - 1 - i]);
    }
    assert(letters(board, back) =~= word.reverse());
}

/// Runs the search of `worm` and reports whether it would cut `fin` inside
/// a character (`.0` false), and, where it would not, whether it succeeds
/// (`.1`).
pub fn search_is_safe(
    x: usize,
    y: usize,
    prog: String,
    fin: &String,
    board: &Board,
    p: &Vec<Previous>,
) -> (r: (bool, bool))
    requires
        x < 4,
        y < 4,
        utf8_len(prog@) + 4 <= usize::MAX,
        utf8_len(fin@) + 4 <= usize::MAX,
    ensures
        r.0 == search_ok(*board, Previous { x: x as i32, y: y as i32 }, prog@, fin@, p@),
        r.0 ==> r.1 == can_finish(*board, Previous { x: x as i32, y: y as i32 }, prog@, fin@, p@),
    decreases free_cells(p@.push(Previous { x: x as i32, y: y as i32 }), 16),
{
    let ghost start = Previous { x: x as i32, y: y as i32 };
    let mut prev = p.clone();
    assert(prev@ =~= p@);
    prev.push(Previous { x: x as i32, y: y as i32 });
    if prog.eq(fin) {
        assert(completes(*board, start, p@, Seq::empty(), prog@, fin@)) by {
            assert(letters(*board, Seq::empty()) =~= Seq::<char>::empty());
            assert(prog@ + Seq::<char>::empty() =~= prog@);
            assert(seq![start] + Seq::<Previous>::empty() =~= seq![start]);
        }
        return (true, true);
    }
    let fin_len = fin.as_str().len();
    for relx in 0..3usize
        invariant
            x < 4,
            y < 4,
            prog@ != fin@,
            fin_len == utf8_len(fin@),
            steps_ok(*board, start, prog@, fin@, p@, 0) == steps_ok(*board, start, prog@, fin@, p@, 3 * relx),
            utf8_len(prog@) + 4 <= usize::MAX,
            utf8_len(fin@) + 4 <= usize::MAX,
            prev@ == p@.push(start),
            start == (Previous { x: x as i32, y: y as i32 }),
            forall|rx: int, ry: int|
                0 <= rx < relx && 0 <= ry < 3 ==> !step_leads_to(*board, start, prog@, fin@, p@, rx, ry),
    {
        for rely in 0..3usize
            invariant
                x < 4,
                y < 4,
                relx < 3,
                prog@ != fin@,
                fin_len == utf8_len(fin@),
                steps_ok(*board, start, prog@, fin@, p@, 0) == steps_ok(
                    *board,
                    start,
                    prog@,
                    fin@,
                    p@,
                    3 * relx + rely,
                ),
                utf8_len(prog@) + 4 <= usize::MAX,
                utf8_len(fin@) + 4 <= usize::MAX,
                prev@ == p@.push(start),
                start == (Previous { x: x as i32, y: y as i32 }),
                forall|rx: int, ry: int|
                    (0 <= rx < relx && 0 <= ry < 3) || (rx == relx && 0 <= ry < rely) ==> !step_leads_to(
                        *board,
                        start,
                        prog@,
                        fin@,
                        p@,
                        rx,
                        ry,
                    ),
        {
            let newx: i32 = (x as i32) + (relx as i32) - 1;
            let newy: i32 = (y as i32) + (rely as i32) - 1;
            let ghost n = offset_cell(start, relx as int, rely as int);
            let ghost k: int = 3 * relx + rely;
            assert(k / 3 == relx && k % 3 == rely);
            assert(n == Previous { x: newx, y: newy });
            if newx > -1 && newx < 4 && newy > -1 && newy < 4 {
                let newxy = Previous { x: newx, y: newy };
                if !cell_listed(&prev, newxy) {
                    let mut new_prog: String = prog.clone();
                    let throwaway: [char; 4] = board[newx as usize];
                    let throwfarther: char = throwaway[newy as usize];
                    new_prog.push(throwfarther);
                    assert(throwfarther == letter_at(*board, n));
                    proof {
                        lemma_encode_concat(prog@, seq![throwfarther]);
                        assert(new_prog@ =~= prog@ + seq![throwfarther]);
                        lemma_char_utf8_len(throwfarther);
                    }
                    let new_len = new_prog.as_str().len();
                    if new_len <= fin_len && !fin.as_str().is_char_boundary(new_len) {
                        assert(!steps_ok(*board, start, prog@, fin@, p@, k));
                        return (false, false);
                    }
                    if substr_compare(&new_prog, fin) {
                        proof {
                            let rest = fin@.subrange(new_prog@.len() as int, fin@.len() as int);
                            assert(fin@ =~= new_prog@ + rest);
                            lemma_encode_concat(new_prog@, rest);
                            lemma_free_cells_decrease(prev@, newxy);
                        }
                        let (safe, found) = search_is_safe(
                            newx as usize,
                            newy as usize,
                            new_prog,
                            fin,
                            board,
                            &prev,
                        );
                        if !safe {
                            assert(!steps_ok(*board, start, prog@, fin@, p@, k));
                            return (false, false);
                        }
                        if found {
                            proof {
                                lemma_step_sound(*board, start, n, prog@, fin@, p@);
                            }
                            assert(steps_ok(*board, start, prog@, fin@, p@, k));
                            return (true, true);
                        }
                    }
                }
            }
            assert(steps_ok(*board, start, prog@, fin@, p@, k) == steps_ok(
                *board,
                start,
                prog@,
                fin@,
                p@,
                k + 1,
            ));
        }
    }
    proof {
        if can_finish(*board, start, prog@, fin@, p@) {
            let ext = choose|ext: Seq<Previous>| #[trigger]
                completes(*board, start, p@, ext, prog@, fin@);
            if ext.len() == 0 {
                assert(letters(*board, ext) =~= Seq::<char>::empty());
                assert(prog@ =~= fin@);
            } else {
                lemma_step_complete(*board, start, prog@, fin@, p@, ext);
            }
        }
    }
    (true, false)
}

/// Whether `board_contains` runs on `word` without cutting it inside a
/// character (see `board_search_safe`).
pub fn board_search_is_safe(word: &String, board: &Board) -> (r: bool)
    requires
        utf8_len(word@) + 4 <= usize::MAX,
    ensures
        r == board_search_safe(*board, word@),
        word@.len() > 0 && is_ascii_chars(word@) ==> r,
{
    proof {
        if word@.len() > 0 && is_ascii_chars(word@) {
            lemma_ascii_words_searchable(*board, word@);
        }
    }
    let n = word.as_str().unicode_len();
    if n == 0 {
        return false;
    }
    let w0 = word.as_str().get_char(0);
    if !('\0' <= w0 && w0 <= '\u{7f}') {
        return false;
    }
    for x in 0..4usize
        invariant
            word@.len() > 0,
            w0 == word@[0],
            '\0' <= w0 <= '\u{7f}',
            utf8_len(word@) + 4 <= usize::MAX,
            board_search_ok(*board, word@, 0) == board_search_ok(*board, word@, 4 * x),
            is_ascii_chars(word@) ==> board_search_safe(*board, word@),
    {
        for y in 0..4usize
            invariant
                x < 4,
                word@.len() > 0,
                w0 == word@[0],
                '\0' <= w0 <= '\u{7f}',
                utf8_len(word@) + 4 <= usize::MAX,
                board_search_ok(*board, word@, 0) == board_search_ok(*board, word@, 4 * x + y),
                is_ascii_chars(word@) ==> board_search_safe(*board, word@),
        {
            let ghost c: int = 4 * x + y;
            assert(cell_number(c) == Previous { x: x as i32, y: y as i32 });
            if board[x][y] == w0 {
                let mut letter = String::new();
                letter.push(w0);
                assert(letter@ =~= seq![w0]);
                let prev: Vec<Previous> = Vec::new();
                proof {
                    lemma_ascii_char_len(w0);
                }
                let (safe, found) = search_is_safe(x, y, letter, word, board, &prev);
                if !safe {
                    return false;
                }
                if found {
                    return true;
                }
            }
            assert(board_search_ok(*board, word@, c) == board_search_ok(*board, word@, c + 1));
        }
    }
    true
}

} // verus!
