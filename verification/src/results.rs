//! The end of a round: the words every player found, the winner, and the
//! results table.
use vstd::prelude::*;
use vstd::string::*;
use crate::text::{contains_word, pad_spec, push_padded, texts};

verus! {

broadcast use vstd::string::group_string_axioms;

/// One player's name and the words they found, in the order found.
#[derive(Debug)]
pub struct PlayerResult {
    pub name: String,
    pub words: Vec<String>,
}

/// The round's outcome: every player's words, the words all of them found,
/// and the winner.
#[derive(Debug)]
pub struct GameResult<'a> {
    pub players: &'a Vec<PlayerResult>,
    pub shared: Vec<String>,
    pub winner: &'a PlayerResult,
}

/// A player's words as character sequences.
pub open spec fn word_texts(p: PlayerResult) -> Seq<Seq<char>> {
    texts(p.words@)
}

/// Every player found `w`.
pub open spec fn found_by_all(players: Seq<PlayerResult>, w: Seq<char>) -> bool {
    forall|i: int| 0 <= i < players.len() ==> #[trigger] word_texts(players[i]).contains(w)
}

/// The words of `ws`, in order, that every player found.
pub open spec fn keep_shared(players: Seq<PlayerResult>, ws: Seq<Seq<char>>) -> Seq<Seq<char>>
    decreases ws.len(),
{
    if ws.len() == 0 {
        Seq::empty()
    } else {
        let before = keep_shared(players, ws.drop_last());
        if found_by_all(players, ws.last()) {
            before.push(ws.last())
        } else {
            before
        }
    }
}

/// The words of `ws`, in order, that are not in `shared`.
pub open spec fn drop_shared(ws: Seq<Seq<char>>, shared: Seq<Seq<char>>) -> Seq<Seq<char>>
    decreases ws.len(),
{
    if ws.len() == 0 {
        Seq::empty()
    } else {
        let before = drop_shared(ws.drop_last(), shared);
        if shared.contains(ws.last()) {
            before
        } else {
            before.push(ws.last())
        }
    }
}

/// The words that every player found, in the order the first player found them.
pub fn calc_shared(p_res: &Vec<PlayerResult>) -> (shared: Vec<String>)
    requires
        p_res.len() > 0,
    ensures
        texts(shared@) == keep_shared(p_res@, word_texts(p_res@[0])),
        forall|k: int, i: int|
            0 <= k < shared@.len() && 0 <= i < p_res@.len() ==> #[trigger] texts(
                p_res@[i].words@,
            ).contains(#[trigger] texts(shared@)[k]),
        forall|w: Seq<char>|
            (forall|i: int| 0 <= i < p_res@.len() ==> #[trigger] texts(p_res@[i].words@).contains(w))
                ==> #[trigger] texts(shared@).contains(w),
{
    let mut shared: Vec<String> = Vec::new();
    let first = &p_res[0];
    let ghost ws = word_texts(p_res@[0]);
    for k in 0..first.words.len()
        invariant
            p_res.len() > 0,
            first == p_res@[0],
            ws == word_texts(p_res@[0]),
            texts(shared@) == keep_shared(p_res@, ws.take(k as int)),
    {
        let word = &first.words[k];
        let mut cont = true;
        for i in 0..p_res.len()
            invariant
                p_res.len() > 0,
                k < ws.len(),
                word@ == ws[k as int],
                cont == (forall|j: int| 0 <= j < i ==> #[trigger] word_texts(p_res@[j]).contains(word@)),
        {
            let found = contains_word(&p_res[i].words, word);
            assert(found == word_texts(p_res@[i as int]).contains(word@));
            if !found {
                cont = false;
            }
        }
        assert(ws.take(k + 1).drop_last() =~= ws.take(k as int));
        assert(ws.take(k + 1).last() == word@);
        if cont {
            shared.push(word.as_str().to_string());
        }
        assert(texts(shared@) =~= keep_shared(p_res@, ws.take(k + 1)));
    }
    assert(ws.take(first.words.len() as int) =~= ws);
    proof {
        assert forall|k: int, i: int|
            0 <= k < shared@.len() && 0 <= i < p_res@.len() implies #[trigger] texts(
                p_res@[i].words@,
            ).contains(#[trigger] texts(shared@)[k]) by {
            let w = texts(shared@)[k];
            assert(texts(shared@).contains(w));
            lemma_shared_words_found_by_everyone(p_res@, w);
        }
        assert forall|w: Seq<char>|
            (forall|i: int| 0 <= i < p_res@.len() ==> #[trigger] texts(p_res@[i].words@).contains(w))
                implies #[trigger] texts(shared@).contains(w) by {
            lemma_shared_words_found_by_everyone(p_res@, w);
        }
    }
    shared
}

/// Player `k` found at least as many words as anyone, and more than every
/// player before them.
pub open spec fn first_best(players: Seq<PlayerResult>, k: int) -> bool {
    &&& 0 <= k < players.len()
    &&& forall|j: int| 0 <= j < players.len() ==> (#[trigger] players[j].words.len()) <= players[k].words.len()
    &&& forall|j: int| 0 <= j < k ==> (#[trigger] players[j].words.len()) < players[k].words.len()
}

/// The index of the winner: the first player with the most words.
pub open spec fn winner_index(players: Seq<PlayerResult>) -> int {
    choose|k: int| first_best(players, k)
}

/// Only one player is the first with the most words.
pub proof fn lemma_first_best_unique(players: Seq<PlayerResult>, a: int, b: int)
    requires
        first_best(players, a),
        first_best(players, b),
    ensures
        a == b,
{
    if a < b {
        assert(players[a].words.len() < players[b].words.len());
        assert(players[b].words.len() <= players[a].words.len());
    } else if b < a {
        assert(players[b].words.len() < players[a].words.len());
        assert(players[a].words.len() <= players[b].words.len());
    }
}

/// The winner: the first player who found the most words.
pub fn calc_winner(players: &Vec<PlayerResult>) -> (winner: &PlayerResult)
    requires
        players.len() > 0,
    ensures
        first_best(players@, winner_index(players@)),
        *winner == players@[winner_index(players@)],
        forall|j: int| 0 <= j < players@.len() ==> (#[trigger] players@[j].words.len()) <= winner.words.len(),
        exists|k: int|
            0 <= k < players@.len() && *winner == players@[k] && forall|j: int|
                0 <= j < k ==> (#[trigger] players@[j].words.len()) < winner.words.len(),
{
    let mut w: usize = 0;
    let mut winner: &PlayerResult = &players[0];
    for i in 0..players.len()
        invariant
            players.len() > 0,
            w < players.len(),
            w <= i || (i == 0 && w == 0),
            *winner == players@[w as int],
            forall|j: int| 0 <= j < i ==> (#[trigger] players@[j].words.len()) <= players@[w as int].words.len(),
            forall|j: int| 0 <= j < w ==> (#[trigger] players@[j].words.len()) < players@[w as int].words.len(),
    {
        let x = &players[i];
        if x.words.len() > winner.words.len() {
            winner = x;
            w = i;
        }
    }
    assert(first_best(players@, w as int));
    proof {
        lemma_first_best_unique(players@, w as int, winner_index(players@));
        assert(players@[w as int] == *winner);
    }
    winner
}

/// Some player is the first with the most words.
proof fn lemma_first_best_exists(players: Seq<PlayerResult>)
    requires
        players.len() > 0,
    ensures
        exists|k: int| first_best(players, k),
    decreases players.len(),
{
    if players.len() == 1 {
        assert(first_best(players, 0));
    } else {
        let init = players.drop_last();
        lemma_first_best_exists(init);
        let k = choose|k: int| first_best(init, k);
        let last = players.len() - 1;
        assert forall|j: int| 0 <= j < init.len() implies init[j] == players[j] by {}
        if players[last].words.len() > players[k].words.len() {
            assert forall|j: int| 0 <= j < players.len() implies (#[trigger] players[j].words.len())
                <= players[last].words.len() by {
                if j < last {
                    assert(init[j].words.len() <= init[k].words.len());
                }
            }
            assert forall|j: int| 0 <= j < last implies (#[trigger] players[j].words.len())
                < players[last].words.len() by {
                assert(init[j].words.len() <= init[k].words.len());
            }
            assert(first_best(players, last));
        } else {
            assert forall|j: int| 0 <= j < players.len() implies (#[trigger] players[j].words.len())
                <= players[k].words.len() by {
                if j < last {
                    assert(init[j].words.len() <= init[k].words.len());
                }
            }
            assert forall|j: int| 0 <= j < k implies (#[trigger] players[j].words.len())
                < players[k].words.len() by {
                assert(init[j].words.len() < init[k].words.len());
            }
            assert(first_best(players, k));
        }
    }
}

/// The winner of a round is a player who found at least as many words as
/// every player, and every player before the winner found fewer.
pub proof fn lemma_winner_is_best(players: Seq<PlayerResult>)
    requires
        players.len() > 0,
    ensures
        0 <= winner_index(players) < players.len(),
        forall|j: int|
            0 <= j < players.len() ==> (#[trigger] players[j].words.len()) <= players[winner_index(
                players,
            )].words.len(),
        forall|j: int|
            0 <= j < winner_index(players) ==> (#[trigger] players[j].words.len())
                < players[winner_index(players)].words.len(),
{
    lemma_first_best_exists(players);
}

/// The greater of two numbers.
pub open spec fn max_nat(a: nat, b: nat) -> nat {
    if a >= b {
        a
    } else {
        b
    }
}

/// The length, in characters, of the longest word of `ws` (0 when none).
pub open spec fn longest_in(ws: Seq<Seq<char>>) -> nat
    decreases ws.len(),
{
    if ws.len() == 0 {
        0
    } else {
        max_nat(longest_in(ws.drop_last()), ws.last().len())
    }
}

/// The length, in characters, of the longest word any player found (0 when none).
pub open spec fn longest_word(players: Seq<PlayerResult>) -> nat
    decreases players.len(),
{
    if players.len() == 0 {
        0
    } else {
        max_nat(longest_word(players.drop_last()), longest_in(word_texts(players.last())))
    }
}

proof fn lemma_longest_in(ws: Seq<Seq<char>>)
    ensures
        forall|j: int| 0 <= j < ws.len() ==> (#[trigger] ws[j]).len() <= longest_in(ws),
        longest_in(ws) == 0 || exists|j: int| 0 <= j < ws.len() && (#[trigger] ws[j]).len() == longest_in(ws),
    decreases ws.len(),
{
    if ws.len() > 0 {
        lemma_longest_in(ws.drop_last());
        assert forall|j: int| 0 <= j < ws.len() implies (#[trigger] ws[j]).len() <= longest_in(ws) by {
            if j < ws.len() - 1 {
                assert(ws.drop_last()[j] == ws[j]);
            }
        }
        if longest_in(ws) != 0 {
            if longest_in(ws) == ws.last().len() {
                assert(ws[ws.len() - 1].len() == longest_in(ws));
            } else {
                let j = choose|j: int| 0 <= j < ws.drop_last().len() && (#[trigger] ws.drop_last()[j]).len() == longest_in(ws.drop_last());
                assert(ws[j] == ws.drop_last()[j]);
            }
        }
    }
}

/// `longest_word` is the greatest length of any word found, or 0.
pub proof fn lemma_longest_word(players: Seq<PlayerResult>)
    ensures
        forall|i: int, j: int|
            0 <= i < players.len() && 0 <= j < word_texts(players[i]).len() ==> (
            #[trigger] word_texts(players[i])[j]).len() <= longest_word(players),
        longest_word(players) == 0 || exists|i: int, j: int|
            0 <= i < players.len() && 0 <= j < word_texts(players[i]).len() && (
            #[trigger] word_texts(players[i])[j]).len() == longest_word(players),
    decreases players.len(),
{
    if players.len() > 0 {
        let init = players.drop_last();
        lemma_longest_word(init);
        lemma_longest_in(word_texts(players.last()));
        assert forall|i: int, j: int|
            0 <= i < players.len() && 0 <= j < word_texts(players[i]).len() implies (
            #[trigger] word_texts(players[i])[j]).len() <= longest_word(players) by {
            if i < players.len() - 1 {
                assert(init[i] == players[i]);
                assert(word_texts(init[i])[j] == word_texts(players[i])[j]);
            }
        }
        if longest_word(players) != 0 {
            if longest_word(players) == longest_in(word_texts(players.last())) {
                let j = choose|j: int| 0 <= j < word_texts(players.last()).len() && (#[trigger] word_texts(players.last())[j]).len() == longest_in(word_texts(players.last()));
                assert(players.last() == players[players.len() - 1]);
                assert(word_texts(players[players.len() - 1])[j].len() == longest_word(players));
            } else {
                let (i, j) = choose|i: int, j: int|
                    0 <= i < init.len() && 0 <= j < word_texts(init[i]).len() && (
                    #[trigger] word_texts(init[i])[j]).len() == longest_word(init);
                assert(init[i] == players[i]);
                assert(word_texts(players[i])[j].len() == longest_word(players));
            }
        }
    }
}

/// The length, in characters, of the longest word any player found (0 when none).
pub fn greatest_len_word(vect: &Vec<PlayerResult>) -> (greatest: usize)
    ensures
        greatest == longest_word(vect@),
        forall|i: int, j: int|
            0 <= i < vect@.len() && 0 <= j < word_texts(vect@[i]).len() ==> (
            #[trigger] word_texts(vect@[i])[j]).len() <= greatest,
        greatest == 0 || exists|i: int, j: int|
            0 <= i < vect@.len() && 0 <= j < word_texts(vect@[i]).len() && (
            #[trigger] word_texts(vect@[i])[j]).len() == greatest,
{
    let mut greatest: usize = 0;
    for i in 0..vect.len()
        invariant
            greatest == longest_word(vect@.take(i as int)),
    {
        let x = &vect[i];
        let ghost ws = word_texts(vect@[i as int]);
        let ghost before = greatest;
        for k in 0..x.words.len()
            invariant
                ws == word_texts(*x),
                *x == vect@[i as int],
                greatest == max_nat(before as nat, longest_in(ws.take(k as int))),
        {
            let n = x.words[k].as_str().unicode_len();
            assert(ws.take(k + 1).drop_last() =~= ws.take(k as int));
            if n > greatest {
                greatest = n;
            }
        }
        assert(ws.take(x.words.len() as int) =~= ws);
        assert(vect@.take(i + 1).drop_last() =~= vect@.take(i as int));
    }
    assert(vect@.take(vect.len() as int) =~= vect@);
    proof {
        lemma_longest_word(vect@);
    }
    greatest
}

proof fn lemma_keep_shared_contains(players: Seq<PlayerResult>, ws: Seq<Seq<char>>, w: Seq<char>)
    ensures
        keep_shared(players, ws).contains(w) <==> (ws.contains(w) && found_by_all(players, w)),
    decreases ws.len(),
{
    if ws.len() > 0 {
        let init = ws.drop_last();
        lemma_keep_shared_contains(players, init, w);
        let before = keep_shared(players, init);
        if ws.contains(w) && found_by_all(players, w) {
            let j = choose|j: int| 0 <= j < ws.len() && ws[j] == w;
            if j < ws.len() - 1 {
                assert(init[j] == w);
                if found_by_all(players, ws.last()) {
                    let k = choose|k: int| 0 <= k < before.len() && before[k] == w;
                    assert(before.push(ws.last())[k] == w);
                }
            } else {
                assert(before.push(ws.last())[before.len() as int] == w);
            }
        }
        if keep_shared(players, ws).contains(w) {
            let k = choose|k: int| 0 <= k < keep_shared(players, ws).len() && keep_shared(players, ws)[k] == w;
            if k < before.len() {
                assert(before[k] == w);
                assert(before.contains(w));
                let j = choose|j: int| 0 <= j < init.len() && init[j] == w;
                assert(ws[j] == w);
            } else {
                assert(ws[ws.len() - 1] == w);
            }
        }
    }
}

/// A word is in the shared list exactly when every player found it.
pub proof fn lemma_shared_iff_found_by_all(players: Seq<PlayerResult>, w: Seq<char>)
    requires
        players.len() > 0,
    ensures
        keep_shared(players, word_texts(players[0])).contains(w) <==> found_by_all(players, w),
{
    lemma_keep_shared_contains(players, word_texts(players[0]), w);
}

/// A word is in the shared list exactly when every player's list holds it.
pub proof fn lemma_shared_words_found_by_everyone(players: Seq<PlayerResult>, w: Seq<char>)
    requires
        players.len() > 0,
    ensures
        keep_shared(players, word_texts(players[0])).contains(w) <==> (forall|i: int|
            0 <= i < players.len() ==> #[trigger] texts(players[i].words@).contains(w)),
{
    lemma_keep_shared_contains(players, word_texts(players[0]), w);
    if forall|i: int| 0 <= i < players.len() ==> #[trigger] texts(players[i].words@).contains(w) {
        assert(texts(players[0].words@).contains(w));
        assert forall|i: int| 0 <= i < players.len() implies #[trigger] word_texts(players[i]).contains(w) by {
            assert(texts(players[i].words@).contains(w));
        }
    }
    if keep_shared(players, word_texts(players[0])).contains(w) {
        assert forall|i: int| 0 <= i < players.len() implies #[trigger] texts(players[i].words@).contains(w) by {
            assert(word_texts(players[i]).contains(w));
        }
    }
}

/// The first line block of the results: the winner.
pub open spec fn header_text(winner_name: Seq<char>) -> Seq<char> {
    "Results:\n"@ + winner_name + " won!\n\nWords Found:\n"@ + "\n"@
}

/// `n` copies of `w`, each padded to `width`.
pub open spec fn repeated_cell(w: Seq<char>, width: nat, n: nat) -> Seq<char>
    decreases n,
{
    if n == 0 {
        Seq::empty()
    } else {
        repeated_cell(w, width, (n - 1) as nat) + pad_spec(w, width)
    }
}

/// The first `n` lines of shared words: each shared word once per player.
pub open spec fn shared_rows(shared: Seq<Seq<char>>, players: nat, width: nat, n: nat) -> Seq<char>
    decreases n,
{
    if n == 0 {
        Seq::empty()
    } else {
        shared_rows(shared, players, width, (n - 1) as nat) + repeated_cell(
            shared[n - 1],
            width,
            players,
        ) + "\n"@
    }
}

/// The word shown for player `i` in line `r` of the table: their `r`-th word
/// that not everyone found, or nothing.
pub open spec fn column_cell(
    players: Seq<PlayerResult>,
    shared: Seq<Seq<char>>,
    i: int,
    r: int,
) -> Seq<char> {
    let own = drop_shared(word_texts(players[i]), shared);
    if 0 <= r < own.len() {
        own[r]
    } else {
        Seq::empty()
    }
}

/// The cells of line `r` for the first `n` players.
pub open spec fn row_cells(
    players: Seq<PlayerResult>,
    shared: Seq<Seq<char>>,
    width: nat,
    r: int,
    n: nat,
) -> Seq<char>
    decreases n,
{
    if n == 0 {
        Seq::empty()
    } else {
        row_cells(players, shared, width, r, (n - 1) as nat) + pad_spec(
            column_cell(players, shared, n - 1, r),
            width,
        )
    }
}

/// The largest number of unshared words among the first `n` players.
pub open spec fn longest_column(players: Seq<PlayerResult>, shared: Seq<Seq<char>>, n: nat) -> nat
    decreases n,
{
    if n == 0 {
        0
    } else {
        max_nat(
            longest_column(players, shared, (n - 1) as nat),
            drop_shared(word_texts(players[n - 1]), shared).len(),
        )
    }
}

/// The first `n` lines of the table of unshared words.
pub open spec fn table_rows(
    players: Seq<PlayerResult>,
    shared: Seq<Seq<char>>,
    width: nat,
    n: nat,
) -> Seq<char>
    decreases n,
{
    if n == 0 {
        Seq::empty()
    } else {
        table_rows(players, shared, width, (n - 1) as nat) + row_cells(
            players,
            shared,
            width,
            n - 1,
            players.len(),
        ) + "\n"@
    }
}

/// The whole results text: the winner, the shared words (once per player on
/// each line), then a table with one column per player listing, in order, the
/// words that not everyone found, closed by one line of blank cells. Every
/// cell is padded to one more character than the longest word.
pub open spec fn report_text(
    players: Seq<PlayerResult>,
    shared: Seq<Seq<char>>,
    winner_name: Seq<char>,
) -> Seq<char> {
    let width = longest_word(players) + 1;
    header_text(winner_name) + shared_rows(shared, players.len(), width, shared.len())
        + table_rows(
        players,
        shared,
        width,
        longest_column(players, shared, players.len()) + 1,
    )
}

/// No word is longer than `usize::MAX - 1` characters and no player found
/// `usize::MAX / 2` words or more.
pub open spec fn sizes_fit(players: Seq<PlayerResult>) -> bool {
    &&& longest_word(players) < usize::MAX
    &&& forall|i: int| 0 <= i < players.len() ==> (#[trigger] players[i].words.len()) < usize::MAX / 2
}

/// The lines of shared words: each shared word printed once per player.
pub fn print_shared_words(game_result: &GameResult, word_width: usize) -> (out: String)
    ensures
        out@ == shared_rows(
            texts(game_result.shared@),
            game_result.players@.len(),
            word_width as nat,
            game_result.shared@.len(),
        ),
{
    let mut out = String::new();
    let ghost sh = texts(game_result.shared@);
    let ghost np = game_result.players@.len();
    for k in 0..game_result.shared.len()
        invariant
            sh == texts(game_result.shared@),
            np == game_result.players@.len(),
            out@ == shared_rows(sh, np, word_width as nat, k as nat),
    {
        let word = &game_result.shared[k];
        let ghost line_start = out@;
        for _player in 0..game_result.players.len()
            invariant
                sh == texts(game_result.shared@),
                np == game_result.players@.len(),
                k < sh.len(),
                word@ == sh[k as int],
                out@ == line_start + repeated_cell(sh[k as int], word_width as nat, _player as nat),
        {
            push_padded(&mut out, word.as_str(), word_width);
            assert(out@ =~= line_start + repeated_cell(sh[k as int], word_width as nat, (_player + 1) as nat));
        }
        out.append("\n");
        assert(out@ =~= shared_rows(sh, np, word_width as nat, (k + 1) as nat));
    }
    out
}

proof fn lemma_drop_shared_step(ws: Seq<Seq<char>>, sh: Seq<Seq<char>>, k: int)
    requires
        0 <= k < ws.len(),
    ensures
        drop_shared(ws.take(k + 1), sh) == (if sh.contains(ws[k]) {
            drop_shared(ws.take(k), sh)
        } else {
            drop_shared(ws.take(k), sh).push(ws[k])
        }),
{
    assert(ws.take(k + 1).drop_last() =~= ws.take(k));
    assert(ws.take(k + 1).last() == ws[k]);
}

proof fn lemma_drop_shared_prefix(ws: Seq<Seq<char>>, sh: Seq<Seq<char>>, k: int)
    requires
        0 <= k <= ws.len(),
    ensures
        drop_shared(ws.take(k), sh).is_prefix_of(drop_shared(ws, sh)),
    decreases ws.len() - k,
{
    if k == ws.len() {
        assert(ws.take(k) =~= ws);
    } else {
        lemma_drop_shared_prefix(ws, sh, k + 1);
        lemma_drop_shared_step(ws, sh, k);
        let a = drop_shared(ws.take(k), sh);
        let b = drop_shared(ws.take(k + 1), sh);
        let c = drop_shared(ws, sh);
        assert(a.is_prefix_of(b));
        assert forall|i: int| 0 <= i < a.len() implies a[i] == c[i] by {
            assert(a[i] == b[i]);
            assert(b[i] == c.subrange(0, b.len() as int)[i]);
        }
        assert(a =~= c.subrange(0, a.len() as int));
    }
}

proof fn lemma_drop_shared_len(ws: Seq<Seq<char>>, sh: Seq<Seq<char>>)
    ensures
        drop_shared(ws, sh).len() <= ws.len(),
    decreases ws.len(),
{
    if ws.len() > 0 {
        lemma_drop_shared_len(ws.drop_last(), sh);
    }
}

proof fn lemma_longest_column_bound(players: Seq<PlayerResult>, sh: Seq<Seq<char>>, n: nat, b: int)
    requires
        n <= players.len(),
        b >= 0,
    ensures
        longest_column(players, sh, n) <= b <==> forall|i: int|
            0 <= i < n ==> #[trigger] drop_shared(word_texts(players[i]), sh).len() <= b,
    decreases n,
{
    if n > 0 {
        lemma_longest_column_bound(players, sh, (n - 1) as nat, b);
        if (forall|i: int| 0 <= i < n - 1 ==> #[trigger] drop_shared(word_texts(players[i]), sh).len() <= b)
            && drop_shared(word_texts(players[n - 1]), sh).len() <= b {
            assert forall|i: int| 0 <= i < n implies #[trigger] drop_shared(
                word_texts(players[i]),
                sh,
            ).len() <= b by {
                if i < n - 1 {
                }
            }
        }
        if forall|i: int| 0 <= i < n ==> #[trigger] drop_shared(word_texts(players[i]), sh).len() <= b {
            assert(drop_shared(word_texts(players[n - 1]), sh).len() <= b);
            assert forall|i: int| 0 <= i < n - 1 implies #[trigger] drop_shared(
                word_texts(players[i]),
                sh,
            ).len() <= b by {
                assert(0 <= i < n);
            }
        }
    }
}

/// The position `next` in a player's word list, while line `r` of the table
/// is being written: the number of unshared words before it is `r`, or,
/// once the list is exhausted, it runs on past the end one step per line.
pub open spec fn column_state(ws: Seq<Seq<char>>, sh: Seq<Seq<char>>, next: int, r: int) -> bool {
    let u = drop_shared(ws, sh).len();
    if r <= u {
        &&& 0 <= next <= ws.len()
        &&& drop_shared(ws.take(next), sh).len() == r
    } else {
        next == ws.len() + (r - u)
    }
}

/// `column_state` for player `i`.
pub open spec fn column_ok(
    players: Seq<PlayerResult>,
    sh: Seq<Seq<char>>,
    nexts: Seq<usize>,
    i: int,
    r: int,
) -> bool {
    column_state(word_texts(players[i]), sh, nexts[i] as int, r)
}

/// The results text: the winner, the shared words, and the table of the
/// words that not everyone found (see `report_text`).
#[verifier::rlimit(50)]
pub fn pretty_print(gr: &GameResult) -> (out: String)
    requires
        sizes_fit(gr.players@),
    ensures
        out@ == report_text(gr.players@, texts(gr.shared@), gr.winner.name@),
{
    let ghost players = gr.players@;
    let ghost sh = texts(gr.shared@);
    let ghost np = players.len();
    let mut out = String::new();
    out.append("Results:\n");
    out.append(gr.winner.name.as_str());
    out.append(" won!\n\nWords Found:\n");
    out.append("\n");
    assert(out@ =~= header_text(gr.winner.name@));
    let word_width: usize = greatest_len_word(gr.players) + 1;
    let shared_text = print_shared_words(gr, word_width);
    out.append(shared_text.as_str());
    let ghost prefix = out@;
    let ghost width = word_width as nat;
    let mut nexts: Vec<usize> = Vec::new();
    for _w in 0..gr.players.len()
        invariant
            nexts@.len() == _w,
            forall|j: int| 0 <= j < _w ==> nexts@[j] == 0,
    {
        nexts.push(0);
    }
    let ghost total = longest_column(players, sh, np);
    proof {
        assert forall|i: int| 0 <= i < np implies drop_shared(word_texts(#[trigger] players[i]), sh).len()
            <= usize::MAX / 2 - 1 by {
            assert(players[i].words.len() < usize::MAX / 2);
            lemma_drop_shared_len(word_texts(players[i]), sh);
        }
        lemma_longest_column_bound(players, sh, np, usize::MAX / 2 - 1);
        assert forall|i: int| 0 <= i < np implies #[trigger] column_ok(players, sh, nexts@, i, 0) by {
            assert(word_texts(players[i]).take(0) =~= Seq::<Seq<char>>::empty());
        }
    }
    let ghost mut r: int = 0;
    loop
        invariant_except_break
            0 <= r <= total,
            forall|i: int| 0 <= i < np ==> #[trigger] column_ok(players, sh, nexts@, i, r),
            out@ == prefix + table_rows(players, sh, width, r as nat),
        invariant
            players == gr.players@,
            sh == texts(gr.shared@),
            np == players.len(),
            sizes_fit(players),
            word_width == longest_word(players) + 1,
            width == word_width as nat,
            nexts@.len() == np,
            total == longest_column(players, sh, np),
            total <= usize::MAX / 2 - 1,
        ensures
            out@ == prefix + table_rows(players, sh, width, (total + 1) as nat),
        decreases total + 1 - r,
    {
        let ghost row_start = out@;
        for index in 0..gr.players.len()
            invariant
                players == gr.players@,
                sh == texts(gr.shared@),
                np == players.len(),
                sizes_fit(players),
                width == word_width as nat,
                nexts@.len() == np,
                total <= usize::MAX / 2 - 1,
                0 <= r <= total,
                forall|i: int| 0 <= i < index ==> #[trigger] column_ok(players, sh, nexts@, i, r + 1),
                forall|i: int| index <= i < np ==> #[trigger] column_ok(players, sh, nexts@, i, r),
                out@ == row_start + row_cells(players, sh, width, r, index as nat),
        {
            let ghost ws = word_texts(players[index as int]);
            let ghost u = drop_shared(ws, sh).len();
            let ghost before = nexts@;
            assert(column_ok(players, sh, nexts@, index as int, r));
            assert(players[index as int].words.len() < usize::MAX / 2);
            let words = &gr.players[index].words;
            assert(texts(words@) == ws);
            let empty = String::new();
            let mut cur_word: &String = &empty;
            let mut will_print = true;
            loop
                invariant_except_break
                    will_print,
                invariant
                    nexts@.len() == np,
                    index < np,
                    sh == texts(gr.shared@),
                    ws == texts(words@),
                    u == drop_shared(ws, sh).len(),
                    words@.len() < usize::MAX / 2,
                    forall|i: int| 0 <= i < np && i != index ==> nexts@[i] == before[i],
                    column_state(ws, sh, nexts@[index as int] as int, r),
                    r <= total,
                    total <= usize::MAX / 2 - 1,
                ensures
                    will_print ==> nexts@[index as int] < ws.len() && !sh.contains(
                        ws[nexts@[index as int] as int],
                    ),
                    !will_print ==> nexts@[index as int] >= ws.len(),
                decreases ws.len() - nexts@[index as int],
            {
                if nexts[index] >= words.len() {
                    will_print = false;
                    break;
                }
                let in_shared = contains_word(&gr.shared, &words[nexts[index]]);
                assert(words@[nexts@[index as int] as int]@ == ws[nexts@[index as int] as int]);
                if in_shared {
                    proof {
                        lemma_drop_shared_step(ws, sh, nexts@[index as int] as int);
                    }
                    let n = nexts[index];
                    nexts.set(index, n + 1);
                } else {
                    break;
                }
            }
            let k = nexts[index];
            proof {
                if will_print {
                    lemma_drop_shared_step(ws, sh, k as int);
                    lemma_drop_shared_prefix(ws, sh, k + 1);
                    let a = drop_shared(ws.take(k + 1), sh);
                    assert(a[r] == ws[k as int]);
                    assert(drop_shared(ws, sh)[r] == a[r]);
                } else if r <= u {
                    assert(ws.take(k as int) =~= ws);
                }
            }
            if will_print {
                cur_word = &gr.players[index].words[nexts[index]];
            }
            assert(cur_word@ == column_cell(players, sh, index as int, r));
            push_padded(&mut out, cur_word.as_str(), word_width);
            nexts.set(index, k + 1);
            proof {
                if will_print {
                    lemma_drop_shared_step(ws, sh, k as int);
                }
                assert(column_ok(players, sh, nexts@, index as int, r + 1));
                assert forall|i: int| 0 <= i < index + 1 implies #[trigger] column_ok(
                    players,
                    sh,
                    nexts@,
                    i,
                    r + 1,
                ) by {
                    if i < index {
                        assert(column_ok(players, sh, before, i, r + 1));
                        assert(nexts@[i] == before[i]);
                    }
                }
                assert forall|i: int| index + 1 <= i < np implies #[trigger] column_ok(
                    players,
                    sh,
                    nexts@,
                    i,
                    r,
                ) by {
                    assert(column_ok(players, sh, before, i, r));
                    assert(nexts@[i] == before[i]);
                }
            }
            assert(out@ =~= row_start + row_cells(players, sh, width, r, (index + 1) as nat));
        }
        out.append("\n");
        assert(out@ =~= prefix + table_rows(players, sh, width, (r + 1) as nat));
        proof {
            r = r + 1;
        }
        let mut done = true;
        for i in 0..nexts.len()
            invariant
                players == gr.players@,
                np == players.len(),
                nexts@.len() == np,
                done == (forall|j: int| 0 <= j < i ==> nexts@[j] > (#[trigger] players[j]).words.len()),
        {
            if nexts[i] <= gr.players[i].words.len() {
                done = false;
            }
        }
        proof {
            assert forall|j: int| 0 <= j < np implies (nexts@[j] > (#[trigger] players[j]).words.len()
                <==> drop_shared(word_texts(players[j]), sh).len() <= r - 1) by {
                assert(column_ok(players, sh, nexts@, j, r));
            }
            lemma_longest_column_bound(players, sh, np, r - 1);
        }
        if done {
            break;
        }
    }
    assert(out@ =~= report_text(gr.players@, texts(gr.shared@), gr.winner.name@));
    out
}

/// The results text of a round: the shared words, the winner and the
/// table, as `pretty_print` lays them out.
pub fn results(p_res: Vec<PlayerResult>) -> (out: String)
    requires
        p_res.len() > 0,
        sizes_fit(p_res@),
    ensures
        out@ == report_text(
            p_res@,
            keep_shared(p_res@, word_texts(p_res@[0])),
            p_res@[winner_index(p_res@)].name@,
        ),
{
    let gr: GameResult = GameResult {
        players: &p_res,
        shared: calc_shared(&p_res),
        winner: calc_winner(&p_res),
    };
    pretty_print(&gr)
}

/// The two players of the built-in sample round, as character sequences:
/// their names and their words.
pub open spec fn sample_round(players: Seq<PlayerResult>) -> bool {
    &&& players.len() == 2
    &&& players[0].name@ == "jeff"@
    &&& players[1].name@ == "jeff"@
    &&& word_texts(players[0]) == seq!["this"@, "is"@, "a"@, "test"@]
    &&& word_texts(players[1]) == seq!["this"@, "is"@, "a"@, "stick"@, "up"@]
}

/// The results text of a sample round of two players.
pub fn print_test() -> (out: String)
    ensures
        exists|players: Seq<PlayerResult>|
            #[trigger] sample_round(players) && out@ == report_text(
                players,
                keep_shared(players, word_texts(players[0])),
                players[winner_index(players)].name@,
            ),
{
    let mut players: Vec<PlayerResult> = Vec::new();
    players.push(
        PlayerResult {
            name: "jeff".to_string(),
            words: vec!["this".to_string(), "is".to_string(), "a".to_string(), "test".to_string()],
        },
    );
    players.push(
        PlayerResult {
            name: "jeff".to_string(),
            words: vec![
                "this".to_string(),
                "is".to_string(),
                "a".to_string(),
                "stick".to_string(),
                "up".to_string(),
            ],
        },
    );
    proof {
        assert(word_texts(players@[0]) =~= seq!["this"@, "is"@, "a"@, "test"@]);
        assert(word_texts(players@[1]) =~= seq!["this"@, "is"@, "a"@, "stick"@, "up"@]);
        reveal_strlit("this");
        reveal_strlit("is");
        reveal_strlit("a");
        reveal_strlit("test");
        reveal_strlit("stick");
        reveal_strlit("up");
        assert(longest_in(word_texts(players@[0])) == 4) by {
            reveal_with_fuel(longest_in, 5);
        }
        assert(longest_in(word_texts(players@[1])) == 5) by {
            reveal_with_fuel(longest_in, 6);
        }
        assert(longest_word(players@) == 5) by {
            reveal_with_fuel(longest_word, 3);
            assert(players@.drop_last().drop_last() =~= Seq::<PlayerResult>::empty());
            assert(players@.drop_last().last() == players@[0]);
        }
    }
    let ghost ps = players@;
    let out = results(players);
    assert(sample_round(ps));
    out
}

/// Runs the built-in checks: the results text of the sample round.
pub fn unit_tests() -> (out: String)
    ensures
        exists|players: Seq<PlayerResult>|
            #[trigger] sample_round(players) && out@ == report_text(
                players,
                keep_shared(players, word_texts(players[0])),
                players[winner_index(players)].name@,
            ),
{
    print_test()
}

proof fn lemma_drop_shared_from(ws: Seq<Seq<char>>, sh: Seq<Seq<char>>, k: int)
    requires
        0 <= k < drop_shared(ws, sh).len(),
    ensures
        ws.contains(drop_shared(ws, sh)[k]),
    decreases ws.len(),
{
    let init = ws.drop_last();
    let before = drop_shared(init, sh);
    if k < before.len() {
        lemma_drop_shared_from(init, sh, k);
        let j = choose|j: int| 0 <= j < init.len() && init[j] == before[k];
        assert(ws[j] == before[k]);
    } else {
        assert(ws[ws.len() - 1] == drop_shared(ws, sh)[k]);
    }
}

/// Every cell of the results table is exactly as wide as the field: the
/// field is one character wider than the longest word any player found.
pub proof fn lemma_table_cells_fill_width(
    players: Seq<PlayerResult>,
    shared: Seq<Seq<char>>,
    i: int,
    r: int,
)
    requires
        0 <= i < players.len(),
    ensures
        pad_spec(column_cell(players, shared, i, r), longest_word(players) + 1).len() == longest_word(
            players,
        ) + 1,
{
    let ws = word_texts(players[i]);
    let own = drop_shared(ws, shared);
    if 0 <= r < own.len() {
        lemma_drop_shared_from(ws, shared, r);
        let j = choose|j: int| 0 <= j < ws.len() && ws[j] == own[r];
        lemma_longest_word(players);
        assert(word_texts(players[i])[j].len() <= longest_word(players));
    }
}

/// The results table has one line for each unshared word of the player
/// with the most of them, plus a closing blank line: with `n` one more than
/// the largest count of unshared words over all players, the text is the
/// header, the shared lines and exactly `n` table lines.
pub proof fn lemma_table_fits_every_column(
    players: Seq<PlayerResult>,
    shared: Seq<Seq<char>>,
    winner_name: Seq<char>,
    n: nat,
)
    requires
        n >= 1,
        forall|i: int|
            0 <= i < players.len() ==> #[trigger] drop_shared(word_texts(players[i]), shared).len() < n,
        n == 1 || exists|i: int|
            0 <= i < players.len() && #[trigger] drop_shared(word_texts(players[i]), shared).len() == n
                - 1,
    ensures
        report_text(players, shared, winner_name) == header_text(winner_name) + shared_rows(
            shared,
            players.len(),
            longest_word(players) + 1,
            shared.len(),
        ) + table_rows(players, shared, longest_word(players) + 1, n),
{
    let np = players.len();
    lemma_longest_column_bound(players, shared, np, n - 1);
    if n >= 2 {
        lemma_longest_column_bound(players, shared, np, n - 2);
        let i = choose|i: int|
            0 <= i < players.len() && #[trigger] drop_shared(word_texts(players[i]), shared).len() == n
                - 1;
        assert(drop_shared(word_texts(players[i]), shared).len() > n - 2);
    }
    assert(longest_column(players, shared, np) + 1 == n);
}

} // verus!
