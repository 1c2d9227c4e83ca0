//! The word list: which strings are words, and which only begin words.
use vstd::prelude::*;
use crate::board::{Board, Previous, on_board, free_cells, lemma_free_cells_decrease, cell_listed};
use crate::text::{contains_word, texts};

verus! {

/// What the word list says of `w`: the first entry for it, if any.
pub open spec fn lookup_entries(entries: Seq<(Seq<char>, bool)>, w: Seq<char>) -> Option<bool>
    decreases entries.len(),
{
    if entries.len() == 0 {
        None
    } else if entries[0].0 == w {
        Some(entries[0].1)
    } else {
        lookup_entries(entries.drop_first(), w)
    }
}

/// A word list. Each entry marks a string as a complete word (`true`) or as
/// the beginning of a longer word only (`false`).
pub struct Dictionary {
    entries: Vec<(String, bool)>,
}

/// The entries of a dictionary as character sequences.
pub open spec fn entry_texts(entries: Seq<(String, bool)>) -> Seq<(Seq<char>, bool)> {
    entries.map_values(|e: (String, bool)| (e.0@, e.1))
}

impl View for Dictionary {
    type V = Map<Seq<char>, bool>;

    /// Each string that has an entry, mapped to its first entry's mark.
    closed spec fn view(&self) -> Map<Seq<char>, bool> {
        Map::new(
            |w: Seq<char>| lookup_entries(entry_texts(self.entries@), w) is Some,
            |w: Seq<char>| lookup_entries(entry_texts(self.entries@), w)->Some_0,
        )
    }
}

impl Dictionary {
    /// A dictionary over the given entries; where a string has several
    /// entries, the first one counts.
    pub fn from_entries(entries: Vec<(String, bool)>) -> (d: Dictionary)
        ensures
            forall|w: Seq<char>|
                #![trigger d@.contains_key(w)]
                #![trigger lookup_entries(entry_texts(entries@), w)]
                (d@.contains_key(w) <==> lookup_entries(entry_texts(entries@), w) is Some) && (
                d@.contains_key(w) ==> d@[w] == lookup_entries(entry_texts(entries@), w)->Some_0),
    {
        Dictionary { entries }
    }

    /// The mark that the dictionary gives `w`, if it has an entry for it.
    pub fn get(&self, w: &String) -> (r: Option<bool>)
        ensures
            r == (if self@.contains_key(w@) {
                Some(self@[w@])
            } else {
                None
            }),
    {
        let ghost es = entry_texts(self.entries@);
        let mut i: usize = 0;
        assert(es.skip(0) =~= es);
        while i < self.entries.len()
            invariant
                i <= self.entries.len(),
                es == entry_texts(self.entries@),
                lookup_entries(es, w@) == lookup_entries(es.skip(i as int), w@),
            decreases self.entries.len() - i,
        {
            assert(es.skip(i as int).drop_first() =~= es.skip(i + 1));
            assert(es.skip(i as int)[0] == es[i as int]);
            if self.entries[i].0.eq(w) {
                return Some(self.entries[i].1);
            }
            i = i + 1;
        }
        assert(es.skip(i as int).len() == 0);
        None
    }
}

/// Whether the dictionary marks `word` as a complete word.
pub fn is_word(word: &String, dict: &Dictionary) -> (r: bool)
    ensures
        r == (dict@.contains_key(word@) && dict@[word@]),
{
    match dict.get(word) {
        Some(b) => return b,
        None => return false,
    }
}

/// Whether the dictionary marks `sub` as only the beginning of a word.
pub fn is_sub_word(sub: &String, dict: &Dictionary) -> (r: bool)
    ensures
        r == (dict@.contains_key(sub@) && !dict@[sub@]),
{
    match dict.get(sub) {
        Some(b) => return !b,
        None => return false,
    }
}

/// Walks every trail from `(x, y)` whose letters, `prog` followed by the
/// trail's, the dictionary marks as the beginning of a word, and adds to
/// `res` each such string that is also marked a complete word. No string is
/// marked both ways, so nothing is ever added.
pub fn scraper_worm(
    x: usize,
    y: usize,
    prog: String,
    board: &Board,
    p: &Vec<Previous>,
    res: &mut Vec<String>,
    dict: &Dictionary,
)
    requires
        x < 4,
        y < 4,
    ensures
        final(res)@ == old(res)@,
    decreases free_cells(p@.push(Previous { x: x as i32, y: y as i32 }), 16),
{
    let mut prev = p.clone();
    assert(prev@ =~= p@);
    prev.push(Previous { x: x as i32, y: y as i32 });
    for relx in 0..3usize
        invariant
            x < 4,
            y < 4,
            prev@ == p@.push(Previous { x: x as i32, y: y as i32 }),
            res@ == old(res)@,
    {
        for rely in 0..3usize
            invariant
                relx < 3,
                x < 4,
                y < 4,
                prev@ == p@.push(Previous { x: x as i32, y: y as i32 }),
                res@ == old(res)@,
        {
            let newx: i32 = (x as i32) + (relx as i32) - 1;
            let newy: i32 = (y as i32) + (rely as i32) - 1;
            if newx > -1 && newx < 4 && newy > -1 && newy < 4 {
                let newxy = Previous { x: newx, y: newy };
                if !cell_listed(&prev, newxy) {
                    let mut new_prog: String = prog.clone();
                    let throwaway: [char; 4] = board[newx as usize];
                    let throwfarther: char = throwaway[newy as usize];
                    new_prog.push(throwfarther);
                    if is_sub_word(&new_prog, dict) {
                        if !contains_word(res, &new_prog) {
                            if is_word(&new_prog, dict) {
                                res.push(new_prog.clone());
                            }
                        }
                        proof {
                            lemma_free_cells_decrease(prev@, newxy);
                        }
                        scraper_worm(newx as usize, newy as usize, new_prog, board, &prev, res, dict);
                    }
                }
            }
        }
    }
}

/// Collects the words found by walking the board from every cell. Since the
/// walk only continues through strings marked as beginnings of words, and
/// only reports strings marked as complete words, the list is always empty.
pub fn scraper(board: &Board, dict: &Dictionary) -> (res: Vec<String>)
    ensures
        res@ == Seq::<String>::empty(),
{
    let mut res: Vec<String> = Vec::new();
    for x in 0..4usize
        invariant
            res@ == Seq::<String>::empty(),
    {
        for y in 0..4usize
            invariant
                x < 4,
                res@ == Seq::<String>::empty(),
        {
            let prev: Vec<Previous> = Vec::new();
            let mut letter = String::new();
            letter.push(board[x][y]);
            scraper_worm(x, y, letter, board, &prev, &mut res, dict);
        }
    }
    return res;
}

} // verus!
