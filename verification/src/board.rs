//! The 5x5 letter board and the decoding of tile paths into words.

use vstd::prelude::*;
use vstd::string::StringExecFns;
use crate::point::{Point, in_grid};

verus! {

/// A fixed 5x5 grid of tile characters, indexed `letters[x][y]`.
pub struct Board {
    pub letters: Vec<Vec<char>>,
}

/// The letters one tile stands for: six reserved digit codes expand to a
/// fixed two-letter pair; every other character stands for itself.
pub open spec fn tile_letters(c: char) -> Seq<char> {
    if c == '1' {
        seq!['A', 'N']
    } else if c == '2' {
        seq!['E', 'R']
    } else if c == '3' {
        seq!['H', 'E']
    } else if c == '4' {
        seq!['I', 'N']
    } else if c == '5' {
        seq!['Q', 'U']
    } else if c == '6' {
        seq!['T', 'H']
    } else {
        seq![c]
    }
}

/// The word a path spells: its cells' tile letters, concatenated in path
/// order.
pub open spec fn path_word(b: Board, p: Seq<Point>) -> Seq<char>
    decreases p.len(),
{
    if p.len() == 0 {
        Seq::empty()
    } else {
        path_word(b, p.drop_last()) + tile_letters(b.cell(p.last()))
    }
}

/// A path spells a leading substring of the word spelled by any of its
/// extensions.
pub proof fn lemma_path_word_prefix(b: Board, p: Seq<Point>, e: Seq<Point>)
    requires
        p.is_prefix_of(e),
    ensures
        path_word(b, p).is_prefix_of(path_word(b, e)),
    decreases e.len(),
{
    if p.len() == e.len() {
        assert(p =~= e);
        assert(path_word(b, p) =~= path_word(b, p).subrange(0, path_word(b, p).len() as int));
    } else {
        assert(p.is_prefix_of(e.drop_last())) by {
            assert(p =~= e.drop_last().subrange(0, p.len() as int));
        }
        lemma_path_word_prefix(b, p, e.drop_last());
        assert(path_word(b, e.drop_last()).is_prefix_of(path_word(b, e))) by {
            assert(path_word(b, e.drop_last()) =~= path_word(b, e).subrange(
                0,
                path_word(b, e.drop_last()).len() as int,
            ));
        }
        crate::seqs::lemma_prefix_trans(
            path_word(b, p),
            path_word(b, e.drop_last()),
            path_word(b, e),
        );
    }
}

/// Relies on std's String::push: appends exactly the given character at the
/// end of the string.
#[verifier::external_body]
fn push_char(s: &mut String, c: char)
    ensures
        final(s)@ == old(s)@.push(c),
{
    s.push(c);
}

impl Board {
    /// Well-formedness: five rows of five cells.
    pub open spec fn wf(self) -> bool {
        self.letters@.len() == 5 && forall|i: int|
            0 <= i < 5 ==> (#[trigger] self.letters@[i])@.len() == 5
    }

    /// The character stored at a cell.
    pub open spec fn cell(self, p: Point) -> char {
        self.letters@[p.x as int]@[p.y as int]
    }

    /// An empty board, every cell a space.
    pub fn new() -> (r: Board)
        ensures
            r.wf(),
            forall|p: Point| in_grid(p) ==> r.cell(p) == ' ',
    {
        let mut letters: Vec<Vec<char>> = Vec::new();
        let mut i: usize = 0;
        while i < 5
            invariant
                i <= 5,
                letters@.len() == i,
                forall|j: int|
                    0 <= j < i ==> (#[trigger] letters@[j])@.len() == 5 && forall|k: int|
                        0 <= k < 5 ==> letters@[j]@[k] == ' ',
            decreases 5 - i,
        {
            let row: Vec<char> = vec![' ', ' ', ' ', ' ', ' '];
            letters.push(row);
            i = i + 1;
        }
        Board { letters }
    }

    /// Accepts exactly a 5x5 grid; the board then holds those rows.
    pub fn from_rows(rows: Vec<Vec<char>>) -> (r: Option<Board>)
        ensures
            match r {
                Some(b) => b.wf() && b.letters@ == rows@,
                None => !(rows@.len() == 5 && forall|i: int|
                    0 <= i < 5 ==> (#[trigger] rows@[i])@.len() == 5),
            },
    {
        if rows.len() != 5 {
            return None;
        }
        let mut i: usize = 0;
        while i < 5
            invariant
                rows@.len() == 5,
                i <= 5,
                forall|j: int| 0 <= j < i ==> (#[trigger] rows@[j])@.len() == 5,
            decreases 5 - i,
        {
            if rows[i].len() != 5 {
                return None;
            }
            i = i + 1;
        }
        Some(Board { letters: rows })
    }

    /// Spells out the word along a path of in-grid cells.
    pub fn word_at(&self, path: &Vec<Point>) -> (r: String)
        requires
            self.wf(),
            forall|i: int| 0 <= i < path@.len() ==> in_grid(#[trigger] path@[i]),
        ensures
            r@ == path_word(*self, path@),
    {
        proof {
            reveal_strlit("AN");
            reveal_strlit("ER");
            reveal_strlit("HE");
            reveal_strlit("IN");
            reveal_strlit("QU");
            reveal_strlit("TH");
        }
        let mut ret = String::new();
        let mut i: usize = 0;
        while i < path.len()
            invariant
                self.wf(),
                forall|j: int| 0 <= j < path@.len() ==> in_grid(#[trigger] path@[j]),
                i <= path@.len(),
                ret@ == path_word(*self, path@.take(i as int)),
            decreases path@.len() - i,
        {
            let p = path[i];
            let c = self.letters[p.x][p.y];
            proof {
                reveal_strlit("AN");
                reveal_strlit("ER");
                reveal_strlit("HE");
                reveal_strlit("IN");
                reveal_strlit("QU");
                reveal_strlit("TH");
            }
            if c == '1' {
                ret.append("AN");
            } else if c == '2' {
                ret.append("ER");
            } else if c == '3' {
                ret.append("HE");
            } else if c == '4' {
                ret.append("IN");
            } else if c == '5' {
                ret.append("QU");
            } else if c == '6' {
                ret.append("TH");
            } else {
                push_char(&mut ret, c);
            }
            proof {
                assert(path@.take(i as int + 1).drop_last() =~= path@.take(i as int));
                assert(path@.take(i as int + 1).last() == path@[i as int]);
                assert(tile_letters(self.cell(path@[i as int])) =~= ret@.skip(
                    path_word(*self, path@.take(i as int)).len() as int,
                ));
                assert(ret@ =~= path_word(*self, path@.take(i as int)) + tile_letters(
                    self.cell(path@[i as int]),
                ));
            }
            i = i + 1;
        }
        proof {
            assert(path@.take(path@.len() as int) =~= path@);
        }
        ret
    }
}

} // verus!
