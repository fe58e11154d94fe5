//! The 7x7 puzzle board: a grid of letter columns with, per column, the
//! offset of the lowest slot still in play. The board's only computation is
//! reading its bottom row and handing it to the word index; fetching and
//! caching board data is the surrounding program's concern.

use vstd::prelude::*;

use crate::dictionary::{chars_to_string, match_results, match_set, strings_view, Dictionary};
use crate::letters::{lower_char, lower_seq, normalized_chars};

verus! {

/// A solved word together with the grid path that spells it.
#[derive(Debug)]
pub struct Word {
    pub path: Vec<(usize, usize)>,
    pub word: String,
}

/// A puzzle board: `columns[c][r]` is the letter in column `c`, `r` slots
/// above that column's bottom marker `column_bottom[c]`.
#[derive(Debug)]
pub struct Board {
    pub columns: Vec<Vec<char>>,
    pub column_bottom: Vec<usize>,
    pub date: String,
    pub words: Vec<Word>,
    pub score: u32,
}

/// The letter that lands in column `c`, slot `r`, when the fetched rows are
/// stacked bottom-up: rows are given top first, so row `len - 1 - r` fills
/// slot `r`, lowercased; missing cells hold a blank.
pub open spec fn cell(rows: Seq<Seq<char>>, c: int, r: int) -> char {
    if 0 <= r < rows.len() && 0 <= c < rows[rows.len() - 1 - r].len() {
        lower_char(rows[rows.len() - 1 - r][c])
    } else {
        ' '
    }
}

impl Board {
    /// The grid is a full square: seven columns of seven slots, with one
    /// bottom marker per column.
    pub open spec fn wf(&self) -> bool {
        &&& self.columns@.len() == 7
        &&& forall|c: int| 0 <= c < 7 ==> (#[trigger] self.columns@[c])@.len() == 7
        &&& self.column_bottom@.len() == 7
    }

    /// The seven letters currently at the bottom of each column, left to
    /// right.
    pub open spec fn bottom_row(&self) -> Seq<char> {
        Seq::new(7, |c: int| self.columns@[c]@[self.column_bottom@[c] as int])
    }

    /// Assembles a board from the rows of letters a board source supplies,
    /// top row first: each row is lowercased and stacked bottom-up into the
    /// columns, empty slots are blanked, the bottom markers start at zero,
    /// no words are solved yet and the starting score is 700.
    pub fn from_letter_rows(rows: &Vec<String>, date: String) -> (b: Board)
        requires
            rows@.len() <= 7,
            forall|i: int| 0 <= i < rows@.len() ==> (#[trigger] rows@[i])@.len() <= 7,
        ensures
            b.wf(),
            forall|c: int, r: int|
                0 <= c < 7 && 0 <= r < 7 ==> (#[trigger] b.columns@[c]@[r]) == cell(
                    strings_view(rows@),
                    c,
                    r,
                ),
            forall|c: int| 0 <= c < 7 ==> (#[trigger] b.column_bottom@[c]) == 0,
            b.date@ == date@,
            b.words@.len() == 0,
            b.score == 700,
    {
        let mut columns: Vec<Vec<char>> = Vec::new();
        let mut c: usize = 0;
        while c < 7
            invariant
                c <= 7,
                columns@.len() == c,
                forall|cc: int| 0 <= cc < c ==> (#[trigger] columns@[cc])@.len() == 7,
                forall|cc: int, r: int|
                    0 <= cc < c && 0 <= r < 7 ==> (#[trigger] columns@[cc]@[r]) == cell(
                        strings_view(rows@),
                        cc,
                        r,
                    ),
                rows@.len() <= 7,
                forall|i: int| 0 <= i < rows@.len() ==> (#[trigger] rows@[i])@.len() <= 7,
            decreases 7 - c,
        {
            let mut col: Vec<char> = Vec::new();
            let mut r: usize = 0;
            while r < 7
                invariant
                    r <= 7,
                    c < 7,
                    col@.len() == r,
                    forall|rr: int|
                        0 <= rr < r ==> (#[trigger] col@[rr]) == cell(
                            strings_view(rows@),
                            c as int,
                            rr,
                        ),
                    rows@.len() <= 7,
                    forall|i: int| 0 <= i < rows@.len() ==> (#[trigger] rows@[i])@.len() <= 7,
                decreases 7 - r,
            {
                let ch: char;
                if r < rows.len() {
                    let ri = rows.len() - 1 - r;
                    let rcs = normalized_chars(rows[ri].as_str());
                    if c < rcs.len() {
                        ch = rcs[c];
                    } else {
                        ch = ' ';
                    }
                    proof {
                        assert(strings_view(rows@)[ri as int] == rows@[ri as int]@);
                        assert(lower_seq(rows@[ri as int]@).len() == rows@[ri as int]@.len());
                    }
                } else {
                    ch = ' ';
                }
                proof {
                    assert(ch == cell(strings_view(rows@), c as int, r as int));
                }
                col.push(ch);
                r = r + 1;
            }
            columns.push(col);
            c = c + 1;
        }
        let mut column_bottom: Vec<usize> = Vec::new();
        let mut c: usize = 0;
        while c < 7
            invariant
                c <= 7,
                column_bottom@.len() == c,
                forall|cc: int| 0 <= cc < c ==> (#[trigger] column_bottom@[cc]) == 0,
            decreases 7 - c,
        {
            column_bottom.push(0);
            c = c + 1;
        }
        Board { columns, column_bottom, date, words: Vec::new(), score: 700 }
    }

    /// The letter `offset` slots above the bottom marker of column `col`, or
    /// nothing when that slot lies above the grid.
    pub fn get(&self, col: usize, offset: usize) -> (r: Option<char>)
        requires
            self.wf(),
            col < 7,
            self.column_bottom@[col as int] + offset <= usize::MAX,
        ensures
            self.column_bottom@[col as int] + offset >= 7 ==> r is None,
            self.column_bottom@[col as int] + offset < 7 ==> r == Some(
                self.columns@[col as int]@[self.column_bottom@[col as int] + offset],
            ),
    {
        let r = self.column_bottom[col] + offset;
        if r >= 7 {
            return None;
        }
        Some(self.columns[col][r])
    }

    /// Reads the word spelt by the current bottom row and asks the index
    /// which dictionary words its letters can form. The board itself is left
    /// unchanged.
    pub fn find_words(&mut self, dict: &Dictionary) -> (r: Vec<String>)
        requires
            old(self).wf(),
            dict.wf(),
            forall|c: int| 0 <= c < 7 ==> (#[trigger] old(self).column_bottom@[c]) < 7,
        ensures
            *final(self) == *old(self),
            strings_view(r@) == match_results(dict.word_seq(), old(self).bottom_row()),
            strings_view(r@).to_set() == match_set(dict.word_set(), old(self).bottom_row()),
    {
        let mut chars: Vec<char> = Vec::new();
        let mut c: usize = 0;
        while c < 7
            invariant
                *self == *old(self),
                self.wf(),
                forall|cc: int| 0 <= cc < 7 ==> (#[trigger] self.column_bottom@[cc]) < 7,
                c <= 7,
                chars@.len() == c,
                forall|cc: int| 0 <= cc < c ==> (#[trigger] chars@[cc]) == self.bottom_row()[cc],
            decreases 7 - c,
        {
            let ch = self.get(c, 0);
            chars.push(ch.unwrap());
            c = c + 1;
        }
        proof {
            assert(chars@ =~= self.bottom_row());
        }
        let q = chars_to_string(&chars);
        dict.words_from(q.as_str())
    }
}

} // verus!
