//! Numbers as they are written, and rectangular tables of them.

use vstd::prelude::*;
use crate::error::{ParseError, ParseErrorView};
use crate::lexicon::{chars_of, is_number, scan_number};

verus! {

/// A decimal numeral, kept as it was written: an optional minus sign,
/// digits, and optionally a dot with more digits.
///
/// The numeral is exact. Turning it into a machine number, and with that
/// any rounding, is left to the caller.
#[derive(Debug, PartialEq, Eq)]
pub struct Number {
    text: String,
}

impl View for Number {
    type V = Seq<char>;

    closed spec fn view(&self) -> Seq<char> {
        self.text@
    }
}

impl Clone for Number {
    fn clone(&self) -> (r: Self)
        ensures
            r@ == self@,
    {
        Number { text: self.text.clone() }
    }
}

impl Number {
    /// The numeral is well formed: it has the shape of a number.
    pub open spec fn wf(&self) -> bool {
        is_number(self@)
    }

    /// Takes `token` as a numeral. Fails with `ParseInvalidNumber`, which
    /// carries the token, exactly when the token is not a number.
    pub fn new(token: &str) -> (r: Result<Number, ParseError>)
        ensures
            match r {
                Ok(n) => is_number(token@) && n@ == token@ && n.wf(),
                Err(e) => !is_number(token@) && e@ == ParseErrorView::ParseInvalidNumber(token@),
            },
    {
        let chars = chars_of(token);
        let end = scan_number(&chars, 0);
        if end == Some(chars.len()) {
            Ok(Number { text: token.to_owned() })
        } else {
            Err(ParseError::ParseInvalidNumber(token.to_owned()))
        }
    }

    /// The numeral as text.
    pub fn as_str(&self) -> (r: &str)
        ensures
            r@ == self@,
    {
        self.text.as_str()
    }
}

/// The numerals of a row, each as its sequence of characters.
pub open spec fn tokens_of(row: Seq<Number>) -> Seq<Seq<char>> {
    Seq::new(row.len(), |j: int| row[j]@)
}

/// The numerals of a list of rows.
pub open spec fn cells_of(rows: Seq<Vec<Number>>) -> Seq<Seq<Seq<char>>> {
    Seq::new(rows.len(), |i: int| tokens_of(rows[i]@))
}

/// A rectangular table of numerals.
///
/// `rows_num` is the number of rows and `cols_num` the length of each; a
/// table without rows has no columns.
#[derive(Debug, PartialEq, Eq)]
pub struct Matrix {
    pub matrix: Vec<Vec<Number>>,
    pub rows_num: usize,
    pub cols_num: usize,
}

/// A `Matrix` as mathematics sees it.
pub struct MatrixView {
    pub cells: Seq<Seq<Seq<char>>>,
    pub rows_num: nat,
    pub cols_num: nat,
}

impl MatrixView {
    /// The counts agree with the rows, all rows are equally long, and every
    /// cell is a number.
    pub open spec fn wf(self) -> bool {
        &&& self.rows_num == self.cells.len()
        &&& forall|i: int| 0 <= i < self.cells.len() ==> (#[trigger] self.cells[i]).len() == self.cols_num
        &&& (self.rows_num == 0 ==> self.cols_num == 0)
        &&& forall|i: int, j: int|
            0 <= i < self.cells.len() && 0 <= j < self.cells[i].len() ==> is_number(
                #[trigger] self.cells[i][j],
            )
    }
}

impl View for Matrix {
    type V = MatrixView;

    open spec fn view(&self) -> MatrixView {
        MatrixView {
            cells: cells_of(self.matrix@),
            rows_num: self.rows_num as nat,
            cols_num: self.cols_num as nat,
        }
    }
}

/// Copies a row of numerals.
fn clone_row(row: &Vec<Number>) -> (r: Vec<Number>)
    ensures
        tokens_of(r@) == tokens_of(row@),
{
    let mut out: Vec<Number> = Vec::new();
    let mut j: usize = 0;
    while j < row.len()
        invariant
            j <= row.len(),
            out.len() == j,
            forall|k: int| 0 <= k < j ==> out[k]@ == row[k]@,
        decreases row.len() - j,
    {
        out.push(row[j].clone());
        j += 1;
    }
    assert(tokens_of(out@) =~= tokens_of(row@));
    out
}

impl Clone for Matrix {
    fn clone(&self) -> (r: Self)
        ensures
            r@ == self@,
    {
        let mut rows: Vec<Vec<Number>> = Vec::new();
        let mut i: usize = 0;
        while i < self.matrix.len()
            invariant
                i <= self.matrix.len(),
                rows.len() == i,
                forall|k: int| 0 <= k < i ==> tokens_of(rows[k]@) == tokens_of(self.matrix[k]@),
            decreases self.matrix.len() - i,
        {
            rows.push(clone_row(&self.matrix[i]));
            i += 1;
        }
        assert(cells_of(rows@) =~= cells_of(self.matrix@));
        Matrix { matrix: rows, rows_num: self.rows_num, cols_num: self.cols_num }
    }
}

impl Matrix {
    /// See `MatrixView::wf`.
    pub open spec fn wf(&self) -> bool {
        self@.wf()
    }

    /// The table of what `convert` makes of the numerals, cell by cell:
    /// as many rows as the matrix holds, each as long as the row at its
    /// place.
    pub fn values<T, C: Fn(&Number) -> T>(&self, convert: C) -> (r: Vec<Vec<T>>)
        requires
            forall|i: int, j: int|
                0 <= i < self.matrix.len() && 0 <= j < self.matrix[i].len() ==> call_requires(
                    convert,
                    (&#[trigger] self.matrix[i][j],),
                ),
        ensures
            r.len() == self.matrix.len(),
            forall|i: int| 0 <= i < r.len() ==> (#[trigger] r[i]).len() == self.matrix[i].len(),
            forall|i: int, j: int|
                0 <= i < self.matrix.len() && 0 <= j < self.matrix[i].len() ==> call_ensures(
                    convert,
                    (&self.matrix[i][j],),
                    #[trigger] r[i][j],
                ),
            self.wf() ==> r.len() == self.rows_num && forall|i: int|
                0 <= i < r.len() ==> (#[trigger] r[i]).len() == self.cols_num,
    {
        let mut result: Vec<Vec<T>> = Vec::new();
        let mut i: usize = 0;
        while i < self.matrix.len()
            invariant
                i <= self.matrix.len(),
                result.len() == i,
                forall|a: int, b: int|
                    0 <= a < self.matrix.len() && 0 <= b < self.matrix[a].len() ==> call_requires(
                        convert,
                        (&#[trigger] self.matrix[a][b],),
                    ),
                forall|k: int| 0 <= k < i ==> (#[trigger] result[k]).len() == self.matrix[k].len(),
                forall|k: int, j: int|
                    0 <= k < i && 0 <= j < self.matrix[k].len() ==> call_ensures(
                        convert,
                        (&self.matrix[k][j],),
                        #[trigger] result[k][j],
                    ),
            decreases self.matrix.len() - i,
        {
            let mut row: Vec<T> = Vec::new();
            let mut j: usize = 0;
            while j < self.matrix[i].len()
                invariant
                    i < self.matrix.len(),
                    j <= self.matrix[i as int].len(),
                    row.len() == j,
                    forall|a: int, b: int|
                        0 <= a < self.matrix.len() && 0 <= b < self.matrix[a].len()
                            ==> call_requires(convert, (&#[trigger] self.matrix[a][b],)),
                    forall|k: int|
                        0 <= k < j ==> call_ensures(
                            convert,
                            (&self.matrix[i as int][k],),
                            #[trigger] row[k],
                        ),
                decreases self.matrix[i as int].len() - j,
            {
                let cell = convert(&self.matrix[i][j]);
                row.push(cell);
                j += 1;
            }
            result.push(row);
            i += 1;
        }
        proof {
            if self.wf() {
                assert forall|k: int| 0 <= k < result.len() implies (#[trigger] result[k]).len()
                    == self.cols_num by {
                    assert(self@.cells[k].len() == self.matrix[k].len());
                }
            }
        }
        result
    }
}

} // verus!
