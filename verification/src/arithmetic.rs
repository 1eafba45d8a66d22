//! Arithmetic on tables of values of any kind.
//!
//! The tables are rows of cells. What a cell is, and what it means to add,
//! subtract or multiply two cells, is the caller's: each function takes the
//! operation on cells as an argument and says which cells it was applied to.

use vstd::prelude::*;

verus! {

/// The two tables have as many rows, and each row of the one is as long as
/// the row of the other at its place.
pub open spec fn same_shape<T>(a: Seq<Vec<T>>, b: Seq<Vec<T>>) -> bool {
    a.len() == b.len() && forall|i: int| 0 <= i < a.len() ==> (#[trigger] a[i]).len() == b[i].len()
}

/// Every row of the table has `width` cells.
pub open spec fn has_width<T>(a: Seq<Vec<T>>, width: int) -> bool {
    forall|i: int| 0 <= i < a.len() ==> (#[trigger] a[i]).len() == width
}

/// The number of columns of a table whose rows are equally long: the
/// length of its first row, or zero where it has no row.
pub open spec fn width_of<T>(a: Seq<Vec<T>>) -> int {
    if a.len() == 0 {
        0
    } else {
        a[0].len() as int
    }
}

/// The left table can be multiplied by the right one: the rows of each are
/// equally long, and the rows of the left are as long as the right has rows.
pub open spec fn can_multiply<T>(left: Seq<Vec<T>>, right: Seq<Vec<T>>) -> bool {
    has_width(left, right.len() as int) && has_width(right, width_of(right))
}

/// `acc` is what the sum of the first `k` products of a row of the left
/// table with column `j` of the right table can be: `zero` for no product,
/// and for one product more what `plus` gives for the sum so far and what
/// `times` gives for the next two cells. The products are taken in order.
pub open spec fn dot_reaches<T, M: Fn(T, T) -> T, A: Fn(T, T) -> T>(
    times: M,
    plus: A,
    zero: T,
    row: Seq<T>,
    right: Seq<Vec<T>>,
    j: int,
    k: int,
    acc: T,
) -> bool
    decreases k,
{
    if k <= 0 {
        acc == zero
    } else {
        exists|before: T, term: T|
            #![trigger call_ensures(plus, (before, term), acc)]
            dot_reaches(times, plus, zero, row, right, j, k - 1, before) && call_ensures(
                times,
                (row[k - 1], right[k - 1][j]),
                term,
            ) && call_ensures(plus, (before, term), acc)
    }
}

/// Tells whether two tables have the same shape.
pub fn shapes_agree<T>(a: &Vec<Vec<T>>, b: &Vec<Vec<T>>) -> (r: bool)
    ensures
        r == same_shape(a@, b@),
{
    if a.len() != b.len() {
        return false;
    }
    let mut i: usize = 0;
    while i < a.len()
        invariant
            i <= a.len(),
            a.len() == b.len(),
            forall|k: int| 0 <= k < i ==> (#[trigger] a[k]).len() == b[k].len(),
        decreases a.len() - i,
    {
        if a[i].len() != b[i].len() {
            return false;
        }
        i += 1;
    }
    true
}

/// Tells whether every row of the table has `width` cells.
pub fn width_is<T>(a: &Vec<Vec<T>>, width: usize) -> (r: bool)
    ensures
        r == has_width(a@, width as int),
{
    let mut i: usize = 0;
    while i < a.len()
        invariant
            i <= a.len(),
            forall|k: int| 0 <= k < i ==> (#[trigger] a[k]).len() == width,
        decreases a.len() - i,
    {
        if a[i].len() != width {
            return false;
        }
        i += 1;
    }
    true
}

/// Combines two tables of the same shape cell by cell: the cell of the
/// result at a place is what `op` gives for the cells of `left` and `right`
/// at that place. Used with addition it gives the sum of two matrices, with
/// subtraction their difference. Returns `None` exactly when the shapes
/// differ.
pub fn elementwise<T: Copy, F: Fn(T, T) -> T>(left: &Vec<Vec<T>>, right: &Vec<Vec<T>>, op: F) -> (r:
    Option<Vec<Vec<T>>>)
    requires
        forall|i: int, j: int|
            0 <= i < left.len() && i < right.len() && 0 <= j < left[i].len() && j
                < right[i].len() ==> call_requires(op, (left[i][j], right[i][j])),
    ensures
        r is Some <==> same_shape(left@, right@),
        r is Some ==> same_shape(r->0@, left@),
        r is Some ==> forall|i: int, j: int|
            0 <= i < left.len() && 0 <= j < left[i].len() ==> call_ensures(
                op,
                (left[i][j], right[i][j]),
                #[trigger] r->0[i][j],
            ),
{
    if !shapes_agree(left, right) {
        return None;
    }
    let mut result: Vec<Vec<T>> = Vec::new();
    let mut i: usize = 0;
    while i < left.len()
        invariant
            i <= left.len(),
            same_shape(left@, right@),
            result.len() == i,
            forall|a: int, b: int|
                0 <= a < left.len() && a < right.len() && 0 <= b < left[a].len() && b
                    < right[a].len() ==> call_requires(op, (left[a][b], right[a][b])),
            forall|k: int| 0 <= k < i ==> (#[trigger] result[k]).len() == left[k].len(),
            forall|k: int, j: int|
                0 <= k < i && 0 <= j < left[k].len() ==> call_ensures(
                    op,
                    (left[k][j], right[k][j]),
                    #[trigger] result[k][j],
                ),
        decreases left.len() - i,
    {
        let mut row: Vec<T> = Vec::new();
        let mut j: usize = 0;
        assert(left@[i as int].len() == right@[i as int].len());
        while j < left[i].len()
            invariant
                i < left.len(),
                i < right.len(),
                left[i as int].len() == right[i as int].len(),
                j <= left[i as int].len(),
                row.len() == j,
                forall|a: int, b: int|
                    0 <= a < left.len() && a < right.len() && 0 <= b < left[a].len() && b
                        < right[a].len() ==> call_requires(op, (left[a][b], right[a][b])),
                forall|k: int|
                    0 <= k < j ==> call_ensures(
                        op,
                        (left[i as int][k], right[i as int][k]),
                        #[trigger] row[k],
                    ),
            decreases left[i as int].len() - j,
        {
            let cell = op(left[i][j], right[i][j]);
            row.push(cell);
            j += 1;
        }
        result.push(row);
        i += 1;
    }
    Some(result)
}

/// Multiplies every cell of a table by `factor`: the cell of the result at
/// a place is what `times` gives for the cell of `table` at that place and
/// the factor. The result has the shape of the table.
pub fn scaled<T: Copy, F: Fn(T, T) -> T>(table: &Vec<Vec<T>>, factor: T, times: F) -> (r: Vec<
    Vec<T>,
>)
    requires
        forall|i: int, j: int|
            0 <= i < table.len() && 0 <= j < table[i].len() ==> call_requires(
                times,
                (#[trigger] table[i][j], factor),
            ),
    ensures
        same_shape(r@, table@),
        forall|i: int, j: int|
            0 <= i < table.len() && 0 <= j < table[i].len() ==> call_ensures(
                times,
                (table[i][j], factor),
                #[trigger] r[i][j],
            ),
{
    let mut result: Vec<Vec<T>> = Vec::new();
    let mut i: usize = 0;
    while i < table.len()
        invariant
            i <= table.len(),
            result.len() == i,
            forall|a: int, b: int|
                0 <= a < table.len() && 0 <= b < table[a].len() ==> call_requires(
                    times,
                    (#[trigger] table[a][b], factor),
                ),
            forall|k: int| 0 <= k < i ==> (#[trigger] result[k]).len() == table[k].len(),
            forall|k: int, j: int|
                0 <= k < i && 0 <= j < table[k].len() ==> call_ensures(
                    times,
                    (table[k][j], factor),
                    #[trigger] result[k][j],
                ),
        decreases table.len() - i,
    {
        let mut row: Vec<T> = Vec::new();
        let mut j: usize = 0;
        while j < table[i].len()
            invariant
                i < table.len(),
                j <= table[i as int].len(),
                row.len() == j,
                forall|a: int, b: int|
                    0 <= a < table.len() && 0 <= b < table[a].len() ==> call_requires(
                        times,
                        (#[trigger] table[a][b], factor),
                    ),
                forall|k: int|
                    0 <= k < j ==> call_ensures(
                        times,
                        (table[i as int][k], factor),
                        #[trigger] row[k],
                    ),
            decreases table[i as int].len() - j,
        {
            let cell = times(table[i][j], factor);
            row.push(cell);
            j += 1;
        }
        result.push(row);
        i += 1;
    }
    result
}

/// Multiplies two tables. The cell of the result in row `i` and column `j`
/// is the sum of the products of the cells of row `i` of `left` with the
/// cells of column `j` of `right`, taken in order and added up from `zero`;
/// `times` multiplies two cells and `plus` adds a product to the sum so
/// far. The result has as many rows as `left` and as many columns as
/// `right`. Returns `None` exactly when the tables cannot be multiplied.
pub fn product<T: Copy, M: Fn(T, T) -> T, A: Fn(T, T) -> T>(
    left: &Vec<Vec<T>>,
    right: &Vec<Vec<T>>,
    zero: T,
    times: M,
    plus: A,
) -> (r: Option<Vec<Vec<T>>>)
    requires
        forall|x: T, y: T| #[trigger] call_requires(times, (x, y)),
        forall|x: T, y: T| #[trigger] call_requires(plus, (x, y)),
    ensures
        r is Some <==> can_multiply(left@, right@),
        r is Some ==> r->0.len() == left.len() && has_width(r->0@, width_of(right@)),
        r is Some ==> forall|i: int, j: int|
            0 <= i < left.len() && 0 <= j < width_of(right@) ==> dot_reaches(
                times,
                plus,
                zero,
                left[i]@,
                right@,
                j,
                right.len() as int,
                #[trigger] r->0[i][j],
            ),
{
    let inner: usize = right.len();
    let cols: usize = if inner == 0 {
        0
    } else {
        right[0].len()
    };
    if !width_is(left, inner) || !width_is(right, cols) {
        return None;
    }
    let mut result: Vec<Vec<T>> = Vec::new();
    let mut i: usize = 0;
    while i < left.len()
        invariant
            i <= left.len(),
            inner == right.len(),
            cols == width_of(right@),
            can_multiply(left@, right@),
            result.len() == i,
            forall|x: T, y: T| #[trigger] call_requires(times, (x, y)),
            forall|x: T, y: T| #[trigger] call_requires(plus, (x, y)),
            forall|a: int| 0 <= a < i ==> (#[trigger] result[a]).len() == cols,
            forall|a: int, b: int|
                0 <= a < i && 0 <= b < cols ==> dot_reaches(
                    times,
                    plus,
                    zero,
                    left[a]@,
                    right@,
                    b,
                    inner as int,
                    #[trigger] result[a][b],
                ),
        decreases left.len() - i,
    {
        let mut row: Vec<T> = Vec::new();
        let mut j: usize = 0;
        while j < cols
            invariant
                i < left.len(),
                j <= cols,
                inner == right.len(),
                cols == width_of(right@),
                can_multiply(left@, right@),
                row.len() == j,
                forall|x: T, y: T| #[trigger] call_requires(times, (x, y)),
                forall|x: T, y: T| #[trigger] call_requires(plus, (x, y)),
                forall|b: int|
                    0 <= b < j ==> dot_reaches(
                        times,
                        plus,
                        zero,
                        left[i as int]@,
                        right@,
                        b,
                        inner as int,
                        #[trigger] row[b],
                    ),
            decreases cols - j,
        {
            let mut acc: T = zero;
            let mut k: usize = 0;
            while k < inner
                invariant
                    i < left.len(),
                    j < cols,
                    k <= inner,
                    inner == right.len(),
                    cols == width_of(right@),
                    can_multiply(left@, right@),
                    forall|x: T, y: T| #[trigger] call_requires(times, (x, y)),
                    forall|x: T, y: T| #[trigger] call_requires(plus, (x, y)),
                    dot_reaches(times, plus, zero, left[i as int]@, right@, j as int, k as int, acc),
                decreases inner - k,
            {
                assert(left@[i as int].len() == inner);
                assert(right@[k as int].len() == cols);
                let term = times(left[i][k], right[k][j]);
                let ghost before = acc;
                acc = plus(acc, term);
                assert(dot_reaches(
                    times,
                    plus,
                    zero,
                    left[i as int]@,
                    right@,
                    j as int,
                    k + 1,
                    acc,
                )) by {
                    assert(call_ensures(plus, (before, term), acc));
                }
                k += 1;
            }
            row.push(acc);
            j += 1;
        }
        result.push(row);
        i += 1;
    }
    Some(result)
}

} // verus!
