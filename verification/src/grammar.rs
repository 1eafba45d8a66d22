//! The grammar of the language, as functions on sequences of characters.
//!
//! A text is a sequence of lines. A line is blank, a comment (its first
//! character that is no white space is `#`) or one statement:
//!
//! ```text
//! mat <name> = <matrix>        add <name>, <name>
//! sub <name>, <name>           mul <name>, <name>
//! scale <name>, <number>
//! ```
//!
//! A matrix is `[` rows `]` and a row is `[` numbers `]`, both lists
//! separated by commas and not empty. White space may stand between tokens
//! and must follow the word that opens a statement.
//!
//! Each construct is described by a function that reads it from a position
//! of a line and gives what it holds together with the position behind it,
//! or `None` where the construct does not start there.

use vstd::prelude::*;
use crate::lexicon::{
    is_name,
    is_number,
    lemma_number_end,
    lemma_number_end_shift,
    lemma_run_end,
    lemma_run_end_is,
    lemma_run_end_shift,
    lemma_token_is_name,
    lemma_token_is_number,
    name_end,
    number_end,
    run_end,
    CharClass,
};

verus! {

/// What a statement holds, before anything is made of it: names and
/// numerals as they are written, rows as they come.
pub enum StatementView {
    MatDef { name: Seq<char>, rows: Seq<Seq<Seq<char>>> },
    Add { left: Seq<char>, right: Seq<char> },
    Subtract { left: Seq<char>, right: Seq<char> },
    Mult { left: Seq<char>, right: Seq<char> },
    Scale { name: Seq<char>, factor: Seq<char> },
}

/// The position behind the white space that starts at `i`.
pub open spec fn blanks_end(s: Seq<char>, i: int) -> int {
    run_end(s, i, CharClass::Blank)
}

/// The character at `i` is `c`.
pub open spec fn char_at(s: Seq<char>, i: int, c: char) -> bool {
    0 <= i < s.len() && s[i] == c
}

/// The numbers of a row from `i` on, where `i` is the position of a number:
/// numbers separated by commas, up to and with the closing bracket.
pub open spec fn row_items(s: Seq<char>, i: int) -> Option<(Seq<Seq<char>>, int)>
    decreases s.len() - i,
    via row_items_decreases
{
    match number_end(s, i) {
        None => None,
        Some(end) => {
            let token = s.subrange(i, end);
            let next = blanks_end(s, end);
            if char_at(s, next, ']') {
                Some((seq![token], next + 1))
            } else if char_at(s, next, ',') {
                match row_items(s, blanks_end(s, next + 1)) {
                    Some((rest, behind)) => Some((seq![token] + rest, behind)),
                    None => None,
                }
            } else {
                None
            }
        },
    }
}

#[via_fn]
proof fn row_items_decreases(s: Seq<char>, i: int) {
    if number_end(s, i) is Some {
        lemma_number_bounds(s, i);
        let end = number_end(s, i)->0;
        lemma_run_end(s, end, CharClass::Blank);
        let next = blanks_end(s, end);
        if char_at(s, next, ',') {
            lemma_run_end(s, next + 1, CharClass::Blank);
        }
    }
}

/// A number starts inside the text only, is not empty and ends inside it.
pub proof fn lemma_number_bounds(s: Seq<char>, i: int)
    requires
        number_end(s, i) is Some,
    ensures
        0 <= i < number_end(s, i)->0 <= s.len(),
{
    if 0 <= i <= s.len() {
        lemma_number_end(s, i);
    }
}

/// The row that starts at `i`: an opening bracket, then the numbers.
pub open spec fn row_from(s: Seq<char>, i: int) -> Option<(Seq<Seq<char>>, int)> {
    if char_at(s, i, '[') {
        row_items(s, blanks_end(s, i + 1))
    } else {
        None
    }
}

/// What `row_items` reads lies behind `i` and inside the text, and holds
/// at least one number.
pub proof fn lemma_row_items(s: Seq<char>, i: int)
    requires
        row_items(s, i) is Some,
    ensures
        0 <= i < row_items(s, i).unwrap().1 <= s.len(),
        row_items(s, i).unwrap().0.len() >= 1,
    decreases s.len() - i,
{
    lemma_number_bounds(s, i);
    let end = number_end(s, i)->0;
    lemma_run_end(s, end, CharClass::Blank);
    let next = blanks_end(s, end);
    if !char_at(s, next, ']') {
        lemma_run_end(s, next + 1, CharClass::Blank);
        lemma_row_items(s, blanks_end(s, next + 1));
    }
}

/// What `row_from` reads lies behind `i` and inside the text, and holds at
/// least one number.
pub proof fn lemma_row_from(s: Seq<char>, i: int)
    requires
        row_from(s, i) is Some,
    ensures
        0 <= i < row_from(s, i).unwrap().1 <= s.len(),
        row_from(s, i).unwrap().0.len() >= 1,
{
    lemma_run_end(s, i + 1, CharClass::Blank);
    lemma_row_items(s, blanks_end(s, i + 1));
}

/// The rows of a matrix from `i` on, where `i` is the position of a row:
/// rows separated by commas, up to and with the closing bracket.
pub open spec fn matrix_rows(s: Seq<char>, i: int) -> Option<(Seq<Seq<Seq<char>>>, int)>
    decreases s.len() - i,
    via matrix_rows_decreases
{
    match row_from(s, i) {
        None => None,
        Some((row, end)) => {
            let next = blanks_end(s, end);
            if char_at(s, next, ']') {
                Some((seq![row], next + 1))
            } else if char_at(s, next, ',') {
                match matrix_rows(s, blanks_end(s, next + 1)) {
                    Some((rest, behind)) => Some((seq![row] + rest, behind)),
                    None => None,
                }
            } else {
                None
            }
        },
    }
}

#[via_fn]
proof fn matrix_rows_decreases(s: Seq<char>, i: int) {
    if row_from(s, i) is Some {
        lemma_row_from(s, i);
        let end = row_from(s, i).unwrap().1;
        lemma_run_end(s, end, CharClass::Blank);
        let next = blanks_end(s, end);
        if char_at(s, next, ',') {
            lemma_run_end(s, next + 1, CharClass::Blank);
        }
    }
}

/// The matrix that starts at `i`: an opening bracket, then the rows.
pub open spec fn matrix_from(s: Seq<char>, i: int) -> Option<(Seq<Seq<Seq<char>>>, int)> {
    if char_at(s, i, '[') {
        matrix_rows(s, blanks_end(s, i + 1))
    } else {
        None
    }
}

/// What was read, with the position behind it moved to the right by `by`.
pub open spec fn moved_by<T>(read: Option<(T, int)>, by: int) -> Option<(T, int)> {
    match read {
        Some((value, behind)) => Some((value, behind + by)),
        None => None,
    }
}

/// Text put in front changes no character behind it.
pub proof fn lemma_char_at_shift(front: Seq<char>, s: Seq<char>, i: int, c: char)
    requires
        0 <= i,
    ensures
        char_at(front + s, front.len() + i, c) == char_at(s, i, c),
{
    if i < s.len() {
        assert((front + s)[front.len() + i] == s[i]);
    }
}

/// Text put in front moves the numbers of a row and changes nothing else
/// of them.
pub proof fn lemma_row_items_shift(front: Seq<char>, s: Seq<char>, i: int)
    requires
        0 <= i,
    ensures
        row_items(front + s, front.len() + i) == moved_by(row_items(s, i), front.len() as int),
    decreases s.len() - i,
{
    let whole = front + s;
    let by = front.len() as int;
    lemma_number_end_shift(front, s, i);
    if number_end(s, i) is Some {
        lemma_number_bounds(s, i);
        let end = number_end(s, i)->0;
        assert(whole.subrange(by + i, by + end) =~= s.subrange(i, end));
        lemma_run_end_shift(front, s, end, CharClass::Blank);
        lemma_run_end(s, end, CharClass::Blank);
        let next = blanks_end(s, end);
        lemma_char_at_shift(front, s, next, ']');
        lemma_char_at_shift(front, s, next, ',');
        if !char_at(s, next, ']') && char_at(s, next, ',') {
            lemma_run_end_shift(front, s, next + 1, CharClass::Blank);
            lemma_run_end(s, next + 1, CharClass::Blank);
            lemma_row_items_shift(front, s, blanks_end(s, next + 1));
        }
    }
}

/// Text put in front moves a row and changes nothing else of it.
pub proof fn lemma_row_from_shift(front: Seq<char>, s: Seq<char>, i: int)
    requires
        0 <= i,
    ensures
        row_from(front + s, front.len() + i) == moved_by(row_from(s, i), front.len() as int),
{
    lemma_char_at_shift(front, s, i, '[');
    if char_at(s, i, '[') {
        lemma_run_end_shift(front, s, i + 1, CharClass::Blank);
        lemma_run_end(s, i + 1, CharClass::Blank);
        lemma_row_items_shift(front, s, blanks_end(s, i + 1));
    }
}

/// Text put in front moves the rows of a matrix and changes nothing else
/// of them.
pub proof fn lemma_matrix_rows_shift(front: Seq<char>, s: Seq<char>, i: int)
    requires
        0 <= i,
    ensures
        matrix_rows(front + s, front.len() + i) == moved_by(
            matrix_rows(s, i),
            front.len() as int,
        ),
    decreases s.len() - i,
{
    lemma_row_from_shift(front, s, i);
    if row_from(s, i) is Some {
        lemma_row_from(s, i);
        let end = row_from(s, i).unwrap().1;
        lemma_run_end_shift(front, s, end, CharClass::Blank);
        lemma_run_end(s, end, CharClass::Blank);
        let next = blanks_end(s, end);
        lemma_char_at_shift(front, s, next, ']');
        lemma_char_at_shift(front, s, next, ',');
        if !char_at(s, next, ']') && char_at(s, next, ',') {
            lemma_run_end_shift(front, s, next + 1, CharClass::Blank);
            lemma_run_end(s, next + 1, CharClass::Blank);
            lemma_matrix_rows_shift(front, s, blanks_end(s, next + 1));
        }
    }
}

/// Text put in front moves a matrix and changes nothing else of it.
pub proof fn lemma_matrix_from_shift(front: Seq<char>, s: Seq<char>, i: int)
    requires
        0 <= i,
    ensures
        matrix_from(front + s, front.len() + i) == moved_by(
            matrix_from(s, i),
            front.len() as int,
        ),
{
    lemma_char_at_shift(front, s, i, '[');
    if char_at(s, i, '[') {
        lemma_run_end_shift(front, s, i + 1, CharClass::Blank);
        lemma_run_end(s, i + 1, CharClass::Blank);
        lemma_matrix_rows_shift(front, s, blanks_end(s, i + 1));
    }
}

/// The name that starts at `i`.
pub open spec fn name_from(s: Seq<char>, i: int) -> Option<(Seq<char>, int)> {
    match name_end(s, i) {
        Some(end) => Some((s.subrange(i, end), end)),
        None => None,
    }
}

/// The number that starts at `i`.
pub open spec fn number_from(s: Seq<char>, i: int) -> Option<(Seq<char>, int)> {
    match number_end(s, i) {
        Some(end) => Some((s.subrange(i, end), end)),
        None => None,
    }
}

/// The characters of `word` stand at `i`.
pub open spec fn word_at(s: Seq<char>, i: int, word: Seq<char>) -> bool {
    0 <= i && i + word.len() <= s.len() && s.subrange(i, i + word.len()) == word
}

/// The position behind `word` and the white space that follows it, where
/// `word` stands at `i` and at least one character of white space follows.
pub open spec fn opening(s: Seq<char>, i: int, word: Seq<char>) -> Option<int> {
    let behind = blanks_end(s, i + word.len());
    if word_at(s, i, word) && behind > i + word.len() {
        Some(behind)
    } else {
        None
    }
}

/// The word that opens a definition.
pub open spec fn word_mat() -> Seq<char> {
    seq!['m', 'a', 't']
}

/// The word that opens an addition.
pub open spec fn word_add() -> Seq<char> {
    seq!['a', 'd', 'd']
}

/// The word that opens a subtraction.
pub open spec fn word_sub() -> Seq<char> {
    seq!['s', 'u', 'b']
}

/// The word that opens a multiplication.
pub open spec fn word_mul() -> Seq<char> {
    seq!['m', 'u', 'l']
}

/// The word that opens a scaling.
pub open spec fn word_scale() -> Seq<char> {
    seq!['s', 'c', 'a', 'l', 'e']
}

/// Two names with a comma between them, from `i` on.
pub open spec fn name_pair(s: Seq<char>, i: int) -> Option<((Seq<char>, Seq<char>), int)> {
    match name_from(s, i) {
        None => None,
        Some((left, end)) => {
            let comma = blanks_end(s, end);
            if char_at(s, comma, ',') {
                match name_from(s, blanks_end(s, comma + 1)) {
                    Some((right, behind)) => Some(((left, right), behind)),
                    None => None,
                }
            } else {
                None
            }
        },
    }
}

/// `word`, white space and two names with a comma between them.
pub open spec fn binary_from(s: Seq<char>, i: int, word: Seq<char>) -> Option<
    ((Seq<char>, Seq<char>), int),
> {
    match opening(s, i, word) {
        Some(start) => name_pair(s, start),
        None => None,
    }
}

/// `mat`, a name, an equals sign and a matrix.
pub open spec fn mat_def_from(s: Seq<char>, i: int) -> Option<(StatementView, int)> {
    match opening(s, i, word_mat()) {
        None => None,
        Some(start) => match name_from(s, start) {
            None => None,
            Some((name, end)) => {
                let sign = blanks_end(s, end);
                if char_at(s, sign, '=') {
                    match matrix_from(s, blanks_end(s, sign + 1)) {
                        Some((rows, behind)) => Some((StatementView::MatDef { name, rows }, behind)),
                        None => None,
                    }
                } else {
                    None
                }
            },
        },
    }
}

/// `add` and two names.
pub open spec fn add_from(s: Seq<char>, i: int) -> Option<(StatementView, int)> {
    match binary_from(s, i, word_add()) {
        Some(((left, right), behind)) => Some((StatementView::Add { left, right }, behind)),
        None => None,
    }
}

/// `sub` and two names.
pub open spec fn subtract_from(s: Seq<char>, i: int) -> Option<(StatementView, int)> {
    match binary_from(s, i, word_sub()) {
        Some(((left, right), behind)) => Some((StatementView::Subtract { left, right }, behind)),
        None => None,
    }
}

/// `mul` and two names.
pub open spec fn mult_from(s: Seq<char>, i: int) -> Option<(StatementView, int)> {
    match binary_from(s, i, word_mul()) {
        Some(((left, right), behind)) => Some((StatementView::Mult { left, right }, behind)),
        None => None,
    }
}

/// `scale`, a name, a comma and a number.
pub open spec fn scale_from(s: Seq<char>, i: int) -> Option<(StatementView, int)> {
    match opening(s, i, word_scale()) {
        None => None,
        Some(start) => match name_from(s, start) {
            None => None,
            Some((name, end)) => {
                let comma = blanks_end(s, end);
                if char_at(s, comma, ',') {
                    match number_from(s, blanks_end(s, comma + 1)) {
                        Some((factor, behind)) => Some(
                            (StatementView::Scale { name, factor }, behind),
                        ),
                        None => None,
                    }
                } else {
                    None
                }
            },
        },
    }
}

/// The statement that starts at `i`, whichever of the five it is. The
/// words that open them differ, so at most one of them starts there.
pub open spec fn operation_from(s: Seq<char>, i: int) -> Option<(StatementView, int)> {
    if mat_def_from(s, i) is Some {
        mat_def_from(s, i)
    } else if add_from(s, i) is Some {
        add_from(s, i)
    } else if subtract_from(s, i) is Some {
        subtract_from(s, i)
    } else if mult_from(s, i) is Some {
        mult_from(s, i)
    } else {
        scale_from(s, i)
    }
}

/// What a line is.
pub enum LineView {
    /// Nothing but white space.
    Blank,
    /// The first character that is no white space is `#`.
    Comment,
    /// One statement, with white space before and behind it at most.
    Statement(StatementView),
    /// None of these.
    Malformed,
}

/// What the line `s` is.
pub open spec fn line_of(s: Seq<char>) -> LineView {
    let start = blanks_end(s, 0);
    if start >= s.len() {
        LineView::Blank
    } else if s[start] == '#' {
        LineView::Comment
    } else {
        match operation_from(s, start) {
            Some((statement, behind)) => if blanks_end(s, behind) >= s.len() {
                LineView::Statement(statement)
            } else {
                LineView::Malformed
            },
            None => LineView::Malformed,
        }
    }
}

/// The lines of `s` from position `i` on. A line feed ends a line; the last
/// line ends with the text, and is empty where the text ends in a line feed.
pub open spec fn lines_from(s: Seq<char>, i: int) -> Seq<Seq<char>>
    decreases s.len() - i,
    via lines_from_decreases
{
    let end = run_end(s, i, CharClass::InLine);
    if 0 <= i <= end < s.len() {
        seq![s.subrange(i, end)] + lines_from(s, end + 1)
    } else if 0 <= i <= s.len() {
        seq![s.subrange(i, s.len() as int)]
    } else {
        Seq::empty()
    }
}

#[via_fn]
proof fn lines_from_decreases(s: Seq<char>, i: int) {
}

/// The lines of a text.
pub open spec fn lines_of(s: Seq<char>) -> Seq<Seq<char>> {
    lines_from(s, 0)
}

/// The text holds no line feed.
pub open spec fn is_one_line(s: Seq<char>) -> bool {
    forall|k: int| 0 <= k < s.len() ==> #[trigger] s[k] != '\n'
}

/// A text without a line feed is its own and only line.
pub proof fn lemma_one_line(s: Seq<char>)
    requires
        is_one_line(s),
    ensures
        lines_of(s) == seq![s],
{
    lemma_run_end_is(s, 0, s.len() as int, CharClass::InLine);
    assert(s.subrange(0, s.len() as int) =~= s);
}

/// The first malformed line at or after `from`, counted from zero.
pub open spec fn first_malformed(lines: Seq<Seq<char>>, from: int) -> Option<int>
    decreases lines.len() - from,
{
    if from < 0 || from >= lines.len() {
        None
    } else if line_of(lines[from]) is Malformed {
        Some(from)
    } else {
        first_malformed(lines, from + 1)
    }
}

/// The statements among the lines, in order. Blank lines and comments give
/// nothing.
pub open spec fn statements_in(lines: Seq<Seq<char>>) -> Seq<StatementView>
    decreases lines.len(),
{
    if lines.len() == 0 {
        Seq::empty()
    } else {
        match line_of(lines.last()) {
            LineView::Statement(statement) => statements_in(lines.drop_last()).push(statement),
            _ => statements_in(lines.drop_last()),
        }
    }
}

/// The statements of a text, or the number of its first malformed line,
/// counted from one.
pub open spec fn file_statements(s: Seq<char>) -> Result<Seq<StatementView>, nat> {
    match first_malformed(lines_of(s), 0) {
        Some(k) => Err((k + 1) as nat),
        None => Ok(statements_in(lines_of(s))),
    }
}

/// Every token of the row is a number, and there is at least one.
pub open spec fn is_row_of_numbers(tokens: Seq<Seq<char>>) -> bool {
    tokens.len() >= 1 && forall|j: int| 0 <= j < tokens.len() ==> is_number(#[trigger] tokens[j])
}

/// Every row is a row of numbers, and there is at least one.
pub open spec fn are_rows_of_numbers(rows: Seq<Seq<Seq<char>>>) -> bool {
    rows.len() >= 1 && forall|i: int| 0 <= i < rows.len() ==> is_row_of_numbers(#[trigger] rows[i])
}

/// The statement is what the grammar allows: its names are names, its
/// numerals are numbers, and a matrix has at least one row and every row at
/// least one number. The rows need not be equally long.
pub open spec fn is_grammatical(statement: StatementView) -> bool {
    match statement {
        StatementView::MatDef { name, rows } => is_name(name) && are_rows_of_numbers(rows),
        StatementView::Add { left, right } => is_name(left) && is_name(right),
        StatementView::Subtract { left, right } => is_name(left) && is_name(right),
        StatementView::Mult { left, right } => is_name(left) && is_name(right),
        StatementView::Scale { name, factor } => is_name(name) && is_number(factor),
    }
}

/// The tokens read as the numbers of a row are numbers.
pub proof fn lemma_row_items_are_numbers(s: Seq<char>, i: int)
    requires
        row_items(s, i) is Some,
    ensures
        is_row_of_numbers(row_items(s, i).unwrap().0),
    decreases s.len() - i,
{
    lemma_number_bounds(s, i);
    lemma_token_is_number(s, i);
    let end = number_end(s, i)->0;
    let token = s.subrange(i, end);
    lemma_run_end(s, end, CharClass::Blank);
    let next = blanks_end(s, end);
    let tokens = row_items(s, i).unwrap().0;
    if char_at(s, next, ']') {
        assert(tokens == seq![token]);
    } else {
        lemma_run_end(s, next + 1, CharClass::Blank);
        let at = blanks_end(s, next + 1);
        lemma_row_items_are_numbers(s, at);
        let rest = row_items(s, at).unwrap().0;
        assert(tokens == seq![token] + rest);
        assert forall|j: int| 0 <= j < tokens.len() implies is_number(#[trigger] tokens[j]) by {
            if j > 0 {
                assert(tokens[j] == rest[j - 1]);
            }
        }
    }
}

/// The rows read as the rows of a matrix are rows of numbers.
pub proof fn lemma_matrix_rows_are_numbers(s: Seq<char>, i: int)
    requires
        matrix_rows(s, i) is Some,
    ensures
        are_rows_of_numbers(matrix_rows(s, i).unwrap().0),
    decreases s.len() - i,
{
    lemma_row_from(s, i);
    lemma_run_end(s, i + 1, CharClass::Blank);
    lemma_row_items_are_numbers(s, blanks_end(s, i + 1));
    let (row, end) = row_from(s, i).unwrap();
    lemma_run_end(s, end, CharClass::Blank);
    let next = blanks_end(s, end);
    let rows = matrix_rows(s, i).unwrap().0;
    if char_at(s, next, ']') {
        assert(rows == seq![row]);
    } else {
        lemma_run_end(s, next + 1, CharClass::Blank);
        let at = blanks_end(s, next + 1);
        lemma_matrix_rows_are_numbers(s, at);
        let rest = matrix_rows(s, at).unwrap().0;
        assert(rows == seq![row] + rest);
        assert forall|k: int| 0 <= k < rows.len() implies is_row_of_numbers(#[trigger] rows[k]) by {
            if k > 0 {
                assert(rows[k] == rest[k - 1]);
            }
        }
    }
}

/// Two names read with a comma between them are names.
pub proof fn lemma_name_pair_is_names(s: Seq<char>, i: int)
    requires
        name_pair(s, i) is Some,
    ensures
        is_name(name_pair(s, i).unwrap().0 .0),
        is_name(name_pair(s, i).unwrap().0 .1),
{
    lemma_token_is_name(s, i);
    let end = name_end(s, i)->0;
    let comma = blanks_end(s, end);
    lemma_token_is_name(s, blanks_end(s, comma + 1));
}

/// Whatever is read as a statement is what the grammar allows.
pub proof fn lemma_operation_is_grammatical(s: Seq<char>, i: int)
    requires
        operation_from(s, i) is Some,
    ensures
        is_grammatical(operation_from(s, i).unwrap().0),
{
    if mat_def_from(s, i) is Some {
        let start = opening(s, i, word_mat())->0;
        lemma_token_is_name(s, start);
        let end = name_end(s, start)->0;
        let sign = blanks_end(s, end);
        let at = blanks_end(s, sign + 1);
        lemma_matrix_rows_are_numbers(s, blanks_end(s, at + 1));
    } else if add_from(s, i) is Some {
        lemma_name_pair_is_names(s, opening(s, i, word_add())->0);
    } else if subtract_from(s, i) is Some {
        lemma_name_pair_is_names(s, opening(s, i, word_sub())->0);
    } else if mult_from(s, i) is Some {
        lemma_name_pair_is_names(s, opening(s, i, word_mul())->0);
    } else {
        let start = opening(s, i, word_scale())->0;
        lemma_token_is_name(s, start);
        let end = name_end(s, start)->0;
        let comma = blanks_end(s, end);
        lemma_token_is_number(s, blanks_end(s, comma + 1));
    }
}

/// Every statement found among the lines is what the grammar allows.
pub proof fn lemma_statements_are_grammatical(lines: Seq<Seq<char>>)
    ensures
        forall|i: int|
            0 <= i < statements_in(lines).len() ==> is_grammatical(
                #[trigger] statements_in(lines)[i],
            ),
    decreases lines.len(),
{
    if lines.len() > 0 {
        lemma_statements_are_grammatical(lines.drop_last());
        let line = lines.last();
        let front = statements_in(lines.drop_last());
        let found = statements_in(lines);
        if line_of(line) is Statement {
            lemma_operation_is_grammatical(line, blanks_end(line, 0));
            assert(found == front.push(line_of(line)->Statement_0));
        } else {
            assert(found == front);
        }
        assert forall|i: int| 0 <= i < found.len() implies is_grammatical(#[trigger] found[i]) by {
            if i < front.len() {
                assert(found[i] == front[i]);
            }
        }
    }
}

} // verus!
