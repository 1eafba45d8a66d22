//! How a matrix is written down, and that what is written is read back as
//! it was.

use vstd::prelude::*;
use crate::command::CommandView;
use crate::error::ParseErrorView;
use crate::extraction::{
    command_of,
    commands_of,
    file_commands,
    first_fault,
    lemma_name_is_trimmed,
    lemma_no_invalid_token,
    matrix_of,
    row_fault,
};
use crate::grammar::{
    are_rows_of_numbers,
    file_statements,
    first_malformed,
    is_one_line,
    is_row_of_numbers,
    lemma_matrix_from_shift,
    lemma_matrix_rows_shift,
    lemma_one_line,
    lemma_row_items_shift,
    line_of,
    lines_of,
    mat_def_from,
    matrix_from,
    matrix_rows,
    name_from,
    opening,
    row_from,
    row_items,
    statements_in,
    word_mat,
    LineView,
    StatementView,
};
use crate::interpreter::{table_after, table_after_all};
use crate::lexicon::{
    is_digit,
    is_name,
    is_number,
    lemma_name_chars,
    lemma_name_end_shift,
    lemma_name_then,
    lemma_number_chars,
    lemma_number_then,
    lemma_run_end_is,
    CharClass,
};
use crate::matrix::MatrixView;

verus! {

/// The numbers of a row as they are written behind the opening bracket:
/// separated by a comma and a space, and closed by a bracket.
pub open spec fn items_text(tokens: Seq<Seq<char>>) -> Seq<char>
    decreases tokens.len(),
{
    if tokens.len() == 0 {
        seq![']']
    } else if tokens.len() == 1 {
        tokens[0] + seq![']']
    } else {
        tokens[0] + seq![',', ' '] + items_text(tokens.skip(1))
    }
}

/// A row as it is written.
pub open spec fn row_text(tokens: Seq<Seq<char>>) -> Seq<char> {
    seq!['['] + items_text(tokens)
}

/// The rows of a matrix as they are written behind the opening bracket.
pub open spec fn rows_text(rows: Seq<Seq<Seq<char>>>) -> Seq<char>
    decreases rows.len(),
{
    if rows.len() == 0 {
        seq![']']
    } else if rows.len() == 1 {
        row_text(rows[0]) + seq![']']
    } else {
        row_text(rows[0]) + seq![',', ' '] + rows_text(rows.skip(1))
    }
}

/// A matrix as it is written.
pub open spec fn matrix_text(rows: Seq<Seq<Seq<char>>>) -> Seq<char> {
    seq!['['] + rows_text(rows)
}

/// The statement that binds `name` to the matrix of `rows`, as it is
/// written: `mat`, the name, an equals sign and the matrix, with one space
/// between them.
pub open spec fn definition_text(name: Seq<char>, rows: Seq<Seq<Seq<char>>>) -> Seq<char> {
    word_mat() + seq![' '] + name + seq![' ', '=', ' '] + matrix_text(rows)
}

/// Two texts without a line feed make a text without a line feed.
pub proof fn lemma_one_line_joined(a: Seq<char>, b: Seq<char>)
    requires
        is_one_line(a),
        is_one_line(b),
    ensures
        is_one_line(a + b),
{
    let s = a + b;
    assert forall|k: int| 0 <= k < s.len() implies #[trigger] s[k] != '\n' by {
        if k < a.len() {
            assert(s[k] == a[k]);
        } else {
            assert(s[k] == b[k - a.len()]);
        }
    }
}

/// A number holds no line feed.
pub proof fn lemma_number_is_one_line(t: Seq<char>)
    requires
        is_number(t),
    ensures
        is_one_line(t),
{
    lemma_number_chars(t);
}

/// The last number of a row is read with the bracket that closes the row.
proof fn lemma_last_item(first: Seq<char>, back: Seq<char>)
    requires
        is_number(first),
    ensures
        row_items(first + seq![']'] + back, 0) == Some((seq![first], first.len() as int + 1)),
{
    let s = first + seq![']'] + back;
    let rest = seq![']'] + back;
    let n = first.len() as int;
    assert(s =~= first + rest);
    lemma_number_then(first, rest);
    assert(s.subrange(0, n) =~= first);
    assert(s[n] == ']');
    lemma_run_end_is(s, n, n, CharClass::Blank);
}

/// A number that is not the last of its row is read with the comma behind
/// it, and the numbers behind the comma follow it.
proof fn lemma_next_item(
    first: Seq<char>,
    inner: Seq<char>,
    others: Seq<Seq<char>>,
    behind: int,
)
    requires
        is_number(first),
        inner.len() > 0,
        !CharClass::Blank.contains(inner[0]),
        row_items(inner, 0) == Some((others, behind)),
    ensures
        row_items(first + seq![',', ' '] + inner, 0) == Some(
            (seq![first] + others, first.len() as int + 2 + behind),
        ),
{
    let front = first + seq![',', ' '];
    let s = front + inner;
    let rest = seq![',', ' '] + inner;
    let n = first.len() as int;
    assert(s =~= first + rest);
    lemma_number_then(first, rest);
    assert(s.subrange(0, n) =~= first);
    assert(s[n] == ',');
    assert(s[n + 1] == ' ');
    assert(s[n + 2] == inner[0]);
    lemma_run_end_is(s, n, n, CharClass::Blank);
    lemma_run_end_is(s, n + 1, n + 2, CharClass::Blank);
    lemma_row_items_shift(front, inner, 0);
}

/// What is written of a row starts with the first character of a number
/// and holds no line feed.
pub proof fn lemma_items_text(tokens: Seq<Seq<char>>)
    requires
        is_row_of_numbers(tokens),
    ensures
        is_one_line(items_text(tokens)),
        items_text(tokens).len() > 0,
        items_text(tokens)[0] == '-' || is_digit(items_text(tokens)[0]),
    decreases tokens.len(),
{
    let first = tokens[0];
    lemma_number_chars(first);
    lemma_number_is_one_line(first);
    if tokens.len() == 1 {
        lemma_one_line_joined(first, seq![']']);
        assert(items_text(tokens)[0] == first[0]);
    } else {
        let others = tokens.skip(1);
        assert(is_row_of_numbers(others)) by {
            assert forall|j: int| 0 <= j < others.len() implies is_number(#[trigger] others[j]) by {
                assert(others[j] == tokens[j + 1]);
            }
        }
        lemma_items_text(others);
        lemma_one_line_joined(first, seq![',', ' ']);
        lemma_one_line_joined(first + seq![',', ' '], items_text(others));
        assert(items_text(tokens)[0] == first[0]);
    }
}

/// The numbers of a row are read back from what was written, whatever
/// follows the closing bracket.
pub proof fn lemma_items_read_back(tokens: Seq<Seq<char>>, back: Seq<char>)
    requires
        is_row_of_numbers(tokens),
    ensures
        row_items(items_text(tokens) + back, 0) == Some((tokens, items_text(tokens).len() as int)),
    decreases tokens.len(),
{
    let first = tokens[0];
    if tokens.len() == 1 {
        lemma_last_item(first, back);
        assert(seq![first] =~= tokens);
    } else {
        let others = tokens.skip(1);
        assert(is_row_of_numbers(others)) by {
            assert forall|j: int| 0 <= j < others.len() implies is_number(#[trigger] others[j]) by {
                assert(others[j] == tokens[j + 1]);
            }
        }
        lemma_items_read_back(others, back);
        lemma_items_text(others);
        let inner = items_text(others) + back;
        assert(inner[0] == items_text(others)[0]);
        lemma_next_item(first, inner, others, items_text(others).len() as int);
        assert(first + seq![',', ' '] + inner =~= items_text(tokens) + back);
        assert(seq![first] + others =~= tokens);
    }
}

/// A row is read back from what was written, whatever follows it.
pub proof fn lemma_row_read_back(tokens: Seq<Seq<char>>, back: Seq<char>)
    requires
        is_row_of_numbers(tokens),
    ensures
        row_from(row_text(tokens) + back, 0) == Some((tokens, row_text(tokens).len() as int)),
        is_one_line(row_text(tokens)),
        row_text(tokens).len() > 0,
        row_text(tokens)[0] == '[',
{
    let s = row_text(tokens) + back;
    let front = seq!['['];
    let inner = items_text(tokens) + back;
    assert(s =~= front + inner);
    lemma_items_read_back(tokens, back);
    lemma_items_text(tokens);
    assert(s[0] == '[');
    assert(s[1] == inner[0]);
    assert(inner[0] == items_text(tokens)[0]);
    lemma_run_end_is(s, 1, 1, CharClass::Blank);
    lemma_row_items_shift(front, inner, 0);
    lemma_one_line_joined(front, items_text(tokens));
}

/// The last row of a matrix is read with the bracket that closes the
/// matrix.
proof fn lemma_last_row(first: Seq<Seq<char>>, back: Seq<char>)
    requires
        is_row_of_numbers(first),
    ensures
        matrix_rows(row_text(first) + seq![']'] + back, 0) == Some(
            (seq![first], row_text(first).len() as int + 1),
        ),
{
    let s = row_text(first) + seq![']'] + back;
    let rest = seq![']'] + back;
    let n = row_text(first).len() as int;
    assert(s =~= row_text(first) + rest);
    lemma_row_read_back(first, rest);
    assert(s[n] == ']');
    lemma_run_end_is(s, n, n, CharClass::Blank);
}

/// A row that is not the last of its matrix is read with the comma behind
/// it, and the rows behind the comma follow it.
proof fn lemma_next_row(
    first: Seq<Seq<char>>,
    inner: Seq<char>,
    others: Seq<Seq<Seq<char>>>,
    behind: int,
)
    requires
        is_row_of_numbers(first),
        inner.len() > 0,
        !CharClass::Blank.contains(inner[0]),
        matrix_rows(inner, 0) == Some((others, behind)),
    ensures
        matrix_rows(row_text(first) + seq![',', ' '] + inner, 0) == Some(
            (seq![first] + others, row_text(first).len() as int + 2 + behind),
        ),
{
    let front = row_text(first) + seq![',', ' '];
    let s = front + inner;
    let rest = seq![',', ' '] + inner;
    let n = row_text(first).len() as int;
    assert(s =~= row_text(first) + rest);
    lemma_row_read_back(first, rest);
    assert(s[n] == ',');
    assert(s[n + 1] == ' ');
    assert(s[n + 2] == inner[0]);
    lemma_run_end_is(s, n, n, CharClass::Blank);
    lemma_run_end_is(s, n + 1, n + 2, CharClass::Blank);
    lemma_matrix_rows_shift(front, inner, 0);
}

/// What is written of the rows of a matrix starts with an opening bracket
/// and holds no line feed.
pub proof fn lemma_rows_text(rows: Seq<Seq<Seq<char>>>)
    requires
        are_rows_of_numbers(rows),
    ensures
        is_one_line(rows_text(rows)),
        rows_text(rows).len() > 0,
        rows_text(rows)[0] == '[',
    decreases rows.len(),
{
    let first = rows[0];
    lemma_row_read_back(first, Seq::empty());
    if rows.len() == 1 {
        lemma_one_line_joined(row_text(first), seq![']']);
        assert(rows_text(rows)[0] == row_text(first)[0]);
    } else {
        let others = rows.skip(1);
        assert(are_rows_of_numbers(others)) by {
            assert forall|i: int| 0 <= i < others.len() implies is_row_of_numbers(
                #[trigger] others[i],
            ) by {
                assert(others[i] == rows[i + 1]);
            }
        }
        lemma_rows_text(others);
        lemma_one_line_joined(row_text(first), seq![',', ' ']);
        lemma_one_line_joined(row_text(first) + seq![',', ' '], rows_text(others));
        assert(rows_text(rows)[0] == row_text(first)[0]);
    }
}

/// The rows of a matrix are read back from what was written, whatever
/// follows the closing bracket.
pub proof fn lemma_rows_read_back(rows: Seq<Seq<Seq<char>>>, back: Seq<char>)
    requires
        are_rows_of_numbers(rows),
    ensures
        matrix_rows(rows_text(rows) + back, 0) == Some((rows, rows_text(rows).len() as int)),
    decreases rows.len(),
{
    let first = rows[0];
    if rows.len() == 1 {
        lemma_last_row(first, back);
        assert(seq![first] =~= rows);
    } else {
        let others = rows.skip(1);
        assert(are_rows_of_numbers(others)) by {
            assert forall|i: int| 0 <= i < others.len() implies is_row_of_numbers(
                #[trigger] others[i],
            ) by {
                assert(others[i] == rows[i + 1]);
            }
        }
        lemma_rows_read_back(others, back);
        lemma_rows_text(others);
        let inner = rows_text(others) + back;
        assert(inner[0] == rows_text(others)[0]);
        lemma_next_row(first, inner, others, rows_text(others).len() as int);
        assert(row_text(first) + seq![',', ' '] + inner =~= rows_text(rows) + back);
        assert(seq![first] + others =~= rows);
    }
}

/// A matrix is read back from what was written, whatever follows it.
pub proof fn lemma_matrix_read_back(rows: Seq<Seq<Seq<char>>>, back: Seq<char>)
    requires
        are_rows_of_numbers(rows),
    ensures
        matrix_from(matrix_text(rows) + back, 0) == Some((rows, matrix_text(rows).len() as int)),
        is_one_line(matrix_text(rows)),
{
    let s = matrix_text(rows) + back;
    let front = seq!['['];
    let inner = rows_text(rows) + back;
    assert(s =~= front + inner);
    lemma_rows_read_back(rows, back);
    lemma_rows_text(rows);
    assert(s[0] == '[');
    assert(s[1] == inner[0]);
    assert(inner[0] == rows_text(rows)[0]);
    lemma_run_end_is(s, 1, 1, CharClass::Blank);
    lemma_matrix_rows_shift(front, inner, 0);
    lemma_one_line_joined(front, rows_text(rows));
}

/// A definition is read back from what was written.
pub proof fn lemma_definition_read_back(name: Seq<char>, rows: Seq<Seq<Seq<char>>>)
    requires
        is_name(name),
        are_rows_of_numbers(rows),
    ensures
        mat_def_from(definition_text(name, rows), 0) == Some(
            (StatementView::MatDef { name, rows }, definition_text(name, rows).len() as int),
        ),
        is_one_line(definition_text(name, rows)),
{
    let s = definition_text(name, rows);
    let written = matrix_text(rows);
    let n = name.len() as int;
    lemma_name_chars(name);
    lemma_matrix_read_back(rows, Seq::empty());
    assert(written + Seq::<char>::empty() =~= written);
    let start_text = word_mat() + seq![' '];
    let middle = seq![' ', '=', ' '];
    let after_start = name + (middle + written);
    let before_matrix = start_text + name + middle;
    assert(s =~= start_text + after_start);
    assert(s =~= before_matrix + written);
    assert(written[0] == '[');
    assert(s.subrange(0, 3) =~= word_mat());
    assert(s[3] == ' ');
    assert(s[4] == name[0]);
    assert(s[4 + n] == ' ');
    assert(s[5 + n] == '=');
    assert(s[6 + n] == ' ');
    assert(s[7 + n] == written[0]);
    lemma_run_end_is(s, 3, 4, CharClass::Blank);
    assert(opening(s, 0, word_mat()) == Some(4int));
    lemma_name_then(name, middle + written);
    lemma_name_end_shift(start_text, after_start, 0);
    assert(s.subrange(4, 4 + n) =~= name);
    assert(name_from(s, 4) == Some((name, 4 + n)));
    lemma_run_end_is(s, 4 + n, 5 + n, CharClass::Blank);
    lemma_run_end_is(s, 6 + n, 7 + n, CharClass::Blank);
    lemma_matrix_from_shift(before_matrix, written, 0);
    assert(is_one_line(s)) by {
        assert(is_one_line(word_mat()));
        assert(is_one_line(seq![' ']));
        assert(is_one_line(middle));
        lemma_one_line_joined(word_mat(), seq![' ']);
        lemma_one_line_joined(start_text, name);
        lemma_one_line_joined(start_text + name, middle);
        lemma_one_line_joined(before_matrix, written);
    }
}

/// A definition that stands alone is a text of one line, which is that
/// statement.
pub proof fn lemma_definition_is_a_file(name: Seq<char>, rows: Seq<Seq<Seq<char>>>)
    requires
        is_name(name),
        are_rows_of_numbers(rows),
    ensures
        file_statements(definition_text(name, rows)) == Ok::<Seq<StatementView>, nat>(
            seq![StatementView::MatDef { name, rows }],
        ),
{
    let s = definition_text(name, rows);
    let statement = StatementView::MatDef { name, rows };
    lemma_definition_read_back(name, rows);
    assert(s[0] == 'm');
    lemma_run_end_is(s, 0, 0, CharClass::Blank);
    lemma_run_end_is(s, s.len() as int, s.len() as int, CharClass::Blank);
    assert(line_of(s) == LineView::Statement(statement));
    lemma_one_line(s);
    let lines = seq![s];
    assert(lines_of(s) == lines);
    assert(first_malformed(lines, 1) is None);
    assert(first_malformed(lines, 0) is None);
    assert(lines.drop_last() =~= Seq::<Seq<char>>::empty());
    assert(statements_in(lines.drop_last()) =~= Seq::<StatementView>::empty());
    assert(lines.last() == s);
    assert(statements_in(lines) =~= seq![statement]);
}

/// Rows of numbers that are all as long as the first have no fault.
pub proof fn lemma_no_fault(rows: Seq<Seq<Seq<char>>>, from: int)
    requires
        0 <= from,
        forall|i: int| 0 <= i < rows.len() ==> (#[trigger] rows[i]).len() == rows[0].len(),
        forall|i: int, j: int|
            0 <= i < rows.len() && 0 <= j < rows[i].len() ==> is_number(#[trigger] rows[i][j]),
    ensures
        first_fault(rows, from) is None,
    decreases rows.len() - from,
{
    if from < rows.len() {
        lemma_no_invalid_token(rows[from], 0);
        assert(row_fault(rows, from) is None);
        lemma_no_fault(rows, from + 1);
    }
}

/// Writing a matrix down and reading it back gives the matrix. For every
/// name and every well-formed matrix with at least one row and one column,
/// the text that defines the name as that matrix is read as that one
/// definition, and carrying it out binds the name to the matrix, with its
/// shape and every cell as they were.
pub proof fn definition_round_trip(name: Seq<char>, matrix: MatrixView)
    requires
        is_name(name),
        matrix.wf(),
        matrix.rows_num >= 1,
        matrix.cols_num >= 1,
    ensures
        file_commands(definition_text(name, matrix.cells)) == Ok::<
            Seq<CommandView>,
            ParseErrorView,
        >(seq![CommandView::Define(name, matrix)]),
        table_after_all(
            Map::<Seq<char>, MatrixView>::empty(),
            seq![CommandView::Define(name, matrix)],
        ).dom().contains(name),
        table_after_all(
            Map::<Seq<char>, MatrixView>::empty(),
            seq![CommandView::Define(name, matrix)],
        )[name] == matrix,
{
    let rows = matrix.cells;
    let statement = StatementView::MatDef { name, rows };
    let command = CommandView::Define(name, matrix);
    assert(are_rows_of_numbers(rows)) by {
        assert forall|i: int| 0 <= i < rows.len() implies is_row_of_numbers(#[trigger] rows[i]) by {
            assert forall|j: int| 0 <= j < rows[i].len() implies is_number(
                #[trigger] rows[i][j],
            ) by {}
        }
    }
    lemma_definition_is_a_file(name, rows);
    lemma_no_fault(rows, 0);
    lemma_name_is_trimmed(name);
    assert(matrix_of(rows) == Ok::<MatrixView, ParseErrorView>(matrix));
    assert(command_of(statement) == Ok::<CommandView, ParseErrorView>(command));
    let statements = seq![statement];
    assert(statements.drop_last() =~= Seq::<StatementView>::empty());
    assert(commands_of(statements.drop_last()) == Ok::<Seq<CommandView>, ParseErrorView>(
        Seq::empty(),
    ));
    assert(statements.last() == statement);
    assert(Seq::<CommandView>::empty().push(command) =~= seq![command]);
    let commands = seq![command];
    let empty = Map::<Seq<char>, MatrixView>::empty();
    assert(commands.skip(1).len() == 0);
    assert(table_after_all(table_after(empty, commands[0]), commands.skip(1)) == table_after(
        empty,
        command,
    ));
}

} // verus!
