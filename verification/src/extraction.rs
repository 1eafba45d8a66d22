//! From the statements of a text to commands.
//!
//! A statement says what was written. A command is what it means: its
//! names without the white space around them, its numerals checked, and the
//! rows of a matrix put into a table whose rows are equally long.

use vstd::prelude::*;
use crate::command::{commands_view, is_sound, Command, CommandView};
use crate::error::{ParseError, ParseErrorView};
use crate::grammar::{
    are_rows_of_numbers,
    file_statements,
    is_grammatical,
    is_row_of_numbers,
    lemma_statements_are_grammatical,
    lines_of,
    statements_in,
    StatementView,
};
use crate::lexicon::{
    chars_of,
    is_name,
    is_name_char,
    is_number,
    lemma_name_chars,
    lemma_run_end_is,
    run_end,
    scan_run,
    text_of,
    texts,
    CharClass,
};
use crate::matrix::{cells_of, tokens_of, Matrix, MatrixView, Number};
use crate::parser::{rows_view, statements_view, MatrixParser, Statement};

verus! {

/// Where the text ends once the white space at its end is left out: the
/// position behind the last character before `n` that is no white space,
/// or zero where there is none.
pub open spec fn content_end(s: Seq<char>, n: int) -> int
    decreases n,
{
    if 0 < n <= s.len() && CharClass::Space.contains(s[n - 1]) {
        content_end(s, n - 1)
    } else {
        n
    }
}

/// The text without the white space at its start and at its end.
pub open spec fn trimmed(s: Seq<char>) -> Seq<char> {
    let start = run_end(s, 0, CharClass::Space);
    let end = content_end(s, s.len() as int);
    if start < end {
        s.subrange(start, end)
    } else {
        Seq::empty()
    }
}

/// The first token at or after `from` that is no number.
pub open spec fn first_invalid(row: Seq<Seq<char>>, from: int) -> Option<int>
    decreases row.len() - from,
{
    if from < 0 || from >= row.len() {
        None
    } else if !is_number(row[from]) {
        Some(from)
    } else {
        first_invalid(row, from + 1)
    }
}

/// What is wrong with row `r`, if anything: its first token that is no
/// number, or else its length where that differs from the length of the
/// first row.
pub open spec fn row_fault(rows: Seq<Seq<Seq<char>>>, r: int) -> Option<ParseErrorView> {
    match first_invalid(rows[r], 0) {
        Some(j) => Some(ParseErrorView::ParseInvalidNumber(rows[r][j])),
        None => if rows[r].len() != rows[0].len() {
            Some(
                ParseErrorView::MismatchedRowLength {
                    expected: rows[0].len(),
                    found: rows[r].len(),
                },
            )
        } else {
            None
        },
    }
}

/// The fault of the first faulty row at or after `from`.
pub open spec fn first_fault(rows: Seq<Seq<Seq<char>>>, from: int) -> Option<ParseErrorView>
    decreases rows.len() - from,
{
    if from < 0 || from >= rows.len() {
        None
    } else if row_fault(rows, from) is Some {
        row_fault(rows, from)
    } else {
        first_fault(rows, from + 1)
    }
}

/// The matrix that rows of tokens make: the rows themselves with their
/// count and their common length (zero where there is no row), or the
/// fault of the first faulty row.
pub open spec fn matrix_of(rows: Seq<Seq<Seq<char>>>) -> Result<MatrixView, ParseErrorView> {
    match first_fault(rows, 0) {
        Some(fault) => Err(fault),
        None => Ok(
            MatrixView {
                cells: rows,
                rows_num: rows.len(),
                cols_num: if rows.len() == 0 {
                    0
                } else {
                    rows[0].len()
                },
            },
        ),
    }
}

/// The command that a statement makes, or what is wrong with it.
pub open spec fn command_of(statement: StatementView) -> Result<CommandView, ParseErrorView> {
    match statement {
        StatementView::MatDef { name, rows } => match matrix_of(rows) {
            Ok(matrix) => Ok(CommandView::Define(trimmed(name), matrix)),
            Err(fault) => Err(fault),
        },
        StatementView::Add { left, right } => Ok(CommandView::Add(trimmed(left), trimmed(right))),
        StatementView::Subtract { left, right } => Ok(
            CommandView::Subtract(trimmed(left), trimmed(right)),
        ),
        StatementView::Mult { left, right } => Ok(
            CommandView::Multiply(trimmed(left), trimmed(right)),
        ),
        StatementView::Scale { name, factor } => if is_number(factor) {
            Ok(CommandView::Scale(trimmed(name), factor))
        } else {
            Err(ParseErrorView::ParseInvalidNumber(factor))
        },
    }
}

/// The commands that a list of statements makes, in order, or what is wrong
/// with the first statement that makes none.
pub open spec fn commands_of(statements: Seq<StatementView>) -> Result<
    Seq<CommandView>,
    ParseErrorView,
>
    decreases statements.len(),
{
    if statements.len() == 0 {
        Ok(Seq::empty())
    } else {
        match commands_of(statements.drop_last()) {
            Err(fault) => Err(fault),
            Ok(front) => match command_of(statements.last()) {
                Err(fault) => Err(fault),
                Ok(command) => Ok(front.push(command)),
            },
        }
    }
}

/// The commands of a text. A text that does not follow the grammar has
/// none, whatever else is wrong with it: the error then names its first
/// malformed line.
pub open spec fn file_commands(s: Seq<char>) -> Result<Seq<CommandView>, ParseErrorView> {
    match file_statements(s) {
        Err(line) => Err(ParseErrorView::Syntax { line }),
        Ok(statements) => commands_of(statements),
    }
}

/// Where `first_invalid` finds nothing, every token from `from` on is a
/// number.
pub proof fn lemma_first_invalid_none(row: Seq<Seq<char>>, from: int)
    requires
        0 <= from,
        first_invalid(row, from) is None,
    ensures
        forall|j: int| from <= j < row.len() ==> is_number(#[trigger] row[j]),
    decreases row.len() - from,
{
    if from < row.len() {
        lemma_first_invalid_none(row, from + 1);
    }
}

/// Where `first_fault` finds nothing, no row from `from` on has a fault.
pub proof fn lemma_first_fault_none(rows: Seq<Seq<Seq<char>>>, from: int)
    requires
        0 <= from,
        first_fault(rows, from) is None,
    ensures
        forall|i: int| from <= i < rows.len() ==> row_fault(rows, i) is None,
    decreases rows.len() - from,
{
    if from < rows.len() {
        lemma_first_fault_none(rows, from + 1);
    }
}

/// The matrix that rows of tokens make is well formed.
pub proof fn lemma_matrix_of_wf(rows: Seq<Seq<Seq<char>>>)
    requires
        matrix_of(rows) is Ok,
    ensures
        matrix_of(rows)->Ok_0.wf(),
{
    let matrix = matrix_of(rows)->Ok_0;
    lemma_first_fault_none(rows, 0);
    assert forall|i: int| 0 <= i < rows.len() implies (#[trigger] rows[i]).len()
        == matrix.cols_num by {
        assert(row_fault(rows, i) is None);
    }
    assert forall|i: int, j: int| 0 <= i < rows.len() && 0 <= j < rows[i].len() implies is_number(
        #[trigger] rows[i][j],
    ) by {
        assert(row_fault(rows, i) is None);
        lemma_first_invalid_none(rows[i], 0);
    }
}

/// Every command that a statement makes is sound.
pub proof fn lemma_command_of_sound(statement: StatementView)
    requires
        command_of(statement) is Ok,
    ensures
        is_sound(command_of(statement)->Ok_0),
{
    if let StatementView::MatDef { name, rows } = statement {
        lemma_matrix_of_wf(rows);
    }
}

/// Every command of a list that statements make is sound.
pub proof fn lemma_commands_of_sound(statements: Seq<StatementView>)
    requires
        commands_of(statements) is Ok,
    ensures
        forall|i: int|
            0 <= i < commands_of(statements)->Ok_0.len() ==> is_sound(
                #[trigger] commands_of(statements)->Ok_0[i],
            ),
    decreases statements.len(),
{
    if statements.len() > 0 {
        lemma_commands_of_sound(statements.drop_last());
        lemma_command_of_sound(statements.last());
    }
}

/// A name stays as it is when the white space around it is taken off.
pub proof fn lemma_name_is_trimmed(name: Seq<char>)
    requires
        is_name(name),
    ensures
        trimmed(name) == name,
{
    lemma_name_chars(name);
    let n = name.len() as int;
    assert(is_name_char(name[0]));
    assert(is_name_char(name[n - 1]));
    lemma_run_end_is(name, 0, 0, CharClass::Space);
    assert(content_end(name, n) == n);
    assert(name.subrange(0, n) =~= name);
}

/// A row of numbers holds no token that is no number.
pub proof fn lemma_no_invalid_token(tokens: Seq<Seq<char>>, from: int)
    requires
        0 <= from,
        forall|j: int| 0 <= j < tokens.len() ==> is_number(#[trigger] tokens[j]),
    ensures
        first_invalid(tokens, from) is None,
    decreases tokens.len() - from,
{
    if from < tokens.len() {
        lemma_no_invalid_token(tokens, from + 1);
    }
}

/// Rows of numbers have no fault but that of a length.
pub proof fn lemma_fault_is_a_length(rows: Seq<Seq<Seq<char>>>, from: int)
    requires
        0 <= from,
        are_rows_of_numbers(rows),
    ensures
        first_fault(rows, from) is Some ==> first_fault(rows, from)->0 is MismatchedRowLength,
    decreases rows.len() - from,
{
    if from < rows.len() {
        assert(is_row_of_numbers(rows[from]));
        lemma_no_invalid_token(rows[from], 0);
        lemma_fault_is_a_length(rows, from + 1);
    }
}

/// A statement that the grammar allows makes a command with the names as
/// they are written, or has a row of another length than the first: its
/// numerals are numbers.
pub proof fn lemma_command_of_grammatical(statement: StatementView)
    requires
        is_grammatical(statement),
    ensures
        match command_of(statement) {
            Err(fault) => statement is MatDef && fault is MismatchedRowLength,
            Ok(command) => match statement {
                StatementView::MatDef { name, rows } => command matches CommandView::Define(
                    bound,
                    matrix,
                ) && bound == name && matrix.cells == rows,
                StatementView::Add { left, right } => command == CommandView::Add(left, right),
                StatementView::Subtract { left, right } => command == CommandView::Subtract(
                    left,
                    right,
                ),
                StatementView::Mult { left, right } => command == CommandView::Multiply(
                    left,
                    right,
                ),
                StatementView::Scale { name, factor } => command == CommandView::Scale(
                    name,
                    factor,
                ),
            },
        },
{
    match statement {
        StatementView::MatDef { name, rows } => {
            lemma_name_is_trimmed(name);
            lemma_fault_is_a_length(rows, 0);
        },
        StatementView::Add { left, right } => {
            lemma_name_is_trimmed(left);
            lemma_name_is_trimmed(right);
        },
        StatementView::Subtract { left, right } => {
            lemma_name_is_trimmed(left);
            lemma_name_is_trimmed(right);
        },
        StatementView::Mult { left, right } => {
            lemma_name_is_trimmed(left);
            lemma_name_is_trimmed(right);
        },
        StatementView::Scale { name, factor } => {
            lemma_name_is_trimmed(name);
        },
    }
}

/// Statements that the grammar allows make commands, or one of them has a
/// row of another length than the first.
pub proof fn lemma_commands_of_grammatical(statements: Seq<StatementView>)
    requires
        forall|i: int| 0 <= i < statements.len() ==> is_grammatical(#[trigger] statements[i]),
    ensures
        commands_of(statements) is Err ==> commands_of(statements)->Err_0 is MismatchedRowLength,
    decreases statements.len(),
{
    if statements.len() > 0 {
        let front = statements.drop_last();
        assert forall|i: int| 0 <= i < front.len() implies is_grammatical(#[trigger] front[i]) by {
            assert(front[i] == statements[i]);
        }
        lemma_commands_of_grammatical(front);
        lemma_command_of_grammatical(statements.last());
    }
}

/// A text fails for its syntax or for a row of another length than the
/// first of its matrix, never for a numeral: what the grammar takes for a
/// number is one.
pub proof fn numerals_of_a_text_are_numbers(s: Seq<char>)
    ensures
        file_commands(s) is Err ==> file_commands(s)->Err_0 is Syntax || file_commands(s)->Err_0
            is MismatchedRowLength,
{
    if file_statements(s) is Ok {
        lemma_statements_are_grammatical(lines_of(s));
        lemma_commands_of_grammatical(statements_in(lines_of(s)));
    }
}

/// Takes the white space off both ends of `text`: space, tab, carriage
/// return and line feed.
pub fn trim(text: &str) -> (r: String)
    ensures
        r@ == trimmed(text@),
{
    let s = chars_of(text);
    let start = scan_run(&s, 0, CharClass::Space);
    let mut end: usize = s.len();
    while end > 0 && CharClass::Space.holds(s[end - 1])
        invariant
            end <= s.len(),
            content_end(s@, s.len() as int) == content_end(s@, end as int),
        decreases end,
    {
        end -= 1;
    }
    if start < end {
        text_of(&s, start, end)
    } else {
        String::new()
    }
}

/// Checks the tokens of a row, in order.
fn parse_row(row: &Vec<String>) -> (r: Result<Vec<Number>, ParseError>)
    ensures
        match r {
            Ok(numbers) => first_invalid(texts(row@), 0) is None && tokens_of(numbers@) == texts(
                row@,
            ),
            Err(e) => first_invalid(texts(row@), 0) is Some && e@
                == ParseErrorView::ParseInvalidNumber(
                texts(row@)[first_invalid(texts(row@), 0)->0],
            ),
        },
{
    let ghost tokens = texts(row@);
    let mut numbers: Vec<Number> = Vec::new();
    let mut j: usize = 0;
    while j < row.len()
        invariant
            j <= row.len(),
            tokens == texts(row@),
            numbers.len() == j,
            first_invalid(tokens, 0) == first_invalid(tokens, j as int),
            forall|k: int| 0 <= k < j ==> numbers[k]@ == tokens[k],
        decreases row.len() - j,
    {
        match Number::new(row[j].as_str()) {
            Ok(number) => {
                numbers.push(number);
            },
            Err(e) => {
                return Err(e);
            },
        }
        j += 1;
    }
    assert(tokens_of(numbers@) =~= tokens);
    Ok(numbers)
}

/// Makes a matrix of rows of tokens. The rows are taken in order: each has
/// its tokens checked, then its length compared with that of the first
/// row. Fails at the first fault: with `ParseInvalidNumber` and the token
/// that is no number, or with `MismatchedRowLength`, the length of the
/// first row and the length of the row that differs.
pub fn parse_matrix(rows: &Vec<Vec<String>>) -> (r: Result<Matrix, ParseError>)
    ensures
        match r {
            Ok(matrix) => matrix_of(rows_view(rows@)) == Ok::<MatrixView, ParseErrorView>(
                matrix@,
            ),
            Err(e) => matrix_of(rows_view(rows@)) == Err::<MatrixView, ParseErrorView>(e@),
        },
        r is Ok ==> r->Ok_0.wf(),
{
    proof {
        if matrix_of(rows_view(rows@)) is Ok {
            lemma_matrix_of_wf(rows_view(rows@));
        }
    }
    let ghost all = rows_view(rows@);
    let mut matrix: Vec<Vec<Number>> = Vec::new();
    let mut cols: Option<usize> = None;
    let mut i: usize = 0;
    while i < rows.len()
        invariant
            i <= rows.len(),
            all == rows_view(rows@),
            matrix.len() == i,
            first_fault(all, 0) == first_fault(all, i as int),
            forall|k: int| 0 <= k < i ==> tokens_of(#[trigger] matrix[k]@) == all[k],
            i == 0 ==> cols is None,
            i > 0 ==> cols == Some(rows[0].len()),
        decreases rows.len() - i,
    {
        let current = match parse_row(&rows[i]) {
            Ok(current) => current,
            Err(e) => {
                return Err(e);
            },
        };
        let found: usize = current.len();
        assert(found == all[i as int].len()) by {
            assert(tokens_of(current@).len() == found);
        }
        match cols {
            Some(expected) => {
                if found != expected {
                    return Err(ParseError::MismatchedRowLength { expected, found });
                }
            },
            None => {
                cols = Some(found);
            },
        }
        matrix.push(current);
        i += 1;
    }
    assert(cells_of(matrix@) =~= all);
    let rows_num: usize = matrix.len();
    let cols_num: usize = match cols {
        Some(expected) => expected,
        None => 0,
    };
    Ok(Matrix { matrix, rows_num, cols_num })
}

/// Makes the command of a statement: the names trimmed, the factor of a
/// scaling checked, the rows of a definition made into a matrix. Fails as
/// `parse_matrix` does, and with `ParseInvalidNumber` where the factor of a
/// scaling is no number.
pub fn parse_operation(statement: Statement) -> (r: Result<Command, ParseError>)
    ensures
        match r {
            Ok(command) => command_of(statement@) == Ok::<CommandView, ParseErrorView>(command@),
            Err(e) => command_of(statement@) == Err::<CommandView, ParseErrorView>(e@),
        },
        r is Ok ==> is_sound(r->Ok_0@),
{
    proof {
        if command_of(statement@) is Ok {
            lemma_command_of_sound(statement@);
        }
    }
    match statement {
        Statement::MatDef { name, rows } => {
            let name = trim(name.as_str());
            match parse_matrix(&rows) {
                Ok(matrix) => Ok(Command::Define(name, matrix)),
                Err(e) => Err(e),
            }
        },
        Statement::Add { left, right } => Ok(
            Command::Add(trim(left.as_str()), trim(right.as_str())),
        ),
        Statement::Subtract { left, right } => Ok(
            Command::Subtract(trim(left.as_str()), trim(right.as_str())),
        ),
        Statement::Mult { left, right } => Ok(
            Command::Multiply(trim(left.as_str()), trim(right.as_str())),
        ),
        Statement::Scale { name, factor } => {
            let name = trim(name.as_str());
            match Number::new(factor.as_str()) {
                Ok(number) => Ok(Command::Scale(name, number)),
                Err(e) => Err(e),
            }
        },
    }
}

/// Reads the commands of a text, in order.
///
/// Fails with `Syntax` where the text does not follow the grammar, naming
/// its first malformed line; no statement is looked into before the whole
/// text is known to follow the grammar. Fails with what is wrong with the
/// first statement that makes no command otherwise.
pub fn parse_file(matrix_file: &str) -> (r: Result<Vec<Command>, ParseError>)
    ensures
        match r {
            Ok(commands) => file_commands(matrix_file@) == Ok::<Seq<CommandView>, ParseErrorView>(
                commands_view(commands@),
            ),
            Err(e) => file_commands(matrix_file@) == Err::<Seq<CommandView>, ParseErrorView>(e@),
        },
        r is Ok ==> forall|i: int| 0 <= i < r->Ok_0.len() ==> is_sound(#[trigger] r->Ok_0[i]@),
        r is Err ==> r->Err_0 is Syntax || r->Err_0 is MismatchedRowLength,
{
    proof {
        numerals_of_a_text_are_numbers(matrix_file@);
    }
    let statements = match MatrixParser::statements(matrix_file) {
        Ok(statements) => statements,
        Err(e) => {
            return Err(e);
        },
    };
    let ghost all = statements_view(statements@);
    let mut commands: Vec<Command> = Vec::new();
    assert(all.take(0) =~= Seq::<StatementView>::empty());
    assert(commands_view(commands@) =~= Seq::<CommandView>::empty());
    for statement in it: statements
        invariant
            it.seq() == statements@,
            all == statements_view(statements@),
            file_statements(matrix_file@) == Ok::<Seq<StatementView>, nat>(all),
            commands_of(all.take(it.index() as int)) == Ok::<Seq<CommandView>, ParseErrorView>(
                commands_view(commands@),
            ),
    {
        let ghost i = it.index() as int;
        let ghost before = commands_view(commands@);
        proof {
            assert(all.take(i + 1).drop_last() =~= all.take(i));
            assert(all.take(i + 1).last() == all[i]);
            assert(all[i] == statement@);
        }
        match parse_operation(statement) {
            Ok(command) => {
                commands.push(command);
                assert(commands_view(commands@) =~= before.push(command@));
            },
            Err(e) => {
                proof {
                    assert(commands_of(all.take(i + 1)) == Err::<Seq<CommandView>, ParseErrorView>(
                        e@,
                    ));
                    lemma_commands_of_fails(all, i + 1);
                    numerals_of_a_text_are_numbers(matrix_file@);
                }
                return Err(e);
            },
        }
    }
    assert(all.take(all.len() as int) =~= all);
    proof {
        lemma_commands_of_sound(all);
        let made = commands_of(all)->Ok_0;
        assert(made == commands_view(commands@));
        assert forall|i: int| 0 <= i < commands.len() implies is_sound(#[trigger] commands[i]@) by {
            assert(made[i] == commands[i]@);
        }
    }
    Ok(commands)
}

/// Once the statements up to `n` make no commands, all of them make none,
/// and for the same reason.
pub proof fn lemma_commands_of_fails(statements: Seq<StatementView>, n: int)
    requires
        0 <= n <= statements.len(),
        commands_of(statements.take(n)) is Err,
    ensures
        commands_of(statements) == commands_of(statements.take(n)),
    decreases statements.len() - n,
{
    if n < statements.len() {
        assert(statements.take(n + 1).drop_last() =~= statements.take(n));
        lemma_commands_of_fails(statements, n + 1);
    } else {
        assert(statements.take(n) =~= statements);
    }
}

} // verus!
