//! What holds of the language as a whole: facts that relate the grammar,
//! the commands of a text and the interpreter.

use vstd::prelude::*;
use crate::arithmetic::{can_multiply, has_width, same_shape, width_of};
use crate::command::CommandView;
use crate::extraction::file_commands;
use crate::grammar::{
    file_statements,
    first_malformed,
    is_one_line,
    lemma_one_line,
    line_of,
    lines_from,
    lines_of,
    statements_in,
};
use crate::interpreter::{
    binary_outcome,
    fits,
    outcome_of,
    outcomes_of,
    table_after,
    table_after_all,
    undefined_names,
    Operation,
    OutcomeView,
    Table,
};
use crate::lexicon::{lemma_run_end, lemma_run_end_extend, lemma_run_end_shift, run_end, CharClass};
use crate::matrix::MatrixView;

verus! {

/// A line that gives no statement and breaks no rule: a blank line or a
/// comment.
pub open spec fn is_ignored(line: Seq<char>) -> bool {
    line_of(line) is Blank || line_of(line) is Comment
}

/// `first_malformed` finds no line exactly when no line from `from` on is
/// malformed, and else finds the first that is.
pub proof fn lemma_first_malformed(lines: Seq<Seq<char>>, from: int)
    requires
        0 <= from,
    ensures
        match first_malformed(lines, from) {
            Some(k) => {
                &&& from <= k < lines.len()
                &&& line_of(lines[k]) is Malformed
                &&& forall|i: int| from <= i < k ==> !(line_of(#[trigger] lines[i]) is Malformed)
            },
            None => forall|i: int|
                from <= i < lines.len() ==> !(line_of(#[trigger] lines[i]) is Malformed),
        },
    decreases lines.len() - from,
{
    if from < lines.len() && !(line_of(lines[from]) is Malformed) {
        lemma_first_malformed(lines, from + 1);
    }
}

/// Text put in front of a text changes none of the lines that start behind
/// it.
pub proof fn lemma_lines_from_shift(front: Seq<char>, s: Seq<char>, i: int)
    requires
        0 <= i <= s.len(),
    ensures
        lines_from(front + s, front.len() + i) == lines_from(s, i),
    decreases s.len() - i,
{
    let whole = front + s;
    lemma_run_end_shift(front, s, i, CharClass::InLine);
    lemma_run_end(s, i, CharClass::InLine);
    let end = run_end(s, i, CharClass::InLine);
    assert(whole.subrange(front.len() + i, front.len() + end) =~= s.subrange(i, end));
    if end < s.len() {
        lemma_lines_from_shift(front, s, end + 1);
    } else {
        assert(whole.subrange(front.len() + i, whole.len() as int) =~= s.subrange(
            i,
            s.len() as int,
        ));
    }
}

proof fn lemma_lines_joined_from(first: Seq<char>, second: Seq<char>, i: int)
    requires
        0 <= i <= first.len(),
    ensures
        lines_from(first + seq!['\n'] + second, i) == lines_from(first, i) + lines_of(second),
    decreases first.len() - i,
{
    let back = seq!['\n'] + second;
    let whole = first + seq!['\n'] + second;
    assert(whole =~= first + back);
    lemma_run_end_extend(first, back, i, CharClass::InLine);
    lemma_run_end(first, i, CharClass::InLine);
    let end = run_end(first, i, CharClass::InLine);
    assert(back[0] == '\n');
    assert(run_end(back, 0, CharClass::InLine) == 0);
    assert(run_end(whole, i, CharClass::InLine) == end);
    assert(whole.subrange(i, end) =~= first.subrange(i, end));
    if end < first.len() {
        lemma_lines_joined_from(first, second, end + 1);
        assert(seq![first.subrange(i, end)] + (lines_from(first, end + 1) + lines_of(second))
            =~= (seq![first.subrange(i, end)] + lines_from(first, end + 1)) + lines_of(second));
    } else {
        assert(whole =~= (first + seq!['\n']) + second);
        lemma_lines_from_shift(first + seq!['\n'], second, 0);
    }
}

/// The lines of two texts joined by a line feed are the lines of the first
/// followed by the lines of the second.
pub proof fn lemma_lines_joined(first: Seq<char>, second: Seq<char>)
    ensures
        lines_of(first + seq!['\n'] + second) == lines_of(first) + lines_of(second),
{
    lemma_lines_joined_from(first, second, 0);
}

/// A blank line or a comment among the lines gives no statement: the
/// statements are those of the other lines.
pub proof fn lemma_ignored_line_gives_nothing(lines: Seq<Seq<char>>, k: int, line: Seq<char>)
    requires
        0 <= k <= lines.len(),
        is_ignored(line),
    ensures
        statements_in(lines.insert(k, line)) == statements_in(lines),
    decreases lines.len(),
{
    let with = lines.insert(k, line);
    if k == lines.len() {
        assert(with.drop_last() =~= lines);
    } else {
        assert(with.drop_last() =~= lines.drop_last().insert(k, line));
        assert(with.last() == lines.last());
        lemma_ignored_line_gives_nothing(lines.drop_last(), k, line);
    }
}

/// Blank lines and comments are ignored wherever they stand. Of two texts
/// of which the second has the lines of the first and one more, a blank
/// line or a comment, either both follow the grammar or neither does; and
/// where they do, they hold the same statements and give the same commands
/// or fail for the same reason.
pub proof fn ignored_lines_change_nothing(
    without: Seq<char>,
    with: Seq<char>,
    k: int,
    line: Seq<char>,
)
    requires
        0 <= k <= lines_of(without).len(),
        is_ignored(line),
        lines_of(with) == lines_of(without).insert(k, line),
    ensures
        file_statements(with) is Ok <==> file_statements(without) is Ok,
        file_statements(without) is Ok ==> file_statements(with) == file_statements(without),
        file_statements(without) is Ok ==> file_commands(with) == file_commands(without),
{
    let short = lines_of(without);
    let long = lines_of(with);
    lemma_first_malformed(short, 0);
    lemma_first_malformed(long, 0);
    lemma_ignored_line_gives_nothing(short, k, line);
    if first_malformed(short, 0) is None {
        assert forall|i: int| 0 <= i < long.len() implies !(line_of(#[trigger] long[i])
            is Malformed) by {
            if i < k {
                assert(long[i] == short[i]);
            } else if i > k {
                assert(long[i] == short[i - 1]);
            }
        }
    } else {
        let bad = first_malformed(short, 0)->0;
        if bad < k {
            assert(long[bad] == short[bad]);
        } else {
            assert(long[bad + 1] == short[bad]);
        }
    }
}

/// A blank line or a comment between two texts is ignored: with it and
/// without it, either both texts follow the grammar or neither does, and
/// where they do they give the same commands or fail for the same reason.
pub proof fn ignored_line_between_texts(first: Seq<char>, line: Seq<char>, second: Seq<char>)
    requires
        is_ignored(line),
        is_one_line(line),
    ensures
        file_statements(first + seq!['\n'] + line + seq!['\n'] + second) is Ok <==> file_statements(
            first + seq!['\n'] + second,
        ) is Ok,
        file_statements(first + seq!['\n'] + second) is Ok ==> file_commands(
            first + seq!['\n'] + line + seq!['\n'] + second,
        ) == file_commands(first + seq!['\n'] + second),
{
    let head = first + seq!['\n'] + line;
    lemma_one_line(line);
    lemma_lines_joined(first, line);
    lemma_lines_joined(head, second);
    lemma_lines_joined(first, second);
    let at = lines_of(first).len() as int;
    assert((lines_of(first) + seq![line]) + lines_of(second) =~= (lines_of(first) + lines_of(
        second,
    )).insert(at, line));
    ignored_lines_change_nothing(
        first + seq!['\n'] + second,
        first + seq!['\n'] + line + seq!['\n'] + second,
        at,
        line,
    );
}

/// A blank line or a comment at the start of a text is ignored.
pub proof fn ignored_line_before_a_text(line: Seq<char>, text: Seq<char>)
    requires
        is_ignored(line),
        is_one_line(line),
    ensures
        file_statements(line + seq!['\n'] + text) is Ok <==> file_statements(text) is Ok,
        file_statements(text) is Ok ==> file_commands(line + seq!['\n'] + text) == file_commands(
            text,
        ),
{
    lemma_one_line(line);
    lemma_lines_joined(line, text);
    assert(seq![line] + lines_of(text) =~= lines_of(text).insert(0, line));
    ignored_lines_change_nothing(text, line + seq!['\n'] + text, 0, line);
}

/// A blank line or a comment at the end of a text is ignored.
pub proof fn ignored_line_after_a_text(text: Seq<char>, line: Seq<char>)
    requires
        is_ignored(line),
        is_one_line(line),
    ensures
        file_statements(text + seq!['\n'] + line) is Ok <==> file_statements(text) is Ok,
        file_statements(text) is Ok ==> file_commands(text + seq!['\n'] + line) == file_commands(
            text,
        ),
{
    lemma_one_line(line);
    lemma_lines_joined(text, line);
    let at = lines_of(text).len() as int;
    assert(lines_of(text) + seq![line] =~= lines_of(text).insert(at, line));
    ignored_lines_change_nothing(text, text + seq!['\n'] + line, at, line);
}

/// Every command has its outcome, whatever became of the commands before
/// it: there are as many outcomes as commands, and the outcome of each
/// command is what the command comes to in the table that the commands
/// before it left.
pub proof fn every_command_is_carried_out(table: Table, commands: Seq<CommandView>, i: int)
    requires
        0 <= i < commands.len(),
    ensures
        outcomes_of(table, commands).len() == commands.len(),
        outcomes_of(table, commands)[i] == outcome_of(
            table_after_all(table, commands.take(i)),
            commands[i],
        ),
    decreases commands.len(),
{
    let next = table_after(table, commands[0]);
    let rest = commands.skip(1);
    lemma_outcomes_len(next, rest);
    if i == 0 {
        assert(commands.take(0).len() == 0);
    } else {
        every_command_is_carried_out(next, rest, i - 1);
        assert(rest[i - 1] == commands[i]);
        assert(commands.take(i)[0] == commands[0]);
        assert(commands.take(i).skip(1) =~= rest.take(i - 1));
    }
}

proof fn lemma_outcomes_len(table: Table, commands: Seq<CommandView>)
    ensures
        outcomes_of(table, commands).len() == commands.len(),
    decreases commands.len(),
{
    if commands.len() > 0 {
        lemma_outcomes_len(table_after(table, commands[0]), commands.skip(1));
    }
}

/// Only a definition changes the table, and it changes one name: the name
/// then stands for the matrix of the definition and every other name for
/// what it stood for.
pub proof fn only_define_changes_the_table(table: Table, command: CommandView)
    ensures
        !(command is Define) ==> table_after(table, command) == table,
        command matches CommandView::Define(name, matrix) ==> {
            &&& table_after(table, command).dom().contains(name)
            &&& table_after(table, command)[name] == matrix
            &&& forall|other: Seq<char>|
                other != name ==> (table_after(table, command).dom().contains(other)
                    <==> table.dom().contains(other)) && (table.dom().contains(other)
                    ==> table_after(table, command)[other] == table[other])
        },
{
}

/// An operation on two matrices of which a name is not defined comes to
/// no operands: its outcome names the undefined names, both of them where
/// neither is defined, and the table stays as it is.
pub proof fn undefined_names_are_reported(
    table: Table,
    operation: Operation,
    left: Seq<char>,
    right: Seq<char>,
)
    requires
        !table.dom().contains(left) || !table.dom().contains(right),
    ensures
        binary_outcome(table, operation, left, right) == (OutcomeView::Undefined {
            operation,
            left_name: left,
            right_name: right,
            names: undefined_names(table, left, right),
        }),
        !table.dom().contains(left) && !table.dom().contains(right) ==> undefined_names(
            table,
            left,
            right,
        ) == seq![left, right],
        !table.dom().contains(left) && table.dom().contains(right) ==> undefined_names(
            table,
            left,
            right,
        ) == seq![left],
        table.dom().contains(left) && !table.dom().contains(right) ==> undefined_names(
            table,
            left,
            right,
        ) == seq![right],
{
    assert(Seq::<Seq<char>>::empty().push(left).push(right) =~= seq![left, right]);
    assert(Seq::<Seq<char>>::empty().push(left) =~= seq![left]);
    assert(Seq::<Seq<char>>::empty().push(right) =~= seq![right]);
}

/// An operation on two defined matrices whose shapes do not fit comes to
/// no operands: its outcome holds both shapes.
pub proof fn unfit_shapes_are_reported(
    table: Table,
    operation: Operation,
    left: Seq<char>,
    right: Seq<char>,
)
    requires
        table.dom().contains(left),
        table.dom().contains(right),
        !fits(operation, table[left], table[right]),
    ensures
        binary_outcome(table, operation, left, right) == (OutcomeView::ShapeMismatch {
            operation,
            left_name: left,
            left_rows: table[left].rows_num,
            left_cols: table[left].cols_num,
            right_name: right,
            right_rows: table[right].rows_num,
            right_cols: table[right].cols_num,
        }),
{
}

/// Operands are handed out exactly when both names are defined and the
/// shapes fit, and then they are the matrices that the names stand for:
/// of equal shapes for a sum or a difference; for a product, the left one
/// with as many columns as the right one has rows.
pub proof fn operands_are_the_named_matrices(
    table: Table,
    operation: Operation,
    left: Seq<char>,
    right: Seq<char>,
)
    ensures
        binary_outcome(table, operation, left, right) is Operands <==> table.dom().contains(left)
            && table.dom().contains(right) && fits(operation, table[left], table[right]),
        binary_outcome(table, operation, left, right) is Operands ==> binary_outcome(
            table,
            operation,
            left,
            right,
        ) == (OutcomeView::Operands {
            operation,
            left_name: left,
            right_name: right,
            left: table[left],
            right: table[right],
        }),
        operation != Operation::Multiply && binary_outcome(table, operation, left, right)
            is Operands ==> table[left].rows_num == table[right].rows_num && table[left].cols_num
            == table[right].cols_num,
        operation == Operation::Multiply && binary_outcome(table, operation, left, right)
            is Operands ==> table[left].cols_num == table[right].rows_num,
{
}

/// A scaling of a defined matrix hands out that matrix and the factor,
/// whatever the factor is; of an undefined name it hands out nothing.
pub proof fn scaling_hands_out_the_named_matrix(table: Table, name: Seq<char>, factor: Seq<char>)
    ensures
        table.dom().contains(name) ==> outcome_of(table, CommandView::Scale(name, factor)) == (
        OutcomeView::ScaleOperand { name, matrix: table[name], factor }),
        !table.dom().contains(name) ==> outcome_of(table, CommandView::Scale(name, factor)) == (
        OutcomeView::NotFound { name }),
{
}

/// The table has the shape that the matrix has: as many rows, each with
/// as many cells as the matrix has columns.
pub open spec fn is_table_of<T>(table: Seq<Vec<T>>, matrix: MatrixView) -> bool {
    table.len() == matrix.rows_num && has_width(table, matrix.cols_num as int)
}

/// What the interpreter lets pass as a sum or a difference can be computed:
/// tables with the shapes of two matrices that fit either operation have
/// the same shape, which is then that of the result.
pub proof fn fitting_sums_can_be_computed<T>(
    operation: Operation,
    left: MatrixView,
    right: MatrixView,
    left_table: Seq<Vec<T>>,
    right_table: Seq<Vec<T>>,
)
    requires
        operation != Operation::Multiply,
        fits(operation, left, right),
        is_table_of(left_table, left),
        is_table_of(right_table, right),
    ensures
        same_shape(left_table, right_table),
{
}

/// What the interpreter lets pass as a product can be computed: tables
/// with the shapes of two matrices that fit a multiplication can be
/// multiplied, and the result has the rows of the left matrix and the
/// columns of the right one.
pub proof fn fitting_products_can_be_computed<T>(
    left: MatrixView,
    right: MatrixView,
    left_table: Seq<Vec<T>>,
    right_table: Seq<Vec<T>>,
)
    requires
        fits(Operation::Multiply, left, right),
        right.rows_num == 0 ==> right.cols_num == 0,
        is_table_of(left_table, left),
        is_table_of(right_table, right),
    ensures
        can_multiply(left_table, right_table),
        width_of(right_table) == right.cols_num,
{
    if right_table.len() > 0 {
        assert(right_table[0].len() == right.cols_num);
    }
}

} // verus!
