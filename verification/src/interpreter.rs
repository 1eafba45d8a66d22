//! The interpreter: a table of named matrices and, for each command, what
//! it asks for once the names are resolved and the shapes compared.
//!
//! The interpreter decides; it computes no cell. Where a command can be
//! carried out it hands out the operands, and the caller does the arithmetic
//! in the number type of its choice.

use vstd::hash_map::StringHashMap;
use vstd::prelude::*;
use crate::command::{commands_view, is_sound, Command, CommandView};
use crate::lexicon::{is_number, texts};
use crate::matrix::{Matrix, MatrixView, Number};

verus! {

/// The operations on two matrices.
#[derive(Clone, Copy, Debug, PartialEq, Eq, Structural)]
pub enum Operation {
    Add,
    Subtract,
    Multiply,
}

/// What became of one command.
#[derive(Debug, PartialEq, Eq)]
pub enum Outcome {
    /// The name now stands for a matrix of this shape.
    Defined { name: String, rows_num: usize, cols_num: usize },
    /// Both names are defined and the shapes fit the operation: these are
    /// the matrices to combine, `left` the first named.
    Operands { operation: Operation, left_name: String, right_name: String, left: Matrix, right: Matrix },
    /// The name is defined: this is the matrix to scale, and the factor.
    ScaleOperand { name: String, matrix: Matrix, factor: Number },
    /// At least one name of an operation on two matrices is not defined.
    /// `names` holds the undefined ones in the order in which the command
    /// gives them.
    Undefined { operation: Operation, left_name: String, right_name: String, names: Vec<String> },
    /// The name given to a scaling is not defined.
    NotFound { name: String },
    /// Both names are defined but the shapes do not fit the operation.
    ShapeMismatch {
        operation: Operation,
        left_name: String,
        left_rows: usize,
        left_cols: usize,
        right_name: String,
        right_rows: usize,
        right_cols: usize,
    },
}

/// An `Outcome` with its names, numerals and matrices as mathematics sees
/// them.
pub enum OutcomeView {
    Defined { name: Seq<char>, rows_num: nat, cols_num: nat },
    Operands {
        operation: Operation,
        left_name: Seq<char>,
        right_name: Seq<char>,
        left: MatrixView,
        right: MatrixView,
    },
    ScaleOperand { name: Seq<char>, matrix: MatrixView, factor: Seq<char> },
    Undefined {
        operation: Operation,
        left_name: Seq<char>,
        right_name: Seq<char>,
        names: Seq<Seq<char>>,
    },
    NotFound { name: Seq<char> },
    ShapeMismatch {
        operation: Operation,
        left_name: Seq<char>,
        left_rows: nat,
        left_cols: nat,
        right_name: Seq<char>,
        right_rows: nat,
        right_cols: nat,
    },
}

impl View for Outcome {
    type V = OutcomeView;

    open spec fn view(&self) -> OutcomeView {
        match self {
            Outcome::Defined { name, rows_num, cols_num } => OutcomeView::Defined {
                name: name@,
                rows_num: *rows_num as nat,
                cols_num: *cols_num as nat,
            },
            Outcome::Operands { operation, left_name, right_name, left, right } => {
                OutcomeView::Operands {
                    operation: *operation,
                    left_name: left_name@,
                    right_name: right_name@,
                    left: left@,
                    right: right@,
                }
            },
            Outcome::ScaleOperand { name, matrix, factor } => OutcomeView::ScaleOperand {
                name: name@,
                matrix: matrix@,
                factor: factor@,
            },
            Outcome::Undefined { operation, left_name, right_name, names } => {
                OutcomeView::Undefined {
                    operation: *operation,
                    left_name: left_name@,
                    right_name: right_name@,
                    names: texts(names@),
                }
            },
            Outcome::NotFound { name } => OutcomeView::NotFound { name: name@ },
            Outcome::ShapeMismatch {
                operation,
                left_name,
                left_rows,
                left_cols,
                right_name,
                right_rows,
                right_cols,
            } => OutcomeView::ShapeMismatch {
                operation: *operation,
                left_name: left_name@,
                left_rows: *left_rows as nat,
                left_cols: *left_cols as nat,
                right_name: right_name@,
                right_rows: *right_rows as nat,
                right_cols: *right_cols as nat,
            },
        }
    }
}

/// The table of named matrices as a map from names to matrices.
pub type Table = Map<Seq<char>, MatrixView>;

/// Whether the shapes of `left` and `right` allow the operation: equal
/// shapes for a sum or a difference; for a product, as many columns on the
/// left as rows on the right.
pub open spec fn fits(operation: Operation, left: MatrixView, right: MatrixView) -> bool {
    match operation {
        Operation::Add | Operation::Subtract => left.rows_num == right.rows_num && left.cols_num
            == right.cols_num,
        Operation::Multiply => left.cols_num == right.rows_num,
    }
}

/// Those of the two names that the table does not hold, in order.
pub open spec fn undefined_names(table: Table, left: Seq<char>, right: Seq<char>) -> Seq<
    Seq<char>,
> {
    let first = if table.dom().contains(left) {
        Seq::<Seq<char>>::empty()
    } else {
        seq![left]
    };
    if table.dom().contains(right) {
        first
    } else {
        first.push(right)
    }
}

/// What an operation on two named matrices comes to.
pub open spec fn binary_outcome(
    table: Table,
    operation: Operation,
    left: Seq<char>,
    right: Seq<char>,
) -> OutcomeView {
    if !table.dom().contains(left) || !table.dom().contains(right) {
        OutcomeView::Undefined {
            operation,
            left_name: left,
            right_name: right,
            names: undefined_names(table, left, right),
        }
    } else if fits(operation, table[left], table[right]) {
        OutcomeView::Operands {
            operation,
            left_name: left,
            right_name: right,
            left: table[left],
            right: table[right],
        }
    } else {
        OutcomeView::ShapeMismatch {
            operation,
            left_name: left,
            left_rows: table[left].rows_num,
            left_cols: table[left].cols_num,
            right_name: right,
            right_rows: table[right].rows_num,
            right_cols: table[right].cols_num,
        }
    }
}

/// What one command comes to in a given table.
pub open spec fn outcome_of(table: Table, command: CommandView) -> OutcomeView {
    match command {
        CommandView::Define(name, matrix) => OutcomeView::Defined {
            name,
            rows_num: matrix.rows_num,
            cols_num: matrix.cols_num,
        },
        CommandView::Add(left, right) => binary_outcome(table, Operation::Add, left, right),
        CommandView::Subtract(left, right) => binary_outcome(
            table,
            Operation::Subtract,
            left,
            right,
        ),
        CommandView::Multiply(left, right) => binary_outcome(
            table,
            Operation::Multiply,
            left,
            right,
        ),
        CommandView::Scale(name, factor) => if table.dom().contains(name) {
            OutcomeView::ScaleOperand { name, matrix: table[name], factor }
        } else {
            OutcomeView::NotFound { name }
        },
    }
}

/// The table after one command: `Define` binds its name, replacing what the
/// name stood for; every other command leaves the table as it was.
pub open spec fn table_after(table: Table, command: CommandView) -> Table {
    match command {
        CommandView::Define(name, matrix) => table.insert(name, matrix),
        _ => table,
    }
}

/// The table after a list of commands, carried out in order.
pub open spec fn table_after_all(table: Table, commands: Seq<CommandView>) -> Table
    decreases commands.len(),
{
    if commands.len() == 0 {
        table
    } else {
        table_after_all(table_after(table, commands[0]), commands.skip(1))
    }
}

/// The outcomes of a list of commands, carried out in order from `table`:
/// one for each command, each in the table that the commands before it left.
pub open spec fn outcomes_of(table: Table, commands: Seq<CommandView>) -> Seq<OutcomeView>
    decreases commands.len(),
{
    if commands.len() == 0 {
        Seq::empty()
    } else {
        seq![outcome_of(table, commands[0])] + outcomes_of(
            table_after(table, commands[0]),
            commands.skip(1),
        )
    }
}

/// Every matrix of the table is well formed.
pub open spec fn holds_sound_matrices(table: Table) -> bool {
    forall|name: Seq<char>| table.dom().contains(name) ==> (#[trigger] table[name]).wf()
}

/// What the outcome hands out is well formed: its matrices, and the factor
/// of a scaling.
pub open spec fn hands_out_sound_values(outcome: OutcomeView) -> bool {
    match outcome {
        OutcomeView::Operands { left, right, .. } => left.wf() && right.wf(),
        OutcomeView::ScaleOperand { matrix, factor, .. } => matrix.wf() && is_number(factor),
        _ => true,
    }
}

/// Sound commands keep the table sound and have well-formed matrices
/// handed out: where every matrix of the table is well formed and the
/// command is sound, so is every matrix of the table after it, and so is
/// what its outcome holds.
pub proof fn sound_commands_keep_the_table_sound(table: Table, command: CommandView)
    requires
        holds_sound_matrices(table),
        is_sound(command),
    ensures
        holds_sound_matrices(table_after(table, command)),
        hands_out_sound_values(outcome_of(table, command)),
{
}

/// A run of sound commands from a sound table ends in a sound table, and
/// all it hands out is well formed.
pub proof fn sound_runs_stay_sound(table: Table, commands: Seq<CommandView>)
    requires
        holds_sound_matrices(table),
        forall|i: int| 0 <= i < commands.len() ==> is_sound(#[trigger] commands[i]),
    ensures
        holds_sound_matrices(table_after_all(table, commands)),
        forall|i: int|
            0 <= i < outcomes_of(table, commands).len() ==> hands_out_sound_values(
                #[trigger] outcomes_of(table, commands)[i],
            ),
    decreases commands.len(),
{
    if commands.len() > 0 {
        let next = table_after(table, commands[0]);
        let rest = commands.skip(1);
        sound_commands_keep_the_table_sound(table, commands[0]);
        assert forall|i: int| 0 <= i < rest.len() implies is_sound(#[trigger] rest[i]) by {
            assert(rest[i] == commands[i + 1]);
        }
        sound_runs_stay_sound(next, rest);
        let all = outcomes_of(table, commands);
        let tail = outcomes_of(next, rest);
        assert forall|i: int| 0 <= i < all.len() implies hands_out_sound_values(
            #[trigger] all[i],
        ) by {
            if i > 0 {
                assert(all[i] == tail[i - 1]);
            }
        }
    }
}

/// The table of named matrices, with the commands carried out on it.
pub struct Interpreter {
    table: StringHashMap<Matrix>,
}

impl View for Interpreter {
    type V = Table;

    closed spec fn view(&self) -> Table {
        self.table@.map_values(|matrix: Matrix| matrix@)
    }
}

impl Interpreter {
    /// An interpreter in which no name is defined.
    pub fn new() -> (r: Interpreter)
        ensures
            r@ == Map::<Seq<char>, MatrixView>::empty(),
    {
        let r = Interpreter { table: StringHashMap::new() };
        assert(r@ =~= Map::<Seq<char>, MatrixView>::empty());
        r
    }

    /// The matrix that `name` stands for, or `None` where it is not defined.
    pub fn get(&self, name: &String) -> (r: Option<&Matrix>)
        ensures
            match r {
                Some(matrix) => self@.dom().contains(name@) && matrix@ == self@[name@],
                None => !self@.dom().contains(name@),
            },
    {
        self.table.get(name.as_str())
    }

    /// Binds `name` to `matrix`. What the name stood for before is
    /// forgotten; no other name is touched.
    pub fn define(&mut self, name: String, matrix: Matrix)
        ensures
            final(self)@ == old(self)@.insert(name@, matrix@),
    {
        self.table.insert(name, matrix);
        assert(self@ =~= old(self)@.insert(name@, matrix@));
    }

    /// Resolves the two names of an operation and compares the shapes.
    fn resolve(&self, operation: Operation, left_name: String, right_name: String) -> (r: Outcome)
        ensures
            r@ == binary_outcome(self@, operation, left_name@, right_name@),
    {
        match (self.get(&left_name), self.get(&right_name)) {
            (Some(left), Some(right)) => {
                let fitting = match operation {
                    Operation::Add | Operation::Subtract => left.rows_num == right.rows_num
                        && left.cols_num == right.cols_num,
                    Operation::Multiply => left.cols_num == right.rows_num,
                };
                if fitting {
                    let left = left.clone();
                    let right = right.clone();
                    Outcome::Operands { operation, left_name, right_name, left, right }
                } else {
                    Outcome::ShapeMismatch {
                        operation,
                        left_rows: left.rows_num,
                        left_cols: left.cols_num,
                        right_rows: right.rows_num,
                        right_cols: right.cols_num,
                        left_name,
                        right_name,
                    }
                }
            },
            (found_left, found_right) => {
                let mut names: Vec<String> = Vec::new();
                if found_left.is_none() {
                    names.push(left_name.clone());
                }
                if found_right.is_none() {
                    names.push(right_name.clone());
                }
                assert(texts(names@) =~= undefined_names(self@, left_name@, right_name@));
                Outcome::Undefined { operation, left_name, right_name, names }
            },
        }
    }

    /// Carries out one command. `Define` binds its name and reports the
    /// shape. Every other command leaves the table as it is and reports the
    /// operands, the undefined names or the shapes that do not fit.
    pub fn execute(&mut self, command: Command) -> (r: Outcome)
        ensures
            r@ == outcome_of(old(self)@, command@),
            final(self)@ == table_after(old(self)@, command@),
            holds_sound_matrices(old(self)@) && is_sound(command@) ==> holds_sound_matrices(
                final(self)@,
            ) && hands_out_sound_values(r@),
    {
        proof {
            if holds_sound_matrices(self@) && is_sound(command@) {
                sound_commands_keep_the_table_sound(self@, command@);
            }
        }
        match command {
            Command::Define(name, matrix) => {
                let rows_num: usize = matrix.rows_num;
                let cols_num: usize = matrix.cols_num;
                let shown = name.clone();
                self.define(name, matrix);
                Outcome::Defined { name: shown, rows_num, cols_num }
            },
            Command::Add(left, right) => self.resolve(Operation::Add, left, right),
            Command::Subtract(left, right) => self.resolve(Operation::Subtract, left, right),
            Command::Multiply(left, right) => self.resolve(Operation::Multiply, left, right),
            Command::Scale(name, factor) => {
                match self.get(&name) {
                    Some(found) => {
                        let matrix = found.clone();
                        Outcome::ScaleOperand { name, matrix, factor }
                    },
                    None => Outcome::NotFound { name },
                }
            },
        }
    }

    /// Carries out the commands in order and returns their outcomes, one
    /// for each command. A command that cannot be carried out has its
    /// outcome like any other, and the commands after it are carried out.
    pub fn run(&mut self, commands: Vec<Command>) -> (r: Vec<Outcome>)
        ensures
            outcomes_view(r@) == outcomes_of(old(self)@, commands_view(commands@)),
            final(self)@ == table_after_all(old(self)@, commands_view(commands@)),
            holds_sound_matrices(old(self)@) && (forall|i: int|
                0 <= i < commands.len() ==> is_sound(#[trigger] commands[i]@))
                ==> holds_sound_matrices(final(self)@) && forall|i: int|
                0 <= i < r.len() ==> hands_out_sound_values(#[trigger] r[i]@),
    {
        proof {
            let views = commands_view(commands@);
            if holds_sound_matrices(self@) && (forall|i: int|
                0 <= i < commands.len() ==> is_sound(#[trigger] commands[i]@)) {
                assert forall|i: int| 0 <= i < views.len() implies is_sound(#[trigger] views[i]) by {
                    assert(views[i] == commands[i]@);
                }
                sound_runs_stay_sound(self@, views);
            }
        }
        let ghost all = commands_view(commands@);
        let ghost start = self@;
        let mut outcomes: Vec<Outcome> = Vec::new();
        assert(all.skip(0) =~= all);
        assert(outcomes_view(outcomes@) + outcomes_of(start, all) =~= outcomes_of(start, all));
        for command in it: commands
            invariant
                it.seq() == commands@,
                all == commands_view(commands@),
                outcomes_of(start, all) == outcomes_view(outcomes@) + outcomes_of(
                    self@,
                    all.skip(it.index() as int),
                ),
                table_after_all(start, all) == table_after_all(self@, all.skip(it.index() as int)),
        {
            let ghost i = it.index() as int;
            let ghost before = self@;
            let ghost done = outcomes_view(outcomes@);
            let outcome = self.execute(command);
            outcomes.push(outcome);
            proof {
                let rest = all.skip(i);
                assert(rest[0] == all[i]);
                assert(rest.skip(1) =~= all.skip(i + 1));
                assert(outcomes_view(outcomes@) =~= done.push(outcome@));
                assert(done.push(outcome@) + outcomes_of(self@, all.skip(i + 1)) =~= done + (
                seq![outcome@] + outcomes_of(self@, all.skip(i + 1))));
            }
        }
        assert(all.skip(all.len() as int).len() == 0);
        assert(outcomes_view(outcomes@) + Seq::<OutcomeView>::empty() =~= outcomes_view(outcomes@));
        proof {
            let made = outcomes_of(start, all);
            assert(made == outcomes_view(outcomes@));
            assert forall|i: int| 0 <= i < outcomes.len() && (forall|k: int|
                0 <= k < made.len() ==> hands_out_sound_values(
                    #[trigger] made[k],
                )) implies hands_out_sound_values(#[trigger] outcomes[i]@) by {
                assert(made[i] == outcomes[i]@);
            }
        }
        outcomes
    }
}

/// The views of a list of outcomes, in order.
pub open spec fn outcomes_view(outcomes: Seq<Outcome>) -> Seq<OutcomeView> {
    Seq::new(outcomes.len(), |i: int| outcomes[i]@)
}

/// Carries out the commands in order, starting with no name defined, and
/// returns their outcomes, one for each command.
pub fn run_iterpreter(commands: Vec<Command>) -> (r: Vec<Outcome>)
    ensures
        outcomes_view(r@) == outcomes_of(
            Map::<Seq<char>, MatrixView>::empty(),
            commands_view(commands@),
        ),
        (forall|i: int| 0 <= i < commands.len() ==> is_sound(#[trigger] commands[i]@)) ==> forall|
            i: int,
        | 0 <= i < r.len() ==> hands_out_sound_values(#[trigger] r[i]@),
{
    let mut interpreter = Interpreter::new();
    interpreter.run(commands)
}

} // verus!
