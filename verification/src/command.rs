//! The instructions of the language.

use vstd::prelude::*;
use crate::lexicon::is_number;
use crate::matrix::{Matrix, MatrixView, Number};

verus! {

/// One instruction. Matrices are referred to by name; only `Define` holds
/// one.
#[derive(Debug, PartialEq, Eq)]
pub enum Command {
    /// Binds the name to the matrix.
    Define(String, Matrix),
    /// Asks for the sum of the two named matrices.
    Add(String, String),
    /// Asks for the first named matrix minus the second.
    Subtract(String, String),
    /// Asks for the product of the two named matrices.
    Multiply(String, String),
    /// Asks for the named matrix with every cell multiplied by the factor.
    Scale(String, Number),
}

/// A `Command` with its names and numerals as sequences of characters.
pub enum CommandView {
    Define(Seq<char>, MatrixView),
    Add(Seq<char>, Seq<char>),
    Subtract(Seq<char>, Seq<char>),
    Multiply(Seq<char>, Seq<char>),
    Scale(Seq<char>, Seq<char>),
}

impl View for Command {
    type V = CommandView;

    open spec fn view(&self) -> CommandView {
        match self {
            Command::Define(name, matrix) => CommandView::Define(name@, matrix@),
            Command::Add(left, right) => CommandView::Add(left@, right@),
            Command::Subtract(left, right) => CommandView::Subtract(left@, right@),
            Command::Multiply(left, right) => CommandView::Multiply(left@, right@),
            Command::Scale(name, factor) => CommandView::Scale(name@, factor@),
        }
    }
}

/// The views of a list of commands, in order.
pub open spec fn commands_view(commands: Seq<Command>) -> Seq<CommandView> {
    Seq::new(commands.len(), |i: int| commands[i]@)
}

/// The command is sound: the matrix of a definition is well formed and the
/// factor of a scaling is a number.
pub open spec fn is_sound(command: CommandView) -> bool {
    match command {
        CommandView::Define(_, matrix) => matrix.wf(),
        CommandView::Scale(_, factor) => is_number(factor),
        _ => true,
    }
}

} // verus!
