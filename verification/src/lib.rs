//! A small language for naming matrices and asking for sums, differences,
//! products and scalings of them: its grammar, the commands read from a
//! text, and the interpreter that resolves names and checks shapes.

pub mod arithmetic;
pub mod command;
pub mod error;
pub mod extraction;
pub mod grammar;
pub mod interpreter;
pub mod laws;
pub mod lexicon;
pub mod matrix;
pub mod parser;
pub mod writing;

pub use arithmetic::{elementwise, product, scaled};
pub use command::Command;
pub use extraction::{parse_file, parse_matrix, parse_operation};
pub use interpreter::{run_iterpreter, Interpreter, Operation, Outcome};
pub use error::ParseError;
pub use matrix::{Matrix, Number};
pub use parser::{MatrixParser, Pair, Rule, Statement};
