use catnukh_matrix_parser::{
    elementwise, parse_file, parse_matrix, product, run_iterpreter, scaled, Command, Interpreter,
    Matrix, Number, Operation, Outcome,
};

fn matrix(rows: &[&[&str]]) -> Matrix {
    let tokens: Vec<Vec<String>> =
        rows.iter().map(|row| row.iter().map(|t| t.to_string()).collect()).collect();
    parse_matrix(&tokens).unwrap()
}

fn name(text: &str) -> String {
    text.to_string()
}

fn value(number: &Number) -> f64 {
    number.as_str().parse::<f64>().unwrap()
}

fn values(matrix: &Matrix) -> Vec<Vec<f64>> {
    matrix.values(value)
}

/// The arithmetic that a caller does with what the interpreter hands out.
fn compute(outcome: &Outcome) -> Option<Vec<Vec<f64>>> {
    match outcome {
        Outcome::Operands { operation, left, right, .. } => {
            let a = values(left);
            let b = values(right);
            match operation {
                Operation::Add => elementwise(&a, &b, |x, y| x + y),
                Operation::Subtract => elementwise(&a, &b, |x, y| x - y),
                Operation::Multiply => product(&a, &b, 0.0, |x, y| x * y, |x, y| x + y),
            }
        }
        Outcome::ScaleOperand { matrix, factor, .. } => {
            Some(scaled(&values(matrix), value(factor), |x, y| x * y))
        }
        _ => None,
    }
}

fn run(text: &str) -> Vec<Outcome> {
    run_iterpreter(parse_file(text).unwrap())
}

#[test]
fn define_reports_name_and_shape() {
    let outcomes = run("mat A = [[1, 2, 3], [4, 5, 6]]");
    assert_eq!(outcomes, vec![Outcome::Defined { name: name("A"), rows_num: 2, cols_num: 3 }]);
}

#[test]
fn define_binds_the_name() {
    let mut interpreter = Interpreter::new();
    assert_eq!(interpreter.get(&name("A")), None);
    interpreter.define(name("A"), matrix(&[&["1", "2"]]));
    assert_eq!(interpreter.get(&name("A")), Some(&matrix(&[&["1", "2"]])));
    assert_eq!(interpreter.get(&name("B")), None);
    assert_eq!(interpreter.get(&name("a")), None);
}

#[test]
fn last_definition_wins() {
    let mut interpreter = Interpreter::new();
    interpreter.define(name("A"), matrix(&[&["1"]]));
    interpreter.define(name("B"), matrix(&[&["2"]]));
    interpreter.define(name("A"), matrix(&[&["3", "4"]]));
    assert_eq!(interpreter.get(&name("A")), Some(&matrix(&[&["3", "4"]])));
    assert_eq!(interpreter.get(&name("B")), Some(&matrix(&[&["2"]])));
    let outcomes = run("mat A = [[1]]\nmat A = [[1, 2], [3, 4]]\nscale A, 1");
    assert_eq!(
        outcomes[2],
        Outcome::ScaleOperand {
            name: name("A"),
            matrix: matrix(&[&["1", "2"], &["3", "4"]]),
            factor: Number::new("1").unwrap(),
        }
    );
}

#[test]
fn round_trip_stores_the_matrix_as_written() {
    let mut interpreter = Interpreter::new();
    let commands = parse_file("mat X = [[1.5, -2], [0, 42]]").unwrap();
    let outcomes = interpreter.run(commands);
    assert_eq!(outcomes, vec![Outcome::Defined { name: name("X"), rows_num: 2, cols_num: 2 }]);
    let stored = interpreter.get(&name("X")).unwrap();
    assert_eq!(stored, &matrix(&[&["1.5", "-2"], &["0", "42"]]));
    assert_eq!(values(stored), vec![vec![1.5, -2.0], vec![0.0, 42.0]]);
}

#[test]
fn undefined_names_are_both_reported_and_the_run_goes_on() {
    let outcomes = run("add A, B\nmat A = [[1]]\nadd A, A");
    assert_eq!(outcomes.len(), 3);
    assert_eq!(
        outcomes[0],
        Outcome::Undefined {
            operation: Operation::Add,
            left_name: name("A"),
            right_name: name("B"),
            names: vec![name("A"), name("B")],
        }
    );
    assert_eq!(outcomes[1], Outcome::Defined { name: name("A"), rows_num: 1, cols_num: 1 });
    assert_eq!(compute(&outcomes[2]), Some(vec![vec![2.0]]));
}

#[test]
fn one_undefined_name_is_reported_alone() {
    let outcomes = run("mat A = [[1]]\nsub A, B\nmul B, A\nmul B, B");
    assert_eq!(
        outcomes[1],
        Outcome::Undefined {
            operation: Operation::Subtract,
            left_name: name("A"),
            right_name: name("B"),
            names: vec![name("B")],
        }
    );
    assert_eq!(
        outcomes[2],
        Outcome::Undefined {
            operation: Operation::Multiply,
            left_name: name("B"),
            right_name: name("A"),
            names: vec![name("B")],
        }
    );
    assert_eq!(
        outcomes[3],
        Outcome::Undefined {
            operation: Operation::Multiply,
            left_name: name("B"),
            right_name: name("B"),
            names: vec![name("B"), name("B")],
        }
    );
}

#[test]
fn scaling_an_undefined_name_finds_nothing() {
    let outcomes = run("scale A, 2\nmat A = [[1]]\nscale A, 2");
    assert_eq!(outcomes[0], Outcome::NotFound { name: name("A") });
    assert_eq!(compute(&outcomes[2]), Some(vec![vec![2.0]]));
}

#[test]
fn shape_mismatch_gives_no_result() {
    let outcomes = run("mat A = [[1, 2], [3, 4]]\nmat B = [[1, 2, 3], [4, 5, 6]]\nadd A, B\nsub A, B");
    assert_eq!(
        outcomes[2],
        Outcome::ShapeMismatch {
            operation: Operation::Add,
            left_name: name("A"),
            left_rows: 2,
            left_cols: 2,
            right_name: name("B"),
            right_rows: 2,
            right_cols: 3,
        }
    );
    assert_eq!(compute(&outcomes[2]), None);
    assert_eq!(compute(&outcomes[3]), None);
}

#[test]
fn rows_count_for_sums_as_columns_do() {
    let outcomes = run("mat A = [[1, 2]]\nmat B = [[1, 2], [3, 4]]\nadd A, B");
    assert_eq!(
        outcomes[2],
        Outcome::ShapeMismatch {
            operation: Operation::Add,
            left_name: name("A"),
            left_rows: 1,
            left_cols: 2,
            right_name: name("B"),
            right_rows: 2,
            right_cols: 2,
        }
    );
}

#[test]
fn product_needs_columns_to_meet_rows() {
    let text = "mat A = [[1, 2, 3], [4, 5, 6]]\nmat B = [[1, 2], [3, 4]]\nmul A, B\nmul B, A";
    let outcomes = run(text);
    assert_eq!(
        outcomes[2],
        Outcome::ShapeMismatch {
            operation: Operation::Multiply,
            left_name: name("A"),
            left_rows: 2,
            left_cols: 3,
            right_name: name("B"),
            right_rows: 2,
            right_cols: 2,
        }
    );
    assert_eq!(
        compute(&outcomes[3]),
        Some(vec![vec![9.0, 12.0, 15.0], vec![19.0, 26.0, 33.0]])
    );
}

#[test]
fn operands_are_the_named_matrices() {
    let outcomes = run("mat A = [[1, 2]]\nmat B = [[3, 4]]\nsub B, A");
    assert_eq!(
        outcomes[2],
        Outcome::Operands {
            operation: Operation::Subtract,
            left_name: name("B"),
            right_name: name("A"),
            left: matrix(&[&["3", "4"]]),
            right: matrix(&[&["1", "2"]]),
        }
    );
}

#[test]
fn results_are_not_stored() {
    let mut interpreter = Interpreter::new();
    let commands = parse_file("mat A = [[1]]\nmat B = [[2]]\nadd A, B\nscale A, 5").unwrap();
    interpreter.run(commands);
    assert_eq!(interpreter.get(&name("A")), Some(&matrix(&[&["1"]])));
    assert_eq!(interpreter.get(&name("B")), Some(&matrix(&[&["2"]])));
}

#[test]
fn execute_takes_one_command_at_a_time() {
    let mut interpreter = Interpreter::new();
    let first = interpreter.execute(Command::Scale(name("A"), Number::new("2").unwrap()));
    assert_eq!(first, Outcome::NotFound { name: name("A") });
    let second = interpreter.execute(Command::Define(name("A"), matrix(&[&["1", "2"]])));
    assert_eq!(second, Outcome::Defined { name: name("A"), rows_num: 1, cols_num: 2 });
    let third = interpreter.execute(Command::Multiply(name("A"), name("A")));
    assert_eq!(
        third,
        Outcome::ShapeMismatch {
            operation: Operation::Multiply,
            left_name: name("A"),
            left_rows: 1,
            left_cols: 2,
            right_name: name("A"),
            right_rows: 1,
            right_cols: 2,
        }
    );
}

#[test]
fn no_commands_no_outcomes() {
    assert_eq!(run_iterpreter(Vec::new()), vec![]);
    assert_eq!(run("# nothing here\n"), vec![]);
}

#[test]
fn sum_of_two_matrices() {
    let outcomes = run("mat A = [[1,2],[3,4]]\nmat B = [[5,6],[7,8]]\nadd A, B");
    assert_eq!(compute(&outcomes[2]), Some(vec![vec![6.0, 8.0], vec![10.0, 12.0]]));
}

#[test]
fn difference_of_two_matrices() {
    let outcomes = run("mat A = [[1,2],[3,4]]\nmat B = [[5,6],[7,8.5]]\nsub A, B");
    assert_eq!(compute(&outcomes[2]), Some(vec![vec![-4.0, -4.0], vec![-4.0, -4.5]]));
}

#[test]
fn product_of_two_matrices() {
    let outcomes = run("mat A = [[1,2],[3,4]]\nmat B = [[5,6],[7,8]]\nmul A, B");
    assert_eq!(compute(&outcomes[2]), Some(vec![vec![19.0, 22.0], vec![43.0, 50.0]]));
}

#[test]
fn scaling_by_minus_one() {
    let outcomes = run("mat A = [[1,2],[3,4]]\nscale A, -1");
    assert_eq!(compute(&outcomes[1]), Some(vec![vec![-1.0, -2.0], vec![-3.0, -4.0]]));
}

#[test]
fn scaling_by_zero_and_by_a_fraction() {
    let outcomes = run("mat A = [[1,-2],[3,4]]\nscale A, 0\nscale A, 0.5");
    assert_eq!(compute(&outcomes[1]), Some(vec![vec![0.0, -0.0], vec![0.0, 0.0]]));
    assert_eq!(compute(&outcomes[2]), Some(vec![vec![0.5, -1.0], vec![1.5, 2.0]]));
}
