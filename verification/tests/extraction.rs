use catnukh_matrix_parser::extraction::trim;
use catnukh_matrix_parser::{
    parse_file, parse_matrix, parse_operation, Command, Matrix, MatrixParser, Number, ParseError,
    Statement,
};

fn tokens(rows: &[&[&str]]) -> Vec<Vec<String>> {
    rows.iter().map(|row| row.iter().map(|t| t.to_string()).collect()).collect()
}

fn matrix(rows: &[&[&str]]) -> Matrix {
    parse_matrix(&tokens(rows)).unwrap()
}

fn number(token: &str) -> Number {
    Number::new(token).unwrap()
}

#[test]
fn number_keeps_its_text() {
    assert_eq!(number("123.456").as_str(), "123.456");
    assert_eq!(number("-0.5").as_str(), "-0.5");
    assert_eq!(number("007").as_str(), "007");
}

#[test]
fn number_rejects_what_is_no_numeral() {
    assert_eq!(Number::new("1x"), Err(ParseError::ParseInvalidNumber("1x".to_string())));
    assert_eq!(Number::new(""), Err(ParseError::ParseInvalidNumber(String::new())));
    assert_eq!(Number::new(" 1"), Err(ParseError::ParseInvalidNumber(" 1".to_string())));
    assert_eq!(Number::new("1e3"), Err(ParseError::ParseInvalidNumber("1e3".to_string())));
    assert_eq!(Number::new("1.2.3"), Err(ParseError::ParseInvalidNumber("1.2.3".to_string())));
}

#[test]
fn matrix_counts_rows_and_columns() {
    let m = matrix(&[&["1", "2", "3"], &["4", "5", "6"]]);
    assert_eq!(m.rows_num, 2);
    assert_eq!(m.cols_num, 3);
    assert_eq!(m.matrix.len(), 2);
    assert_eq!(m.matrix[1][2].as_str(), "6");
    assert_eq!(m.matrix[0][0].as_str(), "1");
}

#[test]
fn matrix_without_rows_has_no_columns() {
    let m = parse_matrix(&Vec::new()).unwrap();
    assert_eq!(m.rows_num, 0);
    assert_eq!(m.cols_num, 0);
    assert!(m.matrix.is_empty());
}

#[test]
fn matrix_clone_is_equal() {
    let m = matrix(&[&["1.5", "-2"], &["3", "4"]]);
    assert_eq!(m.clone(), m);
}

#[test]
fn row_length_mismatch_names_both_lengths() {
    assert_eq!(
        parse_file("mat A = [[1,2],[3]]"),
        Err(ParseError::MismatchedRowLength { expected: 2, found: 1 })
    );
}

#[test]
fn row_length_mismatch_is_that_of_the_first_offending_row() {
    assert_eq!(
        parse_matrix(&tokens(&[&["1", "2"], &["3", "4"], &["5"], &["6", "7", "8"]])),
        Err(ParseError::MismatchedRowLength { expected: 2, found: 1 })
    );
    assert_eq!(
        parse_matrix(&tokens(&[&["1"], &["3", "4", "9"], &["5", "6"]])),
        Err(ParseError::MismatchedRowLength { expected: 1, found: 3 })
    );
}

#[test]
fn invalid_number_is_named() {
    assert_eq!(
        parse_matrix(&tokens(&[&["1", "2"], &["3", "4x"]])),
        Err(ParseError::ParseInvalidNumber("4x".to_string()))
    );
}

#[test]
fn faults_are_found_row_by_row() {
    assert_eq!(
        parse_matrix(&tokens(&[&["1", "2"], &["3", "x", "5"]])),
        Err(ParseError::ParseInvalidNumber("x".to_string()))
    );
    assert_eq!(
        parse_matrix(&tokens(&[&["1", "2"], &["3"], &["x", "5"]])),
        Err(ParseError::MismatchedRowLength { expected: 2, found: 1 })
    );
    assert_eq!(
        parse_matrix(&tokens(&[&["1", "2"], &["a", "b"]])),
        Err(ParseError::ParseInvalidNumber("a".to_string()))
    );
}

#[test]
fn trim_takes_white_space_off_both_ends() {
    assert_eq!(trim("  A \t"), "A");
    assert_eq!(trim("\nmy name\r\n"), "my name");
    assert_eq!(trim("A"), "A");
    assert_eq!(trim("   "), "");
    assert_eq!(trim(""), "");
}

#[test]
fn operation_trims_names() {
    let statement = Statement::Add { left: " A ".to_string(), right: "B\n".to_string() };
    assert_eq!(parse_operation(statement), Ok(Command::Add("A".to_string(), "B".to_string())));
    let statement = Statement::MatDef { name: "\tM ".to_string(), rows: tokens(&[&["1"]]) };
    assert_eq!(
        parse_operation(statement),
        Ok(Command::Define("M".to_string(), matrix(&[&["1"]])))
    );
}

#[test]
fn operation_keeps_the_order_of_names() {
    let statement = Statement::Subtract { left: "A".to_string(), right: "B".to_string() };
    assert_eq!(
        parse_operation(statement),
        Ok(Command::Subtract("A".to_string(), "B".to_string()))
    );
    let statement = Statement::Mult { left: "B".to_string(), right: "A".to_string() };
    assert_eq!(
        parse_operation(statement),
        Ok(Command::Multiply("B".to_string(), "A".to_string()))
    );
}

#[test]
fn operation_checks_the_factor_of_a_scaling() {
    let statement = Statement::Scale { name: "A".to_string(), factor: "-2.5".to_string() };
    assert_eq!(parse_operation(statement), Ok(Command::Scale("A".to_string(), number("-2.5"))));
    let statement = Statement::Scale { name: "A".to_string(), factor: "two".to_string() };
    assert_eq!(
        parse_operation(statement),
        Err(ParseError::ParseInvalidNumber("two".to_string()))
    );
}

#[test]
fn operation_passes_on_the_fault_of_a_matrix() {
    let statement = Statement::MatDef { name: "A".to_string(), rows: tokens(&[&["1"], &[]]) };
    assert_eq!(
        parse_operation(statement),
        Err(ParseError::MismatchedRowLength { expected: 1, found: 0 })
    );
}

#[test]
fn statements_hold_what_was_written() {
    let found = MatrixParser::statements("mat my_second_matrix = [ [11 , 12],[13,14] ]\nscale x1, 3")
        .unwrap();
    assert_eq!(
        found,
        vec![
            Statement::MatDef {
                name: "my_second_matrix".to_string(),
                rows: tokens(&[&["11", "12"], &["13", "14"]]),
            },
            Statement::Scale { name: "x1".to_string(), factor: "3".to_string() },
        ]
    );
}

#[test]
fn statements_keep_ragged_rows() {
    let found = MatrixParser::statements("mat A = [[1, 2, 3], [2, 5]]").unwrap();
    assert_eq!(
        found,
        vec![Statement::MatDef {
            name: "A".to_string(),
            rows: tokens(&[&["1", "2", "3"], &["2", "5"]]),
        }]
    );
}

#[test]
fn file_gives_commands_in_order() {
    let text = "mat A = [[1, 2], [3, 4]]\nmat B = [[5, 6], [7, 8]]\nadd A, B\nsub B, A\nmul A, B\nscale A, -1\n";
    assert_eq!(
        parse_file(text),
        Ok(vec![
            Command::Define("A".to_string(), matrix(&[&["1", "2"], &["3", "4"]])),
            Command::Define("B".to_string(), matrix(&[&["5", "6"], &["7", "8"]])),
            Command::Add("A".to_string(), "B".to_string()),
            Command::Subtract("B".to_string(), "A".to_string()),
            Command::Multiply("A".to_string(), "B".to_string()),
            Command::Scale("A".to_string(), number("-1")),
        ])
    );
}

#[test]
fn definition_is_read_back_as_written() {
    let commands = parse_file("mat X = [[1.5, -2], [0, 42], [7, 8.25]]").unwrap();
    assert_eq!(
        commands,
        vec![Command::Define(
            "X".to_string(),
            matrix(&[&["1.5", "-2"], &["0", "42"], &["7", "8.25"]])
        )]
    );
    match &commands[0] {
        Command::Define(_, m) => {
            assert_eq!(m.rows_num, 3);
            assert_eq!(m.cols_num, 2);
        }
        _ => panic!("a definition was expected"),
    }
}

#[test]
fn comments_and_blank_lines_give_no_commands() {
    let plain = "mat A = [[1]]\nadd A, A";
    let dressed = "# first\n\nmat A = [[1]]\n   \n\t# add B, B\nadd A, A\n# last\n";
    assert_eq!(parse_file(dressed), parse_file(plain));
    assert_eq!(parse_file(plain).unwrap().len(), 2);
    assert_eq!(parse_file("# mat A = [[1]]\n\n   # add A, A"), Ok(vec![]));
    assert_eq!(parse_file(""), Ok(vec![]));
}

#[test]
fn syntax_comes_before_every_other_fault() {
    assert_eq!(
        parse_file("mat A = [[1, 2], [3]]\nadd A\n"),
        Err(ParseError::Syntax { line: 2 })
    );
    assert_eq!(parse_file("mat A = [[1, 2], [3]]\nadd A, A\n").is_err(), true);
    assert_eq!(
        parse_file("mat A = [[1, 2], [3]]\nmat B = [[1], [2, 3]]\n"),
        Err(ParseError::MismatchedRowLength { expected: 2, found: 1 })
    );
}

#[test]
fn syntax_error_counts_lines_from_one() {
    assert_eq!(parse_file("nonsense"), Err(ParseError::Syntax { line: 1 }));
    assert_eq!(parse_file("\n\n\nmat = [[1]]"), Err(ParseError::Syntax { line: 4 }));
    assert_eq!(parse_file("mat A = [[1]\n"), Err(ParseError::Syntax { line: 1 }));
    assert_eq!(parse_file("mat A = [[1]] # trailing"), Err(ParseError::Syntax { line: 1 }));
}

#[test]
fn statement_does_not_run_over_lines() {
    assert_eq!(parse_file("mat A = [[1, 2],\n[3, 4]]"), Err(ParseError::Syntax { line: 1 }));
}
