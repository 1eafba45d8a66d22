use catnukh_matrix_parser::{MatrixParser, ParseError, Rule};

#[test]
fn test_number() {
    let num1 = MatrixParser::parse(Rule::Number, "123.456").unwrap();
    assert_eq!(num1.as_str(), "123.456");

    let num2 = MatrixParser::parse(Rule::Number, "-123").unwrap();
    assert_eq!(num2.as_str(), "-123");

    let num3 = MatrixParser::parse(Rule::Number, "-123.456").unwrap();
    assert_eq!(num3.as_str(), "-123.456");

    let not_num1 = MatrixParser::parse(Rule::Number, "abc");
    assert_eq!(not_num1.is_err(), true);

    let partial1 = MatrixParser::parse(Rule::Number, "123.34.56");
    assert_eq!(partial1.is_err(), true);

    let partial2 = MatrixParser::parse(Rule::Number, "1hello");
    assert_eq!(partial2.is_err(), true);
}

#[test]
fn test_name() {
    let a = MatrixParser::parse(Rule::NameOfMatrix, "A").unwrap();
    assert_eq!(a.as_str(), "A");

    let my_matrix_1 = MatrixParser::parse(Rule::NameOfMatrix, "my_matrix_1").unwrap();
    assert_eq!(my_matrix_1.as_str(), "my_matrix_1");

    let empty = MatrixParser::parse(Rule::NameOfMatrix, "");
    assert_eq!(empty.is_err(), true);

    let num = MatrixParser::parse(Rule::NameOfMatrix, "23");
    assert_eq!(num.is_err(), true);
}

#[test]
fn test_row() {
    let row1 = MatrixParser::parse(Rule::Row, "[1, 2, 3]").unwrap();
    assert_eq!(row1.as_str(), "[1, 2, 3]");

    let row2 = MatrixParser::parse(Rule::Row, "[123.456, -78]").unwrap();
    assert_eq!(row2.as_str(), "[123.456, -78]");

    let empty_row = MatrixParser::parse(Rule::Row, "[]");
    assert_eq!(empty_row.is_err(), true);

    let invalid_row1 = MatrixParser::parse(Rule::Row, "[123, 456");
    assert_eq!(invalid_row1.is_err(), true);

    let invalid_row2 = MatrixParser::parse(Rule::Row, "[abc, 123]");
    assert_eq!(invalid_row2.is_err(), true);

    let invalid_row3 = MatrixParser::parse(Rule::Row, "{456, 123}");
    assert_eq!(invalid_row3.is_err(), true);
}

#[test]
fn test_matrix() {
    let matrix1 = MatrixParser::parse(Rule::Matrix, "[[1, 2, 3], [2, 4, 5]]").unwrap();
    assert_eq!(matrix1.as_str(), "[[1, 2, 3], [2, 4, 5]]");

    let matrix2 = MatrixParser::parse(Rule::Matrix, "[[1, 2, 3], [2, 5]]").unwrap();
    assert_eq!(matrix2.as_str(), "[[1, 2, 3], [2, 5]]");

    let matrix3 = MatrixParser::parse(Rule::Matrix, "[[1]]").unwrap();
    assert_eq!(matrix3.as_str(), "[[1]]");

    let invalid_matrix = MatrixParser::parse(Rule::Matrix, "[123]");
    assert_eq!(invalid_matrix.is_err(), true);
}

#[test]
fn test_mat_def() {
    let mat_a = MatrixParser::parse(Rule::MatDef, "mat A = [[1, 2, 3], [2, 4, 5]]").unwrap();
    assert_eq!(mat_a.as_str(), "mat A = [[1, 2, 3], [2, 4, 5]]");

    let invalid_mat_a = MatrixParser::parse(Rule::MatDef, "mat A = [[1, 2, 3] [2, 4, 5]]");
    assert_eq!(invalid_mat_a.is_err(), true);
}

#[test]
fn test_add() {
    let add1 = MatrixParser::parse(Rule::Add, "add A, B").unwrap();
    assert_eq!(add1.as_str(), "add A, B");

    let invalid_add1 = MatrixParser::parse(Rule::Add, "sub A, B");
    assert_eq!(invalid_add1.is_err(), true);

    let invalid_add2 = MatrixParser::parse(Rule::Add, "add A, 3");
    assert_eq!(invalid_add2.is_err(), true);
}

#[test]
fn test_sub() {
    let sub1 = MatrixParser::parse(Rule::Subtract, "sub A, B").unwrap();
    assert_eq!(sub1.as_str(), "sub A, B");

    let invalid_sub1 = MatrixParser::parse(Rule::Subtract, "add A, B");
    assert_eq!(invalid_sub1.is_err(), true);

    let invalid_sub2 = MatrixParser::parse(Rule::Subtract, "sub A, 3");
    assert_eq!(invalid_sub2.is_err(), true);
}

#[test]
fn test_mult() {
    let mult1 = MatrixParser::parse(Rule::Mult, "mul A, B").unwrap();
    assert_eq!(mult1.as_str(), "mul A, B");

    let invalid_mult1 = MatrixParser::parse(Rule::Mult, "add A, B");
    assert_eq!(invalid_mult1.is_err(), true);

    let invalid_mult2 = MatrixParser::parse(Rule::Mult, "mult A, 3");
    assert_eq!(invalid_mult2.is_err(), true);
}

#[test]
fn test_scale() {
    let scale1 = MatrixParser::parse(Rule::Scale, "scale A, 3").unwrap();
    assert_eq!(scale1.as_str(), "scale A, 3");

    let invalid_scale1 = MatrixParser::parse(Rule::Scale, "add A, 3");
    assert_eq!(invalid_scale1.is_err(), true);

    let invalid_scale2 = MatrixParser::parse(Rule::Scale, "scale A, B");
    assert_eq!(invalid_scale2.is_err(), true);
}

#[test]
fn test_file() {
    let file1 = r#"
    #Comment
    mat A = [[1, 2], [3, 4]]
    mat my_second_matrix = [[11, 12], [13, 14]]
    add A, my_second_matrix"#;

    MatrixParser::parse(Rule::File, file1).unwrap();
}

#[test]
fn number_needs_digits_on_both_sides_of_the_dot() {
    assert!(MatrixParser::parse(Rule::Number, "1.").is_err());
    assert!(MatrixParser::parse(Rule::Number, ".5").is_err());
    assert!(MatrixParser::parse(Rule::Number, "-").is_err());
    assert!(MatrixParser::parse(Rule::Number, "").is_err());
    assert!(MatrixParser::parse(Rule::Number, "1e5").is_err());
    assert!(MatrixParser::parse(Rule::Number, "--1").is_err());
    assert!(MatrixParser::parse(Rule::Number, "0.0").is_ok());
}

#[test]
fn name_takes_letters_digits_and_underscores() {
    assert!(MatrixParser::parse(Rule::NameOfMatrix, "_x9").is_ok());
    assert!(MatrixParser::parse(Rule::NameOfMatrix, "a-b").is_err());
    assert!(MatrixParser::parse(Rule::NameOfMatrix, "9a").is_err());
    assert!(MatrixParser::parse(Rule::NameOfMatrix, " A").is_err());
    assert!(MatrixParser::parse(Rule::NameOfMatrix, "A ").is_err());
}

#[test]
fn white_space_between_tokens_does_not_count() {
    assert!(MatrixParser::parse(Rule::Row, "[ 1 ,2,\t3 ]").is_ok());
    assert!(MatrixParser::parse(Rule::Matrix, "[ [1] , [2] ]").is_ok());
    assert!(MatrixParser::parse(Rule::MatDef, "mat   A=[[1]]").is_ok());
    assert!(MatrixParser::parse(Rule::Add, "add A,B").is_ok());
    assert!(MatrixParser::parse(Rule::Scale, "scale A ,  -2.5").is_ok());
}

#[test]
fn opening_word_is_followed_by_white_space() {
    assert!(MatrixParser::parse(Rule::MatDef, "matA = [[1]]").is_err());
    assert!(MatrixParser::parse(Rule::Add, "addA, B").is_err());
}

#[test]
fn rows_and_matrices_are_not_empty() {
    assert!(MatrixParser::parse(Rule::Matrix, "[]").is_err());
    assert!(MatrixParser::parse(Rule::Matrix, "[[]]").is_err());
    assert!(MatrixParser::parse(Rule::Row, "[1,]").is_err());
    assert!(MatrixParser::parse(Rule::Matrix, "[[1],]").is_err());
}

#[test]
fn operation_is_any_of_the_five_statements() {
    assert!(MatrixParser::parse(Rule::Operation, "mat A = [[1]]").is_ok());
    assert!(MatrixParser::parse(Rule::Operation, "add A, B").is_ok());
    assert!(MatrixParser::parse(Rule::Operation, "sub A, B").is_ok());
    assert!(MatrixParser::parse(Rule::Operation, "mul A, B").is_ok());
    assert!(MatrixParser::parse(Rule::Operation, "scale A, 2").is_ok());
    assert!(MatrixParser::parse(Rule::Operation, "div A, B").is_err());
}

#[test]
fn comment_is_one_line() {
    assert!(MatrixParser::parse(Rule::Comment, "# add A, B").is_ok());
    assert!(MatrixParser::parse(Rule::Comment, "#").is_ok());
    assert!(MatrixParser::parse(Rule::Comment, "# one\n# two").is_err());
    assert!(MatrixParser::parse(Rule::Comment, "add A, B").is_err());
}

#[test]
fn pair_keeps_rule_and_text() {
    let pair = MatrixParser::parse(Rule::Add, "add A, B").unwrap();
    assert_eq!(pair.as_rule(), Rule::Add);
    assert_eq!(pair.text, "add A, B");
}

#[test]
fn syntax_error_names_the_first_malformed_line() {
    let text = "mat A = [[1]]\n\n# fine\nadd A B\nmul ,\n";
    assert_eq!(MatrixParser::parse(Rule::File, text), Err(ParseError::Syntax { line: 4 }));
    assert_eq!(MatrixParser::statements(text), Err(ParseError::Syntax { line: 4 }));
    assert_eq!(MatrixParser::parse(Rule::Add, "add A B"), Err(ParseError::Syntax { line: 1 }));
}

#[test]
fn empty_text_is_a_file_without_statements() {
    assert_eq!(MatrixParser::statements(""), Ok(vec![]));
    assert_eq!(MatrixParser::statements("\n\n  \n"), Ok(vec![]));
    assert!(MatrixParser::parse(Rule::File, "").is_ok());
}

#[test]
fn two_statements_do_not_share_a_line() {
    assert_eq!(
        MatrixParser::statements("add A, B sub A, B"),
        Err(ParseError::Syntax { line: 1 })
    );
}

#[test]
fn carriage_return_before_line_feed_is_white_space() {
    assert!(MatrixParser::parse(Rule::File, "mat A = [[1]]\r\nadd A, A\r\n").is_ok());
}
