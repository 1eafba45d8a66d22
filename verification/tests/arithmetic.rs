use catnukh_matrix_parser::arithmetic::{shapes_agree, width_is};
use catnukh_matrix_parser::{elementwise, parse_matrix, product, scaled};

fn table(rows: &[&[f64]]) -> Vec<Vec<f64>> {
    rows.iter().map(|row| row.to_vec()).collect()
}

#[test]
fn sum_is_taken_cell_by_cell() {
    let a = table(&[&[1.0, 2.0], &[3.0, 4.0]]);
    let b = table(&[&[5.0, 6.0], &[7.0, 8.0]]);
    assert_eq!(elementwise(&a, &b, |x, y| x + y), Some(table(&[&[6.0, 8.0], &[10.0, 12.0]])));
}

#[test]
fn difference_is_left_minus_right() {
    let a = table(&[&[1.0, 2.0, 3.0]]);
    let b = table(&[&[0.5, 4.0, -3.0]]);
    assert_eq!(elementwise(&a, &b, |x, y| x - y), Some(table(&[&[0.5, -2.0, 6.0]])));
    assert_eq!(elementwise(&b, &a, |x, y| x - y), Some(table(&[&[-0.5, 2.0, -6.0]])));
}

#[test]
fn sum_has_the_shape_of_its_operands() {
    let a = table(&[&[1.0, 2.0, 3.0], &[4.0, 5.0, 6.0]]);
    let sum = elementwise(&a, &a, |x, y| x + y).unwrap();
    assert_eq!(sum.len(), 2);
    assert_eq!(sum[0].len(), 3);
    assert_eq!(sum[1].len(), 3);
}

#[test]
fn tables_of_other_shapes_are_not_combined() {
    let a = table(&[&[1.0, 2.0], &[3.0, 4.0]]);
    let wider = table(&[&[1.0, 2.0, 3.0], &[4.0, 5.0, 6.0]]);
    let longer = table(&[&[1.0, 2.0], &[3.0, 4.0], &[5.0, 6.0]]);
    assert_eq!(elementwise(&a, &wider, |x, y| x + y), None);
    assert_eq!(elementwise(&a, &longer, |x, y| x + y), None);
    assert_eq!(elementwise(&longer, &a, |x, y| x + y), None);
}

#[test]
fn tables_without_rows_have_an_empty_sum() {
    let none: Vec<Vec<f64>> = Vec::new();
    assert_eq!(elementwise(&none, &none, |x, y| x + y), Some(Vec::new()));
}

#[test]
fn product_is_rows_by_columns() {
    let a = table(&[&[1.0, 2.0], &[3.0, 4.0]]);
    let b = table(&[&[5.0, 6.0], &[7.0, 8.0]]);
    assert_eq!(
        product(&a, &b, 0.0, |x, y| x * y, |x, y| x + y),
        Some(table(&[&[19.0, 22.0], &[43.0, 50.0]]))
    );
    assert_eq!(
        product(&b, &a, 0.0, |x, y| x * y, |x, y| x + y),
        Some(table(&[&[23.0, 34.0], &[31.0, 46.0]]))
    );
}

#[test]
fn product_has_the_rows_of_the_left_and_the_columns_of_the_right() {
    let a = table(&[&[1.0, 2.0, 3.0]]);
    let b = table(&[&[1.0, 0.0], &[0.0, 1.0], &[2.0, 2.0]]);
    assert_eq!(product(&a, &b, 0.0, |x, y| x * y, |x, y| x + y), Some(table(&[&[7.0, 8.0]])));
    let c = table(&[&[1.0], &[2.0]]);
    let d = table(&[&[3.0, 4.0, 5.0]]);
    assert_eq!(
        product(&c, &d, 0.0, |x, y| x * y, |x, y| x + y),
        Some(table(&[&[3.0, 4.0, 5.0], &[6.0, 8.0, 10.0]]))
    );
}

#[test]
fn product_adds_in_the_order_of_the_shared_index() {
    let a = vec![vec![1, 2, 3]];
    let b = vec![vec![10], vec![20], vec![30]];
    let trace = std::cell::RefCell::new(Vec::new());
    let result = product(
        &a,
        &b,
        0,
        |x, y| x * y,
        |sum, term| {
            trace.borrow_mut().push((sum, term));
            sum + term
        },
    );
    assert_eq!(result, Some(vec![vec![140]]));
    assert_eq!(trace.into_inner(), vec![(0, 10), (10, 40), (50, 90)]);
}

#[test]
fn tables_that_do_not_meet_are_not_multiplied() {
    let a = table(&[&[1.0, 2.0, 3.0], &[4.0, 5.0, 6.0]]);
    let b = table(&[&[1.0, 2.0], &[3.0, 4.0]]);
    assert_eq!(product(&a, &b, 0.0, |x, y| x * y, |x, y| x + y), None);
    assert!(product(&b, &a, 0.0, |x, y| x * y, |x, y| x + y).is_some());
}

#[test]
fn product_needs_rows_of_one_length() {
    let ragged = vec![vec![1.0, 2.0], vec![3.0]];
    let b = table(&[&[1.0, 2.0], &[3.0, 4.0]]);
    assert_eq!(product(&ragged, &b, 0.0, |x, y| x * y, |x, y| x + y), None);
    assert_eq!(product(&b, &ragged, 0.0, |x, y| x * y, |x, y| x + y), None);
}

#[test]
fn scaling_multiplies_every_cell() {
    let a = table(&[&[1.0, 2.0], &[3.0, 4.0]]);
    assert_eq!(scaled(&a, -1.0, |x, c| x * c), table(&[&[-1.0, -2.0], &[-3.0, -4.0]]));
    assert_eq!(scaled(&a, 0.0, |x, c| x * c), table(&[&[0.0, 0.0], &[0.0, 0.0]]));
    assert_eq!(scaled(&a, 2.5, |x, c| x * c), table(&[&[2.5, 5.0], &[7.5, 10.0]]));
}

#[test]
fn scaling_gives_the_cell_first_and_the_factor_second() {
    let a = vec![vec![8, 6]];
    assert_eq!(scaled(&a, 2, |x, c| x / c), vec![vec![4, 3]]);
}

#[test]
fn shapes_are_compared_row_by_row() {
    let a = table(&[&[1.0, 2.0], &[3.0]]);
    let b = table(&[&[0.0, 0.0], &[0.0]]);
    let c = table(&[&[0.0], &[0.0, 0.0]]);
    assert!(shapes_agree(&a, &b));
    assert!(!shapes_agree(&a, &c));
    assert!(width_is(&table(&[&[1.0, 2.0], &[3.0, 4.0]]), 2));
    assert!(!width_is(&a, 2));
    assert!(width_is(&Vec::<Vec<f64>>::new(), 7));
}

#[test]
fn values_are_converted_cell_by_cell() {
    let rows = vec![
        vec!["1.5".to_string(), "-2".to_string()],
        vec!["0".to_string(), "42".to_string()],
    ];
    let matrix = parse_matrix(&rows).unwrap();
    let floats = matrix.values(|n| n.as_str().parse::<f64>().unwrap());
    assert_eq!(floats, table(&[&[1.5, -2.0], &[0.0, 42.0]]));
    let lengths = matrix.values(|n| n.as_str().len());
    assert_eq!(lengths, vec![vec![3, 2], vec![1, 2]]);
}
