use matrix_factorization::fixed::SCALE;
use matrix_factorization::config::{CountMode, MfError};
use matrix_factorization::metrics::{mask_of, masked_diff, mse, rmse, relative_error};

fn fx(units: i64) -> i64 {
    units * SCALE
}

#[test]
fn mask_marks_observed_cells() {
    let y = vec![vec![fx(5), 0], vec![0, fx(3)]];
    let m = mask_of(&y, 2, 2);
    assert_eq!(m, vec![vec![1, 0], vec![0, 1]]);
}

#[test]
fn masked_diff_zeroes_unobserved_cells() {
    let y = vec![vec![fx(5), 0]];
    let y_hat = vec![vec![fx(3), fx(9)]];
    let m = mask_of(&y, 1, 2);
    let d = masked_diff(&y, &y_hat, &m, 1, 2);
    assert_eq!(d, vec![vec![fx(2), 0]]);
}

#[test]
fn mse_literal_example_is_21_point_5() {
    // 4 x 4 example with an all-ones mask: the squared differences sum to
    // 344, divided by 16 cells gives 21.5.
    let y = vec![
        vec![fx(0), fx(10), fx(7), fx(5)],
        vec![fx(0), fx(2), fx(9), fx(12)],
        vec![fx(4), fx(2), fx(2), fx(6)],
        vec![fx(10), fx(3), fx(9), fx(15)],
    ];
    let y_hat = vec![
        vec![fx(2), fx(4), fx(10), fx(5)],
        vec![fx(0), fx(1), fx(6), fx(1)],
        vec![fx(3), fx(6), fx(2), fx(6)],
        vec![fx(21), fx(3), fx(14), fx(14)],
    ];
    let ones = vec![vec![1i64; 4], vec![1; 4], vec![1; 4], vec![1; 4]];
    let (_, err) = mse(&y, &y_hat, &ones, 4, 4, CountMode::AllCells).unwrap();
    assert_eq!(err, 21 * (SCALE as i128) + (SCALE as i128) / 2);
}

#[test]
fn mse_zero_when_predictions_match_observed() {
    // The prediction agrees wherever the mask is one; the masked cells hold
    // arbitrary values and must not contribute.
    let y = vec![vec![fx(4), 0], vec![fx(2), fx(5)]];
    let m = mask_of(&y, 2, 2);
    let y_hat = vec![vec![fx(4), fx(77)], vec![fx(2), fx(5)]];
    let (_, err) = mse(&y, &y_hat, &m, 2, 2, CountMode::Observed).unwrap();
    assert_eq!(err, 0);
}

#[test]
fn mse_constant_offset_gives_square_of_offset() {
    // Every observed prediction is off by exactly 2, so the mean squared
    // error over observed entries is 4.
    let y = vec![vec![fx(3), 0], vec![fx(4), fx(5)]];
    let m = mask_of(&y, 2, 2);
    let y_hat = vec![vec![fx(1), fx(50)], vec![fx(2), fx(3)]];
    let (_, err) = mse(&y, &y_hat, &m, 2, 2, CountMode::Observed).unwrap();
    assert_eq!(err, 4 * (SCALE as i128));
}

#[test]
fn masked_cells_never_contribute() {
    let y = vec![vec![fx(3), 0], vec![0, fx(5)]];
    let m = mask_of(&y, 2, 2);
    let y_hat_a = vec![vec![fx(1), fx(10)], vec![fx(20), fx(4)]];
    let y_hat_b = vec![vec![fx(1), fx(-30)], vec![fx(99), fx(4)]];
    let (_, err_a) = mse(&y, &y_hat_a, &m, 2, 2, CountMode::Observed).unwrap();
    let (_, err_b) = mse(&y, &y_hat_b, &m, 2, 2, CountMode::Observed).unwrap();
    assert_eq!(err_a, err_b);
}

#[test]
fn count_mode_changes_the_denominator() {
    // One observed cell with squared error 9 in a 1 x 3 matrix: divided by 1
    // observed entry it is 9, divided by 3 cells it is 3.
    let y = vec![vec![fx(4), 0, 0]];
    let m = mask_of(&y, 1, 3);
    let y_hat = vec![vec![fx(1), 0, 0]];
    let (_, observed) = mse(&y, &y_hat, &m, 1, 3, CountMode::Observed).unwrap();
    let (_, all) = mse(&y, &y_hat, &m, 1, 3, CountMode::AllCells).unwrap();
    assert_eq!(observed, 9 * (SCALE as i128));
    assert_eq!(all, 3 * (SCALE as i128));
}

#[test]
fn mse_rejects_empty_dataset() {
    let y = vec![vec![0i64, 0], vec![0, 0]];
    let m = mask_of(&y, 2, 2);
    let r = mse(&y, &y, &m, 2, 2, CountMode::Observed);
    assert_eq!(r, Err(MfError::EmptyDataset));
}

#[test]
fn rmse_exact_value_over_entry_list() {
    let ratings = vec![(0usize, 0usize, fx(4)), (0, 1, fx(1))];
    let y_hat = vec![vec![fx(2), fx(2)]];
    // Squared errors 4 and 1 average to 2.5.
    let err = rmse(&ratings, &y_hat, 1, 2).unwrap();
    assert_eq!(err, 2 * (SCALE as i128) + (SCALE as i128) / 2);
}

#[test]
fn rmse_rejects_empty_entry_list() {
    let ratings: Vec<(usize, usize, i64)> = Vec::new();
    let y_hat = vec![vec![fx(2)]];
    assert_eq!(rmse(&ratings, &y_hat, 1, 1), Err(MfError::EmptyDataset));
}

#[test]
fn relative_error_exact_value() {
    // Masked squared-error sum 1, squared rating sum 4: relative error 0.25.
    let y = vec![vec![fx(2)]];
    let y_hat = vec![vec![fx(1)]];
    let err = relative_error(&y, &y_hat, 1, 1).unwrap();
    assert_eq!(err, (SCALE as i128) / 4);
}

#[test]
fn relative_error_rejects_all_zero_matrix() {
    let y = vec![vec![0i64]];
    let y_hat = vec![vec![fx(1)]];
    assert_eq!(relative_error(&y, &y_hat, 1, 1), Err(MfError::EmptyDataset));
}
