use timesfm3::batching::{
    batch_context, batch_end, batch_mask, batch_order, check_request, context_fit, drop_columns,
    first_valid_column, global_horizon, inverse_permutation, pad_right, select_quantile,
    truncate_horizon, ForecastError, MAX_CONTEXT_LENGTH,
};

#[test]
fn request_checks() {
    assert_eq!(check_request(&[], &[], 0), None);
    assert_eq!(check_request(&[4], &[(1, 4)], 0), Some(ForecastError::ZeroHorizon));
    assert_eq!(check_request(&[4], &[], 8), Some(ForecastError::DimsMismatch));
    assert_eq!(
        check_request(&[4, 6], &[(1, 4), (2, 3)], 8),
        Some(ForecastError::VariateCount(1))
    );
    assert_eq!(
        check_request(&[4, 5], &[(1, 4), (1, 6)], 8),
        Some(ForecastError::ContextLength(1))
    );
    assert_eq!(check_request(&[4, 6], &[(2, 2), (2, 3)], 8), None);
}

#[test]
fn horizon_rounds_up_to_output_patches() {
    assert_eq!(global_horizon(1, 128), 128);
    assert_eq!(global_horizon(128, 128), 128);
    assert_eq!(global_horizon(129, 128), 256);
}

#[test]
fn leading_nan_columns_are_found() {
    // 2 variates x 4 columns: column 0 all NaN, column 1 NaN only in row 0.
    let nan = vec![true, true, false, false, true, false, false, false];
    assert_eq!(first_valid_column(&nan, 2, 4), 1);
    assert_eq!(first_valid_column(&[true, true], 1, 2), 2);
    assert_eq!(first_valid_column(&[], 3, 0), 0);
}

#[test]
fn series_are_ordered_by_length_stably() {
    assert_eq!(batch_order(&[30, 10, 20, 10], true), vec![1, 3, 2, 0]);
    assert_eq!(batch_order(&[30, 10, 20, 10], false), vec![0, 1, 2, 3]);
    let order = batch_order(&[5, 1, 4, 1, 3], true);
    let inv = inverse_permutation(&order);
    for (k, &o) in order.iter().enumerate() {
        assert_eq!(inv[o], k);
    }
}

#[test]
fn batches_stop_at_long_series() {
    let lens = [32, 40, 70, 80, 90];
    assert_eq!(batch_end(&lens, 0, 32, false, false, 32), 5);
    assert_eq!(batch_end(&lens, 0, 2, false, false, 32), 2);
    assert_eq!(batch_end(&lens, 0, 32, true, false, 32), 2); // 70 > 2 * 32
    assert_eq!(batch_end(&lens, 2, 32, true, false, 32), 5);
    assert_eq!(batch_end(&lens, 0, 0, true, false, 32), 1);
    // Symmetric pairs are checked in strides of two.
    assert_eq!(batch_end(&[10, 10, 90, 90], 0, 32, true, true, 32), 2);
    assert_eq!(batch_end(&[10, 99, 20, 20], 0, 32, true, true, 32), 4);
}

#[test]
fn batch_context_is_rounded_and_capped() {
    let lens = [10, 50, 33];
    assert_eq!(batch_context(&lens, 0, 3, 32), 64);
    assert_eq!(batch_context(&lens, 0, 1, 32), 32);
    assert_eq!(batch_context(&[0], 0, 1, 32), 32);
    assert_eq!(batch_context(&[100_000], 0, 1, 32), MAX_CONTEXT_LENGTH);
    assert_eq!(batch_context(&[100_000], 0, 1, 1000), 16000);
}

#[test]
fn series_fit_the_batch_context() {
    assert_eq!(context_fit(10, 32), (0, 10, 22));
    assert_eq!(context_fit(40, 32), (8, 32, 0));
    assert_eq!(batch_mask(&[2, 0], 3), vec![true, true, false, false, false, false]);
}

#[test]
fn rows_move_in_and_out_of_buffers() {
    assert_eq!(drop_columns(&[1, 2, 3, 4, 5, 6], 2, 3, 1), vec![2, 3, 5, 6]);
    assert_eq!(pad_right(&[1, 2, 3, 4], 2, 2, 3, 0), vec![1, 2, 0, 3, 4, 0]);
    // (rows 2, gh 3, nq 2) -> quantile 1 of the first 2 steps.
    let raw: Vec<i32> = (0..12).collect();
    assert_eq!(select_quantile(&raw, 2, 3, 2, 2, 1), vec![1, 3, 7, 9]);
    assert_eq!(truncate_horizon(&raw, 2, 3, 2, 2), vec![0, 1, 2, 3, 6, 7, 8, 9]);
}
