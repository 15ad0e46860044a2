use timesfm3::decode::{
    concat_rows, context_masks, context_values, cpm_masked, decode_dims, decode_plan, plan_fits_exec,
    default_context_mask, effective_patch_mask, fcov_masks, forecast_patches, freeze_position,
    frozen_stats, horizon_by_chunks, horizon_cpm_mask, horizon_masks, pad_left, pad_left_bool,
    pad_left_pf, pad_left_pf_bool, patch_fully_masked, patch_is_target, DecodeDims, DecodeError,
};

#[test]
fn pad_left_moves_data() {
    let out = pad_left(&[1.0, 2.0, 3.0, 4.0], 2, 2, 3, 0.0);
    assert_eq!(out, vec![0.0, 1.0, 2.0, 0.0, 3.0, 4.0]);
}

#[test]
fn pad_left_bool_true() {
    let out = pad_left_bool(&[false, true, true, false], 2, 2, 3);
    assert_eq!(out, vec![true, false, true, true, true, false]);
}

#[test]
fn pad_left_pf_keeps_future() {
    let out = pad_left_pf(&[1.0, 2.0, 9.0, 8.0], 1, 2, 3, 2, 0.0);
    assert_eq!(out, vec![0.0, 1.0, 2.0, 9.0, 8.0]);
}

#[test]
fn pad_left_pf_bool_masks_the_padding() {
    let out = pad_left_pf_bool(&[false, false, true], 1, 1, 3, 2);
    assert_eq!(out, vec![true, true, false, false, true]);
}

#[test]
fn decode_dims_checks_arguments() {
    assert_eq!(decode_dims(0, 1, 1, None, None), Err(DecodeError::ZeroHorizon));
    assert_eq!(decode_dims(8, 0, 1, None, None), Err(DecodeError::ZeroBatch));
    assert_eq!(decode_dims(8, 2, 1, Some(3), None), Err(DecodeError::PastOnlyRows));
    assert_eq!(decode_dims(8, 2, 1, Some(4), Some(5)), Err(DecodeError::PastFutureRows));
    assert_eq!(
        decode_dims(8, 2, 3, Some(4), Some(6)),
        Ok(DecodeDims { v_po: 2, w_pf: 3, v_total: 8 })
    );
}

#[test]
fn decode_plan_with_stitching() {
    // p = 32, o = 128, rolls = 4, horizon 8, context 16.
    let plan = decode_plan(32, 128, 4, true, 8, 16);
    assert_eq!(plan.ctx_padding, 16);
    assert_eq!(plan.ctx_padded, 32);
    assert_eq!(plan.extract_len, 64);
    assert_eq!(plan.num_forecast_patches, 1);
    assert_eq!(plan.num_horizon_patches, 4);
    assert_eq!(plan.padded_horizon, 128);
    assert_eq!(plan.num_context_patches, 1);
    assert_eq!(plan.num_total_patches, 5);
    assert_eq!(plan.total_len, 160);
    // A long horizon: overlap 32, 200 - 32 = 168 -> 6 patches.
    let plan = decode_plan(32, 128, 4, true, 200, 64);
    assert_eq!((plan.ctx_padding, plan.num_forecast_patches), (0, 6));
    assert_eq!((plan.num_horizon_patches, plan.padded_horizon), (9, 288));
}

#[test]
fn decode_plan_without_stitching() {
    let plan = decode_plan(32, 64, 2, false, 70, 100);
    assert_eq!(plan.ctx_padding, 28);
    assert_eq!(plan.ctx_padded, 128);
    assert_eq!(plan.padded_horizon, 128);
    assert_eq!(plan.num_horizon_patches, 4);
    assert_eq!(plan.num_forecast_patches, 0);
    assert_eq!(plan.extract_len, 64);
    assert_eq!(plan.num_total_patches, 8);
    assert_eq!(plan.total_len, 256);
}

#[test]
fn masks_for_context_and_horizon() {
    assert_eq!(
        default_context_mask(2, 1, 3),
        vec![true, true, false, true, true, false]
    );
    assert_eq!(
        patch_is_target(1, 3, 1, 1, 2),
        vec![true, true, true, true, false, false]
    );
    assert_eq!(horizon_cpm_mask(2, 3, 2), vec![false, false, true, false, false, true]);
    assert_eq!(freeze_position(true, 0), Some(0));
    assert_eq!(freeze_position(true, 5), Some(4));
    assert_eq!(freeze_position(false, 5), None);
}

#[test]
fn effective_mask_is_a_running_and() {
    let raw = vec![true, true, false, true, false, true, true, true];
    assert_eq!(
        effective_patch_mask(&raw, 2, 4),
        vec![true, true, false, false, false, false, false, false]
    );
}

#[test]
fn context_masks_combine_global_and_own() {
    // b = 1, u = 1, v_po = 1, w_pf = 1, ctx 2, horizon 1.
    let global = vec![true, false];
    let tgt = vec![false, false];
    let po = vec![false, true];
    let pf = vec![false, false, true];
    let m = context_masks(&global, Some(&tgt), Some(&po), Some(&pf), 1, 1, 1, 1, 2, 1);
    assert_eq!(m, vec![true, false, true, true, true, false]);
    let none = context_masks(&global, None, None, None, 1, 2, 0, 0, 2, 0);
    assert_eq!(none, vec![true, false, true, false]);
}

#[test]
fn horizon_masks_open_only_future_covariates() {
    // b = 1, u = 1, v_po = 0, w_pf = 1, ctx 1, horizon 2, padded 3.
    let pf = vec![false, false, true];
    let m = horizon_masks(Some(&pf), true, 1, 1, 0, 1, 1, 2, 3);
    assert_eq!(m, vec![true, true, true, false, true, false]);
    let m = horizon_masks(None, true, 1, 1, 0, 1, 1, 2, 3);
    assert_eq!(m, vec![true, true, true, false, false, false]);
    let m = horizon_masks(None, false, 1, 1, 0, 1, 1, 2, 3);
    assert_eq!(m, vec![true; 6]);
}

#[test]
fn rows_are_concatenated() {
    assert_eq!(
        concat_rows(&[1, 2, 3, 4], 2, &[9, 8], 1, 2),
        vec![1, 2, 9, 3, 4, 8]
    );
}

#[test]
fn preprocess_masks() {
    // b = 1, v = 2, n = 2, p = 1: rows R = bv*n = 4.
    let masks = vec![false, false, true, false];
    let cpm = vec![false, true];
    let pit = vec![true, true, false, false];
    assert_eq!(
        cpm_masked(&masks, Some(&cpm), &pit, 1, 2, 2, 1),
        vec![false, true, true, false]
    );
    assert_eq!(cpm_masked(&masks, None, &pit, 1, 2, 2, 1), masks);

    // bv = 2, n = 2, p = 1, rolls = 1.
    let rolled = vec![false, true, false, false];
    let wrap = vec![false, true, false, true];
    let pit2 = vec![false, false, true, true];
    assert_eq!(
        fcov_masks(&rolled, &wrap, &pit2, 2, 2, 1, 1),
        vec![false, true, true, true]
    );
    let fcov = vec![true, true, false, true];
    assert_eq!(
        patch_fully_masked(&[true, true, true, false], &fcov, 4, 1, 1),
        vec![true, true, false, false]
    );
}

#[test]
fn context_values_take_each_variate_from_its_source() {
    let tgt = [1.0, 2.0];
    let po = [3.0, 4.0];
    let pf = [5.0, 6.0, 7.0];
    let all = context_values(&tgt, Some(&po), Some(&pf), 1, 1, 1, 1, 2, 1, 0.0);
    assert_eq!(all, vec![1.0, 2.0, 3.0, 4.0, 5.0, 6.0]);
    let no_po = context_values(&tgt, None, Some(&pf), 1, 1, 1, 1, 2, 1, 0.0);
    assert_eq!(no_po, vec![1.0, 2.0, 0.0, 0.0, 5.0, 6.0]);
}

#[test]
fn frozen_stats_repeat_the_value_at_the_freeze_point() {
    let x = [1, 2, 3, 4, 5, 6, 7, 8];
    assert_eq!(frozen_stats(&x, 2, 4, 1), vec![1, 2, 2, 2, 5, 6, 6, 6]);
    assert_eq!(frozen_stats(&x, 2, 4, 3), x.to_vec());
}

#[test]
fn forecast_patches_cut_the_selected_rows() {
    let x: Vec<u32> = (0..12).collect();
    assert_eq!(forecast_patches(&x, 1, 3, 1, 2, 4, 3), vec![4, 5, 6, 8, 9, 10]);
}

#[test]
fn horizon_chunks_step_through_output_patches() {
    let x: Vec<u32> = (0..8).collect();
    assert_eq!(horizon_by_chunks(&x, 1, 4, 1, 3, 2, 1, 2), vec![0, 1, 4]);
}

#[test]
fn plan_fits_only_when_every_value_fits_usize() {
    assert!(plan_fits_exec(32, 128, 4, true, 8, 16));
    assert!(plan_fits_exec(32, 64, 2, false, 70, 100));
    // The padded horizon would be 2^64.
    assert!(!plan_fits_exec(32, 64, 2, false, usize::MAX - 10, 100));
    // The padded context would be usize::MAX + 1.
    assert!(!plan_fits_exec(32, 64, 2, false, 70, usize::MAX));
    // usize::MAX horizon patches of 32 points.
    assert!(!plan_fits_exec(32, 128, usize::MAX, true, 8, 16));
    assert!(plan_fits_exec(1, 1, 1, true, usize::MAX - 1, 0));
}
