use timesfm3::layout::swap_middle_axes;
use timesfm3::mixing::{
    transpose_bnvd_to_bvnd, transpose_bnvd_to_bvnd_into, transpose_bvnd_to_bnvd,
    transpose_bvnd_to_bnvd_into, transpose_mask_bvn_to_bnv,
};
use timesfm3::pipeline::{get_output_patch_via_roll, get_output_patch_via_roll_bool};
use timesfm3::tensor::{transpose_flat, ShapeMismatch, Tensor2D};

fn max_abs_diff(a: &Tensor2D<f32>, b: &Tensor2D<f32>) -> f32 {
    assert_eq!((a.rows(), a.cols()), (b.rows(), b.cols()));
    a.data()
        .iter()
        .zip(b.data())
        .map(|(&x, &y)| (x - y).abs())
        .fold(0.0f32, f32::max)
}

#[test]
fn from_row_major_validates_len() {
    assert!(Tensor2D::from_row_major(2, 3, vec![0.0; 6]).is_ok());
    assert!(Tensor2D::from_row_major(2, 3, vec![0.0; 5]).is_err());
}

#[test]
fn transpose_swap() {
    let a = Tensor2D::from_row_major(2, 3, vec![1.0, 2.0, 3.0, 4.0, 5.0, 6.0])
        .expect("test fixture invariant");
    let t = a.transpose();
    assert_eq!((t.rows(), t.cols()), (3, 2));
    assert_eq!(t.get(0, 1), 4.0);
    assert_eq!(t.get(2, 1), 6.0);
    assert_eq!(t.transpose(), a);
}

#[test]
fn transpose_matches_naive_for_large() {
    let (rows, cols) = (512, 77);
    let src: Vec<f32> = (0..rows * cols).map(|i| (i as f32) * 0.5).collect();
    let a = Tensor2D::from_row_major(rows, cols, src).expect("fixture");
    let t = a.transpose();
    for r in 0..rows {
        for c in 0..cols {
            assert_eq!(t.get(c, r), a.get(r, c));
        }
    }
    assert_eq!(t.rows(), cols);
    assert_eq!(t.cols(), rows);
}

#[test]
fn transpose_f16_matches_scalar() {
    let (rows, cols) = (128, 39);
    let src: Vec<half::f16> = (0..rows * cols)
        .map(|i| half::f16::from_f32((i as f32) * 0.25))
        .collect();
    let t = transpose_flat(&src, rows, cols);
    assert_eq!(t.len(), cols * rows);
    for r in 0..rows {
        for c in 0..cols {
            assert_eq!(t[c * rows + r], src[r * cols + c]);
        }
    }
}

#[test]
fn tensor_shape_errors_and_double_transpose() {
    assert!(Tensor2D::from_row_major(2, 3, vec![1.0; 5]).is_err());
    assert!(Tensor2D::from_slice(2, 2, &[1.0, 2.0, 3.0]).is_err());

    let t = Tensor2D::from_row_major(2, 3, vec![1.0f32, 2.0, 3.0, 4.0, 5.0, 6.0]).unwrap();
    let tt = t.transpose().transpose();
    assert_eq!(tt.data(), t.data());
    assert_eq!((tt.rows(), tt.cols()), (2, 3));
    let one = t.transpose();
    assert_eq!((one.rows(), one.cols()), (3, 2));
    assert_eq!(one.data(), &[1.0, 4.0, 2.0, 5.0, 3.0, 6.0]);

    let a = Tensor2D::from_row_major(2, 2, vec![1.0f32, 0.0, 0.0, 1.0]).unwrap();
    let b = Tensor2D::from_row_major(2, 2, vec![1.0f32, 0.0, 0.0, 1.0]).unwrap();
    assert_eq!(max_abs_diff(&a, &b), 0.0);
    let c = Tensor2D::from_row_major(2, 2, vec![1.0f32, 0.5, 0.0, 1.0]).unwrap();
    assert!((max_abs_diff(&a, &c) - 0.5).abs() < 1e-9);
}

#[test]
fn shape_mismatch_reports_the_request() {
    assert_eq!(
        Tensor2D::from_row_major(2, 3, vec![0u8; 5]).err(),
        Some(ShapeMismatch { rows: 2, cols: 3, len: 5 })
    );
    assert_eq!(
        Tensor2D::from_row_major(usize::MAX, 2, vec![0u8; 2]).err(),
        Some(ShapeMismatch { rows: usize::MAX, cols: 2, len: 2 })
    );
}

#[test]
fn set_copy_and_filled() {
    let mut t = Tensor2D::filled(2, 2, 0i32);
    t.set(1, 0, 5);
    assert_eq!(t.data(), &[0, 0, 5, 0]);
    let mut u = Tensor2D::filled(2, 2, 9i32);
    u.copy_from(&t);
    assert_eq!(u.into_data(), vec![0, 0, 5, 0]);
}

#[test]
fn mask_transposes() {
    let m = vec![true, false, false, false, true, false];
    let t = transpose_mask_bvn_to_bnv(&m, 1, 2, 3);
    let expect = vec![true, false, false, true, false, false];
    assert_eq!(t, expect);
}

#[test]
fn tensor_transpose_roundtrip() {
    let (b, v, n, d) = (1usize, 2usize, 3usize, 2usize);
    let data: Vec<f32> = (0..b * v * n * d).map(|i| i as f32).collect();
    let x = Tensor2D::from_row_major(b * v * n, d, data).expect("fixture");
    let t = transpose_bvnd_to_bnvd(&x, b, v, n, d);
    let back = transpose_bnvd_to_bvnd(&t, b, v, n, d);
    assert_eq!(back, x);
}

#[test]
fn into_variants_match_the_allocating_ones() {
    let (b, v, n, d) = (2usize, 3usize, 2usize, 2usize);
    let data: Vec<i64> = (0..(b * v * n * d) as i64).collect();
    let x = Tensor2D::from_row_major(b * v * n, d, data).unwrap();
    let mut out = Tensor2D::filled(b * n * v, d, 0i64);
    transpose_bvnd_to_bnvd_into(&x, &mut out, b, v, n, d);
    assert_eq!(out, transpose_bvnd_to_bnvd(&x, b, v, n, d));
    // Row (b=1, n=1, v=2) of the variate layout is row (b=1, v=2, n=1) = 11.
    assert_eq!(out.get((1 * n + 1) * v + 2, 0), 22);
    let mut back = Tensor2D::filled(b * v * n, d, 0i64);
    transpose_bnvd_to_bvnd_into(&out, &mut back, b, v, n, d);
    assert_eq!(back, x);
    assert_eq!(swap_middle_axes(&[1, 2, 3, 4, 5, 6], 1, 2, 3, 1), vec![1, 4, 2, 5, 3, 6]);
}

#[test]
fn roll_matches_manual() {
    let x = vec![1.0, 2.0, 3.0, 4.0, 5.0, 6.0];
    let (rolled, wrap) = get_output_patch_via_roll(&x, 1, 3, 2, 2);
    assert_eq!(
        &rolled[0..12],
        &[3.0, 4.0, 5.0, 6.0, 5.0, 6.0, 1.0, 2.0, 1.0, 2.0, 3.0, 4.0]
    );
    assert_eq!(
        wrap,
        vec![false, false, false, false, false, false, true, true, true, true, true, true]
    );
}

#[test]
fn roll_bool_matches_value_roll() {
    let x = vec![true, false, false, true, true, true, false, false];
    let (rolled, wrap) = get_output_patch_via_roll_bool(&x, 2, 2, 2, 1);
    // Row 0: patches [T,F],[F,T]; row 1: [T,T],[F,F]; one roll.
    assert_eq!(rolled, vec![false, true, true, false, false, false, true, true]);
    assert_eq!(wrap, vec![false, false, true, true, false, false, true, true]);
    let (r0, w0) = get_output_patch_via_roll_bool(&x, 2, 2, 2, 0);
    assert!(r0.is_empty() && w0.is_empty());
}
