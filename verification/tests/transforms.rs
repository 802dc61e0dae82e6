use ndfft::{fft, fft2, fftn, fftnd, ifft, ifft2, ifftn, NdArray};
use rustfft::num_complex::Complex64;

fn assert_eq_vecs(a: &[Complex64], b: &[Complex64]) {
    assert_eq!(a.len(), b.len());
    for (x, y) in a.iter().zip(b) {
        assert!((x - y).norm() < 0.1f64, "{} != {}", x, y);
    }
}

fn reals(xs: &[f64]) -> Vec<Complex64> {
    xs.iter().map(|&x| Complex64::new(x, 0.)).collect()
}

fn zeros(n: usize) -> Vec<Complex64> {
    vec![Complex64::new(0., 0.); n]
}

#[test]
fn test_fft() {
    let mut input = reals(&[1., 2., 3., 4., 5., 6., 7., 8., 9.]);
    let mut output = zeros(9);
    fft(&mut input, &mut output);
    let expected = [
        Complex64::new(45.0, 0.),
        Complex64::new(-4.5, 12.36364839),
        Complex64::new(-4.5, 5.36289117),
        Complex64::new(-4.5, 2.59807621),
        Complex64::new(-4.5, 0.79347141),
        Complex64::new(-4.5, -0.79347141),
        Complex64::new(-4.5, -2.59807621),
        Complex64::new(-4.5, -5.36289117),
        Complex64::new(-4.5, -12.36364839),
    ];
    assert_eq_vecs(&expected, &output);
}

#[test]
fn test_inverse_fft() {
    let mut input = reals(&[1., 2., 3., 4., 5., 6., 7., 8., 9.]);
    let expected = input.clone();
    let mut output = zeros(9);
    fft(&mut input, &mut output);
    let mut output2 = zeros(9);
    ifft(&mut output, &mut output2);
    assert_eq_vecs(&expected, &output2);
}

#[test]
fn test_fft2() {
    let mut input = NdArray {
        data: reals(&[1., 2., 3., 4., 5., 6., 7., 8., 9.]),
        shape: vec![3, 3],
    };
    let mut output = NdArray { data: zeros(9), shape: vec![3, 3] };
    fft2(&mut input, &mut output);
    let expected = [
        Complex64::new(45.0, 0.),
        Complex64::new(-4.5, 2.59807621),
        Complex64::new(-4.5, -2.59807621),
        Complex64::new(-13.5, 7.79422863),
        Complex64::new(0.0, 0.),
        Complex64::new(0.0, 0.),
        Complex64::new(-13.5, -7.79422863),
        Complex64::new(0.0, 0.),
        Complex64::new(0.0, 0.),
    ];
    assert_eq_vecs(&expected, &output.data);
}

#[test]
fn test_inverse_fft2() {
    let mut input = NdArray {
        data: reals(&[1., 2., 3., 4., 5., 6., 7., 8., 9.]),
        shape: vec![3, 3],
    };
    let mut output = NdArray { data: zeros(9), shape: vec![3, 3] };
    fft2(&mut input, &mut output);
    let mut output2 = NdArray { data: zeros(9), shape: vec![3, 3] };
    ifft2(&mut output, &mut output2);
    let expected = reals(&[1., 2., 3., 4., 5., 6., 7., 8., 9.]);
    assert_eq_vecs(&expected, &output2.data);
}

#[test]
fn test_linearity() {
    let x = reals(&[1., -2., 3., 0.5]);
    let y: Vec<Complex64> = vec![
        Complex64::new(0., 1.),
        Complex64::new(2., -1.),
        Complex64::new(-3., 0.5),
        Complex64::new(4., 4.),
    ];
    let a = Complex64::new(2., 1.);
    let b = Complex64::new(-1., 0.5);
    let mut combo: Vec<Complex64> = (0..4).map(|i| a * x[i] + b * y[i]).collect();
    let mut combo_out = zeros(4);
    fft(&mut combo, &mut combo_out);
    let mut xin = x.clone();
    let mut x_out = zeros(4);
    fft(&mut xin, &mut x_out);
    let mut yin = y.clone();
    let mut y_out = zeros(4);
    fft(&mut yin, &mut y_out);
    let recombined: Vec<Complex64> = (0..4).map(|i| a * x_out[i] + b * y_out[i]).collect();
    assert_eq_vecs(&recombined, &combo_out);
}

#[test]
fn test_axis_order_invariance() {
    let vals = [
        Complex64::new(1., 0.5),
        Complex64::new(-2., 1.),
        Complex64::new(3., -1.),
        Complex64::new(0.5, 2.),
        Complex64::new(-1., -1.),
        Complex64::new(2., 0.),
    ];
    let mut a = NdArray { data: vals.to_vec(), shape: vec![2, 3] };
    let mut out_a = NdArray { data: zeros(6), shape: vec![2, 3] };
    fftnd(&mut a, &mut out_a, &vec![0, 1]);
    let mut b = NdArray { data: vals.to_vec(), shape: vec![2, 3] };
    let mut out_b = NdArray { data: zeros(6), shape: vec![2, 3] };
    fftnd(&mut b, &mut out_b, &vec![1, 0]);
    assert_eq_vecs(&out_a.data, &out_b.data);
}

#[test]
fn test_single_lane_identity() {
    let vals = [
        Complex64::new(1., 2.),
        Complex64::new(-3., 4.),
        Complex64::new(5., -6.),
    ];
    let mut input = NdArray { data: vals.to_vec(), shape: vec![1, 3] };
    let mut output = NdArray { data: zeros(3), shape: vec![1, 3] };
    fftn(&mut input, &mut output, 0);
    assert_eq_vecs(&vals, &output.data);
    let mut one_in = vec![Complex64::new(7., -2.)];
    let mut one_out = zeros(1);
    fft(&mut one_in, &mut one_out);
    assert_eq_vecs(&[Complex64::new(7., -2.)], &one_out);
}

#[test]
fn test_shape_preserved() {
    let mut input = NdArray { data: reals(&[1., 2., 3., 4., 5., 6.]), shape: vec![2, 3] };
    let mut output = NdArray { data: zeros(6), shape: vec![2, 3] };
    fft2(&mut input, &mut output);
    assert_eq!(output.shape, vec![2, 3]);
    assert_eq!(input.shape, vec![2, 3]);
    assert_eq!(output.data.len(), 6);
    let mut input3 = NdArray { data: reals(&[1.; 24]), shape: vec![2, 3, 4] };
    let mut output3 = NdArray { data: zeros(24), shape: vec![2, 3, 4] };
    fftn(&mut input3, &mut output3, 2);
    assert_eq!(output3.shape, vec![2, 3, 4]);
    assert_eq!(output3.data.len(), 24);
}

#[test]
fn test_fftn_middle_axis_3d() {
    let data = reals(&[1., 2., 3., 4., 5., 6., 7., 8.]);
    let mut input = NdArray { data: data.clone(), shape: vec![2, 2, 2] };
    let mut output = NdArray { data: zeros(8), shape: vec![2, 2, 2] };
    fftn(&mut input, &mut output, 1);
    let mut expected = zeros(8);
    for b in 0..2 {
        for i in 0..2 {
            expected[b * 4 + i] = data[b * 4 + i] + data[b * 4 + 2 + i];
            expected[b * 4 + 2 + i] = data[b * 4 + i] - data[b * 4 + 2 + i];
        }
    }
    assert_eq_vecs(&expected, &output.data);
}

#[test]
fn test_fftn_rows_match_1d_fft() {
    let mut input = NdArray { data: reals(&[1., 2., 3., 4., 5., 6.]), shape: vec![2, 3] };
    let mut output = NdArray { data: zeros(6), shape: vec![2, 3] };
    fftn(&mut input, &mut output, 1);
    let mut row0 = reals(&[1., 2., 3.]);
    let mut row0_out = zeros(3);
    fft(&mut row0, &mut row0_out);
    let mut row1 = reals(&[4., 5., 6.]);
    let mut row1_out = zeros(3);
    fft(&mut row1, &mut row1_out);
    assert_eq_vecs(&row0_out, &output.data[0..3]);
    assert_eq_vecs(&row1_out, &output.data[3..6]);
}

#[test]
fn test_ifft_normalizes() {
    let c = Complex64::new(6., 3.);
    let mut input = vec![c, c, c];
    let mut output = zeros(3);
    ifft(&mut input, &mut output);
    let expected = [c, Complex64::new(0., 0.), Complex64::new(0., 0.)];
    assert_eq_vecs(&expected, &output);
}

#[test]
fn test_single_axis_round_trip() {
    let vals = [
        Complex64::new(1., -1.),
        Complex64::new(2., 0.5),
        Complex64::new(-3., 2.),
        Complex64::new(4., 0.),
        Complex64::new(0., -2.),
        Complex64::new(-1., 1.),
    ];
    let mut input = NdArray { data: vals.to_vec(), shape: vec![2, 3] };
    let mut mid = NdArray { data: zeros(6), shape: vec![2, 3] };
    fftn(&mut input, &mut mid, 0);
    let mut back = NdArray { data: zeros(6), shape: vec![2, 3] };
    ifftn(&mut mid, &mut back, 0);
    assert_eq_vecs(&vals, &back.data);
}

#[test]
fn test_fftnd_no_axes() {
    let mut input = NdArray { data: reals(&[1., 2., 3., 4.]), shape: vec![2, 2] };
    let mut output = NdArray { data: zeros(4), shape: vec![2, 2] };
    fftnd(&mut input, &mut output, &vec![]);
    assert_eq_vecs(&zeros(4), &output.data);
    assert_eq_vecs(&reals(&[1., 2., 3., 4.]), &input.data);
}

#[test]
fn test_inverse_fft2_rectangular() {
    let vals = [
        Complex64::new(1., 2.),
        Complex64::new(-2., 0.),
        Complex64::new(3., -1.),
        Complex64::new(0.5, 4.),
        Complex64::new(-1., -3.),
        Complex64::new(2., 1.),
    ];
    let mut input = NdArray { data: vals.to_vec(), shape: vec![2, 3] };
    let mut mid = NdArray { data: zeros(6), shape: vec![2, 3] };
    fft2(&mut input, &mut mid);
    let mut back = NdArray { data: zeros(6), shape: vec![2, 3] };
    ifft2(&mut mid, &mut back);
    assert_eq_vecs(&vals, &back.data);
}
