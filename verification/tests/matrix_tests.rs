use vr_kernels::KernelError;
use vr_kernels::matrix::MatrixMath;

fn bits16(vals: [f32; 16]) -> Vec<u32> {
    vals.iter().map(|v| v.to_bits()).collect()
}

fn bits4(vals: [f32; 4]) -> Vec<u32> {
    vals.iter().map(|v| v.to_bits()).collect()
}

fn floats(bits: &Vec<u32>) -> Vec<f32> {
    bits.iter().map(|b| f32::from_bits(*b)).collect()
}

const IDENTITY: [f32; 16] = [
    1.0, 0.0, 0.0, 0.0, 0.0, 1.0, 0.0, 0.0, 0.0, 0.0, 1.0, 0.0, 0.0, 0.0, 0.0, 1.0,
];

const SAMPLE: [f32; 16] = [
    1.5, 2.25, -3.0, 4.0, 5.5, -6.75, 7.0, 8.5, 9.0, 10.25, -11.5, 12.0, 13.75, 14.0, 15.5, 16.25,
];

#[test]
fn multiply_identity_left_returns_operand() {
    let a = bits16(IDENTITY);
    let b = bits16(SAMPLE);
    let mut out = vec![0u32; 16];
    assert_eq!(MatrixMath::multiply_matrices(&a, &b, &mut out), Ok(()));
    assert_eq!(floats(&out), SAMPLE.to_vec());
}

#[test]
fn multiply_identity_right_returns_operand() {
    let a = bits16(SAMPLE);
    let b = bits16(IDENTITY);
    let mut out = vec![0u32; 16];
    assert_eq!(MatrixMath::multiply_matrices(&a, &b, &mut out), Ok(()));
    assert_eq!(floats(&out), SAMPLE.to_vec());
}

#[test]
fn multiply_diagonal_scales() {
    let a = bits16([
        2.0, 0.0, 0.0, 0.0, 0.0, 2.0, 0.0, 0.0, 0.0, 0.0, 2.0, 0.0, 0.0, 0.0, 0.0, 2.0,
    ]);
    let b = bits16([
        3.0, 0.0, 0.0, 0.0, 0.0, 3.0, 0.0, 0.0, 0.0, 0.0, 3.0, 0.0, 0.0, 0.0, 0.0, 3.0,
    ]);
    let mut out = vec![0u32; 16];
    assert_eq!(MatrixMath::multiply_matrices(&a, &b, &mut out), Ok(()));
    let expected = [
        6.0, 0.0, 0.0, 0.0, 0.0, 6.0, 0.0, 0.0, 0.0, 0.0, 6.0, 0.0, 0.0, 0.0, 0.0, 6.0,
    ];
    assert_eq!(floats(&out), expected.to_vec());
}

#[test]
fn multiply_full_product() {
    // Row 0 of a is all ones, so row 0 of the product holds b's column sums.
    let a = bits16([
        1.0, 1.0, 1.0, 1.0, 0.0, 0.0, 0.0, 0.0, 0.0, 0.0, 0.0, 0.0, 0.0, 0.0, 0.0, 0.0,
    ]);
    let b = bits16(SAMPLE);
    let mut out = vec![0u32; 16];
    assert_eq!(MatrixMath::multiply_matrices(&a, &b, &mut out), Ok(()));
    let got = floats(&out);
    assert_eq!(got[0], 1.5 + 5.5 + 9.0 + 13.75);
    assert_eq!(got[1], 2.25 + (-6.75) + 10.25 + 14.0);
    assert_eq!(got[2], -3.0 + 7.0 + (-11.5) + 15.5);
    assert_eq!(got[3], 4.0 + 8.5 + 12.0 + 16.25);
    assert_eq!(&got[4..], &[0.0f32; 12]);
}

#[test]
fn multiply_wrong_length_is_error() {
    let a = vec![0u32; 15];
    let b = bits16(IDENTITY);
    let mut out = vec![0u32; 16];
    assert_eq!(
        MatrixMath::multiply_matrices(&a, &b, &mut out),
        Err(KernelError::InvalidBufferLength)
    );
}

#[test]
fn transform_identity_returns_vector() {
    let m = bits16(IDENTITY);
    let v = bits4([4.5, -2.5, 3.25, 1.0]);
    let mut out = vec![0u32; 4];
    assert_eq!(MatrixMath::transform_vector(&m, &v, &mut out), Ok(()));
    assert_eq!(floats(&out), vec![4.5, -2.5, 3.25, 1.0]);
}

#[test]
fn transform_row_sums() {
    let m = bits16([
        1.0, 1.0, 1.0, 1.0, 2.0, 2.0, 2.0, 2.0, 0.0, 0.0, 0.0, 0.0, 1.0, 0.0, 0.0, 0.0,
    ]);
    let v = bits4([1.0, 2.0, 3.0, 4.0]);
    let mut out = vec![0u32; 4];
    assert_eq!(MatrixMath::transform_vector(&m, &v, &mut out), Ok(()));
    assert_eq!(floats(&out), vec![10.0, 20.0, 0.0, 1.0]);
}

#[test]
fn transform_wrong_length_is_error() {
    let m = bits16(IDENTITY);
    let v = vec![0u32; 3];
    let mut out = vec![0u32; 4];
    assert_eq!(
        MatrixMath::transform_vector(&m, &v, &mut out),
        Err(KernelError::InvalidBufferLength)
    );
}

#[test]
fn unit_quaternion_gives_identity_exactly() {
    let mut out = vec![0u32; 16];
    let r = MatrixMath::quaternion_to_matrix(
        0.0f32.to_bits(),
        0.0f32.to_bits(),
        0.0f32.to_bits(),
        1.0f32.to_bits(),
        &mut out,
    );
    assert_eq!(r, Ok(()));
    assert_eq!(out, bits16(IDENTITY));
}

#[test]
fn x_axis_quaternion_gives_half_turn() {
    let mut out = vec![0u32; 16];
    let r = MatrixMath::quaternion_to_matrix(
        1.0f32.to_bits(),
        0.0f32.to_bits(),
        0.0f32.to_bits(),
        0.0f32.to_bits(),
        &mut out,
    );
    assert_eq!(r, Ok(()));
    let expected = [
        1.0, 0.0, 0.0, 0.0, 0.0, -1.0, 0.0, 0.0, 0.0, 0.0, -1.0, 0.0, 0.0, 0.0, 0.0, 1.0,
    ];
    assert_eq!(floats(&out), expected.to_vec());
}

#[test]
fn quaternion_wrong_length_is_error() {
    let mut out = vec![0u32; 3];
    let r = MatrixMath::quaternion_to_matrix(0, 0, 0, 1.0f32.to_bits(), &mut out);
    assert_eq!(r, Err(KernelError::InvalidBufferLength));
    assert_eq!(out, vec![0u32; 3]);
}
