//! 3-D linear-algebra primitives for rendering transforms: 4x4 matrix
//! multiply, matrix-vector transform, and quaternion-to-rotation-matrix
//! conversion, all on binary32 bit patterns in row-major order.
use vstd::prelude::*;

use crate::KernelError;
use crate::fbits::{
    F32_ONE_BITS, F32_TWO_BITS, F32_ZERO_BITS, f32_add, f32_add_bits, f32_mul, f32_mul_bits,
    f32_sub, f32_sub_bits,
};

verus! {

/// The running sum of the first `k` products `a[4i+t] * b[4t+j]`, accumulated
/// left to right from +0.0, exactly as the multiply kernel computes it.
pub open spec fn dot_prefix(a: Seq<u32>, b: Seq<u32>, i: int, j: int, k: int) -> u32
    decreases k,
{
    if k <= 0 {
        F32_ZERO_BITS
    } else {
        f32_add_bits(
            dot_prefix(a, b, i, j, k - 1),
            f32_mul_bits(a[4 * i + (k - 1)], b[4 * (k - 1) + j]),
        )
    }
}

/// Row `i`, column `j` of the row-major 4x4 product of `a` and `b`.
pub open spec fn mat_mul_elem(a: Seq<u32>, b: Seq<u32>, i: int, j: int) -> u32 {
    dot_prefix(a, b, i, j, 4)
}

/// The running sum of the first `k` products `m[4i+t] * v[t]`, accumulated
/// left to right from +0.0.
pub open spec fn tv_prefix(m: Seq<u32>, v: Seq<u32>, i: int, k: int) -> u32
    decreases k,
{
    if k <= 0 {
        F32_ZERO_BITS
    } else {
        f32_add_bits(tv_prefix(m, v, i, k - 1), f32_mul_bits(m[4 * i + (k - 1)], v[k - 1]))
    }
}

/// Component `i` of the homogeneous matrix-vector product `m * v`.
pub open spec fn transform_elem(m: Seq<u32>, v: Seq<u32>, i: int) -> u32 {
    tv_prefix(m, v, i, 4)
}

/// The closed-form rotation matrix of the quaternion `(x, y, z, w)`, with
/// zero translation. The quaternion is not normalized first: a non-unit
/// input yields a non-orthogonal matrix.
pub open spec fn quat_matrix(x: u32, y: u32, z: u32, w: u32) -> Seq<u32> {
    let x2 = f32_mul_bits(x, x);
    let y2 = f32_mul_bits(y, y);
    let z2 = f32_mul_bits(z, z);
    let xy = f32_mul_bits(x, y);
    let xz = f32_mul_bits(x, z);
    let yz = f32_mul_bits(y, z);
    let wx = f32_mul_bits(w, x);
    let wy = f32_mul_bits(w, y);
    let wz = f32_mul_bits(w, z);
    seq![
        f32_sub_bits(F32_ONE_BITS, f32_mul_bits(F32_TWO_BITS, f32_add_bits(y2, z2))),
        f32_mul_bits(F32_TWO_BITS, f32_sub_bits(xy, wz)),
        f32_mul_bits(F32_TWO_BITS, f32_add_bits(xz, wy)),
        F32_ZERO_BITS,
        f32_mul_bits(F32_TWO_BITS, f32_add_bits(xy, wz)),
        f32_sub_bits(F32_ONE_BITS, f32_mul_bits(F32_TWO_BITS, f32_add_bits(x2, z2))),
        f32_mul_bits(F32_TWO_BITS, f32_sub_bits(yz, wx)),
        F32_ZERO_BITS,
        f32_mul_bits(F32_TWO_BITS, f32_sub_bits(xz, wy)),
        f32_mul_bits(F32_TWO_BITS, f32_add_bits(yz, wx)),
        f32_sub_bits(F32_ONE_BITS, f32_mul_bits(F32_TWO_BITS, f32_add_bits(x2, y2))),
        F32_ZERO_BITS,
        F32_ZERO_BITS,
        F32_ZERO_BITS,
        F32_ZERO_BITS,
        F32_ONE_BITS,
    ]
}

/// Stateless 3-D matrix kernels.
pub struct MatrixMath;

impl MatrixMath {
    /// Row-major 4x4 matrix product `result = a * b`, computed as 16
    /// left-to-right accumulated dot products.
    pub fn multiply_matrices(a: &Vec<u32>, b: &Vec<u32>, result: &mut Vec<u32>) -> (r: Result<
        (),
        KernelError,
    >)
        ensures
            r is Ok <==> a@.len() == 16 && b@.len() == 16 && old(result)@.len() == 16,
            r is Err ==> r == Err::<(), KernelError>(KernelError::InvalidBufferLength)
                && final(result)@ == old(result)@,
            r is Ok ==> final(result)@.len() == 16 && forall|i: int, j: int|
                0 <= i < 4 && 0 <= j < 4 ==> final(result)@[4 * i + j] == mat_mul_elem(
                    a@,
                    b@,
                    i,
                    j,
                ),
    {
        if a.len() != 16 || b.len() != 16 || result.len() != 16 {
            return Err(KernelError::InvalidBufferLength);
        }
        let mut out: Vec<u32> = Vec::new();
        let mut i: usize = 0;
        while i < 4
            invariant
                a@.len() == 16,
                b@.len() == 16,
                i <= 4,
                out@.len() == 4 * i,
                forall|p: int, q: int|
                    0 <= p < i && 0 <= q < 4 ==> out@[4 * p + q] == mat_mul_elem(a@, b@, p, q),
            decreases 4 - i,
        {
            let mut j: usize = 0;
            while j < 4
                invariant
                    a@.len() == 16,
                    b@.len() == 16,
                    i < 4,
                    j <= 4,
                    out@.len() == 4 * i + j,
                    forall|p: int, q: int|
                        0 <= p < i && 0 <= q < 4 ==> out@[4 * p + q] == mat_mul_elem(a@, b@, p, q),
                    forall|q: int|
                        0 <= q < j ==> out@[4 * i + q] == mat_mul_elem(a@, b@, i as int, q),
                decreases 4 - j,
            {
                let mut sum: u32 = F32_ZERO_BITS;
                let mut k: usize = 0;
                while k < 4
                    invariant
                        a@.len() == 16,
                        b@.len() == 16,
                        i < 4,
                        j < 4,
                        k <= 4,
                        sum == dot_prefix(a@, b@, i as int, j as int, k as int),
                    decreases 4 - k,
                {
                    sum = f32_add(sum, f32_mul(a[4 * i + k], b[4 * k + j]));
                    k += 1;
                }
                out.push(sum);
                j += 1;
            }
            i += 1;
        }
        *result = out;
        Ok(())
    }

    /// Homogeneous matrix-vector product `result = matrix * vector`.
    pub fn transform_vector(matrix: &Vec<u32>, vector: &Vec<u32>, result: &mut Vec<u32>) -> (r:
        Result<(), KernelError>)
        ensures
            r is Ok <==> matrix@.len() == 16 && vector@.len() == 4 && old(result)@.len() == 4,
            r is Err ==> r == Err::<(), KernelError>(KernelError::InvalidBufferLength)
                && final(result)@ == old(result)@,
            r is Ok ==> final(result)@.len() == 4 && forall|i: int|
                0 <= i < 4 ==> final(result)@[i] == transform_elem(matrix@, vector@, i),
    {
        if matrix.len() != 16 || vector.len() != 4 || result.len() != 4 {
            return Err(KernelError::InvalidBufferLength);
        }
        let mut out: Vec<u32> = Vec::new();
        let mut i: usize = 0;
        while i < 4
            invariant
                matrix@.len() == 16,
                vector@.len() == 4,
                i <= 4,
                out@.len() == i,
                forall|p: int| 0 <= p < i ==> out@[p] == transform_elem(matrix@, vector@, p),
            decreases 4 - i,
        {
            let mut sum: u32 = F32_ZERO_BITS;
            let mut k: usize = 0;
            while k < 4
                invariant
                    matrix@.len() == 16,
                    vector@.len() == 4,
                    i < 4,
                    k <= 4,
                    sum == tv_prefix(matrix@, vector@, i as int, k as int),
                decreases 4 - k,
            {
                sum = f32_add(sum, f32_mul(matrix[4 * i + k], vector[k]));
                k += 1;
            }
            out.push(sum);
            i += 1;
        }
        *result = out;
        Ok(())
    }

    /// Closed-form quaternion-to-rotation-matrix conversion. The caller must
    /// pre-normalize the quaternion for the result to be a valid rotation.
    pub fn quaternion_to_matrix(qx: u32, qy: u32, qz: u32, qw: u32, result: &mut Vec<u32>) -> (r:
        Result<(), KernelError>)
        ensures
            r is Ok <==> old(result)@.len() == 16,
            r is Err ==> r == Err::<(), KernelError>(KernelError::InvalidBufferLength)
                && final(result)@ == old(result)@,
            r is Ok ==> final(result)@ == quat_matrix(qx, qy, qz, qw),
    {
        if result.len() != 16 {
            return Err(KernelError::InvalidBufferLength);
        }
        let x2 = f32_mul(qx, qx);
        let y2 = f32_mul(qy, qy);
        let z2 = f32_mul(qz, qz);
        let xy = f32_mul(qx, qy);
        let xz = f32_mul(qx, qz);
        let yz = f32_mul(qy, qz);
        let wx = f32_mul(qw, qx);
        let wy = f32_mul(qw, qy);
        let wz = f32_mul(qw, qz);
        let mut out: Vec<u32> = Vec::new();
        out.push(f32_sub(F32_ONE_BITS, f32_mul(F32_TWO_BITS, f32_add(y2, z2))));
        out.push(f32_mul(F32_TWO_BITS, f32_sub(xy, wz)));
        out.push(f32_mul(F32_TWO_BITS, f32_add(xz, wy)));
        out.push(F32_ZERO_BITS);
        out.push(f32_mul(F32_TWO_BITS, f32_add(xy, wz)));
        out.push(f32_sub(F32_ONE_BITS, f32_mul(F32_TWO_BITS, f32_add(x2, z2))));
        out.push(f32_mul(F32_TWO_BITS, f32_sub(yz, wx)));
        out.push(F32_ZERO_BITS);
        out.push(f32_mul(F32_TWO_BITS, f32_sub(xz, wy)));
        out.push(f32_mul(F32_TWO_BITS, f32_add(yz, wx)));
        out.push(f32_sub(F32_ONE_BITS, f32_mul(F32_TWO_BITS, f32_add(x2, y2))));
        out.push(F32_ZERO_BITS);
        out.push(F32_ZERO_BITS);
        out.push(F32_ZERO_BITS);
        out.push(F32_ZERO_BITS);
        out.push(F32_ONE_BITS);
        proof {
            assert(out@ =~= quat_matrix(qx, qy, qz, qw));
        }
        *result = out;
        Ok(())
    }
}

} // verus!
