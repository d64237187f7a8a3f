//! The kernels behind a check of their arguments: each function here tests
//! what the kernel of the same name requires, runs it where that holds, and
//! otherwise says what is wrong and leaves everything as it was.
use vstd::prelude::*;
use crate::arithmetic::{dot_of, Arithmetic};
use crate::binary32::Binary32;
use crate::operators::{
    causal_softmax_of, dot, gather, gathered, key_len, masked_softmax, matmul_transb,
    matmul_transb_of, query_len, random_sample, random_sample_of, rms_norm, rms_norm_of, rope,
    rope_of, swiglu, swiglu_of,
};
use crate::tensor::Tensor;

verus! {

/// What is wrong with the arguments of a kernel.
#[derive(Clone, Copy, Debug, PartialEq, Eq, Structural)]
pub enum Violation {
    /// A tensor has another number of dimensions than the kernel works on.
    Rank,
    /// Sizes or dimensions that have to agree do not.
    Size,
    /// An index names no row of the table.
    Index,
    /// The head dimension is odd.
    OddDimension,
    /// The position of the last token does not fit the machine's integers.
    Position,
    /// There are more queries than keys.
    Mask,
    /// There are more logits than token numbers.
    Tokens,
}

/// The answer that goes with a finding: `Ok` where nothing is wrong.
pub open spec fn verdict(found: Option<Violation>) -> Result<(), Violation> {
    match found {
        Some(v) => Err(v),
        None => Ok(()),
    }
}

/// Some index names no row of a table of `rows` rows.
pub open spec fn has_stray_index(indices: Seq<u32>, rows: int) -> bool {
    exists|i: int| 0 <= i < indices.len() && #[trigger] indices[i] >= rows
}

/// What is wrong with the arguments of `gather`, the first of: the table is
/// no matrix; `y` does not hold a row for each index; an index names no row.
pub open spec fn gather_violation(
    y_len: nat,
    indices: Seq<u32>,
    table_dims: Seq<usize>,
) -> Option<Violation> {
    if table_dims.len() != 2 {
        Some(Violation::Rank)
    } else if y_len != indices.len() * table_dims[1] {
        Some(Violation::Size)
    } else if has_stray_index(indices, table_dims[0] as int) {
        Some(Violation::Index)
    } else {
        None
    }
}

/// What is wrong with the arguments of `rope`, the first of: the tensor is
/// not of rank 3; the head dimension is odd; the last position overflows.
pub open spec fn rope_violation(dims: Seq<usize>, start_pos: usize) -> Option<Violation> {
    if dims.len() != 3 {
        Some(Violation::Rank)
    } else if dims[2] % 2 != 0 {
        Some(Violation::OddDimension)
    } else if start_pos + dims[0] > usize::MAX {
        Some(Violation::Position)
    } else {
        None
    }
}

/// What is wrong with the argument of `masked_softmax`, the first of: the
/// tensor has fewer than 2 dimensions; there are more queries than keys.
pub open spec fn masked_softmax_violation(dims: Seq<usize>) -> Option<Violation> {
    if dims.len() < 2 {
        Some(Violation::Rank)
    } else if query_len(dims) > key_len(dims) {
        Some(Violation::Mask)
    } else {
        None
    }
}

/// What is wrong with tensors that have to be of one size.
pub open spec fn size_violation(a_len: nat, b_len: nat) -> Option<Violation> {
    if a_len != b_len {
        Some(Violation::Size)
    } else {
        None
    }
}

/// What is wrong with the arguments of `rms_norm`.
pub open spec fn rms_norm_violation(y_len: nat, x_len: nat, w_len: nat) -> Option<Violation> {
    if y_len != x_len || y_len != w_len {
        Some(Violation::Size)
    } else {
        None
    }
}

/// What is wrong with the arguments of `matmul_transb`, the first of: one of
/// the three is no matrix; their dimensions do not fit.
pub open spec fn matmul_transb_violation(
    c_dims: Seq<usize>,
    a_dims: Seq<usize>,
    b_dims: Seq<usize>,
) -> Option<Violation> {
    if c_dims.len() != 2 || a_dims.len() != 2 || b_dims.len() != 2 {
        Some(Violation::Rank)
    } else if c_dims[0] != a_dims[0] || c_dims[1] != b_dims[0] || a_dims[1] != b_dims[1] {
        Some(Violation::Size)
    } else {
        None
    }
}

/// What is wrong with the logits of `random_sample`, the first of: the
/// tensor has no dimension; its last dimension does not hold all of it;
/// there are more logits than `u32` has values to number them.
pub open spec fn random_sample_violation(dims: Seq<usize>, len: nat) -> Option<Violation> {
    if dims.len() < 1 {
        Some(Violation::Rank)
    } else if dims.last() != len {
        Some(Violation::Size)
    } else if len > u32::MAX {
        Some(Violation::Tokens)
    } else {
        None
    }
}

/// Whether some index names no row of a table of `rows` rows.
pub fn any_stray_index(indices: &Vec<u32>, rows: usize) -> (r: bool)
    ensures
        r == has_stray_index(indices@, rows as int),
{
    let n: usize = indices.len();
    let mut i: usize = 0;
    while i < n
        invariant
            n == indices.len(),
            i <= n,
            forall|j: int| 0 <= j < i ==> (#[trigger] indices[j]) < rows,
        decreases n - i,
    {
        if indices[i] as usize >= rows {
            return true;
        }
        i += 1;
    }
    false
}

/// `gather`, where its arguments fit.
pub fn try_gather<T: Copy>(y: &mut Tensor<T>, indices: &Tensor<u32>, table: &Tensor<T>) -> (r:
    Result<(), Violation>)
    ensures
        r == verdict(gather_violation(old(y)@.len(), indices@, table.dims())),
        r is Ok ==> final(y).dims() == old(y).dims() && final(y)@.len() == old(y)@.len()
            && gathered(indices@, table@, table.dims()[1] as int, final(y)@),
        r is Err ==> *final(y) == *old(y),
{
    let table_shape: &Vec<usize> = table.shape();
    if table_shape.len() != 2 {
        return Err(Violation::Rank);
    }
    let len: usize = y.size();
    match indices.size().checked_mul(table_shape[1]) {
        Some(size) => {
            if len != size {
                return Err(Violation::Size);
            }
        },
        None => {
            return Err(Violation::Size);
        },
    }
    if any_stray_index(indices.data(), table_shape[0]) {
        return Err(Violation::Index);
    }
    gather(y, indices, table);
    Ok(())
}

/// `rope`, where its arguments fit.
pub fn try_rope<A: Arithmetic>(y: &mut Tensor<Binary32>, start_pos: usize, theta: Binary32) -> (r:
    Result<(), Violation>)
    ensures
        r == verdict(rope_violation(old(y).dims(), start_pos)),
        r is Ok ==> final(y).dims() == old(y).dims() && rope_of::<A>(
            old(y)@,
            final(y)@,
            start_pos,
            theta,
            old(y).dims(),
        ),
        r is Err ==> *final(y) == *old(y),
{
    let shape: &Vec<usize> = y.shape();
    if shape.len() != 3 {
        return Err(Violation::Rank);
    }
    if shape[2] % 2 != 0 {
        return Err(Violation::OddDimension);
    }
    if start_pos.checked_add(shape[0]).is_none() {
        return Err(Violation::Position);
    }
    rope::<A>(y, start_pos, theta);
    Ok(())
}

/// `masked_softmax`, where its argument fits.
pub fn try_masked_softmax<A: Arithmetic>(y: &mut Tensor<Binary32>) -> (r: Result<(), Violation>)
    ensures
        r == verdict(masked_softmax_violation(old(y).dims())),
        r is Ok ==> final(y).dims() == old(y).dims() && causal_softmax_of::<A>(
            old(y)@,
            final(y)@,
            query_len(old(y).dims()),
            key_len(old(y).dims()),
        ),
        r is Err ==> *final(y) == *old(y),
{
    let shape: &Vec<usize> = y.shape();
    let ndim: usize = shape.len();
    if ndim < 2 {
        return Err(Violation::Rank);
    }
    if shape[ndim - 2] > shape[ndim - 1] {
        return Err(Violation::Mask);
    }
    masked_softmax::<A>(y);
    Ok(())
}

/// `rms_norm`, where its arguments fit.
pub fn try_rms_norm<A: Arithmetic>(
    y: &mut Tensor<Binary32>,
    x: &Tensor<Binary32>,
    w: &Tensor<Binary32>,
    epsilon: Binary32,
) -> (r: Result<(), Violation>)
    ensures
        r == verdict(rms_norm_violation(old(y)@.len(), x@.len(), w@.len())),
        r is Ok ==> final(y).dims() == old(y).dims() && rms_norm_of::<A>(
            x@,
            w@,
            epsilon,
            final(y)@,
        ),
        r is Err ==> *final(y) == *old(y),
{
    let len: usize = y.size();
    if len != x.size() || len != w.size() {
        return Err(Violation::Size);
    }
    rms_norm::<A>(y, x, w, epsilon);
    Ok(())
}

/// `swiglu`, where its arguments fit.
pub fn try_swiglu<A: Arithmetic>(y: &mut Tensor<Binary32>, x: &Tensor<Binary32>) -> (r: Result<
    (),
    Violation,
>)
    ensures
        r == verdict(size_violation(old(y)@.len(), x@.len())),
        r is Ok ==> final(y).dims() == old(y).dims() && swiglu_of::<A>(old(y)@, x@, final(y)@),
        r is Err ==> *final(y) == *old(y),
{
    if y.size() != x.size() {
        return Err(Violation::Size);
    }
    swiglu::<A>(y, x);
    Ok(())
}

/// `matmul_transb`, where its arguments fit.
pub fn try_matmul_transb<A: Arithmetic>(
    c: &mut Tensor<Binary32>,
    beta: Binary32,
    a: &Tensor<Binary32>,
    b: &Tensor<Binary32>,
    alpha: Binary32,
) -> (r: Result<(), Violation>)
    ensures
        r == verdict(matmul_transb_violation(old(c).dims(), a.dims(), b.dims())),
        r is Ok ==> final(c).dims() == old(c).dims() && matmul_transb_of::<A>(
            old(c)@,
            final(c)@,
            beta,
            a@,
            b@,
            alpha,
            a.dims()[0] as int,
            b.dims()[0] as int,
            a.dims()[1] as int,
        ),
        r is Err ==> *final(c) == *old(c),
{
    let c_shape: &Vec<usize> = c.shape();
    let a_shape: &Vec<usize> = a.shape();
    let b_shape: &Vec<usize> = b.shape();
    if c_shape.len() != 2 || a_shape.len() != 2 || b_shape.len() != 2 {
        return Err(Violation::Rank);
    }
    if c_shape[0] != a_shape[0] || c_shape[1] != b_shape[0] || a_shape[1] != b_shape[1] {
        return Err(Violation::Size);
    }
    matmul_transb::<A>(c, beta, a, b, alpha);
    Ok(())
}

/// `dot`, where its arguments fit.
pub fn try_dot<A: Arithmetic>(x: &Tensor<Binary32>, y: &Tensor<Binary32>) -> (r: Result<
    Binary32,
    Violation,
>)
    ensures
        r is Ok <==> x@.len() == y@.len(),
        r matches Ok(product) ==> dot_of::<A>(x@, y@, product),
        r matches Err(v) ==> v == Violation::Size,
{
    if x.size() != y.size() {
        return Err(Violation::Size);
    }
    Ok(dot::<A>(x, y))
}

/// `random_sample`, where its logits fit. `uniform` is called only where
/// they do and sampling is switched on.
pub fn try_random_sample<A: Arithmetic, F: FnOnce() -> Binary32>(
    x: &Tensor<Binary32>,
    top_p: Binary32,
    top_k: u32,
    temperature: Binary32,
    uniform: F,
) -> (r: Result<Option<u32>, Violation>)
    requires
        uniform.requires(()),
    ensures
        r is Ok <==> random_sample_violation(x.dims(), x@.len()) is None,
        r matches Err(v) ==> random_sample_violation(x.dims(), x@.len()) == Some(v),
        r matches Ok(token) ==> random_sample_of::<A, F>(
            x@,
            top_p,
            top_k,
            temperature,
            uniform,
            token,
        ),
{
    let shape: &Vec<usize> = x.shape();
    let ndim: usize = shape.len();
    if ndim < 1 {
        return Err(Violation::Rank);
    }
    let len: usize = x.size();
    if shape[ndim - 1] != len {
        return Err(Violation::Size);
    }
    if len > u32::MAX as usize {
        return Err(Violation::Tokens);
    }
    Ok(random_sample::<A, F>(x, top_p, top_k, temperature, uniform))
}

} // verus!
