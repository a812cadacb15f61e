//! Column-major strides of a shape.
use vstd::prelude::*;
use crate::model::{lemma_stride_first, lemma_stride_step, stride_at};

verus! {

/// Writes the column-major strides of `dims` into `strides`:
/// `strides[0] == 1` and `strides[k] == strides[k - 1] * dims[k - 1]`.
pub fn calc_strides_col_major(dims: &[usize], strides: &mut [usize])
    requires
        old(strides)@.len() == dims@.len(),
        forall|k: int| 0 <= k < dims@.len() ==> stride_at(dims@, k) <= usize::MAX,
    ensures
        final(strides)@.len() == dims@.len(),
        forall|k: int| 0 <= k < dims@.len() ==> final(strides)@[k] == stride_at(dims@, k),
{
    let n = dims.len();
    let mut stride: usize = 1;
    let mut i: usize = 0;
    proof {
        lemma_stride_first(dims@);
    }
    while i < n
        invariant
            n == dims@.len(),
            strides@.len() == n,
            0 <= i <= n,
            i < n ==> stride == stride_at(dims@, i as int),
            forall|k: int| 0 <= k < n ==> stride_at(dims@, k) <= usize::MAX,
            forall|k: int| 0 <= k < i ==> strides@[k] == stride_at(dims@, k),
        decreases n - i,
    {
        strides[i] = stride;
        if i + 1 < n {
            proof {
                lemma_stride_step(dims@, i as int);
            }
            stride = stride * dims[i];
        }
        i = i + 1;
    }
}

/// The column-major strides of `dims`, freshly allocated.
pub fn strides_col_major(dims: &[usize]) -> (r: Vec<usize>)
    requires
        forall|k: int| 0 <= k < dims@.len() ==> stride_at(dims@, k) <= usize::MAX,
    ensures
        r@.len() == dims@.len(),
        forall|k: int| 0 <= k < dims@.len() ==> r@[k] == stride_at(dims@, k),
{
    let mut strides: Vec<usize> = vec![0; dims.len()];
    calc_strides_col_major(dims, strides.as_mut_slice());
    strides
}

} // verus!
