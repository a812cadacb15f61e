//! Right-permute: reading a column-major array as if its last axis came first.
use vstd::prelude::*;
use crate::model::{
    extent_product, in_range, index_of, lemma_rotate_product, rotate_right, subscript_of,
};
use crate::subscript::{idx_to_sub_col_major, sub_to_idx_col_major};

verus! {

/// A copy of `v` with its last entry moved to the front.
fn rotated_right(v: &[usize]) -> (r: Vec<usize>)
    requires
        v@.len() > 0,
    ensures
        r@ == rotate_right(v@),
{
    let n = v.len();
    let mut r: Vec<usize> = Vec::with_capacity(n);
    r.push(v[n - 1]);
    let mut i: usize = 0;
    while i + 1 < n
        invariant
            n == v@.len(),
            n > 0,
            0 <= i < n,
            r@ =~= seq![v@.last()] + v@.take(i as int),
        decreases n - i,
    {
        r.push(v[i]);
        i = i + 1;
        assert(v@.take(i as int) =~= v@.take(i - 1).push(v@[i - 1]));
    }
    assert(v@.take(i as int) =~= v@.drop_last());
    r
}

/// Maps the linear index `idx` of an array of shape `shape` to the linear
/// index of the same subscript once both the shape and the subscript have
/// their last axis moved to the front.
///
/// For shape `[2, 3]`, index 1 has subscript `[1, 0]`; rotated, that is
/// subscript `[0, 1]` of shape `[3, 2]`, whose index is 3.
pub fn idx_map(idx: usize, shape: &[usize]) -> (r: usize)
    requires
        shape@.len() > 0,
        idx < extent_product(shape@),
        extent_product(shape@) <= usize::MAX,
    ensures
        r == index_of(rotate_right(subscript_of(idx as int, shape@)), rotate_right(shape@)),
{
    let n = shape.len();
    let mut buff: Vec<usize> = vec![0; n];
    let decomposed = idx_to_sub_col_major(idx, shape, buff.as_mut_slice());
    assert(decomposed is Ok);
    assert(buff@ =~= subscript_of(idx as int, shape@));
    let rotated_shape = rotated_right(shape);
    let rotated_buff = rotated_right(buff.as_slice());
    proof {
        lemma_rotate_product(shape@);
        assert(in_range(rotated_buff@, rotated_shape@)) by {
            assert forall|k: int| 0 <= k < n implies rotated_buff@[k] < rotated_shape@[k] by {
                if k == 0 {
                    assert(buff@[n - 1] < shape@[n - 1]);
                } else {
                    assert(buff@[k - 1] < shape@[k - 1]);
                }
            }
        }
    }
    sub_to_idx_col_major(rotated_buff.as_slice(), rotated_shape.as_slice()).unwrap()
}

} // verus!
