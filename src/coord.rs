//! Linear index to centered coordinate and back.
use vstd::prelude::*;
use crate::error::IndexError;
use crate::model::{
    centered, coordinate_composition, decomposition, extent_product, subscript_of,
    uncentered, uncentered_subscript,
};
use crate::subscript::{idx_to_sub_col_major, sub_to_idx_col_major};

verus! {

/// Decomposes `index` into its subscript, left in `subscript`, and its
/// centered coordinate, written into `coord`: on axis `k` the coordinate is
/// `subscript[k] - shape[k] / 2`.
///
/// Fails as the decomposition does, with `coord` untouched.
pub fn idx_to_coord_col_major(
    index: usize,
    shape: &[usize],
    subscript: &mut [usize],
    coord: &mut [i32],
) -> (r: Result<(), IndexError>)
    requires
        old(subscript)@.len() == shape@.len(),
        old(coord)@.len() == shape@.len(),
        forall|k: int| 0 <= k < shape@.len() ==> shape@[k] / 2 <= i32::MAX,
    ensures
        final(subscript)@.len() == shape@.len(),
        final(coord)@.len() == shape@.len(),
        r == decomposition(index as int, shape@, shape@.len() as int),
        shape@.len() > 0 ==> (r is Ok <==> index < extent_product(shape@)),
        r is Ok ==> final(subscript)@ == subscript_of(index as int, shape@),
        r is Ok ==> forall|k: int|
            0 <= k < shape@.len() ==> final(coord)@[k] == centered(
                subscript_of(index as int, shape@)[k] as int,
                shape@[k],
            ),
        r is Err ==> final(coord)@ == old(coord)@,
{
    match idx_to_sub_col_major(index, shape, subscript) {
        Ok(()) => {},
        Err(e) => {
            return Err(e);
        },
    }
    assert(subscript@ =~= subscript_of(index as int, shape@));
    let n = shape.len();
    let mut i: usize = 0;
    while i < n
        invariant
            n == shape@.len(),
            subscript@.len() == n,
            coord@.len() == n,
            0 <= i <= n,
            subscript@ == subscript_of(index as int, shape@),
            forall|k: int| 0 <= k < n ==> subscript@[k] < shape@[k],
            forall|k: int| 0 <= k < n ==> shape@[k] / 2 <= i32::MAX,
            forall|k: int|
                0 <= k < i ==> coord@[k] == centered(subscript@[k] as int, shape@[k]),
        decreases n - i,
    {
        let sub = subscript[i];
        let half = shape[i] / 2;
        let c: i32 = if sub >= half {
            (sub - half) as i32
        } else {
            -((half - sub) as i32)
        };
        coord[i] = c;
        i = i + 1;
    }
    Ok(())
}

/// Composes the linear index of the centered coordinate `coord`: axis `k`
/// stands for the subscript `coord[k] + shape[k] / 2`, written into
/// `scratch_space` and then composed as `sub_to_idx_col_major` does.
///
/// Fails with `RankMismatch` when the lengths of `coord` and `shape` differ,
/// with `CoordinateOutOfRange` at the first axis whose subscript would be
/// negative, and otherwise as the composition does.
pub fn coord_to_idx_col_major(coord: &[i32], shape: &[usize], scratch_space: &mut [usize]) -> (r:
    Result<usize, IndexError>)
    requires
        old(scratch_space)@.len() == shape@.len(),
        extent_product(shape@) <= usize::MAX,
    ensures
        final(scratch_space)@.len() == shape@.len(),
        r == coordinate_composition(coord@, shape@),
        coord@.len() == shape@.len() && (forall|k: int|
            0 <= k < shape@.len() ==> uncentered(coord@[k], shape@[k]) >= 0)
            ==> final(scratch_space)@ == uncentered_subscript(coord@, shape@),
{
    if coord.len() != shape.len() {
        return Err(IndexError::RankMismatch { len: coord.len(), rank: shape.len() });
    }
    let n = shape.len();
    let mut i: usize = 0;
    while i < n
        invariant
            n == shape@.len(),
            n == coord@.len(),
            scratch_space@.len() == n,
            0 <= i <= n,
            forall|k: int| 0 <= k < i ==> uncentered(coord@[k], shape@[k]) >= 0,
            forall|k: int|
                0 <= k < i ==> scratch_space@[k] == uncentered(coord@[k], shape@[k]) as usize,
        decreases n - i,
    {
        let c = coord[i];
        let half = shape[i] / 2;
        let sub: usize;
        if c >= 0 {
            assert(usize::MAX >= u32::MAX);
            sub = half + c as usize;
        } else {
            let below = (-(c as i64)) as usize;
            if below > half {
                let r = Err(
                    IndexError::CoordinateOutOfRange { axis: i, coordinate: c, extent: shape[i] },
                );
                proof {
                    let k = choose|k: int|
                        0 <= k < shape@.len() && uncentered(coord@[k], shape@[k]) < 0 && forall|
                            j: int,
                        | 0 <= j < k ==> uncentered(coord@[j], shape@[j]) >= 0;
                    assert(uncentered(coord@[i as int], shape@[i as int]) < 0);
                    assert(k == i);
                }
                return r;
            }
            sub = half - below;
        }
        scratch_space[i] = sub;
        i = i + 1;
    }
    assert(scratch_space@ =~= uncentered_subscript(coord@, shape@));
    sub_to_idx_col_major(scratch_space, shape)
}

} // verus!
