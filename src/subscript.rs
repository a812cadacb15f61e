//! Linear index to subscript and back, in column-major order.
use vstd::prelude::*;
use vstd::arithmetic::div_mod::lemma_div_denominator;
use crate::error::IndexError;
use crate::model::{
    axis_fits, axis_subscript, composition, decomposition, extent_product, in_range, index_of,
    lemma_product_positive, lemma_quotient_below, lemma_stride_bounded, lemma_stride_first,
    lemma_stride_positive, lemma_stride_step, lemma_stride_total, partial_index, stride_at,
    subscript_of,
};

verus! {

/// Decomposes `index` into its column-major subscript, written into
/// `subscript`.
///
/// Axis `k` gets `(index / stride[k]) % shape[k]`, and the last axis of the
/// shape the whole quotient `index / stride[k]`. Only the first
/// `min(subscript.len(), shape.len())` axes are decomposed, so a shorter buffer
/// receives a prefix of the subscript. Fails with `OutOfRange` at the first
/// decomposed axis whose subscript is not below its extent: that is an axis of
/// extent 0, or the last axis when `index` is not below the element count.
pub fn idx_to_sub_col_major(index: usize, shape: &[usize], subscript: &mut [usize]) -> (r: Result<
    (),
    IndexError,
>)
    ensures
        final(subscript)@.len() == old(subscript)@.len(),
        r == decomposition(
            index as int,
            shape@,
            if old(subscript)@.len() < shape@.len() {
                old(subscript)@.len() as int
            } else {
                shape@.len() as int
            },
        ),
        r is Ok ==> forall|k: int|
            0 <= k < old(subscript)@.len() && k < shape@.len() ==> final(subscript)@[k]
                == subscript_of(index as int, shape@)[k] && final(subscript)@[k] < shape@[k],
        forall|k: int|
            shape@.len() <= k < old(subscript)@.len() ==> final(subscript)@[k] == old(
                subscript,
            )@[k],
        0 < shape@.len() <= old(subscript)@.len() ==> (r is Ok <==> index < extent_product(
            shape@,
        )),
{
    let n: usize = if subscript.len() < shape.len() {
        subscript.len()
    } else {
        shape.len()
    };
    // `quotient` is `index / stride[i]`, carried from axis to axis.
    let mut quotient: usize = index;
    let mut i: usize = 0;
    proof {
        lemma_stride_first(shape@);
    }
    while i < n
        invariant
            n <= shape@.len(),
            n <= subscript@.len(),
            n == shape@.len() || n == old(subscript)@.len(),
            subscript@.len() == old(subscript)@.len(),
            0 <= i <= n,
            forall|j: int| 0 <= j < i ==> shape@[j] > 0,
            stride_at(shape@, i as int) > 0,
            quotient == index as int / (stride_at(shape@, i as int) as int),
            forall|j: int| 0 <= j < i ==> axis_fits(index as int, shape@, j),
            forall|j: int|
                0 <= j < i ==> subscript@[j] == axis_subscript(index as int, shape@, j) as usize,
            forall|j: int| 0 <= j < i ==> subscript@[j] < shape@[j],
            forall|j: int| n <= j < subscript@.len() ==> subscript@[j] == old(subscript)@[j],
        decreases n - i,
    {
        let extent = shape[i];
        let sub = if i + 1 == shape.len() || extent == 0 {
            quotient
        } else {
            quotient % extent
        };
        subscript[i] = sub;
        if sub >= extent {
            let r = Err(IndexError::OutOfRange { axis: i, subscript: sub, extent });
            proof {
                let k = choose|k: int|
                    0 <= k < n && !axis_fits(index as int, shape@, k) && forall|j: int|
                        0 <= j < k ==> axis_fits(index as int, shape@, j);
                assert(!axis_fits(index as int, shape@, i as int));
                assert(k == i);
                if 0 < shape@.len() <= old(subscript)@.len() {
                    if extent == 0 {
                        lemma_product_positive(shape@);
                    } else {
                        lemma_stride_step(shape@, i as int);
                        lemma_stride_total(shape@);
                        lemma_quotient_below(
                            index as int,
                            stride_at(shape@, i as int) as int,
                            extent as int,
                        );
                    }
                }
            }
            return r;
        }
        proof {
            lemma_stride_step(shape@, i as int);
            lemma_div_denominator(index as int, stride_at(shape@, i as int) as int, extent as int);
            lemma_stride_positive(shape@, i as int + 1);
        }
        quotient = quotient / extent;
        i = i + 1;
    }
    proof {
        if 0 < shape@.len() <= old(subscript)@.len() {
            let last = shape@.len() - 1;
            lemma_stride_positive(shape@, last);
            lemma_stride_step(shape@, last);
            lemma_stride_total(shape@);
            assert(axis_fits(index as int, shape@, last));
            lemma_quotient_below(
                index as int,
                stride_at(shape@, last) as int,
                shape@[last] as int,
            );
        }
    }
    Ok(())
}

/// Composes the linear index `sum(subscript[k] * stride[k])` of a
/// column-major subscript.
///
/// Fails with `RankMismatch` when the lengths of `subscript` and `shape`
/// differ, before any arithmetic, and otherwise with `OutOfRange` at the first
/// axis whose subscript is not below its extent.
pub fn sub_to_idx_col_major(subscript: &[usize], shape: &[usize]) -> (r: Result<usize, IndexError>)
    requires
        extent_product(shape@) <= usize::MAX,
    ensures
        r == composition(subscript@, shape@),
        subscript@.len() != shape@.len() ==> r == Err::<usize, IndexError>(
            IndexError::RankMismatch { len: subscript@.len() as usize, rank: shape@.len() as usize },
        ),
        subscript@.len() == shape@.len() && (exists|k: int|
            0 <= k < shape@.len() && subscript@[k] >= shape@[k]) ==> r matches Err(
            IndexError::OutOfRange { .. },
        ),
        r is Ok <==> in_range(subscript@, shape@),
        r is Ok ==> r->Ok_0 == index_of(subscript@, shape@),
{
    if subscript.len() != shape.len() {
        return Err(IndexError::RankMismatch { len: subscript.len(), rank: shape.len() });
    }
    let n = shape.len();
    let mut i: usize = 0;
    while i < n
        invariant
            n == shape@.len(),
            n == subscript@.len(),
            0 <= i <= n,
            forall|j: int| 0 <= j < i ==> subscript@[j] < shape@[j],
        decreases n - i,
    {
        if subscript[i] >= shape[i] {
            let r = Err(IndexError::OutOfRange { axis: i, subscript: subscript[i], extent: shape[i] });
            proof {
                let k = choose|k: int|
                    0 <= k < shape@.len() && subscript@[k] >= shape@[k] && forall|j: int|
                        0 <= j < k ==> subscript@[j] < shape@[j];
                assert(subscript@[i as int] >= shape@[i as int]);
                assert(k == i);
            }
            return r;
        }
        i = i + 1;
    }
    proof {
        lemma_stride_first(shape@);
    }
    let mut index: usize = 0;
    let mut stride: usize = 1;
    i = 0;
    while i < n
        invariant
            n == shape@.len(),
            n == subscript@.len(),
            0 <= i <= n,
            in_range(subscript@, shape@),
            extent_product(shape@) <= usize::MAX,
            stride == stride_at(shape@, i as int),
            index == partial_index(subscript@, shape@, i as int),
            index < stride,
        decreases n - i,
    {
        let extent = shape[i];
        let sub = subscript[i];
        proof {
            lemma_stride_step(shape@, i as int);
            lemma_stride_bounded(shape@, i as int + 1);
            let s = stride as int;
            assert(index + sub * s < s * extent) by (nonlinear_arith)
                requires
                    index < s,
                    sub < extent,
            ;
        }
        index = index + sub * stride;
        stride = stride * extent;
        i = i + 1;
    }
    Ok(index)
}

} // verus!
