use ndindex::{idx_to_sub_col_major, sub_to_idx_col_major, IndexError};

#[test]
fn decompose_exact_value() {
    let shape = [2, 3, 4];
    let mut sub = [0usize; 3];
    assert_eq!(idx_to_sub_col_major(23, &shape, &mut sub), Ok(()));
    assert_eq!(sub, [1, 2, 3]);
    assert_eq!(idx_to_sub_col_major(7, &shape, &mut sub), Ok(()));
    assert_eq!(sub, [1, 0, 1]);
}

#[test]
fn compose_exact_value() {
    assert_eq!(sub_to_idx_col_major(&[1, 2, 3], &[2, 3, 4]), Ok(23));
    assert_eq!(sub_to_idx_col_major(&[1, 0, 1], &[2, 3, 4]), Ok(7));
}

#[test]
fn index_subscript_index_round_trip() {
    for shape in [vec![2, 3, 4, 5], vec![1, 1], vec![5], vec![3, 1, 2]] {
        let total: usize = shape.iter().product();
        let mut sub = vec![0usize; shape.len()];
        for i in 0..total {
            assert_eq!(idx_to_sub_col_major(i, &shape, &mut sub), Ok(()));
            assert_eq!(sub_to_idx_col_major(&sub, &shape), Ok(i));
        }
    }
}

#[test]
fn subscript_index_subscript_round_trip() {
    let shape = [3, 2, 4];
    let mut back = [0usize; 3];
    for a in 0..3 {
        for b in 0..2 {
            for c in 0..4 {
                let sub = [a, b, c];
                let i = sub_to_idx_col_major(&sub, &shape).unwrap();
                assert!(i < 24);
                assert_eq!(idx_to_sub_col_major(i, &shape, &mut back), Ok(()));
                assert_eq!(back, sub);
            }
        }
    }
}

#[test]
fn compose_rejects_out_of_range_on_every_axis() {
    let shape = [2, 3, 4];
    for k in 0..3 {
        let mut sub = [0usize; 3];
        sub[k] = shape[k];
        assert_eq!(
            sub_to_idx_col_major(&sub, &shape),
            Err(IndexError::OutOfRange { axis: k, subscript: shape[k], extent: shape[k] })
        );
        sub[k] = shape[k] + 10;
        assert_eq!(
            sub_to_idx_col_major(&sub, &shape),
            Err(IndexError::OutOfRange { axis: k, subscript: shape[k] + 10, extent: shape[k] })
        );
    }
}

#[test]
fn compose_reports_first_out_of_range_axis() {
    assert_eq!(
        sub_to_idx_col_major(&[0, 9, 9], &[2, 3, 4]),
        Err(IndexError::OutOfRange { axis: 1, subscript: 9, extent: 3 })
    );
}

#[test]
fn compose_rejects_rank_mismatch() {
    assert_eq!(
        sub_to_idx_col_major(&[0, 0], &[2, 3, 4]),
        Err(IndexError::RankMismatch { len: 2, rank: 3 })
    );
    assert_eq!(
        sub_to_idx_col_major(&[9, 9, 9, 9], &[2, 3, 4]),
        Err(IndexError::RankMismatch { len: 4, rank: 3 })
    );
}

#[test]
fn decompose_one_past_end_fails_on_last_axis() {
    let shape = [2, 3, 4, 5];
    let mut sub = [0usize; 4];
    assert_eq!(
        idx_to_sub_col_major(120, &shape, &mut sub),
        Err(IndexError::OutOfRange { axis: 3, subscript: 5, extent: 5 })
    );
    assert_eq!(
        idx_to_sub_col_major(1000, &shape, &mut sub),
        Err(IndexError::OutOfRange { axis: 3, subscript: 41, extent: 5 })
    );
    assert_eq!(idx_to_sub_col_major(119, &shape, &mut sub), Ok(()));
    assert_eq!(sub, [1, 2, 3, 4]);
}

#[test]
fn decompose_prefix_into_short_buffer() {
    let mut sub = [0usize; 2];
    assert_eq!(idx_to_sub_col_major(23, &[2, 3, 4], &mut sub), Ok(()));
    assert_eq!(sub, [1, 2]);
}

#[test]
fn decompose_leaves_extra_buffer_entries() {
    let mut sub = [7usize; 4];
    assert_eq!(idx_to_sub_col_major(5, &[2, 3], &mut sub), Ok(()));
    assert_eq!(sub, [1, 2, 7, 7]);
}

#[test]
fn decompose_zero_extent_fails() {
    let mut sub = [0usize; 2];
    assert_eq!(
        idx_to_sub_col_major(0, &[0, 3], &mut sub),
        Err(IndexError::OutOfRange { axis: 0, subscript: 0, extent: 0 })
    );
    assert_eq!(
        idx_to_sub_col_major(0, &[3, 0], &mut sub),
        Err(IndexError::OutOfRange { axis: 1, subscript: 0, extent: 0 })
    );
}

#[test]
fn rank_zero_shape() {
    let mut sub: [usize; 0] = [];
    assert_eq!(idx_to_sub_col_major(0, &[], &mut sub), Ok(()));
    assert_eq!(sub_to_idx_col_major(&[], &[]), Ok(0));
}
