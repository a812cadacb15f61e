use ndindex::{coord_to_idx_col_major, idx_to_coord_col_major, IndexError};

#[test]
fn coordinate_round_trip_square() {
    let shape = [4, 4];
    let mut sub = [0usize; 2];
    let mut coord = [0i32; 2];
    let mut scratch = [0usize; 2];
    for i in 0..16 {
        assert_eq!(idx_to_coord_col_major(i, &shape, &mut sub, &mut coord), Ok(()));
        assert_eq!(coord_to_idx_col_major(&coord, &shape, &mut scratch), Ok(i));
        assert_eq!(scratch, sub);
    }
}

#[test]
fn coordinate_round_trip_odd_extents() {
    let shape = [3, 5, 2];
    let mut sub = [0usize; 3];
    let mut coord = [0i32; 3];
    let mut scratch = [0usize; 3];
    for i in 0..30 {
        assert_eq!(idx_to_coord_col_major(i, &shape, &mut sub, &mut coord), Ok(()));
        assert_eq!(coord_to_idx_col_major(&coord, &shape, &mut scratch), Ok(i));
    }
}

#[test]
fn coordinates_even_extent() {
    let shape = [4, 4];
    let mut sub = [0usize; 2];
    let mut coord = [0i32; 2];
    assert_eq!(idx_to_coord_col_major(0, &shape, &mut sub, &mut coord), Ok(()));
    assert_eq!(coord, [-2, -2]);
    assert_eq!(idx_to_coord_col_major(15, &shape, &mut sub, &mut coord), Ok(()));
    assert_eq!(sub, [3, 3]);
    assert_eq!(coord, [1, 1]);
    assert_eq!(idx_to_coord_col_major(10, &shape, &mut sub, &mut coord), Ok(()));
    assert_eq!(coord, [0, 0]);
}

#[test]
fn coordinates_odd_extent() {
    let shape = [3, 5];
    let mut sub = [0usize; 2];
    let mut coord = [0i32; 2];
    assert_eq!(idx_to_coord_col_major(0, &shape, &mut sub, &mut coord), Ok(()));
    assert_eq!(coord, [-1, -2]);
    assert_eq!(idx_to_coord_col_major(14, &shape, &mut sub, &mut coord), Ok(()));
    assert_eq!(coord, [1, 2]);
    assert_eq!(idx_to_coord_col_major(7, &shape, &mut sub, &mut coord), Ok(()));
    assert_eq!(coord, [0, 0]);
}

#[test]
fn coordinate_decomposition_propagates_out_of_range() {
    let mut sub = [0usize; 2];
    let mut coord = [5i32; 2];
    assert_eq!(
        idx_to_coord_col_major(16, &[4, 4], &mut sub, &mut coord),
        Err(IndexError::OutOfRange { axis: 1, subscript: 4, extent: 4 })
    );
    assert_eq!(coord, [5, 5]);
}

#[test]
fn coordinate_before_first_element() {
    let mut scratch = [0usize; 2];
    assert_eq!(
        coord_to_idx_col_major(&[0, -3], &[4, 4], &mut scratch),
        Err(IndexError::CoordinateOutOfRange { axis: 1, coordinate: -3, extent: 4 })
    );
    assert_eq!(
        coord_to_idx_col_major(&[-2, -2], &[4, 4], &mut scratch),
        Ok(0)
    );
}

#[test]
fn coordinate_past_last_element() {
    let mut scratch = [0usize; 2];
    assert_eq!(
        coord_to_idx_col_major(&[2, 0], &[4, 4], &mut scratch),
        Err(IndexError::OutOfRange { axis: 0, subscript: 4, extent: 4 })
    );
}

#[test]
fn coordinate_rank_mismatch() {
    let mut scratch = [0usize; 2];
    assert_eq!(
        coord_to_idx_col_major(&[0, 0, 0], &[4, 4], &mut scratch),
        Err(IndexError::RankMismatch { len: 3, rank: 2 })
    );
}
