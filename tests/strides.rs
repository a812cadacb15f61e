use ndindex::{calc_strides_col_major, strides_col_major};

#[test]
fn calc_strides() {
    let dims = vec![2, 3, 4, 5];
    let mut expected_strides = vec![1, 2, 6, 24];
    let returned_strides = strides_col_major(&dims);
    assert_eq!(expected_strides, returned_strides);

    calc_strides_col_major(&dims, &mut expected_strides);
    assert_eq!(expected_strides, returned_strides);
}

#[test]
fn strides_follow_recurrence() {
    let dims = vec![7, 1, 3, 2, 9];
    let strides = strides_col_major(&dims);
    assert_eq!(strides[0], 1);
    for k in 1..dims.len() {
        assert_eq!(strides[k], strides[k - 1] * dims[k - 1]);
    }
    assert_eq!(strides, vec![1, 7, 7, 21, 42]);
}

#[test]
fn strides_with_zero_extent() {
    assert_eq!(strides_col_major(&[3, 0, 4]), vec![1, 3, 0]);
}

#[test]
fn strides_of_empty_shape() {
    assert_eq!(strides_col_major(&[]), Vec::<usize>::new());
}

#[test]
fn calc_strides_overwrites_buffer() {
    let mut out = vec![99, 99, 99];
    calc_strides_col_major(&[4, 5, 6], &mut out);
    assert_eq!(out, vec![1, 4, 20]);
}
