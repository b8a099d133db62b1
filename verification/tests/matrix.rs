use tool::{clip, linspace, pows, size_range_with_step};

#[test]
fn test_size_range_with_step() {
    let start = 0;
    let end = 10;
    let step = 2;
    let expected_size = 6;

    let size = size_range_with_step(start, end, step);

    assert_eq!(size, expected_size);
}

#[test]
fn test_size_range_with_step_odd() {
    let start = 0;
    let end = 11;
    let step = 2;
    let expected_size = 7;

    let size = size_range_with_step(start, end, step);

    assert_eq!(size, expected_size);
}

#[test]
fn test_size_range_with_step_degenerate() {
    // zero step, empty range, or a step pointing away from the end
    assert_eq!(size_range_with_step(0, 10, 0), 1);
    assert_eq!(size_range_with_step(7, 7, 3), 1);
    assert_eq!(size_range_with_step(0, 10, -2), 1);
    assert_eq!(size_range_with_step(10, 0, 2), 1);
}

#[test]
fn test_size_range_with_step_descending() {
    assert_eq!(size_range_with_step(10, 0, -2), 6);
    assert_eq!(size_range_with_step(11, 0, -2), 6);
}

#[test]
fn test_linspace() {
    let start = 0;
    let end = 10;
    let step = 2;
    let expected_list = vec![0, 2, 4, 6, 8, 10];

    let list = linspace(start, end, step);

    assert_eq!(list.len(), 6);
    assert_eq!(list, expected_list);
}

#[test]
fn test_linspace_odd() {
    let start = 0;
    let end = 11;
    let step = 2;
    let expected_list = vec![0, 2, 4, 6, 8, 10, 11];

    let list = linspace(start, end, step);

    assert_eq!(list.len(), 7);
    assert_eq!(list, expected_list);
}

#[test]
fn test_linspace_integer() {
    let start = 0;
    let end = 10;
    let step = 2;
    let expected_list = vec![0, 2, 4, 6, 8, 10];

    let list = linspace(start, end, step);

    assert_eq!(list.len(), 6);
    assert_eq!(list, expected_list);
}

#[test]
fn test_linspace_descending() {
    assert_eq!(linspace(10, 0, -2), vec![10, 8, 6, 4, 2, 0]);
}

#[test]
fn test_linspace_degenerate() {
    // a single sample at the start, clamped to the end when above it
    assert_eq!(linspace(5, 5, 1), vec![5]);
    assert_eq!(linspace(5, 3, 2), vec![3]);
}

#[test]
fn test_clip_both_bounds() {
    let list = vec![-5, 0, 3, 7, 12];
    assert_eq!(clip(&list, Some(0), Some(7)), vec![0, 0, 3, 7, 7]);
}

#[test]
fn test_clip_one_bound() {
    let list = vec![-5, 0, 3, 7, 12];
    assert_eq!(clip(&list, Some(1), None), vec![1, 1, 3, 7, 12]);
    assert_eq!(clip(&list, None, Some(5)), vec![-5, 0, 3, 5, 5]);
}

#[test]
fn test_clip_no_bounds_is_identity() {
    let list = vec![-5, 0, 3, 7, 12];
    assert_eq!(clip(&list, None, None), list);
}

#[test]
fn test_clip_crossed_bounds() {
    // the lower bound is applied first, so the upper one wins
    let list = vec![-5, 5, 15];
    assert_eq!(clip(&list, Some(10), Some(2)), vec![2, 2, 2]);
}

#[test]
fn test_pows_zero_is_all_ones() {
    let list = vec![-4, 0, 1, 9];
    assert_eq!(pows(&list, 0), vec![1, 1, 1, 1]);
}

#[test]
fn test_pows_one_is_identity() {
    let list = vec![-4, 0, 1, 9];
    assert_eq!(pows(&list, 1), list);
}

#[test]
fn test_pows_exact_values() {
    let list = vec![2, -3, 10];
    assert_eq!(pows(&list, 3), vec![8, -27, 1000]);
    assert_eq!(pows(&Vec::new(), 5), Vec::<i64>::new());
}
