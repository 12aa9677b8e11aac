use projection_pushdown::clip::{clip, clip_max, clip_min, ClipError};

#[test]
fn clip_bounds_each_row() {
    let s = vec![Some(-5), Some(0), Some(5), None, Some(12)];
    let r = clip(&s, &vec![Some(-1)], &vec![Some(10)]).unwrap();
    assert_eq!(r, vec![Some(-1), Some(0), Some(5), None, Some(10)]);
}

#[test]
fn clip_with_row_wise_bounds() {
    let s = vec![Some(1), Some(5), Some(9), Some(4)];
    let min = vec![Some(2), None, Some(0), None];
    let max = vec![Some(3), Some(4), None, None];
    let r = clip(&s, &min, &max).unwrap();
    assert_eq!(r, vec![Some(2), Some(4), Some(9), Some(4)]);
}

#[test]
fn clip_broadcasts_a_single_value() {
    let r = clip(&vec![Some(7)], &vec![Some(0), Some(8), Some(9)], &vec![Some(10)]).unwrap();
    assert_eq!(r, vec![Some(7), Some(8), Some(9)]);
}

#[test]
fn clip_with_null_bounds_keeps_values() {
    let r = clip(&vec![Some(3), None], &vec![None], &vec![None]).unwrap();
    assert_eq!(r, vec![Some(3), None]);
}

#[test]
fn clip_of_empty_column() {
    assert_eq!(clip(&vec![], &vec![Some(1)], &vec![Some(2)]).unwrap(), vec![]);
}

#[test]
fn clip_min_length_mismatch() {
    let r = clip(&vec![Some(1), Some(2), Some(3)], &vec![Some(0), Some(0)], &vec![Some(5)]);
    assert_eq!(r, Err(ClipError::LengthMismatch { argument_idx: 1, length: 2, expected: 3 }));
}

#[test]
fn clip_max_argument_length_mismatch() {
    let r = clip(&vec![Some(1)], &vec![Some(0), Some(0)], &vec![Some(5), Some(6), Some(7)]);
    assert_eq!(r, Err(ClipError::LengthMismatch { argument_idx: 2, length: 3, expected: 2 }));
}

#[test]
fn clip_max_bounds_from_above() {
    let r = clip_max(&vec![Some(1), Some(9), None], &vec![Some(5)]).unwrap();
    assert_eq!(r, vec![Some(1), Some(5), None]);
}

#[test]
fn clip_max_with_row_wise_bound() {
    let r = clip_max(&vec![Some(8)], &vec![Some(5), None, Some(10)]).unwrap();
    assert_eq!(r, vec![Some(5), Some(8), Some(8)]);
}

#[test]
fn clip_min_bounds_from_below() {
    let r = clip_min(&vec![Some(1), Some(9), None, Some(-3)], &vec![Some(2), Some(2), Some(2), None]).unwrap();
    assert_eq!(r, vec![Some(2), Some(9), None, Some(-3)]);
}

#[test]
fn clip_min_with_null_bound_keeps_values() {
    let r = clip_min(&vec![Some(-4), Some(4)], &vec![None]).unwrap();
    assert_eq!(r, vec![Some(-4), Some(4)]);
}

#[test]
fn single_bound_length_mismatch() {
    assert_eq!(
        clip_min(&vec![Some(1), Some(2)], &vec![Some(0), Some(0), Some(0)]),
        Err(ClipError::PairLengthMismatch { length: 2, bound_length: 3 })
    );
    assert_eq!(
        clip_max(&vec![Some(1), Some(2)], &vec![]),
        Err(ClipError::PairLengthMismatch { length: 2, bound_length: 0 })
    );
}

#[test]
fn clip_null_row_ignores_disordered_bounds() {
    let r = clip(&vec![None], &vec![Some(5)], &vec![Some(1)]).unwrap();
    assert_eq!(r, vec![None]);
}

#[test]
fn clip_keeps_values_inside_bounds_and_is_idempotent() {
    let s = vec![Some(-9), Some(2), Some(4), None];
    let min = vec![Some(0)];
    let max = vec![Some(3)];
    let once = clip(&s, &min, &max).unwrap();
    assert_eq!(once, vec![Some(0), Some(2), Some(3), None]);
    assert_eq!(clip(&once, &min, &max).unwrap(), once);
}
