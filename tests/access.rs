use thriller_flow::{AccessMap, ThrillerError};

#[test]
fn arity_mismatch_is_a_configuration_error() {
    assert_eq!(AccessMap::new(2, vec![(1, 2)]).unwrap_err(), ThrillerError::Configuration);
    assert_eq!(AccessMap::new(0, vec![(1, 2)]).unwrap_err(), ThrillerError::Configuration);
    assert_eq!(AccessMap::new(3, vec![]).unwrap_err(), ThrillerError::Configuration);
}

#[test]
fn matching_arity_builds_a_descriptor() {
    let m = AccessMap::new(2, vec![(1, 2), (3, 4)]).unwrap();
    assert_eq!(m.dims(), 2);
    assert_eq!(m.pair(1), (3, 4));
    assert_eq!(AccessMap::new(0, vec![]).unwrap().dims(), 0);
}

#[test]
fn offset_of_sums_offsets_and_strided_indices() {
    let m = AccessMap::new(2, vec![(1, 2), (3, 4)]).unwrap();
    assert_eq!(m.offset_of(&vec![5, 6]), Ok(38));
    assert_eq!(m.offset_of(&vec![0, 0]), Ok(4));
    assert_eq!(m.offset_of(&vec![5]), Err(ThrillerError::Configuration));
}

#[test]
fn overlap_of_points_and_ranges() {
    let at_three = AccessMap::new(1, vec![(3, 0)]).unwrap();
    let at_one_plus_two = AccessMap::new(2, vec![(1, 0), (2, 0)]).unwrap();
    let at_four = AccessMap::new(1, vec![(4, 0)]).unwrap();
    let from_six = AccessMap::new(1, vec![(6, 1)]).unwrap();
    let from_two = AccessMap::new(1, vec![(2, 8)]).unwrap();
    assert!(at_three.overlaps(&at_one_plus_two));
    assert!(!at_three.overlaps(&at_four));
    assert!(!at_four.overlaps(&from_six));
    assert!(!from_six.overlaps(&at_four));
    assert!(at_four.overlaps(&from_two));
    assert!(from_two.overlaps(&from_six));
}

#[test]
fn offset_past_u64_is_a_configuration_error() {
    let m = AccessMap::new(2, vec![(u64::MAX, 0), (1, 1)]).unwrap();
    assert_eq!(m.offset_of(&vec![0, 0]), Err(ThrillerError::Configuration));
    let big = AccessMap::new(1, vec![(0, u64::MAX)]).unwrap();
    assert_eq!(big.offset_of(&vec![1]), Ok(u64::MAX));
    assert_eq!(big.offset_of(&vec![2]), Err(ThrillerError::Configuration));
}

#[test]
fn overlap_with_a_base_past_u64_is_assumed() {
    let huge = AccessMap::new(2, vec![(u64::MAX, 0), (u64::MAX, 0)]).unwrap();
    let small = AccessMap::new(1, vec![(1, 0)]).unwrap();
    assert!(huge.overlaps(&small));
    assert!(small.overlaps(&huge));
}
