use corrosion::AssertVec;

#[test]
fn duplicate_counts_must_agree() {
    let sut = AssertVec::<u32>::new(vec![1, 1, 2]);
    assert_eq!(
        sut.contains_only(vec![1, 2, 2]),
        Err(String::from(
            "Vectors contain different values:\nUnexpected values: [_, 1, _]\nMissing expected values: [_, _, 2]\n"
        ))
    );
}

#[test]
fn every_permutation_succeeds() {
    let base: Vec<u32> = vec![7, 3, 3, 9];
    let perms: Vec<Vec<u32>> = vec![
        vec![3, 3, 7, 9],
        vec![9, 7, 3, 3],
        vec![3, 9, 3, 7],
        vec![7, 3, 9, 3],
    ];
    for p in perms {
        assert_eq!(AssertVec::<u32>::new(base.clone()).contains_only(p), Ok(()));
    }
}

#[test]
fn comparing_with_a_copy_succeeds() {
    let v: Vec<u32> = vec![4, 0, 4, 4294967295, 12];
    assert_eq!(AssertVec::<u32>::new(v.clone()).contains_only(v), Ok(()));
    assert_eq!(AssertVec::<u32>::new(Vec::new()).contains_only(Vec::new()), Ok(()));
}

#[test]
fn repeated_runs_give_identical_reports() {
    let first = AssertVec::<u32>::new(vec![3, 1, 4, 1, 5]).contains_only(vec![9, 2, 6, 5, 3]);
    let second = AssertVec::<u32>::new(vec![3, 1, 4, 1, 5]).contains_only(vec![9, 2, 6, 5, 3]);
    assert_eq!(first, second);
    assert_eq!(
        first,
        Err(String::from(
            "Vectors contain different values:\nUnexpected values: [_, 1, 4, 1, _]\nMissing expected values: [9, 2, 6, _, _]\n"
        ))
    );
}

#[test]
fn largest_value_is_rendered_in_decimal() {
    let sut = AssertVec::<u32>::new(vec![4294967295, 100, 0]);
    assert_eq!(
        sut.contains_only(vec![0, 100]),
        Err(String::from(
            "Vectors contain different values:\nUnexpected values: [4294967295, _, _]\n"
        ))
    );
}

#[test]
fn earliest_equal_expected_element_is_claimed_first() {
    let sut = AssertVec::<u32>::new(vec![1]);
    assert_eq!(
        sut.contains_only(vec![1, 1]),
        Err(String::from(
            "Vectors contain different values:\nMissing expected values: [_, 1]\n"
        ))
    );
}

#[test]
fn only_missing_side_reported_when_actual_is_a_sub_multiset() {
    let sut = AssertVec::<u32>::new(vec![20, 10]);
    assert_eq!(
        sut.contains_only(vec![10, 30, 20, 20]),
        Err(String::from(
            "Vectors contain different values:\nMissing expected values: [_, 30, _, 20]\n"
        ))
    );
}
