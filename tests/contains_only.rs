use corrosion::AssertVec;

fn failure(actual: Vec<u32>, expected: Vec<u32>) -> String {
    match AssertVec::<u32>::new(actual).contains_only(expected) {
        Ok(()) => panic!("the comparison unexpectedly succeeded"),
        Err(msg) => msg,
    }
}

#[test]
fn contains_only_empty_vectors() {
    let sut = AssertVec::<u32>::new(Vec::new());
    let expected = Vec::new();
    assert_eq!(sut.contains_only(expected), Ok(()));
}

#[test]
fn contains_only_single_equal_element() {
    let sut = AssertVec::<u32>::new(vec![0]);
    let expected = vec![0];
    assert_eq!(sut.contains_only(expected), Ok(()));
}

#[test]
fn contains_only_multiple_equal_elements_same_order() {
    let sut = AssertVec::<u32>::new(vec![5, 8, 2]);
    let expected = vec![5, 8, 2];
    assert_eq!(sut.contains_only(expected), Ok(()));
}

#[test]
fn contains_only_multiple_equal_elements_different_order() {
    let sut = AssertVec::<u32>::new(vec![1, 2, 3, 4, 5]);
    let expected = vec![2, 3, 5, 1, 4];
    assert_eq!(sut.contains_only(expected), Ok(()));
}

#[test]
fn contains_only_equal_duplicate_elements() {
    let sut = AssertVec::<u32>::new(vec![1, 3, 2, 2, 1, 3]);
    let expected = vec![1, 1, 2, 2, 3, 3];
    assert_eq!(sut.contains_only(expected), Ok(()));
}

#[test]
fn contains_only_empty_asserter() {
    assert_eq!(
        failure(Vec::new(), vec![0]),
        "Vectors contain different values:\nMissing expected values: [0]\n"
    );
}

#[test]
fn contains_only_empty_expected() {
    assert_eq!(
        failure(vec![0], Vec::new()),
        "Vectors contain different values:\nUnexpected values: [0]\n"
    );
}

#[test]
fn contains_only_single_unequal_element() {
    assert_eq!(
        failure(vec![5], vec![0]),
        "Vectors contain different values:\nUnexpected values: [5]\nMissing expected values: [0]\n"
    );
}

#[test]
fn contains_only_unequal_element_at_end() {
    assert_eq!(
        failure(vec![6, 4, 5], vec![6, 4, 2]),
        "Vectors contain different values:\nUnexpected values: [_, _, 5]\nMissing expected values: [_, _, 2]\n"
    );
}

#[test]
fn contains_only_multiple_unequal_elements() {
    assert_eq!(
        failure(vec![1, 2, 3, 4, 5], vec![6, 7, 8, 9, 10]),
        "Vectors contain different values:\nUnexpected values: [1, 2, 3, 4, 5]\nMissing expected values: [6, 7, 8, 9, 10]\n"
    );
}

#[test]
fn contains_only_different_length_vecs() {
    assert_eq!(
        failure(vec![1, 2, 3, 4, 5], vec![1, 2, 3, 4]),
        "Vectors contain different values:\nUnexpected values: [_, _, _, _, 5]\n"
    );
}

#[test]
fn contains_only_unequal_duplicate_elements() {
    assert_eq!(
        failure(vec![1, 2, 2, 1, 3], vec![1, 2, 3]),
        "Vectors contain different values:\nUnexpected values: [_, _, 2, 1, _]\n"
    );
}
