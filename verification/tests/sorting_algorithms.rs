use miura::sorting::{
    counting_sort, insertion_sort, merge_sort, quicksort, SortingInstanceError,
};

fn samples() -> Vec<Vec<u32>> {
    vec![
        vec![],
        vec![7],
        vec![2, 1],
        vec![1, 2],
        vec![5, 5, 5, 5],
        vec![9, 8, 7, 6, 5, 4, 3, 2, 1, 0],
        vec![0, 1, 2, 3, 4, 5, 6, 7, 8, 9],
        vec![3, 1, 4, 1, 5, 9, 2, 6, 5, 3, 5, 8, 9, 7, 9, 3, 2, 3, 8, 4, 6],
        vec![1000, 0, 999, 1, 500, 500, 2, 998],
    ]
}

fn sorted(sample: &Vec<u32>) -> Vec<u32> {
    let mut expected = sample.clone();
    expected.sort();
    expected
}

#[test]
fn insertion_sort_sorts_in_place() {
    for sample in samples() {
        let mut a = sample.clone();
        insertion_sort(&mut a);
        assert_eq!(a, sorted(&sample));
    }
}

#[test]
fn merge_sort_sorts() {
    for sample in samples() {
        assert_eq!(merge_sort(&sample), sorted(&sample));
    }
}

#[test]
fn quicksort_sorts() {
    for sample in samples() {
        assert_eq!(quicksort(&sample), sorted(&sample));
    }
}

#[test]
fn counting_sort_sorts_below_the_bound() {
    for sample in samples() {
        assert_eq!(counting_sort(&sample, 1000), Ok(sorted(&sample)));
    }
    assert_eq!(counting_sort(&vec![3, 0, 3, 1], 3), Ok(vec![0, 1, 3, 3]));
    assert_eq!(counting_sort(&vec![0, 0], 0), Ok(vec![0, 0]));
    assert_eq!(counting_sort(&vec![], 0), Ok(vec![]));
}

#[test]
fn counting_sort_refuses_an_element_above_the_bound() {
    assert_eq!(counting_sort(&vec![3, 0, 4, 1], 3), Err(SortingInstanceError));
    assert_eq!(counting_sort(&vec![1], 0), Err(SortingInstanceError));
    assert_eq!(counting_sort(&vec![0, u32::MAX], 1000), Err(SortingInstanceError));
}

#[test]
fn sorting_extreme_values() {
    let sample = vec![u32::MAX, 0, u32::MAX - 1, 1, u32::MAX];
    let expected = vec![0, 1, u32::MAX - 1, u32::MAX, u32::MAX];
    let mut a = sample.clone();
    insertion_sort(&mut a);
    assert_eq!(a, expected);
    assert_eq!(merge_sort(&sample), expected);
    assert_eq!(quicksort(&sample), expected);
}
