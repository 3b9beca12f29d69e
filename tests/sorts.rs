use algorithms::counting_sort::counting_sort;
use algorithms::heap_sort::heapsort;
use algorithms::insertion_sort::insertion_sort;
use algorithms::merge_sort::merge_sort;

fn reference_sorted(v: &[i32]) -> Vec<i32> {
    let mut s = v.to_vec();
    s.sort();
    s
}

#[test]
fn proves_insertion_sort() {
    let mut arr = vec![23, 7, 41, 15, 8, 34, 2, 19, 46, 12];
    insertion_sort(&mut arr);
    let expected_solution = vec![2, 7, 8, 12, 15, 19, 23, 34, 41, 46];
    assert_eq!(arr, expected_solution);
}

#[test]
fn insertion_sort_edge_cases() {
    let mut empty: Vec<i32> = vec![];
    insertion_sort(&mut empty);
    assert_eq!(empty, Vec::<i32>::new());
    let mut one = vec![5];
    insertion_sort(&mut one);
    assert_eq!(one, vec![5]);
    let mut dups = vec![3, -1, 3, i32::MIN, i32::MAX, 0, -1];
    insertion_sort(&mut dups);
    assert_eq!(dups, vec![i32::MIN, -1, -1, 0, 3, 3, i32::MAX]);
}

#[test]
fn heapsort_sorts() {
    let mut arr = [23, 7, 41, 15, 8, 34, 2, 19, 46, 12];
    heapsort(&mut arr);
    assert_eq!(arr, [2, 7, 8, 12, 15, 19, 23, 34, 41, 46]);
    let mut dups = [5, 5, -3, 9, 0, 9, i32::MAX, i32::MIN, 5];
    heapsort(&mut dups);
    assert_eq!(dups.to_vec(), reference_sorted(&[5, 5, -3, 9, 0, 9, i32::MAX, i32::MIN, 5]));
}

#[test]
fn heapsort_edge_cases() {
    let mut empty: [i32; 0] = [];
    heapsort(&mut empty);
    let mut one = [4];
    heapsort(&mut one);
    assert_eq!(one, [4]);
    let mut two = [9, 1];
    heapsort(&mut two);
    assert_eq!(two, [1, 9]);
    let mut desc: Vec<i32> = (0..100).rev().collect();
    heapsort(&mut desc);
    assert_eq!(desc, (0..100).collect::<Vec<i32>>());
}

#[test]
fn merge_sort_whole_vector() {
    let mut arr = vec![23, 7, 41, 15, 8, 34, 2, 19, 46, 12];
    let last = arr.len() - 1;
    merge_sort(&mut arr, 0, last);
    assert_eq!(arr, vec![2, 7, 8, 12, 15, 19, 23, 34, 41, 46]);
}

#[test]
fn merge_sort_keeps_outside_of_range() {
    let mut arr = vec![9, 8, 7, 6, 5, 4, 3];
    merge_sort(&mut arr, 2, 5);
    assert_eq!(arr, vec![9, 8, 4, 5, 6, 7, 3]);
}

#[test]
fn merge_sort_handles_largest_values() {
    let mut arr = vec![i32::MAX, 1, i32::MAX, i32::MAX, 0, i32::MIN];
    let last = arr.len() - 1;
    merge_sort(&mut arr, 0, last);
    assert_eq!(arr, vec![i32::MIN, 0, 1, i32::MAX, i32::MAX, i32::MAX]);
    let mut single = vec![3];
    merge_sort(&mut single, 0, 0);
    assert_eq!(single, vec![3]);
}

#[test]
fn counting_sort_sorts_in_range() {
    let a = [4, 1, 3, 4, 0, 2, 1, 4];
    assert_eq!(counting_sort(&a, 4), vec![0, 1, 1, 2, 3, 4, 4, 4]);
    assert_eq!(counting_sort(&a, 10_000), vec![0, 1, 1, 2, 3, 4, 4, 4]);
    assert_eq!(counting_sort(&[], 0), Vec::<i32>::new());
    assert_eq!(counting_sort(&[0, 0, 0], 0), vec![0, 0, 0]);
    assert_eq!(counting_sort(&[7], 7), vec![7]);
}
