use algorithms::sorting::bubble::bubble_sort;

#[test]
fn test_sort() {
    let mut arr = vec![6, 5, 3, 1, 8, 7, 2, 4];
    bubble_sort(&mut arr);
    assert_eq!(arr, vec![1, 2, 3, 4, 5, 6, 7, 8]);
}

#[test]
fn sorting_nothing_and_one_value() {
    let mut none: Vec<i32> = vec![];
    bubble_sort(&mut none);
    assert_eq!(none, vec![]);

    let mut one = vec![3];
    bubble_sort(&mut one);
    assert_eq!(one, vec![3]);
}

#[test]
fn sorting_keeps_repeated_and_negative_values() {
    let mut arr = vec![2, -1, 2, i32::MAX, 0, i32::MIN, -1];
    bubble_sort(&mut arr);
    assert_eq!(arr, vec![i32::MIN, -1, -1, 0, 2, 2, i32::MAX]);
}

#[test]
fn sorting_sorted_and_reversed_input() {
    let mut up = vec![1, 2, 3, 4, 5];
    bubble_sort(&mut up);
    assert_eq!(up, vec![1, 2, 3, 4, 5]);

    let mut down = vec![5, 4, 3, 2, 1];
    bubble_sort(&mut down);
    assert_eq!(down, vec![1, 2, 3, 4, 5]);
}
