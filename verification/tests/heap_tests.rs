use algorithms::data_structures::heap::{Heap, MaxFirst, MinFirst, Order};

#[test]
fn test_parent_idx() {
    let heap = Heap::new_max();
    assert_eq!(None, heap.parent_idx(0));
    assert_eq!(Some(0), heap.parent_idx(1));
    assert_eq!(Some(0), heap.parent_idx(2));
    assert_eq!(Some(1), heap.parent_idx(3));
    assert_eq!(Some(1), heap.parent_idx(4));
    assert_eq!(Some(2), heap.parent_idx(5));
    assert_eq!(Some(2), heap.parent_idx(6));
}

#[test]
fn test_empy_hep() {
    let mut heap = Heap::new_max();
    assert_eq!(None, heap.pop());
}

#[test]
fn test_max_heap() {
    let mut heap = Heap::new_max();
    heap.add(3);
    heap.add(9);
    heap.add(2);
    heap.add(1);
    heap.add(4);
    heap.add(5);
    assert_eq!(6, heap.len());
    assert_eq!(Some(9), heap.pop());
    assert_eq!(Some(5), heap.pop());
    assert_eq!(Some(4), heap.pop());
    assert_eq!(Some(3), heap.pop());
    assert_eq!(Some(2), heap.pop());
    assert_eq!(Some(1), heap.pop());
    assert_eq!(None, heap.pop());
}

#[test]
fn test_min_heap() {
    let mut heap = Heap::new_min();
    heap.add(3);
    heap.add(9);
    heap.add(2);
    heap.add(1);
    heap.add(4);
    heap.add(5);
    assert_eq!(6, heap.len());
    assert_eq!(Some(1), heap.pop());
    assert_eq!(Some(2), heap.pop());
    assert_eq!(Some(3), heap.pop());
    assert_eq!(Some(4), heap.pop());
    assert_eq!(Some(5), heap.pop());
    assert_eq!(Some(9), heap.pop());
    assert_eq!(None, heap.pop());
}

struct ByLastDigit;

impl Order<u32> for ByLastDigit {
    fn outranks(&self, a: &u32, b: &u32) -> bool {
        a % 10 > b % 10
    }
}

#[test]
fn custom_order_decides_what_comes_out() {
    let mut heap = Heap::new(ByLastDigit);
    heap.add(19);
    heap.add(41);
    heap.add(23);
    heap.add(7);
    assert_eq!(Some(19), heap.pop());
    assert_eq!(Some(7), heap.pop());
    assert_eq!(Some(23), heap.pop());
    assert_eq!(Some(41), heap.pop());
    assert_eq!(None, heap.pop());
}

#[test]
fn single_value_comes_back_once() {
    let mut heap = Heap::new_max();
    heap.add(7);
    assert_eq!(1, heap.len());
    assert!(!heap.is_empty());
    assert_eq!(Some(7), heap.pop());
    assert!(heap.is_empty());
    assert_eq!(None, heap.pop());
}

#[test]
fn equal_values_all_come_back() {
    let mut heap = Heap::new_max();
    heap.add(5);
    heap.add(5);
    heap.add(5);
    assert_eq!(3, heap.len());
    assert_eq!(Some(5), heap.pop());
    assert_eq!(Some(5), heap.pop());
    assert_eq!(Some(5), heap.pop());
    assert_eq!(None, heap.pop());
}

#[test]
fn empty_heap_stays_empty_under_pop() {
    let mut fresh = Heap::new_min();
    assert!(fresh.is_empty());
    for _ in 0..5 {
        assert_eq!(None, fresh.pop());
        assert_eq!(0, fresh.len());
        assert!(fresh.is_empty());
    }

    let mut drained = Heap::new_max();
    drained.add(2);
    drained.add(1);
    assert_eq!(Some(2), drained.pop());
    assert_eq!(Some(1), drained.pop());
    for _ in 0..3 {
        assert_eq!(None, drained.pop());
        assert_eq!(0, drained.len());
    }
    drained.add(4);
    assert_eq!(Some(4), drained.pop());
}

#[test]
fn len_counts_adds_less_successful_pops() {
    let mut heap = Heap::new_min();
    let mut expected = 0usize;
    let mut seed: u32 = 12345;
    for round in 0..400 {
        seed = seed.wrapping_mul(1103515245).wrapping_add(12345);
        if (seed >> 16) % 3 == 0 {
            if heap.pop().is_some() {
                expected -= 1;
            }
        } else {
            heap.add(((seed >> 8) % 1000) as i32 - 500);
            expected += 1;
        }
        assert_eq!(expected, heap.len(), "after call {}", round);
        assert_eq!(expected == 0, heap.is_empty());
    }
}

fn scrambled(n: usize) -> Vec<i32> {
    let mut seed: u32 = 2024;
    let mut values = Vec::new();
    for _ in 0..n {
        seed = seed.wrapping_mul(1664525).wrapping_add(1013904223);
        values.push(((seed >> 10) % 64) as i32 - 32);
    }
    values
}

#[test]
fn max_heap_drains_from_the_largest_down() {
    let values = scrambled(200);
    let mut heap = Heap::new_max();
    for v in &values {
        heap.add(*v);
    }
    assert_eq!(values.len(), heap.len());
    let mut out = Vec::new();
    while let Some(v) = heap.pop() {
        out.push(v);
    }
    assert_eq!(values.len(), out.len());
    for pair in out.windows(2) {
        assert!(pair[0] >= pair[1]);
    }
    let mut sorted = values.clone();
    sorted.sort();
    sorted.reverse();
    assert_eq!(sorted, out);
}

#[test]
fn min_heap_drains_from_the_smallest_up() {
    let values = scrambled(200);
    let mut heap = Heap::new_min();
    for v in &values {
        heap.add(*v);
    }
    let mut out = Vec::new();
    while let Some(v) = heap.pop() {
        out.push(v);
    }
    for pair in out.windows(2) {
        assert!(pair[0] <= pair[1]);
    }
    let mut sorted = values.clone();
    sorted.sort();
    assert_eq!(sorted, out);
}

#[test]
fn interleaved_calls_always_yield_the_best_value_held() {
    let mut heap = Heap::new_max();
    let mut held: Vec<i32> = Vec::new();
    let mut seed: u32 = 99;
    for _ in 0..300 {
        seed = seed.wrapping_mul(1103515245).wrapping_add(12345);
        if (seed >> 16) % 2 == 0 {
            let best = held.iter().copied().max();
            assert_eq!(best, heap.pop());
            if let Some(b) = best {
                let at = held.iter().position(|v| *v == b).unwrap();
                held.swap_remove(at);
            }
        } else {
            let v = ((seed >> 8) % 50) as i32;
            heap.add(v);
            held.push(v);
        }
        assert_eq!(held.len(), heap.len());
    }
}

#[test]
fn new_with_the_named_orders_matches_the_shorthands() {
    let mut by_max = Heap::new(MaxFirst);
    let mut by_min = Heap::new(MinFirst);
    for v in [3, 9, 2, 1, 4, 5] {
        by_max.add(v);
        by_min.add(v);
    }
    for expected in [9, 5, 4, 3, 2, 1] {
        assert_eq!(Some(expected), by_max.pop());
    }
    for expected in [1, 2, 3, 4, 5, 9] {
        assert_eq!(Some(expected), by_min.pop());
    }
    assert_eq!(None, by_max.pop());
    assert_eq!(None, by_min.pop());
}

#[test]
fn heap_holds_values_that_are_not_copied() {
    struct ByLength;
    impl Order<String> for ByLength {
        fn outranks(&self, a: &String, b: &String) -> bool {
            a.len() > b.len()
        }
    }
    let mut heap = Heap::new(ByLength);
    heap.add(String::from("bb"));
    heap.add(String::from("dddd"));
    heap.add(String::from("a"));
    heap.add(String::from("ccc"));
    assert_eq!(Some(String::from("dddd")), heap.pop());
    assert_eq!(Some(String::from("ccc")), heap.pop());
    assert_eq!(Some(String::from("bb")), heap.pop());
    assert_eq!(Some(String::from("a")), heap.pop());
    assert_eq!(None, heap.pop());
}

#[test]
fn parent_positions_beyond_the_first_levels() {
    let heap = Heap::new_min();
    assert_eq!(Some(3), heap.parent_idx(7));
    assert_eq!(Some(3), heap.parent_idx(8));
    assert_eq!(Some(4), heap.parent_idx(9));
    assert_eq!(Some(49), heap.parent_idx(100));
    assert_eq!(Some((usize::MAX - 1) / 2), heap.parent_idx(usize::MAX));
}
