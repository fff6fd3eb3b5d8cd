use algorithms::binary_heap::BinaryHeap;
use algorithms::binary_heap::Natural;

#[test]
fn test_basic_pq() {
    let mut pq: BinaryHeap<i32, _> = BinaryHeap::from_with_comparator(
        vec![2, 1, 6, 3, 9, 7, 4, 8, 5],
        |a, b| a.cmp(b),
    );
    for i in (1..=9).rev() {
        assert_eq!(Some(i), pq.pop());
    }
    assert_eq!(None, pq.pop());
}

#[test]
fn test_default_cmp() {
    let mut pq: BinaryHeap<i32, _> = BinaryHeap::from(vec![2, 1, 6, 3, 9, 7, 4, 8, 5]);
    for i in (1..=9).rev() {
        assert_eq!(Some(i), pq.pop());
    }
    assert_eq!(None, pq.pop());
}

#[test]
fn new_heap_is_empty() {
    let mut pq: BinaryHeap<u8, _> = BinaryHeap::new();
    assert!(pq.is_empty());
    assert_eq!(0, pq.len());
    assert_eq!(None, pq.pop());
    assert!(pq.is_empty());
}

#[test]
fn push_then_pop_gives_the_greatest_first() {
    let mut pq: BinaryHeap<u32, _> = BinaryHeap::new();
    for v in [5u32, 1, 8, 3, 8, 2, 13, 0] {
        pq.push(v);
    }
    assert_eq!(8, pq.len());
    assert!(!pq.is_empty());
    let mut out = Vec::new();
    while let Some(v) = pq.pop() {
        out.push(v);
    }
    assert_eq!(vec![13u32, 8, 8, 5, 3, 2, 1, 0], out);
    assert_eq!(0, pq.len());
}

#[test]
fn pushes_and_pops_in_turn() {
    let mut pq: BinaryHeap<i64, _> = BinaryHeap::new();
    pq.push(4);
    pq.push(-2);
    assert_eq!(Some(4), pq.pop());
    pq.push(7);
    pq.push(1);
    assert_eq!(Some(7), pq.pop());
    assert_eq!(Some(1), pq.pop());
    assert_eq!(Some(-2), pq.pop());
    assert_eq!(None, pq.pop());
}

#[test]
fn reversed_comparator_gives_the_least_first() {
    let mut pq: BinaryHeap<i32, _> =
        BinaryHeap::from_with_comparator(vec![2, 1, 6, 3, 9, 7, 4, 8, 5], |a: &i32, b: &i32| {
            b.cmp(a)
        });
    for i in 1..=9 {
        assert_eq!(Some(i), pq.pop());
    }
    assert_eq!(None, pq.pop());
}

#[test]
fn with_comparator_starts_empty_and_orders_what_is_pushed() {
    let mut pq = BinaryHeap::with_comparator(|a: &(u8, char), b: &(u8, char)| a.0.cmp(&b.0));
    assert!(pq.is_empty());
    pq.push((2, 'b'));
    pq.push((9, 'z'));
    pq.push((1, 'a'));
    assert_eq!(3, pq.len());
    assert_eq!(Some((9, 'z')), pq.pop());
    assert_eq!(Some((2, 'b')), pq.pop());
    assert_eq!(Some((1, 'a')), pq.pop());
    assert_eq!(None, pq.pop());
}

#[test]
fn heap_of_one_and_of_two() {
    let mut one: BinaryHeap<u8, _> = BinaryHeap::from(vec![7]);
    assert_eq!(1, one.len());
    assert_eq!(Some(7), one.pop());
    assert_eq!(None, one.pop());
    let mut two: BinaryHeap<u8, _> = BinaryHeap::from(vec![3, 7]);
    assert_eq!(Some(7), two.pop());
    assert_eq!(Some(3), two.pop());
    assert_eq!(None, two.pop());
}

#[test]
fn every_order_of_five_items_comes_out_sorted() {
    let items = [10u16, 20, 20, 30, 40];
    let mut order = [0usize, 1, 2, 3, 4];
    let mut count = 0;
    loop {
        let data: Vec<u16> = order.iter().map(|i| items[*i]).collect();
        let mut built: BinaryHeap<u16, _> = BinaryHeap::from(data.clone());
        let mut pushed: BinaryHeap<u16, _> = BinaryHeap::new();
        for v in data {
            pushed.push(v);
        }
        for expected in [40u16, 30, 20, 20, 10] {
            assert_eq!(Some(expected), built.pop());
            assert_eq!(Some(expected), pushed.pop());
        }
        assert_eq!(None, built.pop());
        assert_eq!(None, pushed.pop());
        count += 1;
        let mut i = 4;
        while i > 0 && order[i - 1] >= order[i] {
            i -= 1;
        }
        if i == 0 {
            break;
        }
        let mut j = 4;
        while order[j] <= order[i - 1] {
            j -= 1;
        }
        order.swap(i - 1, j);
        order[i..].reverse();
    }
    assert_eq!(120, count);
}

#[test]
fn the_order_of_the_items_as_a_comparator() {
    assert_eq!(std::cmp::Ordering::Less, BinaryHeap::<u8, Natural>::comparator(&1, &2));
    assert_eq!(std::cmp::Ordering::Equal, BinaryHeap::<u8, Natural>::comparator(&2, &2));
    assert_eq!(std::cmp::Ordering::Greater, BinaryHeap::<u8, Natural>::comparator(&3, &2));
}
