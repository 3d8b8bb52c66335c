use huff::heap::{heap_sort, insert, pop, Keyed};

fn make_heap(items: Vec<usize>) -> Vec<usize> {
    let mut heap: Vec<Keyed<()>> = Vec::new();
    for k in items {
        insert(&mut heap, Keyed { key: k, value: () });
    }
    heap.iter().map(|it| it.key).collect()
}

#[test]
fn make_heap_examples() {
    assert_eq!(make_heap(vec![1]), vec![1]);
    assert_eq!(make_heap(vec![1, 0]), vec![0, 1]);
    assert_eq!(make_heap(vec![0, 0]), vec![0, 0]);
    assert_eq!(
        make_heap(vec![1, 9, 8, 2, 7, 6, 3, 4, 5, 0]),
        vec![0, 1, 3, 4, 2, 8, 6, 9, 5, 7]
    );
}

#[test]
fn pop_returns_minimum() {
    let mut heap: Vec<Keyed<&str>> = Vec::new();
    insert(&mut heap, Keyed { key: 5, value: "five" });
    insert(&mut heap, Keyed { key: 2, value: "two" });
    insert(&mut heap, Keyed { key: 9, value: "nine" });
    let first = pop(&mut heap).unwrap();
    assert_eq!(first.key, 2);
    assert_eq!(first.value, "two");
    let second = pop(&mut heap).unwrap();
    assert_eq!(second.key, 5);
    let third = pop(&mut heap).unwrap();
    assert_eq!(third.key, 9);
    assert!(pop(&mut heap).is_none());
}

#[test]
fn pop_empty_is_none() {
    let mut heap: Vec<Keyed<u8>> = Vec::new();
    assert!(pop(&mut heap).is_none());
}

#[test]
fn heap_sort_orders_keys() {
    let items: Vec<Keyed<u8>> = vec![3, 1, 4, 1, 5, 9, 2, 6, 5, 3, 5]
        .into_iter()
        .enumerate()
        .map(|(i, k)| Keyed { key: k, value: i as u8 })
        .collect();
    let sorted = heap_sort(items);
    let keys: Vec<usize> = sorted.iter().map(|it| it.key).collect();
    assert_eq!(keys, vec![1, 1, 2, 3, 3, 4, 5, 5, 5, 6, 9]);
    let mut values: Vec<u8> = sorted.iter().map(|it| it.value).collect();
    values.sort();
    assert_eq!(values, (0..11).collect::<Vec<u8>>());
}
