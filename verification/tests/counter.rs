use std::collections::BTreeSet;

use datalog::counter::Counter;

fn collect(counter: &mut Counter) -> BTreeSet<Vec<usize>> {
    let mut result = BTreeSet::new();
    while let Some(v) = counter.next() {
        result.insert(v);
    }
    result
}

#[test]
fn empty_len() {
    let counter = Counter::new(0, 100);
    assert!(counter.is_empty());
}

#[test]
fn empty_max() {
    let counter = Counter::new(1, 0);
    assert!(counter.is_empty());
}

#[test]
fn counter() {
    let mut counter = Counter::new(1, 2);
    let result = collect(&mut counter);
    assert!(counter.is_empty());

    let expected = BTreeSet::from_iter(vec![vec![0], vec![1]]);

    assert_eq!(result, expected);
}

#[test]
fn counter_longer() {
    let mut counter = Counter::new(3, 4);
    let result = collect(&mut counter);
    assert!(counter.is_empty());

    let mut expected = BTreeSet::default();
    for x in 0..4 {
        for y in 0..4 {
            for z in 0..4 {
                expected.insert(vec![x, y, z]);
            }
        }
    }

    assert_eq!(result, expected);
    assert!(!result.contains(&vec![0, 0, 4]));
    assert!(result.contains(&vec![3, 3, 3]));
}

#[test]
fn counter_order() {
    let mut counter = Counter::new(2, 2);
    let mut seen = Vec::new();
    while let Some(v) = counter.next() {
        seen.push(v);
    }
    assert_eq!(seen, vec![vec![0, 0], vec![1, 0], vec![0, 1], vec![1, 1]]);
    assert!(counter.next().is_none());
}
