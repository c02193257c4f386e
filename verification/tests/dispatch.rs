use hyperscale::dispatch::{DispatchPool, Parallelism};

#[test]
fn both_strategies_map_in_input_order() {
    let items: Vec<u64> = (0..100).collect();
    let expected: Vec<u64> = items.iter().map(|x| x * 3 + 1).collect();
    assert_eq!(Parallelism::Sequential.map(items.clone(), |x| x * 3 + 1), expected);
    assert_eq!(Parallelism::Rayon.map(items, |x| x * 3 + 1), expected);
}

#[test]
fn mapping_nothing_gives_nothing() {
    let none: Vec<u8> = Vec::new();
    assert!(Parallelism::Sequential.map(none.clone(), |x| x).is_empty());
    assert!(Parallelism::Rayon.map(none, |x| x).is_empty());
}

#[test]
fn pools_compare_by_kind() {
    assert_eq!(DispatchPool::Consensus, DispatchPool::Consensus);
    assert_ne!(DispatchPool::Throughput, DispatchPool::Io);
    assert_ne!(Parallelism::Rayon, Parallelism::Sequential);
}
