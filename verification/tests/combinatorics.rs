use permanent_cig::combi::{cartesian_product, nonempty_subsets, random_nonempty_subsets};
use permanent_cig::rng::{rng_shuffle_usize, rng_with_seed};

#[test]
fn nonempty_subsets_enumerates_binary_counter_order() {
    let items = vec![10usize, 20];
    let subsets = nonempty_subsets(&items);
    assert_eq!(subsets, vec![vec![10], vec![20], vec![10, 20]]);
}

#[test]
fn nonempty_subsets_of_singleton() {
    let items = vec![7usize];
    assert_eq!(nonempty_subsets(&items), vec![vec![7]]);
}

#[test]
fn cartesian_product_varies_last_component_fastest() {
    let lists = vec![vec![1usize, 2], vec![3usize, 4]];
    let tuples = cartesian_product(&lists);
    assert_eq!(tuples, vec![vec![1, 3], vec![1, 4], vec![2, 3], vec![2, 4]]);
}

#[test]
fn cartesian_product_with_empty_list_is_empty() {
    let lists = vec![vec![1usize], vec![]];
    assert!(cartesian_product(&lists).is_empty());
}

#[test]
fn random_subsets_are_nonempty_and_drawn_from_items() {
    let items = vec![1usize, 2, 3, 4];
    let mut rng = rng_with_seed(3);
    let subsets = random_nonempty_subsets(&mut rng, &items, 5);
    assert_eq!(subsets.len(), 5);
    for s in &subsets {
        assert!(!s.is_empty());
        for e in s {
            assert!(items.contains(e));
        }
    }
}

#[test]
fn shuffle_permutes_without_losing_elements() {
    let mut rng = rng_with_seed(8);
    let mut v: Vec<usize> = (0..50).collect();
    rng_shuffle_usize(&mut rng, &mut v);
    assert_eq!(v.len(), 50);
    let mut sorted = v.clone();
    sorted.sort();
    assert_eq!(sorted, (0..50).collect::<Vec<usize>>());
}
