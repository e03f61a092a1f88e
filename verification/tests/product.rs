use multi_product::multi_cartesian_product;
use multi_product::MultiProduct;
use multi_product::MultiProductIter;

fn collect_all(mut p: MultiProduct<i32>) -> Vec<Vec<i32>> {
    let mut out: Vec<Vec<i32>> = Vec::new();
    while let Some(t) = p.next() {
        out.push(t);
    }
    out
}

#[test]
fn total_count_is_product_of_sizes() {
    let p = multi_cartesian_product(vec![vec![1, 2], vec![3, 4, 5], vec![6, 7]]);
    assert_eq!(p.clone().count(), 12);
    assert_eq!(collect_all(p).len(), 12);
}

#[test]
fn total_count_zero_when_an_input_is_empty() {
    let p = multi_cartesian_product(vec![vec![1, 2], vec![], vec![6, 7]]);
    assert_eq!(p.clone().count(), 0);
    assert_eq!(collect_all(p).len(), 0);
}

#[test]
fn order_is_mixed_radix_with_last_input_fastest() {
    let p = multi_cartesian_product(vec![vec![1, 2], vec![3, 4]]);
    let got = collect_all(p);
    assert_eq!(got, vec![vec![1, 3], vec![1, 4], vec![2, 3], vec![2, 4]]);
}

#[test]
fn three_inputs_in_order() {
    let mut p = multi_cartesian_product(vec![vec![1, 2], vec![10, 20], vec![100]]);
    assert_eq!(p.clone().count(), 4);
    assert_eq!(p.next(), Some(vec![1, 10, 100]));
    assert_eq!(p.next(), Some(vec![1, 20, 100]));
    assert_eq!(p.next(), Some(vec![2, 10, 100]));
    assert_eq!(p.next(), Some(vec![2, 20, 100]));
    assert_eq!(p.next(), None);
}

#[test]
fn remaining_count_tracks_every_output() {
    let mut p = multi_cartesian_product(vec![vec![1, 2], vec![3, 4, 5]]);
    let mut expected: usize = 6;
    assert_eq!(p.clone().count(), expected);
    while let Some(_) = p.next() {
        expected -= 1;
        assert_eq!(p.clone().count(), expected);
    }
    assert_eq!(expected, 0);
    assert_eq!(p.count(), 0);
}

#[test]
fn last_is_final_element_of_enumeration() {
    let p = multi_cartesian_product(vec![vec![1, 2], vec![10, 20], vec![100]]);
    assert_eq!(p.last(), Some(vec![2, 20, 100]));
}

#[test]
fn last_after_some_outputs() {
    let mut p = multi_cartesian_product(vec![vec![1, 2], vec![10, 20], vec![100]]);
    p.next();
    p.next();
    assert_eq!(p.last(), Some(vec![2, 20, 100]));
}

#[test]
fn last_is_nothing_once_final_tuple_was_produced() {
    let mut p = multi_cartesian_product(vec![vec![1, 2], vec![3, 4]]);
    p.next();
    p.next();
    p.next();
    assert_eq!(p.clone().last(), Some(vec![2, 4]));
    p.next();
    // The most recent tuple was the final one: nothing new is produced.
    assert_eq!(p.last(), None);
}

#[test]
fn last_after_exhaustion_is_nothing() {
    let mut p = multi_cartesian_product(vec![vec![1, 2]]);
    while let Some(_) = p.next() {}
    assert_eq!(p.last(), None);
}

#[test]
fn exhaustion_is_fused() {
    let mut p = multi_cartesian_product(vec![vec![1], vec![2]]);
    assert_eq!(p.next(), Some(vec![1, 2]));
    assert_eq!(p.next(), None);
    assert_eq!(p.next(), None);
    assert_eq!(p.next(), None);
}

#[test]
fn second_input_empty_means_no_outputs() {
    let p = multi_cartesian_product(vec![vec![1], vec![]]);
    assert_eq!(p.clone().count(), 0);
    assert_eq!(p.clone().last(), None);
    assert_eq!(p.clone().size_hint(), (0, Some(0)));
    assert_eq!(collect_all(p).len(), 0);
}

#[test]
fn no_inputs_yield_one_empty_tuple() {
    let mut p: MultiProduct<i32> = multi_cartesian_product(Vec::new());
    assert_eq!(p.clone().count(), 1);
    assert_eq!(p.next(), Some(Vec::new()));
    assert_eq!(p.next(), None);
    assert_eq!(p.next(), None);
}

#[test]
fn no_inputs_last_is_empty_tuple() {
    let p: MultiProduct<i32> = multi_cartesian_product(Vec::new());
    assert_eq!(p.last(), Some(Vec::new()));
}

#[test]
fn single_input_passes_through() {
    let mut p = multi_cartesian_product(vec![vec![5, 6, 7]]);
    assert_eq!(p.clone().last(), Some(vec![7]));
    assert_eq!(p.next(), Some(vec![5]));
    assert_eq!(p.next(), Some(vec![6]));
    assert_eq!(p.next(), Some(vec![7]));
    assert_eq!(p.next(), None);
}

#[test]
fn size_hint_is_exact_for_vector_inputs() {
    let mut p = multi_cartesian_product(vec![vec![1, 2], vec![3, 4, 5]]);
    assert_eq!(p.size_hint(), (6, Some(6)));
    p.next();
    assert_eq!(p.size_hint(), (5, Some(5)));
    p.next();
    p.next();
    p.next();
    p.next();
    assert_eq!(p.size_hint(), (1, Some(1)));
    p.next();
    assert_eq!(p.size_hint(), (0, Some(0)));
    p.next();
    assert_eq!(p.size_hint(), (0, Some(0)));
}

#[test]
fn count_after_exhaustion_is_zero() {
    let mut p = multi_cartesian_product(vec![vec![1], vec![2]]);
    p.next();
    p.next();
    assert_eq!(p.count(), 0);
}

#[test]
fn slot_wraps_one_input() {
    let slot = MultiProductIter::new(vec![1, 2, 3]);
    let _also = slot.clone();
}

#[test]
fn duplicated_product_continues_independently() {
    let mut p = multi_cartesian_product(vec![vec![1, 2], vec![3, 4]]);
    p.next();
    let q = p.clone();
    assert_eq!(collect_all(p), vec![vec![1, 4], vec![2, 3], vec![2, 4]]);
    assert_eq!(collect_all(q), vec![vec![1, 4], vec![2, 3], vec![2, 4]]);
}
