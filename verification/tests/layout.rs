//! The packed layout: coefficient counting and the multi-index slot map.

use multidiff::number_of_elements;
use multidiff::offset_of;
use multidiff::offset_of_impl;
use multidiff::offset_under;
use multidiff::Diff;
use multidiff::Dynamic;

/// Counts the multi-indices of length `n` with total degree at most
/// `order` by brute-force enumeration over the first entry.
fn brute_force_count(n: usize, order: usize) -> usize {
    if n == 0 {
        1
    } else {
        let mut total = 0;
        for first in 0..=order {
            total += brute_force_count(n - 1, order - first);
        }
        total
    }
}

/// Collects every multi-index of length `n` with total degree at most
/// `order`.
fn all_indices(n: usize, order: usize) -> Vec<Vec<usize>> {
    if n == 0 {
        vec![vec![]]
    } else {
        let mut out = Vec::new();
        for first in 0..=order {
            for mut tail in all_indices(n - 1, order - first) {
                let mut idx = vec![first];
                idx.append(&mut tail);
                out.push(idx);
            }
        }
        out
    }
}

#[test]
fn counts_match_brute_force_enumeration() {
    for n in 0..=4usize {
        for order in 0..=4usize {
            assert_eq!(number_of_elements(n, order), brute_force_count(n, order));
        }
    }
    assert_eq!(number_of_elements(1, 7), 8);
    assert_eq!(number_of_elements(3, 2), 10);
}

#[test]
fn offsets_form_a_bijection() {
    for n in 1..=3usize {
        for order in 0..=3usize {
            let count = number_of_elements(n, order);
            let mut seen = vec![false; count];
            for idx in all_indices(n, order) {
                let offset = offset_of(&idx, n, order);
                assert!(offset < count);
                assert!(!seen[offset]);
                seen[offset] = true;
            }
            assert!(seen.iter().all(|&s| s));
        }
    }
}

#[test]
fn offset_pieces_agree() {
    // the split form and the block starts agree with the whole map
    assert_eq!(offset_of(&[], 3, 2), 0);
    assert_eq!(offset_of(&[2], 1, 2), 2);
    assert_eq!(offset_of_impl(1, &[0], 2, 1), 1);
    assert_eq!(offset_of_impl(0, &[1], 2, 1), 2);
    assert_eq!(offset_under(2, 0, 1), 0);
    assert_eq!(offset_under(2, 1, 1), 1);
    assert_eq!(offset_under(2, 2, 2), number_of_elements(2, 2) - 1);
}

#[test]
fn two_variable_order_one_layout() {
    // construction order of the variables is kept: the first variable's
    // derivative sits right after the value
    let d = Diff::from_data(Dynamic(1), Dynamic(2), vec![10i64, 11, 12]);
    assert_eq!(d.value(), 10);
    assert_eq!(d.get(&[1, 0]), 11);
    assert_eq!(d.get(&[0, 1]), 12);
    assert_eq!(d.get(&[0, 0]), 10);
}

#[test]
fn accessors_report_the_shape() {
    let d = Diff::from_data(Dynamic(2), Dynamic(2), vec![0i64; 6]);
    assert_eq!(d.order(), 2);
    assert_eq!(d.n(), 2);
    assert_eq!(d.data_slice().len(), 6);
    let v = d.derivatives();
    assert_eq!(v.order(), 2);
    assert_eq!(v.n(), 2);
    assert_eq!(v.data_slice().len(), 5);
}

#[test]
fn derivative_blocks_select_the_variables() {
    // order 1, three variables: the tail holds one slot per variable
    let d = Diff::from_data(Dynamic(1), Dynamic(3), vec![1i64, 2, 3, 4]);
    let v = d.derivatives();
    let d0 = v.get(0);
    assert_eq!(d0.order(), 0);
    assert_eq!(d0.n(), 3);
    assert_eq!(d0.value(), 2);
    let d1 = v.get(1);
    assert_eq!(d1.order(), 0);
    assert_eq!(d1.n(), 2);
    assert_eq!(d1.value(), 3);
    let d2 = v.get(2);
    assert_eq!(d2.order(), 0);
    assert_eq!(d2.n(), 1);
    assert_eq!(d2.value(), 4);
}

#[test]
fn restriction_drops_leading_variables() {
    let d = Diff::from_data(Dynamic(1), Dynamic(3), vec![1i64, 2, 3, 4]);
    let r = d.drop_first_derivatives(1);
    assert_eq!(r.order(), 1);
    assert_eq!(r.n(), 2);
    assert_eq!(r.data_slice(), &[1, 3, 4]);
    let rr = d.drop_first_derivatives(2);
    assert_eq!(rr.data_slice(), &[1, 4]);
}
