use resonant_search::prime_hilbert::{
    biorthogonal_score, build_biorthogonal_vector, build_vector, dot_product, to_dense_vector,
    Fraction,
};

fn value(f: Fraction) -> f64 {
    if f.den == 0 {
        0.0
    } else {
        f.num as f64 / f.den as f64
    }
}

#[test]
fn build_vector_counts_terms_in_order() {
    let v = build_vector(&[7, 3, 7, 5, 7]);
    assert_eq!(v.entries, vec![(3, 1), (5, 1), (7, 3)]);
    assert_eq!(v.total, 5);
}

#[test]
fn build_vector_weights_sum_to_one() {
    let v = build_vector(&[11, 3, 3, 5, 13, 11, 3]);
    let mass: u64 = v.entries.iter().map(|e| e.1).sum();
    assert_eq!(mass as usize, v.total);
    let total: f64 = v.entries.iter().map(|e| e.1 as f64 / v.total as f64).sum();
    assert!((total - 1.0).abs() < 1e-12);
}

#[test]
fn build_vector_of_nothing_is_empty() {
    let v = build_vector(&[]);
    assert!(v.entries.is_empty());
    assert_eq!(v.total, 0);
    let d = dot_product(&v, &v);
    assert_eq!(d.num, 0);
    assert_eq!(value(d), 0.0);
}

#[test]
fn single_repeated_token_has_one_entry() {
    let v = build_vector(&[5, 5, 5, 5]);
    assert_eq!(v.entries, vec![(5, 4)]);
}

#[test]
fn dot_product_is_symmetric() {
    let a = build_vector(&[3, 5, 5, 7]);
    let b = build_vector(&[5, 7, 7, 11, 13]);
    let ab = dot_product(&a, &b);
    let ba = dot_product(&b, &a);
    assert_eq!(ab, ba);
    // shared terms 5 and 7: 2*1 + 1*2 = 4, over 4 * 5
    assert_eq!(ab, Fraction { num: 4, den: 20 });
}

#[test]
fn dot_product_with_itself_is_sum_of_squares() {
    let v = build_vector(&[3, 3, 5, 7, 7, 7]);
    let d = dot_product(&v, &v);
    // counts 2, 1, 3 over 6: (4 + 1 + 9) / 36
    assert_eq!(d, Fraction { num: 14, den: 36 });
    let sum_sq: f64 = v.entries.iter().map(|e| (e.1 as f64 / 6.0).powi(2)).sum();
    assert!((value(d) - sum_sq).abs() < 1e-12);
}

#[test]
fn disjoint_vectors_have_zero_dot_product() {
    let a = build_vector(&[3, 5]);
    let b = build_vector(&[7, 11, 13]);
    assert_eq!(dot_product(&a, &b).num, 0);
}

#[test]
fn dual_vector_gives_half_mass_per_occurrence() {
    let b = build_biorthogonal_vector(&[3, 5, 3, 7]);
    assert_eq!(b.left.entries, vec![(3, 2), (5, 1), (7, 1)]);
    assert_eq!(b.left.total, 8);
    assert_eq!(b.right.entries, b.left.entries);
    assert_eq!(b.right.total, 8);
    // weight of 3 on each half: 0.5 * 2 / 4
    assert_eq!(2.0 / 8.0, 0.25);
}

#[test]
fn dual_score_adds_both_halves() {
    let q = build_biorthogonal_vector(&[3, 5]);
    let d = build_biorthogonal_vector(&[3, 3, 7]);
    let s = biorthogonal_score(&q, &d);
    // each half: 1 * 2 over 4 * 6
    assert_eq!(s, Fraction { num: 4, den: 24 });
}

#[test]
fn dense_projection_drops_large_terms() {
    let v = build_vector(&[3, 5, 5, 17]);
    let d = to_dense_vector(&v, 10);
    assert_eq!(d.len(), 11);
    assert_eq!(d[3], 1);
    assert_eq!(d[5], 2);
    assert_eq!(d.iter().sum::<u64>(), 3);
}
