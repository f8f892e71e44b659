use fri::folding::{transpose, untranspose};
use fri::options::FriOptions;
use fri::positions::fold_positions;
use winter_math::fields::f64::BaseElement;

fn ascending(n: u64) -> Vec<BaseElement> {
    (0..n).map(BaseElement::new).collect()
}

#[test]
fn transpose_gathers_strided_rows() {
    // row i of the transposed buffer holds v[i], v[i + rows], v[i + 2*rows], ...
    let v = ascending(16);
    let t = transpose(&v, 4);
    let expected: Vec<u64> = vec![0, 4, 8, 12, 1, 5, 9, 13, 2, 6, 10, 14, 3, 7, 11, 15];
    let expected: Vec<BaseElement> = expected.into_iter().map(BaseElement::new).collect();
    assert_eq!(t, expected);
}

#[test]
fn untranspose_inverts_transpose_on_synthetic_data() {
    // v[k] = k: folding into rows then un-transposing reproduces the order
    for &ff in &[4usize, 8, 16] {
        let v = ascending(64);
        let t = transpose(&v, ff);
        assert_ne!(t, v);
        let u = untranspose(&t, ff);
        assert_eq!(u, v);
    }
}

#[test]
fn fold_positions_deduplicates_and_sorts() {
    let folded = fold_positions(&vec![0, 5, 9], 16, 4);
    assert_eq!(folded, vec![0, 1]);
    let folded = fold_positions(&vec![15, 3, 3, 12, 0], 16, 4);
    assert_eq!(folded, vec![0, 3]);
}

#[test]
fn fold_positions_depends_on_the_set_alone() {
    // same position set, different order and multiplicity, same row set
    let a = fold_positions(&vec![1, 6, 11, 2], 64, 4);
    let b = fold_positions(&vec![2, 11, 11, 1, 6, 6, 1], 64, 4);
    assert_eq!(a, b);
    // folding positions 1 and 6 alongside others still covers their rows
    for p in &[1usize, 6] {
        assert!(a.contains(&(p % 16)));
    }
}

#[test]
fn num_fri_layers_counts_folding_rounds() {
    let options = FriOptions::new(4, 8);
    assert_eq!(options.num_fri_layers(16), 1);
    assert_eq!(options.num_fri_layers(8), 0);
    assert_eq!(options.num_fri_layers(256), 3);
    assert_eq!(options.max_remainder_size(), 8);
    let options = FriOptions::new(16, 64);
    assert_eq!(options.num_fri_layers(65536), 3);
}
