use fri::{FriOptions, FriProver, ProverChannel};
use winter_crypto::hashers::Blake3_256;
use winter_crypto::{BatchMerkleProof, Digest, ElementHasher, Hasher, MerkleTree};
use winter_math::fields::f64::BaseElement;
use winter_math::StarkField;
use winter_utils::Deserializable;

/// A transcript stub that records committed roots and replays fixed alphas.
struct TestChannel {
    roots: Vec<[u8; 32]>,
    alphas: Vec<BaseElement>,
    next: usize,
}

impl TestChannel {
    fn new(alphas: Vec<BaseElement>) -> TestChannel {
        TestChannel { roots: Vec::new(), alphas, next: 0 }
    }
}

impl ProverChannel for TestChannel {
    fn commit_fri_layer(&mut self, layer_root: [u8; 32]) {
        self.roots.push(layer_root);
    }

    fn draw_fri_alpha(&mut self) -> BaseElement {
        let a = self.alphas[self.next % self.alphas.len()];
        self.next += 1;
        a
    }
}

fn elems(values: &[u64]) -> Vec<BaseElement> {
    values.iter().map(|&v| BaseElement::new(v)).collect()
}

fn ascending(n: u64) -> Vec<BaseElement> {
    (0..n).map(BaseElement::new).collect()
}

#[test]
fn commit_phase_produces_expected_layer_counts_and_sizes() {
    // 16 evaluations, folding factor 4, remainder bound 8: one folding round
    // plus the remainder round.
    let mut prover = FriProver::new(FriOptions::new(4, 8));
    let mut channel = TestChannel::new(elems(&[7]));
    prover.build_layers(&mut channel, ascending(16));
    assert_eq!(prover.num_layers(), 2);
    assert_eq!(prover.layers[0].evaluations.len(), 16);
    assert_eq!(prover.layers[1].evaluations.len(), 4);
    assert_eq!(channel.roots.len(), 2);
}

#[test]
fn final_layer_fits_remainder_bound_and_is_whole_rows() {
    let mut prover = FriProver::new(FriOptions::new(4, 16));
    let mut channel = TestChannel::new(elems(&[11, 23]));
    prover.build_layers(&mut channel, ascending(256));
    // 256 -> 64 -> 16: two folding rounds, remainder of 16
    assert_eq!(prover.num_layers(), 3);
    let last = prover.layers.last().unwrap().evaluations.len();
    assert!(last <= 16);
    assert_eq!(last % 4, 0);
    assert_eq!(last, 16);
}

#[test]
fn end_to_end_proof_for_length_16_factor_4() {
    let mut prover = FriProver::new(FriOptions::new(4, 8));
    assert_eq!(prover.folding_factor(), 4);
    let mut channel = TestChannel::new(elems(&[5]));
    let v = ascending(16);
    prover.build_layers(&mut channel, v.clone());
    assert_eq!(prover.num_layers(), 2);

    let proof = prover.build_proof(&vec![0, 5, 9]);
    // one proof layer for the first layer; the second layer is the remainder
    assert_eq!(proof.layers.len(), 1);
    assert_eq!(proof.folding_factor, 4);
    assert_eq!(proof.remainder.len(), 4);
    // positions 0, 5, 9 fold to rows 0 and 1 of the 4-row layer
    assert_eq!(proof.layers[0].values.len(), 2);
    // row r of the transposed layer holds v[r], v[r+4], v[r+8], v[r+12]
    assert_eq!(proof.layers[0].values[0], elems(&[0, 4, 8, 12]));
    assert_eq!(proof.layers[0].values[1], elems(&[1, 5, 9, 13]));
    // the prover is idle again
    assert_eq!(prover.num_layers(), 0);
}

#[test]
fn queried_rows_authenticate_against_committed_root() {
    let mut prover = FriProver::new(FriOptions::new(4, 8));
    let mut channel = TestChannel::new(elems(&[29]));
    prover.build_layers(&mut channel, ascending(16));

    let root_bytes = prover.layer_commitment(0);
    assert_eq!(root_bytes, channel.roots[0]);
    let proof = prover.build_proof(&vec![0, 5, 9]);

    let batch =
        BatchMerkleProof::<Blake3_256<BaseElement>>::read_from_bytes(&proof.layers[0].auth_proof)
            .expect("proof bytes deserialize");
    let leaves: Vec<<Blake3_256<BaseElement> as Hasher>::Digest> = proof.layers[0]
        .values
        .iter()
        .map(|row| Blake3_256::<BaseElement>::hash_elements(row))
        .collect();
    let root = <Blake3_256<BaseElement> as Hasher>::Digest::read_from_bytes(&root_bytes)
        .expect("root bytes deserialize");
    let folded_positions = vec![0, 1];
    assert!(MerkleTree::<Blake3_256<BaseElement>>::verify_batch(
        &root,
        &folded_positions,
        &leaves,
        &batch
    )
    .is_ok());

    // a different root must not authenticate the same openings
    let wrong = <Blake3_256<BaseElement> as Hasher>::Digest::read_from_bytes(&[1u8; 32])
        .expect("bytes deserialize");
    assert!(MerkleTree::<Blake3_256<BaseElement>>::verify_batch(
        &wrong,
        &folded_positions,
        &leaves,
        &batch
    )
    .is_err());
}

#[test]
fn folding_a_constant_vector_keeps_the_constant() {
    // evaluations of a degree-zero polynomial fold to the same constant
    let mut prover = FriProver::new(FriOptions::new(4, 8));
    let mut channel = TestChannel::new(elems(&[987654321]));
    let c = BaseElement::new(42);
    prover.build_layers(&mut channel, vec![c; 16]);
    let proof = prover.build_proof(&vec![3]);
    assert_eq!(proof.remainder, vec![c; 4]);
}

#[test]
fn folded_values_match_per_coset_interpolation() {
    // recompute the degree-respecting projection independently: each
    // transposed row is interpolated over its coset and evaluated at alpha
    let alpha = BaseElement::new(123456789);
    let v: Vec<BaseElement> = (0..16u64).map(|k| BaseElement::new(3 * k * k + k + 5)).collect();

    let mut prover = FriProver::new(FriOptions::new(4, 8));
    let mut channel = TestChannel::new(vec![alpha]);
    prover.build_layers(&mut channel, v.clone());

    let offset = prover.domain_offset();
    let w = BaseElement::get_root_of_unity(4);
    let inv_twiddles = winter_math::fft::get_inv_twiddles::<BaseElement>(4);
    let mut expected: Vec<BaseElement> = Vec::new();
    let mut cur = offset;
    for i in 0..4usize {
        let mut row = [v[i], v[i + 4], v[i + 8], v[i + 12]];
        winter_math::fft::interpolate_poly_with_offset(&mut row, &inv_twiddles, cur);
        expected.push(winter_math::polynom::eval(&row, alpha));
        cur = cur * w;
    }

    // the remainder is exactly the folded vector, back in natural order
    let proof = prover.build_proof(&vec![2, 7]);
    assert_eq!(proof.remainder, expected);
}

#[test]
fn prover_can_run_another_cycle_after_reset_or_proof() {
    let mut prover = FriProver::new(FriOptions::new(4, 8));
    let mut channel = TestChannel::new(elems(&[3]));
    prover.build_layers(&mut channel, ascending(16));
    prover.reset();
    assert_eq!(prover.num_layers(), 0);
    prover.build_layers(&mut channel, ascending(64));
    assert_eq!(prover.num_layers(), 3);
    let proof = prover.build_proof(&vec![1]);
    assert_eq!(proof.layers.len(), 2);
    assert_eq!(prover.num_layers(), 0);
}

#[test]
fn single_row_remainder_commits_its_row_hash_as_root() {
    // 16 values folding by 4 leave a 4-value remainder: one row, whose hash
    // stands as the committed root of the remainder layer
    let mut prover = FriProver::new(FriOptions::new(4, 8));
    let mut channel = TestChannel::new(elems(&[77]));
    let c = BaseElement::new(9);
    prover.build_layers(&mut channel, vec![c; 16]);
    assert_eq!(prover.layers[1].evaluations, vec![c; 4]);
    let expected = Blake3_256::<BaseElement>::hash_elements(&[c; 4]).as_bytes();
    assert_eq!(channel.roots[1], expected);
    assert_eq!(prover.layer_commitment(1), expected);
}

#[test]
fn end_to_end_with_folding_factor_8() {
    let mut prover = FriProver::new(FriOptions::new(8, 8));
    let mut channel = TestChannel::new(elems(&[13]));
    prover.build_layers(&mut channel, ascending(64));
    assert_eq!(prover.num_layers(), 2);
    assert_eq!(prover.layers[0].evaluations.len(), 64);
    assert_eq!(prover.layers[1].evaluations.len(), 8);
    let proof = prover.build_proof(&vec![0, 8, 17, 63]);
    assert_eq!(proof.layers.len(), 1);
    assert_eq!(proof.folding_factor, 8);
    // positions fold modulo 8 to rows 0, 1, 7
    assert_eq!(proof.layers[0].values.len(), 3);
    assert_eq!(proof.remainder.len(), 8);
}

#[test]
fn query_positions_fold_directly_into_each_layer() {
    // over three layers (256, 64, 16), the rows opened at depth i are the
    // original positions reduced modulo that layer's row count
    let mut prover = FriProver::new(FriOptions::new(4, 16));
    let mut channel = TestChannel::new(elems(&[21]));
    prover.build_layers(&mut channel, ascending(256));
    let proof = prover.build_proof(&vec![0, 64, 65, 130]);
    assert_eq!(proof.layers.len(), 2);
    // depth 0: positions mod 64 give rows 0, 1, 2; depth 1: mod 16, the same
    assert_eq!(proof.layers[0].values.len(), 3);
    assert_eq!(proof.layers[1].values.len(), 3);
    assert_eq!(proof.remainder.len(), 16);
}

#[test]
fn domain_offset_is_the_field_generator() {
    let prover = FriProver::new(FriOptions::new(8, 32));
    assert_eq!(prover.folding_factor(), 8);
    assert_eq!(prover.domain_offset(), BaseElement::GENERATOR);
}
