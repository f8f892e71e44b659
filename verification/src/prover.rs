//! The FRI prover: the commit phase that folds an evaluation vector layer by
//! layer, and the query phase that produces authenticated openings plus the
//! final remainder.

use vstd::arithmetic::div_mod::{lemma_div_denominator, lemma_div_is_ordered, lemma_div_multiples_vanish};
use vstd::prelude::*;
use winter_math::fields::f64::BaseElement;

use crate::channel::ProverChannel;
use crate::field::{inv_twiddles_of, root_of_unity_of};
use crate::folding::{
    apply_drp, drp_spec, row_at, row_of, transpose, transpose_spec, untranspose, untranspose_spec,
};
use crate::merkle::{batch_proof_of, hash_of, hash_row, LayerCommitment};
use crate::nums::{
    lemma_div_mod_range, lemma_pow2_div, lemma_pow_lower, lemma_pow_pos, spec_is_pow2, spec_log2,
    spec_pow,
};
use crate::options::{lemma_num_layers_le, spec_num_layers, FriOptions};
use crate::positions::{canon_fold, fold_positions, lemma_refold, strictly_increasing};
use crate::fri_proof::{FriProof, FriProofLayer};

verus! {

/// The hash of each row of a transposed buffer, in row order.
pub open spec fn hashed_rows(t: Seq<BaseElement>, ff: nat) -> Seq<[u8; 32]> {
    Seq::new(t.len() / ff, |i: int| hash_of(row_of(t, ff, i)))
}

/// One committed round of folding: a commitment over the hashed rows, and
/// that round's evaluations kept in transposed order.
pub struct FriLayer {
    /// The commitment over the hashed rows of `evaluations`.
    pub commitment: LayerCommitment,
    /// The round's evaluations, in transposed order.
    pub evaluations: Vec<BaseElement>,
}

impl FriLayer {
    /// The layer is internally consistent: one committed leaf per stored row,
    /// each leaf the hash of its row, with a Merkle tree used precisely when
    /// there are at least two rows.
    pub open spec fn wf(self, ff: nat) -> bool {
        &&& 1 <= ff
        &&& self.evaluations@.len() % ff == 0
        &&& self.commitment.leaves() == hashed_rows(self.evaluations@, ff)
        &&& ((self.commitment is Tree) <==> self.evaluations@.len() / ff >= 2)
    }
}

/// Whether `folded` is the degree-respecting projection of the transposed
/// buffer `t` under the configured domain offset, for some challenge.
pub open spec fn is_drp_of(t: Seq<BaseElement>, folded: Seq<BaseElement>, opts: FriOptions) -> bool {
    exists|alpha: BaseElement|
        folded == #[trigger] drp_spec(
            t,
            opts.folding_factor as nat,
            inv_twiddles_of(opts.folding_factor),
            opts.domain_offset,
            root_of_unity_of(spec_log2(t.len()) as u32),
            alpha,
        )
}

/// Whether the transposed layer `next` is what committing one folding round
/// of the transposed layer `prev` stores: the projection of `prev` under some
/// challenge, reshaped into transposed order.
pub open spec fn is_folded_successor(
    prev: Seq<BaseElement>,
    next: Seq<BaseElement>,
    opts: FriOptions,
) -> bool {
    exists|alpha: BaseElement|
        next == transpose_spec(
            #[trigger] drp_spec(
                prev,
                opts.folding_factor as nat,
                inv_twiddles_of(opts.folding_factor),
                opts.domain_offset,
                root_of_unity_of(spec_log2(prev.len()) as u32),
                alpha,
            ),
            opts.folding_factor as nat,
        )
}

/// The row-index sequences that the query phase opens, layer by layer:
/// position set `i` is the original position set folded down `i + 1` times.
pub open spec fn spec_query_positions(
    init: Seq<usize>,
    layers: Seq<FriLayer>,
    ff: nat,
    i: int,
) -> Seq<usize>
    decreases i,
{
    if i <= 0 {
        canon_fold(init, (layers[0].evaluations@.len() / ff) as usize)
    } else {
        canon_fold(
            spec_query_positions(init, layers, ff, i - 1),
            (layers[i].evaluations@.len() / ff) as usize,
        )
    }
}

/// The row positions opened at depth `i` come straight from the original
/// positions: iterated folding down the layer chain equals one folding of
/// the original position set into layer `i`'s row count. With the layer
/// sizes of the commit phase, that row count is the original domain size
/// divided by `folding_factor^(i + 1)`.
pub proof fn lemma_query_positions_one_shot(
    init: Seq<usize>,
    layers: Seq<FriLayer>,
    ff: nat,
    i: int,
)
    requires
        spec_is_pow2(ff),
        0 <= i < layers.len(),
        forall|j: int|
            0 <= j < layers.len() ==> spec_is_pow2((#[trigger] layers[j]).evaluations@.len()),
        forall|j: int|
            0 <= j < layers.len() ==> ff <= (#[trigger] layers[j]).evaluations@.len()
                <= usize::MAX,
        forall|j: int|
            0 <= j < layers.len() - 1 ==> (#[trigger] layers[j]).evaluations@.len() / ff
                == layers[j + 1].evaluations@.len(),
    ensures
        spec_query_positions(init, layers, ff, i) == canon_fold(
            init,
            (layers[i].evaluations@.len() / ff) as usize,
        ),
    decreases i,
{
    if i > 0 {
        lemma_query_positions_one_shot(init, layers, ff, i - 1);
        let lprev = layers[i - 1].evaluations@.len();
        let lcur = layers[i].evaluations@.len();
        lemma_pow2_div(lprev, ff);
        assert(lcur == lprev / ff);
        lemma_pow2_div(lcur, ff);
        // layer i - 1's row count is a multiple of layer i's row count
        lemma_pow2_div(lcur, lcur / ff);
        let t0 = (lprev / ff) as usize;
        let t1 = (lcur / ff) as usize;
        assert(t0 as nat == lcur && t1 as nat == lcur / ff);
        assert(t0 % t1 == 0 && 1 <= t1 <= t0);
        lemma_refold(init, t0, t1);
    }
}

/// The FRI prover: the configured options plus the layers committed by the
/// cycle in flight (empty when idle).
pub struct FriProver {
    /// The protocol configuration.
    pub options: FriOptions,
    /// The committed layers, in commit order; empty when idle.
    pub layers: Vec<FriLayer>,
}

impl FriProver {
    /// The prover's invariant: valid options, every stored layer internally
    /// consistent, and the layer sizes forming the folding chain — each
    /// non-remainder layer larger than the remainder bound and exactly
    /// `folding_factor` times its successor, the last layer within the bound.
    pub open spec fn wf(self) -> bool {
        let ff = self.options.folding_factor as nat;
        let mr = self.options.max_remainder_size as nat;
        &&& self.options.wf()
        &&& forall|i: int|
            0 <= i < self.layers@.len() ==> (#[trigger] self.layers@[i]).wf(ff)
        &&& forall|i: int|
            0 <= i < self.layers@.len() ==> spec_is_pow2(
                (#[trigger] self.layers@[i]).evaluations@.len(),
            )
        &&& forall|i: int|
            0 <= i < self.layers@.len() ==> ff <= (#[trigger] self.layers@[i]).evaluations@.len()
                <= 0x1_0000_0000
        &&& forall|i: int|
            0 <= i < self.layers@.len() - 1 ==> (#[trigger] self.layers@[i]).evaluations@.len() > mr
        &&& forall|i: int|
            0 <= i < self.layers@.len() - 1 ==> (#[trigger] self.layers@[i]).evaluations@.len()
                / ff == self.layers@[i + 1].evaluations@.len()
        &&& (self.layers@.len() > 0 ==> self.layers@.last().evaluations@.len() <= mr)
    }

    /// Returns a new FRI prover instantiated with the provided options.
    pub fn new(options: FriOptions) -> (r: FriProver)
        ensures
            r.options == options,
            r.layers@.len() == 0,
            options.wf() ==> r.wf(),
    {
        FriProver { options, layers: Vec::new() }
    }

    /// Returns the folding factor for this prover.
    pub fn folding_factor(&self) -> (r: usize)
        ensures
            r == self.options.folding_factor,
    {
        self.options.folding_factor()
    }

    /// Returns the offset of the domain over which the protocol is executed.
    pub fn domain_offset(&self) -> (r: BaseElement)
        ensures
            r == self.options.domain_offset,
    {
        self.options.domain_offset()
    }

    /// Returns the number of layers computed during the last execution of the
    /// commit phase.
    pub fn num_layers(&self) -> (r: usize)
        ensures
            r == self.layers@.len(),
    {
        self.layers.len()
    }

    /// Returns the committed root of the layer at `idx`.
    pub fn layer_commitment(&self, idx: usize) -> (r: [u8; 32])
        requires
            idx < self.layers@.len(),
        ensures
            r == self.layers@[idx as int].commitment.spec_root(),
    {
        self.layers[idx].commitment.root()
    }

    /// Clears the internally stored layers, returning the prover to idle.
    pub fn reset(&mut self)
        ensures
            final(self).options == old(self).options,
            final(self).layers@.len() == 0,
    {
        self.layers = Vec::new();
    }

    /// Executes the commit phase: each round transposes the current
    /// evaluations into rows of `folding_factor` elements, commits the hashed
    /// rows, draws a challenge strictly after the commitment, and folds the
    /// evaluations with the degree-respecting projection; one layer is stored
    /// per round, the remainder round included. The number of rounds is
    /// `num_fri_layers(evaluations.len()) + 1`, so the final layer fits the
    /// remainder bound.
    ///
    /// Starting a commit phase while layers from a prior cycle are still held
    /// is a caller error, excluded by precondition.
    #[verifier::rlimit(100)]
    #[verifier::spinoff_prover]
    pub fn build_layers<C: ProverChannel>(
        &mut self,
        channel: &mut C,
        evaluations: Vec<BaseElement>,
    )
        requires
            old(self).wf(),
            old(self).layers@.len() == 0,
            spec_is_pow2(evaluations@.len()),
            evaluations@.len() <= 0x1_0000_0000,
            evaluations@.len() >= spec_pow(
                old(self).options.folding_factor as nat,
                spec_num_layers(
                    evaluations@.len(),
                    old(self).options.folding_factor as nat,
                    old(self).options.max_remainder_size as nat,
                ) + 1,
            ),
        ensures
            final(self).wf(),
            final(self).options == old(self).options,
            final(self).layers@.len() == spec_num_layers(
                evaluations@.len(),
                old(self).options.folding_factor as nat,
                old(self).options.max_remainder_size as nat,
            ) + 1,
            forall|i: int|
                0 <= i < final(self).layers@.len() ==> (#[trigger] final(self).layers@[i]).evaluations@.len() == evaluations@.len() / spec_pow(
                    old(self).options.folding_factor as nat,
                    i as nat,
                ),
            final(self).layers@[0].evaluations@ == transpose_spec(
                evaluations@,
                old(self).options.folding_factor as nat,
            ),
            final(self).layers@.last().evaluations@.len()
                <= old(self).options.max_remainder_size,
            final(self).layers@.last().evaluations@.len() % (
            old(self).options.folding_factor as nat) == 0,
            forall|i: int|
                1 <= i < final(self).layers@.len() ==> is_folded_successor(
                    final(self).layers@[i - 1].evaluations@,
                    (#[trigger] final(self).layers@[i]).evaluations@,
                    old(self).options,
                ),
    {
        let ff = self.options.folding_factor();
        let ghost ffn = ff as nat;
        let ghost mr = self.options.max_remainder_size as nat;
        let ghost l0 = evaluations@.len();
        let num = self.options.num_fri_layers(evaluations.len());
        let ghost numn = num as nat;
        let mut evals = evaluations;
        let mut k: usize = 0;
        proof {
            assert(spec_pow(ffn, 0) == 1);
            lemma_div_multiples_vanish(l0 as int, 1);
            assert(l0 / 1 == l0);
            lemma_num_layers_le(l0, ffn, mr);
            lemma_pow_lower(ffn, numn + 1);
            assert(num + 1 <= l0);
            assert(spec_is_pow2(ffn)) by {
                reveal_with_fuel(spec_is_pow2, 6);
            }
        }
        while k < num + 1
            invariant
                self.options == old(self).options,
                self.options.wf(),
                ff == self.options.folding_factor,
                ffn == ff as nat,
                mr == self.options.max_remainder_size as nat,
                numn == spec_num_layers(l0, ffn, mr),
                num as nat == numn,
                num + 1 <= l0,
                spec_is_pow2(ffn),
                l0 == evaluations@.len(),
                spec_is_pow2(l0),
                l0 <= 0x1_0000_0000,
                l0 <= usize::MAX,
                k <= num + 1,
                self.layers@.len() == k,
                evals@.len() == l0 / spec_pow(ffn, k as nat),
                k == 0 ==> evals@ == evaluations@,
                spec_is_pow2(evals@.len()),
                evals@.len() <= 0x1_0000_0000,
                evals@.len() >= spec_pow(ffn, (num + 1 - k) as nat),
                k <= num ==> spec_num_layers(evals@.len(), ffn, mr) == numn - k,
                forall|i: int| 0 <= i < k ==> (#[trigger] self.layers@[i]).wf(ffn),
                forall|i: int|
                    0 <= i < k ==> spec_is_pow2(
                        (#[trigger] self.layers@[i]).evaluations@.len(),
                    ),
                forall|i: int|
                    0 <= i < k ==> (#[trigger] self.layers@[i]).evaluations@.len() == l0
                        / spec_pow(ffn, i as nat),
                forall|i: int|
                    0 <= i < k ==> ffn <= (#[trigger] self.layers@[i]).evaluations@.len()
                        <= 0x1_0000_0000,
                forall|i: int|
                    0 <= i < k ==> spec_num_layers(
                        (#[trigger] self.layers@[i]).evaluations@.len(),
                        ffn,
                        mr,
                    ) == numn - i,
                k > 0 ==> self.layers@[0].evaluations@ == transpose_spec(evaluations@, ffn),
                k > 0 ==> is_drp_of(self.layers@[k - 1].evaluations@, evals@, self.options),
                forall|i: int|
                    1 <= i < k ==> is_folded_successor(
                        self.layers@[i - 1].evaluations@,
                        (#[trigger] self.layers@[i]).evaluations@,
                        self.options,
                    ),
            decreases num + 1 - k,
        {
            proof {
                lemma_pow_lower(ffn, (num + 1 - k) as nat);
                assert(ffn <= evals@.len());
            }
            let ghost pre_len = evals@.len();
            let ghost pre_evals = evals@;
            let ghost pre_layers = self.layers@;
            evals = self.build_layer(channel, evals);
            proof {
                assert forall|i: int| 0 <= i < k implies self.layers@[i] == pre_layers[i] by {
                    assert(self.layers@.drop_last()[i] == pre_layers[i]);
                }
                assert(self.layers@[k as int] == self.layers@.last());
                assert(self.layers@.last().wf(ffn));
                assert(self.layers@.last().evaluations@ == transpose_spec(pre_evals, ffn));
                assert(self.layers@.last().evaluations@.len() == pre_len);
                assert(spec_is_pow2(self.layers@.last().evaluations@.len()));
                // the new layer keeps the folding chain going
                lemma_pow_pos(ffn, k as nat);
                lemma_div_denominator(l0 as int, spec_pow(ffn, k as nat) as int, ff as int);
                assert(spec_pow(ffn, (k + 1) as nat) == ffn * spec_pow(ffn, k as nat));
                assert(spec_pow(ffn, k as nat) as int * ff as int == spec_pow(
                    ffn,
                    (k + 1) as nat,
                ) as int) by (nonlinear_arith)
                    requires
                        spec_pow(ffn, (k + 1) as nat) == ffn * spec_pow(ffn, k as nat),
                        ffn == ff as nat,
                ;
                assert(evals@.len() == l0 / spec_pow(ffn, (k + 1) as nat));
                lemma_pow2_div(pre_len, ffn);
                // the folded vector still covers the remaining rounds
                assert(spec_pow(ffn, (num + 1 - k) as nat) == ffn * spec_pow(
                    ffn,
                    (num - k) as nat,
                ));
                lemma_div_is_ordered(
                    spec_pow(ffn, (num + 1 - k) as nat) as int,
                    pre_len as int,
                    ff as int,
                );
                lemma_div_multiples_vanish(spec_pow(ffn, (num - k) as nat) as int, ff as int);
                assert(evals@.len() >= spec_pow(ffn, (num - k) as nat));
                if k > 0 {
                    // the layer just pushed is the fold of its predecessor
                    let a = choose|a: BaseElement|
                        pre_evals == #[trigger] drp_spec(
                            pre_layers[k - 1].evaluations@,
                            self.options.folding_factor as nat,
                            inv_twiddles_of(self.options.folding_factor),
                            self.options.domain_offset,
                            root_of_unity_of(
                                spec_log2(pre_layers[k - 1].evaluations@.len()) as u32,
                            ),
                            a,
                        );
                    assert(self.layers@[k - 1] == pre_layers[k - 1]);
                    assert(self.layers@[k as int].evaluations@ == transpose_spec(
                        drp_spec(
                            self.layers@[k - 1].evaluations@,
                            self.options.folding_factor as nat,
                            inv_twiddles_of(self.options.folding_factor),
                            self.options.domain_offset,
                            root_of_unity_of(
                                spec_log2(self.layers@[k - 1].evaluations@.len()) as u32,
                            ),
                            a,
                        ),
                        ffn,
                    ));
                    assert(is_folded_successor(
                        self.layers@[k - 1].evaluations@,
                        self.layers@[k as int].evaluations@,
                        self.options,
                    ));
                }
                assert forall|i: int| 1 <= i < k + 1 implies is_folded_successor(
                    self.layers@[i - 1].evaluations@,
                    (#[trigger] self.layers@[i]).evaluations@,
                    self.options,
                ) by {
                    if i < k {
                        assert(self.layers@[i] == pre_layers[i]);
                        assert(self.layers@[i - 1] == pre_layers[i - 1]);
                        assert(is_folded_successor(
                            pre_layers[i - 1].evaluations@,
                            pre_layers[i].evaluations@,
                            self.options,
                        ));
                    }
                }
                assert forall|i: int| 0 <= i < k + 1 implies (#[trigger] self.layers@[i]).wf(ffn)
                    && spec_is_pow2(self.layers@[i].evaluations@.len())
                    && self.layers@[i].evaluations@.len() == l0 / spec_pow(ffn, i as nat)
                    && ffn <= self.layers@[i].evaluations@.len() <= 0x1_0000_0000
                    && spec_num_layers(self.layers@[i].evaluations@.len(), ffn, mr) == numn
                    - i by {
                    if i < k {
                        assert(self.layers@[i] == pre_layers[i]);
                        assert(pre_layers[i].wf(ffn));
                        assert(spec_is_pow2(pre_layers[i].evaluations@.len()));
                        assert(pre_layers[i].evaluations@.len() == l0 / spec_pow(ffn, i as nat));
                        assert(ffn <= pre_layers[i].evaluations@.len() <= 0x1_0000_0000);
                        assert(spec_num_layers(pre_layers[i].evaluations@.len(), ffn, mr) == numn
                            - i);
                    } else {
                        assert(self.layers@[i] == self.layers@.last());
                        assert(self.layers@[i].evaluations@.len() == pre_len);
                    }
                }
            }
            k = k + 1;
        }
        proof {
            // the last layer is within the remainder bound and a whole number
            // of rows
            assert(spec_num_layers(self.layers@.last().evaluations@.len(), ffn, mr) == 0);
            assert(self.layers@.last().evaluations@.len() <= mr);
            // non-remainder layers stay above the bound, and each layer is
            // folding_factor times its successor
            assert forall|i: int| 0 <= i < self.layers@.len() - 1 implies (#[trigger] self
                .layers@[i]).evaluations@.len() > mr && self.layers@[i].evaluations@.len() / ffn
                == self.layers@[i + 1].evaluations@.len() by {
                assert(spec_num_layers(self.layers@[i].evaluations@.len(), ffn, mr) == numn - i);
                let li = self.layers@[i].evaluations@.len();
                lemma_pow_pos(ffn, i as nat);
                lemma_div_denominator(l0 as int, spec_pow(ffn, i as nat) as int, ff as int);
                assert(spec_pow(ffn, (i + 1) as nat) == ffn * spec_pow(ffn, i as nat));
                assert(spec_pow(ffn, i as nat) as int * ff as int == spec_pow(
                    ffn,
                    (i + 1) as nat,
                ) as int) by (nonlinear_arith)
                    requires
                        spec_pow(ffn, (i + 1) as nat) == ffn * spec_pow(ffn, i as nat),
                        ffn == ff as nat,
                ;
            }
        }
    }

    /// Builds one layer: commits to the transposed evaluations, draws the
    /// round's challenge, and returns the folded evaluation vector.
    fn build_layer<C: ProverChannel>(
        &mut self,
        channel: &mut C,
        evaluations: Vec<BaseElement>,
    ) -> (folded: Vec<BaseElement>)
        requires
            old(self).options.wf(),
            spec_is_pow2(evaluations@.len()),
            old(self).options.folding_factor as nat <= evaluations@.len(),
            evaluations@.len() <= 0x1_0000_0000,
        ensures
            final(self).options == old(self).options,
            final(self).layers@.len() == old(self).layers@.len() + 1,
            final(self).layers@.drop_last() == old(self).layers@,
            final(self).layers@.last().evaluations@ == transpose_spec(
                evaluations@,
                old(self).options.folding_factor as nat,
            ),
            final(self).layers@.last().wf(old(self).options.folding_factor as nat),
            is_drp_of(final(self).layers@.last().evaluations@, folded@, old(self).options),
            folded@.len() == evaluations@.len() / (old(self).options.folding_factor as nat),
    {
        let ff = self.options.folding_factor();
        let ghost ffn = ff as nat;
        proof {
            assert(spec_is_pow2(ffn)) by {
                reveal_with_fuel(spec_is_pow2, 6);
            }
            lemma_pow2_div(evaluations@.len(), ffn);
        }
        let transposed = transpose(&evaluations, ff);
        let rows = transposed.len() / ff;
        let mut leaves: Vec<[u8; 32]> = Vec::new();
        let mut i: usize = 0;
        while i < rows
            invariant
                1 <= ff,
                rows == transposed@.len() / ff as nat,
                rows as int * ff as int == transposed@.len(),
                transposed@.len() <= usize::MAX,
                i <= rows,
                leaves@.len() == i,
                forall|q: int|
                    0 <= q < i ==> leaves@[q] == hash_of(row_of(transposed@, ff as nat, q)),
            decreases rows - i,
        {
            proof {
                assert((i as int + 1) * (ff as int) <= transposed@.len()) by (nonlinear_arith)
                    requires
                        i < rows,
                        rows as int * ff as int == transposed@.len(),
                        1 <= ff,
                ;
            }
            let row = row_at(&transposed, ff, i);
            leaves.push(hash_row(&row));
            i = i + 1;
        }
        proof {
            assert(leaves@ =~= hashed_rows(transposed@, ffn));
        }
        let commitment = LayerCommitment::commit(&leaves);
        channel.commit_fri_layer(commitment.root());
        let alpha = channel.draw_fri_alpha();
        let folded = apply_drp(&transposed, ff, self.options.domain_offset(), alpha);
        let ghost pre_layers = self.layers@;
        self.layers.push(FriLayer { commitment, evaluations: transposed });
        proof {
            assert(self.layers@.drop_last() =~= pre_layers);
            assert(is_drp_of(self.layers@.last().evaluations@, folded@, self.options));
        }
        folded
    }

    /// Executes the query phase: folds the caller's positions down layer by
    /// layer, extracts one authenticated proof layer per non-remainder layer,
    /// un-transposes the remainder into natural order, and clears the stored
    /// layers so another cycle can start.
    ///
    /// Calling this before any commit phase has run is a caller error,
    /// excluded by precondition. The phase performs no new commitments and
    /// draws no new randomness.
    #[verifier::rlimit(100)]
    pub fn build_proof(&mut self, positions: &Vec<usize>) -> (r: FriProof)
        requires
            old(self).wf(),
            old(self).layers@.len() > 0,
            positions@.len() > 0,
            forall|i: int|
                0 <= i < positions@.len() ==> positions@[i] < old(self).layers@[0].evaluations@.len(),
        ensures
            final(self).options == old(self).options,
            final(self).layers@.len() == 0,
            r.folding_factor == old(self).options.folding_factor,
            r.remainder@ == untranspose_spec(
                old(self).layers@.last().evaluations@,
                old(self).options.folding_factor as nat,
            ),
            r.layers@.len() == old(self).layers@.len() - 1,
            forall|i: int|
                0 <= i < r.layers@.len() ==> {
                    let q = spec_query_positions(
                        positions@,
                        old(self).layers@,
                        old(self).options.folding_factor as nat,
                        i,
                    );
                    &&& (#[trigger] r.layers@[i]).values@.len() == q.len()
                    &&& forall|p: int|
                        0 <= p < q.len() ==> r.layers@[i].values@[p]@ == row_of(
                            old(self).layers@[i].evaluations@,
                            old(self).options.folding_factor as nat,
                            q[p] as int,
                        )
                    &&& r.layers@[i].auth_proof@ == batch_proof_of(
                        old(self).layers@[i].commitment->Tree_0,
                        q,
                    )
                },
    {
        let ff = self.options.folding_factor();
        let ghost ffn = ff as nat;
        let ghost mr = self.options.max_remainder_size as nat;
        let total = self.layers.len();

        // take a copy of the caller's positions to fold layer by layer
        let mut pos: Vec<usize> = Vec::new();
        let mut t: usize = 0;
        while t < positions.len()
            invariant
                t <= positions@.len(),
                pos@ == positions@.take(t as int),
            decreases positions@.len() - t,
        {
            proof {
                assert(positions@.take(t + 1) =~= positions@.take(t as int).push(
                    positions@[t as int],
                ));
            }
            pos.push(positions[t]);
            t = t + 1;
        }
        proof {
            assert(positions@.take(positions@.len() as int) =~= positions@);
        }

        proof {
            assert(spec_is_pow2(ffn)) by {
                reveal_with_fuel(spec_is_pow2, 6);
            }
        }
        let mut out_layers: Vec<FriProofLayer> = Vec::new();
        let mut domain_size = self.layers[0].evaluations.len();
        let mut i: usize = 0;
        while i < total - 1
            invariant
                self.options == old(self).options,
                self.layers@ == old(self).layers@,
                old(self).wf(),
                ff == self.options.folding_factor,
                ffn == ff as nat,
                mr == self.options.max_remainder_size as nat,
                total == self.layers@.len(),
                0 < total,
                spec_is_pow2(ffn),
                i <= total - 1,
                domain_size == self.layers@[i as int].evaluations@.len(),
                out_layers@.len() == i,
                pos@.len() > 0,
                forall|p: int| 0 <= p < pos@.len() ==> pos@[p] < domain_size,
                i == 0 ==> pos@ == positions@,
                i > 0 ==> pos@ == spec_query_positions(positions@, old(self).layers@, ffn, i - 1),
                forall|j: int|
                    0 <= j < i ==> {
                        let q = spec_query_positions(positions@, old(self).layers@, ffn, j);
                        &&& (#[trigger] out_layers@[j]).values@.len() == q.len()
                        &&& forall|p: int|
                            0 <= p < q.len() ==> out_layers@[j].values@[p]@ == row_of(
                                old(self).layers@[j].evaluations@,
                                ffn,
                                q[p] as int,
                            )
                        &&& out_layers@[j].auth_proof@ == batch_proof_of(
                            old(self).layers@[j].commitment->Tree_0,
                            q,
                        )
                    },
            decreases total - 1 - i,
        {
            proof {
                assert(self.layers@[i as int].wf(ffn));
                assert(ffn <= domain_size);
            }
            let folded = fold_positions(&pos, domain_size, ff);
            proof {
                assert(folded@ == spec_query_positions(positions@, old(self).layers@, ffn, i as int));
                // a non-remainder layer holds at least two rows, so its
                // commitment is a tree
                let li = self.layers@[i as int].evaluations@.len();
                lemma_pow2_div(li, ffn);
                if li / ffn < 2 {
                    assert((li / ffn) * ffn == li);
                    assert(li / ffn >= 1);
                    assert(li == ffn) by (nonlinear_arith)
                        requires
                            (li / ffn) * ffn == li,
                            1 <= li / ffn < 2,
                    ;
                    assert(li > mr);
                    assert(mr >= ffn);
                }
                assert(self.layers@[i as int].commitment is Tree);
            }
            let pl = query_layer(&self.layers[i], &folded, ff);
            out_layers.push(pl);
            pos = folded;
            proof {
                let li = self.layers@[i as int].evaluations@.len();
                assert(li / ffn == self.layers@[i as int + 1].evaluations@.len());
            }
            domain_size = domain_size / ff;
            i = i + 1;
        }

        // the last layer's values are the remainder, put back into natural
        // order
        proof {
            assert(self.layers@[total - 1].wf(ffn));
        }
        let remainder = untranspose(&self.layers[total - 1].evaluations, ff);
        self.layers = Vec::new();
        FriProof { layers: out_layers, remainder, folding_factor: ff }
    }
}

/// Builds a single proof layer by querying the evaluations of the passed-in
/// layer at the specified row positions: the full row of values for each
/// position, plus one batched authentication proof covering exactly those
/// rows.
pub fn query_layer(layer: &FriLayer, positions: &Vec<usize>, folding_factor: usize) -> (r:
    FriProofLayer)
    requires
        layer.wf(folding_factor as nat),
        layer.commitment is Tree,
        positions@.len() > 0,
        strictly_increasing(positions@),
        forall|i: int|
            0 <= i < positions@.len() ==> positions@[i] < layer.evaluations@.len() / (
            folding_factor as nat),
        layer.evaluations@.len() <= usize::MAX,
    ensures
        r.values@.len() == positions@.len(),
        forall|p: int|
            0 <= p < positions@.len() ==> (#[trigger] r.values@[p])@ == row_of(
                layer.evaluations@,
                folding_factor as nat,
                positions@[p] as int,
            ),
        r.auth_proof@ == batch_proof_of(layer.commitment->Tree_0, positions@),
{
    let ff = folding_factor;
    let auth_proof: Vec<u8> = match &layer.commitment {
        LayerCommitment::Tree(tree) => tree.prove_batch(positions),
        LayerCommitment::Single(_) => vstd::pervasive::unreached(),
    };
    let mut values: Vec<Vec<BaseElement>> = Vec::new();
    let mut j: usize = 0;
    while j < positions.len()
        invariant
            1 <= ff,
            j <= positions@.len(),
            values@.len() == j,
            layer.evaluations@.len() % ff as nat == 0,
            layer.evaluations@.len() <= usize::MAX,
            forall|p: int|
                0 <= p < positions@.len() ==> positions@[p] < layer.evaluations@.len() / (
                ff as nat),
            forall|p: int|
                0 <= p < j ==> (#[trigger] values@[p])@ == row_of(
                    layer.evaluations@,
                    ff as nat,
                    positions@[p] as int,
                ),
        decreases positions@.len() - j,
    {
        proof {
            let le = layer.evaluations@.len() as int;
            let ffi = ff as int;
            lemma_div_mod_range(le, ffi);
            assert((positions@[j as int] as int + 1) * ffi <= le) by (nonlinear_arith)
                requires
                    (positions@[j as int] as int) < le / ffi,
                    (le / ffi) * ffi + le % ffi == le,
                    le % ffi == 0,
                    1 <= ffi,
            ;
        }
        let row = row_at(&layer.evaluations, ff, positions[j]);
        values.push(row);
        j = j + 1;
    }
    FriProofLayer { values, auth_proof }
}

} // verus!
