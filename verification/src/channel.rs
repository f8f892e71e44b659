//! The transcript collaborator that the commit phase talks to.

use vstd::prelude::*;
use winter_math::fields::f64::BaseElement;

verus! {

/// A Fiat-Shamir transcript as the prover sees it: it absorbs layer
/// commitments and emits pseudo-random challenges.
///
/// Implementations are supplied by the surrounding protocol. Nothing can be
/// promised of the challenges an implementation returns; soundness rests on
/// the commit phase calling `draw_fri_alpha` only after the corresponding
/// `commit_fri_layer`, which the prover's code does.
pub trait ProverChannel {
    /// Absorbs the root of one committed layer into the transcript state.
    fn commit_fri_layer(&mut self, layer_root: [u8; 32]);

    /// Derives the next pseudo-random challenge from the transcript state;
    /// called only after the commitment it challenges has been absorbed.
    fn draw_fri_alpha(&mut self) -> BaseElement;
}

} // verus!
