//! The proof artifact the query phase emits.

use vstd::prelude::*;
use winter_math::fields::f64::BaseElement;

verus! {

/// The authenticated openings of one committed layer: for each queried row
/// position, the full row of `folding_factor` values, and one batched Merkle
/// authentication proof (serialized) covering exactly those rows.
pub struct FriProofLayer {
    /// The queried value groups, one row per folded position, in ascending
    /// position order.
    pub values: Vec<Vec<BaseElement>>,
    /// The serialized batched Merkle authentication proof for those rows.
    pub auth_proof: Vec<u8>,
}

/// A FRI proof: one proof layer per non-remainder layer in commit order, the
/// remainder evaluations in natural (un-transposed) order, and the folding
/// factor used, so a verifier can replay folding and Merkle checks on its
/// own.
pub struct FriProof {
    /// One authenticated opening per non-remainder layer, in commit order.
    pub layers: Vec<FriProofLayer>,
    /// The final layer's evaluations, in natural order.
    pub remainder: Vec<BaseElement>,
    /// The folding factor the layers were committed with.
    pub folding_factor: usize,
}

} // verus!
