//! Prover side of a FRI (Fast Reed-Solomon IOP of Proximity) protocol.
//!
//! The commit phase repeatedly transposes an evaluation vector into rows of
//! `folding_factor` elements, commits the hashed rows into a Merkle tree,
//! draws a challenge from the transcript and folds the evaluations via a
//! degree-respecting projection. The query phase folds caller-supplied
//! positions layer by layer and extracts authenticated openings, then emits
//! the final remainder in natural order.

pub mod channel;
pub mod field;
pub mod folding;
pub mod fri_proof;
pub mod merkle;
pub mod nums;
pub mod options;
pub mod positions;
pub mod prover;

pub use channel::ProverChannel;
pub use options::FriOptions;
pub use fri_proof::{FriProof, FriProofLayer};
pub use prover::{FriLayer, FriProver};
