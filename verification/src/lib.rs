//! An authenticated, incrementally updatable binary hash tree.
//!
//! Arbitrary byte values are committed into a prime-field domain, kept in
//! index-addressed per-level arrays, and any single leaf can be proven present
//! under the root commitment by a short sibling path that a holder of the
//! proof can recheck without the tree.

use vstd::prelude::*;

pub mod hash;
pub mod merkle;

pub use hash::gen_poseidon_hash;
pub use hash::gen_poseidon_hash_by_fr;
pub use hash::FieldElement;
pub use merkle::MerkleTree;
pub use merkle::Proof;

verus! {

/// The failure kinds of the fallible operations.
#[derive(Clone, Copy, Debug, PartialEq, Eq, Structural)]
pub enum TreeError {
    /// `insert_leaf` was called with an index strictly greater than the
    /// current leaf count; leaves must stay contiguous.
    IndexOutOfRange,
    /// A byte could not be folded into the field. Defensive: unreachable for
    /// any digest byte in a correctly configured field, but never swallowed.
    HashEncoding,
    /// The compression permutation was handed an input count it does not
    /// support.
    InvalidArity,
}

} // verus!
