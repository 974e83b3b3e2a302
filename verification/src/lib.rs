//! Random linear network coding over the Ristretto prime-order group,
//! with Pedersen-style homomorphic vector commitments.
//!
//! A source splits a byte block into `K` chunks, encodes each chunk as a
//! vector of prime-field scalars, and commits to each chunk. Forwarders
//! emit random linear combinations of the chunks they hold; every message
//! carries its combination coefficients and the source's commitment
//! vector, so any receiver can check that the payload really is the
//! claimed combination of the original chunks. A receiver tracks linear
//! independence of the accepted coefficient rows with an incremental row
//! reducer and decodes once it holds a full-rank system.

use vstd::prelude::*;

pub mod field;
pub mod linalg;
pub mod blocks;
pub mod matrix;
pub mod node;

verus! {

/// The error kinds the library reports outside of `Node::receive`.
#[derive(Clone, Copy, Debug, PartialEq, Eq, Structural)]
pub enum CodingError {
    /// A byte input whose length is not divisible by the required modulus.
    InvalidLength,
    /// More scalars offered to a committer than it has generators.
    InputTooLong,
    /// A scalar group on decode that is too short to carry data and tail bits.
    MalformedChunk,
    /// A message whose homomorphic check fails or whose shape does not
    /// fit the session.
    InvalidMessage,
    /// A send from a node that holds no chunks yet.
    Empty,
    /// A decode attempted before the system has full rank.
    Underdetermined,
}

} // verus!
