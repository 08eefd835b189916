//! The ways in which reconstructing a secret can fail.

use vstd::prelude::*;

verus! {

/// The kind of a failure.
#[derive(Clone, Copy, Debug, PartialEq, Eq, Structural)]
pub enum ShareError {
    /// A line does not have the shape `K=W=S=VALUES=`.
    MalformedLine,
    /// The values of a line are not hexadecimal digits in pairs.
    InvalidHex,
    /// The field width is not one of 4, 8, 16 and 32, or no field of that width can be built.
    UnsupportedFieldWidth,
    /// The quorum lies outside `1 ..= 2^(W-1)`.
    BadQuorum,
    /// The share index lies outside `1 ..= 2^(W-1)`.
    BadShareIndex,
    /// A share disagrees with the first one in width, quorum or length.
    InconsistentShare,
    /// A share carries the index of a share that is already held.
    DuplicateShareIndex,
    /// The input ended before a quorum of shares was held.
    QuorumInsufficient,
    /// A field element was divided by zero.
    DivisionByZero,
    /// A Lagrange coefficient came out as zero.
    LinearIndependenceViolation,
}

} // verus!
