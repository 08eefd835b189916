//! Reconstruction of a secret from a quorum of Shamir shares over the field GF(2^8).
//!
//! A share is a line of text `K=W=S=VALUES=`: the quorum, the field width in bits, the share
//! index and the values of the share in hexadecimal. A session takes shares until it holds a
//! quorum of them; two passes then recover the secret: the first computes the Lagrange
//! coefficients of the share indexes, the second the words of the secret.
//!
//! - [`gf256`]: the field and its laws.
//! - [`hexcodec`]: hexadecimal text to bytes.
//! - [`record`]: a line of text to a share record.
//! - [`decoder`]: the session and the two passes on it.
//! - [`lagrange`]: the coefficients and the recovery of words from them.
//! - [`interpolation`]: why interpolation at zero gives the secret back.
//! - [`combine`]: from the lines of the input to the secret.
//! - [`text`]: the same from lines with white space around them.
//! - [`error`]: the kinds of failure.

pub mod combine;
pub mod decoder;
pub mod error;
pub mod gf256;
pub mod hexcodec;
pub mod interpolation;
pub mod lagrange;
pub mod record;
pub mod text;
