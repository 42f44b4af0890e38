//! Threshold cryptography engine for a distributed secret-management service.
//!
//! `n` mutually distrusting participants jointly generate group key pairs,
//! jointly encrypt and decrypt document-key group elements under a shared
//! public key, and jointly produce ECDSA-style signatures, without any
//! coalition smaller than the threshold ever holding the combined private
//! key.  The group is a fixed prime-order multiplicative group (written
//! multiplicatively: the joint public key is `G^s`), and every protocol
//! computation on scalars and group elements is carried out and verified
//! here.  The group is a small model group — the subgroup of squares
//! modulo a safe prime — chosen so that every protocol law is provable
//! outright; its wire values interoperate only with this library, not
//! with any standardized curve.

use vstd::prelude::*;

pub mod arith;
pub mod group;
pub mod polynomial;
pub mod interp;
pub mod dkg;
pub mod codec;
pub mod signer;
pub mod rng;

verus! {

/// Protocol-level failure kinds.
#[derive(Clone, Copy, Debug, PartialEq, Eq, Structural)]
pub enum Error {
    /// A scalar was zero or out of range where a nonzero field element is required.
    InvalidScalar,
    /// A received share does not match the dealer's published commitments.
    VerificationFailed,
    /// Fewer participants than the quorum a round needs.
    InsufficientParticipants,
    /// A signature intermediate (`r`, `s`, or the revealed nonce product) reduced to zero
    /// and the retry budget is exhausted.
    DegenerateSignature,
    /// The two key-generation runs of one signing ceremony used different identifier sets.
    IdentifierMismatch,
}

} // verus!
