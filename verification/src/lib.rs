//! An erasure-coded block storage engine: Reed-Solomon coding over GF(2^8),
//! with a diagonal chunk placement policy, incremental parity maintenance,
//! and recovery of destroyed devices.

pub mod file;
pub mod galois;
pub mod matrix;
pub mod raid;
pub mod single;

use vstd::prelude::*;

verus! {

/// The error kinds of the engine.
///
/// `TooManyLost` and `SingularMatrix` signal structural failures of a
/// recovery; `OutOfRange` reports a read beyond the highest slice written;
/// `SingularBasis` signals an inconsistent Reed-Solomon construction;
/// `Shutdown` reports that a peer has shut down.
#[derive(Debug, Clone, Copy, PartialEq, Eq, Structural)]
pub enum Error {
    /// Fewer than D devices are online at the start of a recovery.
    TooManyLost,
    /// Gaussian elimination exhausted pivots without reducing.
    SingularMatrix,
    /// The systematic Reed-Solomon construction failed.
    SingularBasis,
    /// Read of a slice beyond the highest slice seen.
    OutOfRange,
    /// A field division by zero was attempted.  The verified functions of
    /// this library prove the divisor nonzero, so they never produce it;
    /// it remains part of the engine's error vocabulary.
    DivideByZero,
    /// A storage fault other than a missing chunk.  The in-memory stores
    /// of this library cannot fault; it remains part of the engine's
    /// error vocabulary.
    IOError,
    /// A peer has shut down.
    Shutdown,
}

} // verus!
