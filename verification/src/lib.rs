//! Non-native elliptic-curve arithmetic for circuits.
//!
//! A curve whose coordinate field differs from a circuit's native field has to
//! be represented in limbs: each coordinate becomes a foreign-field integer, a
//! fixed number of range-checked limbs with a tracked overflow bound and
//! deferred modular reduction.  On top of that representation the crate builds
//! affine point addition, doubling and equality assertion, and windowed scalar
//! multiplication (single and batched multi-scalar) kept away from the
//! exceptional cases of the affine formulas by a randomized auxiliary offset
//! that is applied at the start and removed at the end.

use vstd::prelude::*;

pub mod field;
pub mod config;
pub mod integer;
pub mod curve;
pub mod point;
pub mod chip;

verus! {

/// How a circuit construction fails.  Any of these aborts the construction of
/// the circuit instance; there is no partial recovery.
#[derive(Clone, Copy, Debug, PartialEq, Eq, Structural)]
pub enum EccError {
    /// A limb or quotient witness exceeds its declared bit-width bound.
    RangeCheckFailure,
    /// An asserted equality or curve relation does not hold of the witnesses.
    UnsatisfiableConstraint,
    /// The sampled auxiliary generator is the identity or collides with a
    /// required offset; the caller must resample.
    DegenerateAuxiliary,
    /// A multiplication was invoked with a `(window_size, pair_count)` pair
    /// for which no auxiliary correction was assigned.
    AuxConfigurationMismatch,
}

} // verus!
