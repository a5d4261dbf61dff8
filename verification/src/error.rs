//! The ways in which an operation of this crate can refuse its input.

use vstd::prelude::*;

verus! {

/// Why an operation refused its input. None of these is transient: the same
/// call on the same input fails again.
#[derive(Debug, Clone, Copy, PartialEq, Eq, Structural)]
pub enum RleError {
    /// A sequence was to be built from no runs at all.
    EmptyInput,
    /// Two sizes that must agree do not: the number of run lengths and of run
    /// values at construction, or the sizes of the arrays of two operands.
    LengthMismatch,
    /// A handle names no sequence, or one that is not in canonical form.
    InvalidHandle,
}

} // verus!
