//! Run-length-encoded sequences of 32-bit signed integers.
//!
//! An [`IntRle`] stores a virtual array as runs: each run contributes `length`
//! consecutive copies of `value`. Two operations carry the weight of the crate:
//! [`IntRle::new`] builds the canonical (maximally compacted) encoding of a raw
//! run list, and [`IntRle::op_int`] applies a binary operator element-wise to two
//! encoded sequences by walking their runs, never expanding either operand.
//!
//! Run lengths, values and the size of the virtual array are all `i32`.
//!
//! * `model` holds the mathematical vocabulary of the contracts.
//! * `laws` holds the lemmas about that vocabulary, among them that the
//!   canonical encoding of an array is unique and that normalizing is idempotent.
//! * `int_rle` holds the executable type.
//! * `error` holds the reasons for which an operation refuses its input.

pub mod error;
pub mod int_rle;
pub mod laws;
pub mod model;

pub use crate::error::RleError;
pub use crate::int_rle::IntRle;
pub use crate::model::Run;
