//! The errors of the engine.

use vstd::prelude::*;

verus! {

/// A buffer or a declared extent held `.0` cells where `.1` were needed.
#[derive(Clone, Copy, Debug, PartialEq, Eq, Structural)]
pub struct SizeMismatchError(pub usize, pub usize);

/// Why an operation of the engine gave no tensor.
#[derive(Clone, Copy, Debug, PartialEq, Eq, Structural)]
pub enum TensorError {
    /// A length did not match the shape that a type declares.
    SizeMismatch(SizeMismatchError),
    /// The window does not tile the padded image: the kernel is larger than
    /// the padded image, the stride is zero or does not divide what the
    /// kernel leaves over, or the padded extent is more than the index type
    /// can hold.
    UnimplementedConfiguration,
}

} // verus!
