//! A fixed-shape image-tensor engine: windowed patch extraction, 2D
//! convolution with both of its gradients, and 2D max pooling with its
//! gradient routing, over tensors whose shapes are part of their types.
//!
//! - [`collection`] holds the tensors: planes, stacks of planes, batches,
//!   kernels and patch matrices, with their views and walks.
//! - [`window`] is the geometry of sliding windows.
//! - [`reshape`] turns a plane into the matrix of its patches and a matrix of
//!   patches back into a plane.
//! - [`device`] holds the convolution and the max pooling engines, and the
//!   laws that tie each gradient to the output that it is the gradient of.
//! - [`scalar`] is the arithmetic that the engines need of a cell.
//!
//! Every function states what it returns over the mathematical contents of
//! its arguments. Two facts are taken on trust: what `core::mem::replace`
//! does, and that rayon's parallel map applies a function to each index and
//! keeps the order; everything else is proved.
//!
//! The shapes are const parameters; a set of parameters whose windows do not
//! tile the padded input is answered with
//! [`error::TensorError::UnimplementedConfiguration`] by every operation, and
//! can be asked about with [`assert_convolution`].

use vstd::prelude::*;

pub mod collection;
pub mod device;
pub mod error;
pub mod reshape;
pub mod scalar;
pub mod window;

verus! {

/// A type-level truth value: `Assert<true>` is the one that [`IsTrue`]. Its
/// one value carries nothing.
#[verifier::reject_recursive_types(CHECK)]
pub enum Assert<const CHECK: bool> {
    Stated,
}

/// Held by `Assert<true>` alone.
pub trait IsTrue {

}

impl IsTrue for Assert<true> {

}

/// Whether windows of `FH` rows and `FW` columns, with padding `PAD` and
/// stride `S`, tile a plane of `H` rows and `W` columns: on each axis the
/// padded extent is at least the window's, and the stride divides what is
/// left over.
pub fn assert_convolution<
    const H: usize,
    const W: usize,
    const FH: usize,
    const FW: usize,
    const PAD: usize,
    const S: usize,
>() -> (b: bool)
    ensures
        b == window::window_of(H, W, FH, FW, PAD, S).valid(),
{
    window::axis_ok(H, FH, PAD, S) && window::axis_ok(W, FW, PAD, S)
}

} // verus!
