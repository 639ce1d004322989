//! The device that runs the engines, and the parallel map that the batch
//! operations hand their samples to.

use rayon::iter::{IntoParallelIterator, ParallelIterator};
use vstd::prelude::*;

pub mod adjoint;
pub mod convolution;
pub mod pooling;

verus! {

/// The device that computes on the processor, in ordinary memory.
#[derive(Clone, Copy, Debug)]
pub struct DeviceCpu;

impl DeviceCpu {
    /// The device.
    pub fn new() -> (r: Self)
        ensures
            r == DeviceCpu,
    {
        DeviceCpu
    }
}

/// Applies `f` to each index below `n`, the calls shared out among rayon's
/// workers, and gathers what they return in index order.
///
/// This is rayon's `into_par_iter().map(f).collect()` on the range `0..n`:
/// `map` calls `f` once on each item, and collecting an indexed parallel
/// iterator into a `Vec` keeps the items in their order.
#[verifier::external_body]
pub(crate) fn par_map<R: Send, F: Fn(usize) -> R + Sync + Send>(n: usize, f: F) -> (r: Vec<R>)
    requires
        forall|i: usize| i < n ==> call_requires(f, (i,)),
    ensures
        r@.len() == n,
        forall|i: int| 0 <= i < n ==> call_ensures(f, (i as usize,), #[trigger] r@[i]),
{
    (0..n).into_par_iter().map(f).collect()
}

} // verus!
