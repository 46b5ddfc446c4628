//! A batch runner that owns its backend.

use crate::compute::{is_best, shuffle_at, Backend, BatchResult, ComputeError};
use vstd::prelude::*;

verus! {

/// A backend that has been set up.
pub struct GpuContext(Backend);

impl GpuContext {
    /// The backend that runs the batches.
    pub closed spec fn backend(&self) -> Backend {
        self.0
    }

    /// Sets up the default backend.
    pub fn new() -> (r: Result<Self, ComputeError>)
        ensures
            r matches Ok(g) && g.backend() == Backend::Cpu,
    {
        match Backend::new_default() {
            Ok(backend) => Ok(GpuContext(backend)),
            Err(e) => Err(e),
        }
    }

    /// The best shuffle in `base_index .. base_index + count`.
    pub fn run_batch(&mut self, seed: u64, base_index: u64, count: u32) -> (r: Result<
        BatchResult,
        ComputeError,
    >)
        requires
            base_index + count <= u64::MAX + 1,
        ensures
            *final(self) == *old(self),
            r matches Ok(b) && is_best(seed, base_index, count as int, b.best_correct, b.best_index)
                && b.best_arr@ == shuffle_at(seed, b.best_index),
    {
        self.0.run_batch(seed, base_index, count)
    }
}

} // verus!
