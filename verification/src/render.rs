//! Choice of the rendering backend.
use vstd::prelude::*;

verus! {

/// Where tails are rendered.
#[derive(Debug, Clone, Copy, PartialEq, Eq, Structural)]
pub enum RenderBackend {
    Cpu,
}

/// The backend to render with: the CPU (GPU rendering is not available).
pub fn detect_gpu_backend() -> (b: RenderBackend)
    ensures
        b == RenderBackend::Cpu,
{
    RenderBackend::Cpu
}

} // verus!
