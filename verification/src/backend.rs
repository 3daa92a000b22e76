//! The compute backends that matrix products can run on.
use vstd::prelude::*;

verus! {

#[derive(Debug, Clone, Copy, PartialEq, Eq, Structural)]
pub enum Backend {
    Cpu,
    Metal,
}

impl Backend {
    /// The backend's display name.
    pub fn name(&self) -> (s: &'static str)
        ensures
            *self == Backend::Cpu ==> s@ == "CPU"@,
            *self == Backend::Metal ==> s@ == "Metal (GPU)"@,
    {
        match self {
            Backend::Cpu => "CPU",
            Backend::Metal => "Metal (GPU)",
        }
    }
}

/// Whether a Metal GPU device is ready for matrix products. This build carries
/// no Metal backend, so none ever is.
pub fn is_available() -> (r: bool)
    ensures
        !r,
{
    false
}

/// The backend that matrix products run on: Metal where a device is available,
/// else the CPU.
pub fn active_backend() -> (b: Backend)
    ensures
        b == Backend::Cpu,
{
    if is_available() {
        Backend::Metal
    } else {
        Backend::Cpu
    }
}

} // verus!
