//! CPU-local helpers for the single-CPU configuration.
use vstd::prelude::*;

verus! {

/// Index of the CPU that runs the caller: always 0 in the single-CPU build.
pub fn cpu_this() -> (cpu: u8)
    ensures
        cpu == 0,
{
    0
}

} // verus!

verus! {

/// Guard of the data shared between CPUs; with a single CPU there is
/// nothing to guard beyond masking interrupts.
pub struct SmpProtection;

impl SmpProtection {
    pub fn new() -> (p: SmpProtection) {
        SmpProtection
    }
}

} // verus!
