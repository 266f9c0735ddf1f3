//! How many workers the work is split among.

use vstd::prelude::*;

verus! {

/// The number of logical processors that `num_cpus::get` reports for this
/// machine and process. The number depends on the machine, the scheduler's
/// affinity mask and the control group, so nothing is claimed of it.
#[verifier::external_body]
fn available_cpus() -> (n: usize) {
    num_cpus::get()
}

/// The number of workers for `detected` processors: one worker per
/// processor, at least one, and no more than the worker index can count.
pub open spec fn workers_for(detected: usize) -> u32 {
    if detected == 0 {
        1
    } else if detected > u32::MAX {
        u32::MAX
    } else {
        detected as u32
    }
}

/// The number of workers for `detected` processors.
pub fn clamp_workers(detected: usize) -> (workers: u32)
    ensures
        workers == workers_for(detected),
        workers >= 1,
{
    if detected == 0 {
        1
    } else if detected > u32::MAX as usize {
        u32::MAX
    } else {
        detected as u32
    }
}

/// The number of workers to split the work among on this machine: one per
/// logical processor, and never none.
pub fn worker_count() -> (workers: u32)
    ensures
        workers >= 1,
{
    clamp_workers(available_cpus())
}

} // verus!
