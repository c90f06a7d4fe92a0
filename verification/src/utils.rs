//! Busy-wait pauses taken while a lock is contended.
use vstd::prelude::*;

verus! {

/// Largest exponent that [`cpu_relax`] accepts.
pub(crate) const MAX_RELAX: u32 = 16;

/// `core::hint::spin_loop` tells the processor that the caller is busy
/// waiting. Nothing is claimed of it beyond that it may be called at any
/// time and returns.
pub assume_specification[ core::hint::spin_loop ]();

/// Pauses `2^count` times.
pub(crate) fn cpu_relax(count: u32)
    requires
        count <= MAX_RELAX,
{
    assert(count <= 16 ==> (1u64 << count) <= 65536) by (bit_vector);
    let rounds: u64 = 1u64 << count;
    let mut done: u64 = 0;
    while done < rounds
        invariant
            done <= rounds,
        decreases rounds - done,
    {
        core::hint::spin_loop();
        done += 1;
    }
}

} // verus!
