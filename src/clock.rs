use vstd::prelude::*;

verus! {

/// The animation clock: the time, in nanoseconds, that has elapsed over all
/// frames so far. The rotation of the model is a function of it.
pub struct AngleAccumulator {
    elapsed_nanos: u64,
}

/// The clock after `elapsed` more nanoseconds; it stops at the largest value
/// it can hold.
pub open spec fn advanced(total: nat, elapsed: nat) -> nat {
    if total + elapsed > u64::MAX { u64::MAX as nat } else { total + elapsed }
}

impl AngleAccumulator {
    /// Total time accumulated.
    pub closed spec fn total(&self) -> nat {
        self.elapsed_nanos as nat
    }

    /// A clock at zero.
    pub fn new() -> (c: Self)
        ensures
            c.total() == 0,
    {
        AngleAccumulator { elapsed_nanos: 0 }
    }

    /// Total time accumulated, in nanoseconds.
    pub fn elapsed_nanos(&self) -> (n: u64)
        ensures
            n == self.total(),
    {
        self.elapsed_nanos
    }

    /// Adds the time elapsed since the previous frame.
    pub fn advance(&mut self, elapsed: u64)
        ensures
            final(self).total() == advanced(old(self).total(), elapsed as nat),
    {
        self.elapsed_nanos = self.elapsed_nanos.saturating_add(elapsed);
    }
}

/// Frame-rate independence: one frame of `a + b` nanoseconds leaves the
/// clock where two frames of `a` and then `b` nanoseconds leave it.
pub proof fn lemma_split_frames(total: nat, a: nat, b: nat)
    ensures
        advanced(advanced(total, a), b) == advanced(total, a + b),
{
}

} // verus!
