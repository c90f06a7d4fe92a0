//! The visitor barrier: a counter of registered users and a flag that holds
//! new users back while the bucket array is being changed.
//!
//! The counter rests at [`IDLE`]. Every registered user adds one to it, and
//! the single writer that changes the bucket array moves it from `IDLE` to
//! [`EXCLUSIVE`], which it can only do when no user is registered.
use crate::utils::cpu_relax;
use vstd::prelude::*;

verus! {

/// Counter value that means: the writer owns the bucket array.
pub const EXCLUSIVE: usize = 0;

/// Counter value that means: nobody uses the pool.
pub const IDLE: usize = 1;

/// Failed attempts after which a writer that does not block gives up.
pub const DRAIN_ATTEMPTS: usize = 8;

/// Exponent of the pause between two attempts to drain.
pub const DRAIN_PAUSE: u32 = 2;

/// The counter of visitors and the barrier flag.
pub struct VisitorBarrier {
    visitor_count: usize,
    barrier: bool,
}

impl VisitorBarrier {
    /// The counter.
    pub closed spec fn count(&self) -> nat {
        self.visitor_count as nat
    }

    /// Whether the barrier flag is set.
    pub closed spec fn raised(&self) -> bool {
        self.barrier
    }

    /// Number of registered users.
    pub open spec fn visitors(&self) -> nat {
        if self.count() > IDLE {
            (self.count() - IDLE) as nat
        } else {
            0
        }
    }

    /// Nobody is registered and no writer has announced itself.
    pub open spec fn idle(&self) -> bool {
        self.count() == IDLE && !self.raised()
    }

    /// The writer owns the bucket array.
    pub open spec fn exclusive(&self) -> bool {
        self.count() == EXCLUSIVE
    }

    /// A user may register: the barrier is down and the counter has room.
    pub open spec fn admits(&self) -> bool {
        !self.raised() && self.count() < usize::MAX
    }

    /// The counter is at `EXCLUSIVE` only under a raised barrier.
    pub open spec fn wf(&self) -> bool {
        self.exclusive() ==> self.raised()
    }

    /// An idle barrier.
    pub fn new() -> (barrier: Self)
        ensures
            barrier.idle(),
            barrier.wf(),
    {
        VisitorBarrier { visitor_count: IDLE, barrier: false }
    }

    /// The counter.
    pub fn visitor_count(&self) -> (count: usize)
        ensures
            count == self.count(),
    {
        self.visitor_count
    }

    /// Whether the barrier flag is set.
    pub fn is_raised(&self) -> (raised: bool)
        ensures
            raised == self.raised(),
    {
        self.barrier
    }

    /// Registers one user.
    ///
    /// A user waits for as long as the barrier is raised. Under exclusive
    /// access nobody else can lower it meanwhile, so the call asks for a
    /// barrier that is down.
    pub fn register(&mut self)
        requires
            old(self).wf(),
            old(self).admits(),
        ensures
            final(self).wf(),
            final(self).count() == old(self).count() + 1,
            final(self).visitors() == old(self).visitors() + 1,
            final(self).raised() == old(self).raised(),
    {
        self.visitor_count = self.visitor_count + 1;
    }

    /// Takes one registration back.
    pub fn deregister(&mut self)
        requires
            old(self).visitors() > 0,
        ensures
            final(self).wf(),
            final(self).count() == old(self).count() - 1,
            final(self).visitors() == old(self).visitors() - 1,
            final(self).raised() == old(self).raised(),
    {
        self.visitor_count = self.visitor_count - 1;
    }

    /// Announces a writer: sets the barrier flag if it is not set, and says
    /// whether it did. With the flag already set another writer is at work
    /// and the caller has to go away.
    pub fn raise(&mut self) -> (won: bool)
        ensures
            won == !old(self).raised(),
            final(self).raised(),
            final(self).count() == old(self).count(),
    {
        if self.barrier {
            false
        } else {
            self.barrier = true;
            true
        }
    }

    /// Waits for the users to leave and takes the bucket array: moves the
    /// counter from `IDLE` to `EXCLUSIVE`, and says whether it did.
    ///
    /// Each failed attempt is followed by a short pause. A caller that does
    /// not block gives up after more than `DRAIN_ATTEMPTS` failures. A caller
    /// that blocks waits until the last user has left; under exclusive access
    /// no user can leave meanwhile, so a blocking call asks for a counter
    /// that is at `IDLE` already.
    pub fn drain(&mut self, block: bool) -> (drained: bool)
        requires
            old(self).raised(),
            block ==> old(self).count() == IDLE,
        ensures
            final(self).wf(),
            final(self).raised(),
            drained == (old(self).count() == IDLE),
            final(self).count() == (if drained { EXCLUSIVE as nat } else { old(self).count() }),
    {
        let mut attempts: usize = 0;
        loop
            invariant
                *self == *old(self),
                self.barrier,
                attempts <= DRAIN_ATTEMPTS,
                block ==> self.visitor_count == IDLE,
            decreases DRAIN_ATTEMPTS - attempts,
        {
            if self.visitor_count == IDLE {
                self.visitor_count = EXCLUSIVE;
                return true;
            }
            cpu_relax(DRAIN_PAUSE);
            attempts += 1;
            if attempts > DRAIN_ATTEMPTS && !block {
                return false;
            }
        }
    }

    /// Ends a writer's turn: puts the counter back to `IDLE` and clears the
    /// barrier flag.
    pub fn lower(&mut self)
        ensures
            final(self).idle(),
            final(self).wf(),
    {
        self.visitor_count = IDLE;
        self.barrier = false;
    }

    /// Exclusive expansion: while the counter is at `EXCLUSIVE` the barrier
    /// is raised, no user is registered, none can register and none can
    /// leave.
    pub proof fn lemma_exclusive_is_private(&self)
        requires
            self.wf(),
            self.exclusive(),
        ensures
            self.raised(),
            self.visitors() == 0,
            !self.admits(),
    {
    }
}

} // verus!
