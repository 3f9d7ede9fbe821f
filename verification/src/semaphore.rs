//! The bounded admission gate: a counting permit pool that caps how many
//! synchronization jobs run at once.  This is the sequential accounting
//! core — every acquisition takes one free slot, every release returns
//! it — which the surrounding program wraps in its blocking machinery.
use vstd::prelude::*;

verus! {

/// A counting permit pool limiting concurrent operations.
#[derive(Debug)]
pub struct Semaphore {
    permits: usize,
    available: usize,
}

/// A token for one held concurrency slot.  It is returned by `acquire`
/// and given back through `release`; holding it means one slot of the
/// pool is in use.
#[derive(Debug)]
pub struct SemaphorePermit {
    _held: bool,
}

impl Semaphore {
    /// The number of slots the pool was created with.
    pub closed spec fn spec_limit(self) -> int {
        self.permits as int
    }

    /// The number of slots currently free.
    pub closed spec fn spec_available(self) -> int {
        self.available as int
    }

    /// The number of slots currently held.
    pub open spec fn holders(self) -> int {
        self.spec_limit() - self.spec_available()
    }

    /// No more slots are ever free than the pool was created with, and
    /// the pool has at least one slot.
    pub open spec fn wf(self) -> bool {
        0 <= self.spec_available() <= self.spec_limit() && self.spec_limit() >= 1
    }

    /// What acquiring changes: one free slot is taken, the limit stays.
    pub open spec fn acquire_step(pre: Semaphore, post: Semaphore) -> bool {
        post.spec_limit() == pre.spec_limit() && post.spec_available() == pre.spec_available() - 1
    }

    /// What releasing changes: one slot is returned, the limit stays.
    pub open spec fn release_step(pre: Semaphore, post: Semaphore) -> bool {
        post.spec_limit() == pre.spec_limit() && post.spec_available() == pre.spec_available() + 1
    }

    /// A pool with `permits` free slots.  A pool of zero slots would
    /// deadlock every job, so it is rejected by contract.
    pub fn new(permits: usize) -> (r: Semaphore)
        requires
            permits >= 1,
        ensures
            r.wf(),
            r.spec_limit() == permits,
            r.spec_available() == permits,
    {
        Semaphore { permits, available: permits }
    }

    /// Takes one free slot and hands out the token for it.  Callers wait
    /// until a slot is free: by contract, acquiring needs one.
    pub fn acquire(&mut self) -> (permit: SemaphorePermit)
        requires
            old(self).wf(),
            old(self).spec_available() > 0,
        ensures
            final(self).wf(),
            Semaphore::acquire_step(*old(self), *final(self)),
    {
        self.available = self.available - 1;
        SemaphorePermit { _held: true }
    }

    /// Takes a slot when one is free; leaves the pool untouched and
    /// hands back nothing otherwise.
    pub fn try_acquire(&mut self) -> (r: Option<SemaphorePermit>)
        requires
            old(self).wf(),
        ensures
            final(self).wf(),
            old(self).spec_available() > 0 ==> r is Some && Semaphore::acquire_step(
                *old(self),
                *final(self),
            ),
            old(self).spec_available() == 0 ==> r is None && *final(self) == *old(self),
    {
        if self.available > 0 {
            Some(self.acquire())
        } else {
            None
        }
    }

    /// Returns a held slot.  The token is consumed: a slot can only be
    /// given back once per acquisition, on whatever path the holder's
    /// work ends.
    pub fn release(&mut self, permit: SemaphorePermit)
        requires
            old(self).wf(),
            old(self).spec_available() < old(self).spec_limit(),
        ensures
            final(self).wf(),
            Semaphore::release_step(*old(self), *final(self)),
    {
        let _ = permit;
        self.available = self.available + 1;
    }

    /// The number of slots currently free.
    pub fn available_permits(&self) -> (r: usize)
        ensures
            r as int == self.spec_available(),
    {
        self.available
    }
}

/// However many acquirers contend, the number of holders simultaneously
/// past `acquire` never exceeds the pool's limit.
pub proof fn lemma_holders_bounded(s: Semaphore)
    requires
        s.wf(),
    ensures
        0 <= s.holders() <= s.spec_limit(),
{
}

/// An acquisition is only possible while fewer holders than the limit
/// are inside, and it keeps the holder count within the limit.
pub proof fn lemma_acquire_bounded(pre: Semaphore, post: Semaphore)
    requires
        pre.wf(),
        pre.spec_available() > 0,
        Semaphore::acquire_step(pre, post),
    ensures
        pre.holders() < pre.spec_limit(),
        0 <= post.holders() <= post.spec_limit(),
{
}

/// A permit acquired and then released — on whatever exit path the
/// holder takes — restores the free count to its pre-acquire value.
pub proof fn lemma_release_restores(s0: Semaphore, s1: Semaphore, s2: Semaphore)
    requires
        s0.wf(),
        s0.spec_available() > 0,
        Semaphore::acquire_step(s0, s1),
        Semaphore::release_step(s1, s2),
    ensures
        s2.spec_available() == s0.spec_available(),
        s2.spec_limit() == s0.spec_limit(),
{
}

} // verus!
