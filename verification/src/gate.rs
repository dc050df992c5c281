//! Admission control: a concurrency gate with a memory-pressure limit.

use vstd::prelude::*;

verus! {

/// The number of requests in flight and the number admitted at most.
pub struct Gate {
    active: usize,
    effective: usize,
}

/// The admission decision for `active` in flight under limit `effective`,
/// and the count in flight afterwards.
pub open spec fn acquire_next(active: nat, effective: nat) -> (bool, nat) {
    if active < effective {
        (true, active + 1)
    } else {
        (false, active)
    }
}

/// The count in flight after one admitted request ends.
pub open spec fn release_next(active: nat) -> nat {
    (active - 1) as nat
}

impl Gate {
    /// Requests in flight.
    pub closed spec fn active(&self) -> nat {
        self.active as nat
    }

    /// The current admission limit.
    pub closed spec fn effective(&self) -> nat {
        self.effective as nat
    }

    /// A gate with nothing in flight and limit `base` (at least 1).
    pub fn new(base: usize) -> (g: Gate)
        ensures
            g.active() == 0,
            g.effective() == if base >= 1 { base as nat } else { 1 },
    {
        Gate { active: 0, effective: if base >= 1 { base } else { 1 } }
    }

    /// Admits one more request when fewer than the limit are in flight.
    pub fn try_acquire(&mut self) -> (r: bool)
        ensures
            (r, final(self).active()) == acquire_next(old(self).active(), old(self).effective()),
            final(self).effective() == old(self).effective(),
            r ==> final(self).active() <= final(self).effective(),
    {
        if self.active >= self.effective {
            return false;
        }
        self.active = self.active + 1;
        true
    }

    /// Ends one admitted request.
    pub fn release(&mut self)
        requires
            old(self).active() > 0,
        ensures
            final(self).active() == release_next(old(self).active()),
            final(self).effective() == old(self).effective(),
    {
        self.active = self.active - 1;
    }

    /// Requests in flight and the current limit.
    pub fn snapshot(&self) -> (r: (usize, usize))
        ensures
            r.0 == self.active(),
            r.1 == self.effective(),
    {
        (self.active, self.effective)
    }

    /// Sets the admission limit; requests in flight are not affected.
    pub fn set_limit(&mut self, limit: usize)
        ensures
            final(self).active() == old(self).active(),
            final(self).effective() == limit,
    {
        self.effective = limit;
    }
}

/// Resident memory above which admission is halved: 1 GiB, in KiB.
pub const ONE_GIB_KB: u64 = 1048576;

/// Resident memory below which full admission returns: 512 MiB, in KiB.
pub const HALF_GIB_KB: u64 = 524288;

/// One sample of the memory monitor: given the resident size read (if it
/// could be read) and whether admission was reduced, whether it is reduced
/// now and the limit to apply.
pub open spec fn memory_step_spec(rss_kb: Option<u64>, reduced: bool, base: usize) -> (bool, usize) {
    let now_reduced = match rss_kb {
        Some(kb) => if kb > ONE_GIB_KB {
            true
        } else if kb < HALF_GIB_KB {
            false
        } else {
            reduced
        },
        None => reduced,
    };
    let limit = if now_reduced {
        if base / 2 >= 1 { base / 2 } else { 1 }
    } else {
        if base >= 1 { base } else { 1 }
    };
    (now_reduced, limit as usize)
}

/// The memory monitor's decision for one sample (see `memory_step_spec`).
pub fn memory_step(rss_kb: Option<u64>, reduced: bool, base: usize) -> (r: (bool, usize))
    ensures
        r == memory_step_spec(rss_kb, reduced, base),
        r.1 >= 1,
{
    let mut now_reduced = reduced;
    if let Some(kb) = rss_kb {
        if kb > ONE_GIB_KB {
            now_reduced = true;
        } else if kb < HALF_GIB_KB {
            now_reduced = false;
        }
    }
    let limit = if now_reduced {
        if base / 2 >= 1 { base / 2 } else { 1 }
    } else {
        if base >= 1 { base } else { 1 }
    };
    (now_reduced, limit)
}

/// Memory law: above 1 GiB admission is halved (never below one), below
/// 512 MiB it is back to the base, in between and when nothing could be
/// read the previous state is kept.
pub proof fn law_memory_hysteresis(rss_kb: Option<u64>, reduced: bool, base: usize)
    ensures
        rss_kb matches Some(kb) && kb > ONE_GIB_KB ==> memory_step_spec(rss_kb, reduced, base)
            == (true, if base / 2 >= 1 { base / 2 } else { 1 }),
        rss_kb matches Some(kb) && kb < HALF_GIB_KB ==> memory_step_spec(rss_kb, reduced, base)
            == (false, if base >= 1 { base } else { 1 }),
        (rss_kb is None || (rss_kb matches Some(kb) && HALF_GIB_KB <= kb <= ONE_GIB_KB))
            ==> memory_step_spec(rss_kb, reduced, base).0 == reduced,
        1 <= memory_step_spec(rss_kb, reduced, base).1 <= if base >= 1 { base } else { 1 },
{
}

/// Gate law: a request is admitted exactly while fewer than the limit are
/// in flight, never beyond the limit, and an admitted request that is
/// released leaves the count in flight as it was.
pub proof fn law_acquire_release(active: nat, effective: nat)
    ensures
        acquire_next(active, effective).0 <==> active < effective,
        acquire_next(active, effective).0 ==> acquire_next(active, effective).1 <= effective,
        acquire_next(active, effective).0 ==> release_next(acquire_next(active, effective).1) == active,
        !acquire_next(active, effective).0 ==> acquire_next(active, effective).1 == active,
{
}

} // verus!
