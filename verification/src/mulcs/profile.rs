//! Timers of the profiling output.
//!
//! The timers do not read a clock: a reading in nanoseconds, and whether
//! profiling is on, are handed in.

use vstd::prelude::*;

verus! {

/// The columns of a profiling row that are known when a phase starts.
#[derive(Clone, Copy, Debug)]
pub struct ScopedTimer {
    pub backend: &'static str,
    pub nv: usize,
    pub n: usize,
    pub phase: &'static str,
    pub count: usize,
    pub notes: &'static str,
    pub start: Option<u128>,
}

impl ScopedTimer {
    /// A timer for a phase that starts at `now` where profiling is on.
    pub fn new(
        profiling_enabled: bool,
        now: u128,
        nv: usize,
        n: usize,
        phase: &'static str,
        count: usize,
        notes: &'static str,
    ) -> (r: ScopedTimer)
        ensures
            r.backend@ == "Mulcs"@,
            r.nv == nv,
            r.n == n,
            r.phase == phase,
            r.count == count,
            r.notes == notes,
            r.start == (if profiling_enabled { Some(now) } else { None }),
    {
        let start: Option<u128> = if profiling_enabled { Some(now) } else { None };
        ScopedTimer { backend: "Mulcs", nv, n, phase, count, notes, start }
    }

    /// Nanoseconds from the start of the phase to `now`; nothing where the
    /// timer is off. A clock that went backwards counts as no time.
    pub fn elapsed(&self, now: u128) -> (r: Option<u128>)
        ensures
            r == (match self.start {
                Some(t0) => Some(if now >= t0 { (now - t0) as u128 } else { 0 }),
                None => None,
            }),
    {
        match self.start {
            Some(t0) => Some(if now >= t0 { now - t0 } else { 0 }),
            None => None,
        }
    }
}

/// A timer that adds up the time of many short intervals.
#[derive(Clone, Copy, Debug)]
pub struct MaybeTimer {
    active: bool,
    acc_ns: u128,
}

/// The start of an interval, where the timer is on.
#[derive(Clone, Copy, Debug)]
pub struct MaybeTick {
    t0: Option<u128>,
}

impl MaybeTick {
    /// The reading at the start of the interval.
    pub closed spec fn reading(&self) -> Option<u128> {
        self.t0
    }
}

impl MaybeTimer {
    /// Whether the timer is on.
    pub closed spec fn is_active(&self) -> bool {
        self.active
    }

    /// The nanoseconds that were added up.
    pub closed spec fn total(&self) -> u128 {
        self.acc_ns
    }

    /// A timer at zero, on where profiling is.
    pub fn new(profiling_enabled: bool) -> (r: MaybeTimer)
        ensures
            r.is_active() == profiling_enabled,
            r.total() == 0,
    {
        MaybeTimer { active: profiling_enabled, acc_ns: 0 }
    }

    /// The start of an interval at the reading `now`.
    pub fn start(&self, now: u128) -> (r: MaybeTick)
        ensures
            r.reading() == (if self.is_active() { Some(now) } else { None }),
    {
        MaybeTick { t0: if self.active { Some(now) } else { None } }
    }

    /// Adds the interval from a start to the reading `now`; the total stops at
    /// the largest value that it can hold.
    pub fn add(&mut self, tick: &MaybeTick, now: u128)
        ensures
            final(self).is_active() == old(self).is_active(),
            final(self).total() == (match tick.reading() {
                Some(t0) => if old(self).is_active() && now >= t0 {
                    let sum = old(self).total() + (now - t0);
                    if sum <= u128::MAX {
                        sum as u128
                    } else {
                        u128::MAX
                    }
                } else {
                    old(self).total()
                },
                None => old(self).total(),
            }),
    {
        if self.active {
            if let Some(t0) = tick.t0 {
                if now >= t0 {
                    let d: u128 = now - t0;
                    self.acc_ns = if d <= u128::MAX - self.acc_ns {
                        self.acc_ns + d
                    } else {
                        u128::MAX
                    };
                }
            }
        }
    }

    /// The nanoseconds that were added up.
    pub fn ns(&self) -> (r: u128)
        ensures
            r == self.total(),
    {
        self.acc_ns
    }
}

} // verus!
