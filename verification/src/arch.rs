//! What the kernel knows of the machine: cores, trap stacks and saved registers.

use vstd::prelude::*;

pub mod gpr;

verus! {

/// Most cores.
pub const MAX_HARTS: usize = 4;

/// Distance between the trap stacks of two cores: guard and stack.
pub const TRAP_STRIDE: u64 = 0x8000;

/// Part of a trap stack that is not mapped.
pub const TRAP_GUARD: u64 = 0x4000;

/// Words of a trap frame: 31 registers, one unused, 4 control registers.
pub const TRAP_FRAME_WORDS: usize = 36;

/// Position of `sstatus` in a trap frame.
pub const FRAME_SSTATUS: usize = 32;

/// Position of `sepc` in a trap frame.
pub const FRAME_SEPC: usize = 33;

/// Position of `scause` in a trap frame.
pub const FRAME_SCAUSE: usize = 34;

/// Position of `stval` in a trap frame.
pub const FRAME_STVAL: usize = 35;

/// Registers of a core, for diagnosis.
#[derive(Debug, Clone, Copy)]
pub struct CpuState {
    pub ra: u64,
    pub sp: u64,
    pub gp: u64,
    pub tp: u64,
    pub sstatus: u64,
    pub sepc: u64,
    pub scause: u64,
    pub stval: u64,
    pub satp: u64,
}

/// Registers that a call preserves: the state of a thread that gave way.
#[derive(Debug, Clone, Copy)]
pub struct Context {
    pub ra: u64,
    pub sp: u64,
    pub s: [u64; 12],
}

/// Bytes of a trap frame.
pub const TRAP_FRAME_BYTES: u64 = 288;

/// Upper end of the trap stack of core `h`, when the stacks begin at `base`.
pub open spec fn trap_top(base: int, h: int) -> int {
    base + (h + 1) * TRAP_STRIDE
}

/// Upper end of the trap stack of a core.
pub fn hart_trap_top(base: u64, h: usize) -> (r: u64)
    requires
        h < MAX_HARTS,
        trap_top(base as int, MAX_HARTS - 1) <= u64::MAX,
    ensures
        r == trap_top(base as int, h as int),
{
    base + (h as u64 + 1) * TRAP_STRIDE
}

/// The core whose trap stack `sscratch` points into: inside a trap to the frame, otherwise to the
/// upper end of the stack.
pub open spec fn core_of(sscratch: u64, base: u64) -> u64 {
    let off = sscratch.wrapping_sub(base);
    if off % TRAP_STRIDE == 0 {
        (off / TRAP_STRIDE).wrapping_sub(1)
    } else {
        off / TRAP_STRIDE
    }
}

/// The core that runs, from its `sscratch`.
pub fn hartid(sscratch: u64, base: u64) -> (r: u64)
    ensures
        r == core_of(sscratch, base),
{
    let off: u64 = sscratch.wrapping_sub(base);
    let h: u64 = off / TRAP_STRIDE;
    if off % TRAP_STRIDE == 0 {
        h.wrapping_sub(1)
    } else {
        h
    }
}

/// Law: whether `sscratch` is the upper end of the trap stack of a core or an address within it,
/// the core is found.
pub proof fn law_core_is_found(base: u64, h: int, sscratch: u64)
    requires
        0 <= h < MAX_HARTS,
        trap_top(base as int, MAX_HARTS - 1) <= u64::MAX,
        trap_top(base as int, h) - TRAP_STRIDE < sscratch <= trap_top(base as int, h),
    ensures
        core_of(sscratch, base) == h,
{
    let off = sscratch.wrapping_sub(base);
    assert(off == sscratch - base);
    assert(h * TRAP_STRIDE < off <= (h + 1) * TRAP_STRIDE);
    if off as int == (h + 1) * TRAP_STRIDE {
        assert(off as int % 0x8000 == 0 && off as int / 0x8000 == h + 1);
    } else {
        assert(off as int / 0x8000 == h && off as int % 0x8000 != 0);
    }
}

/// A frame at `f` lies within the trap stack of core `h`.
pub open spec fn frame_ok(base: int, h: int, f: int) -> bool {
    &&& base + h * TRAP_STRIDE <= f
    &&& f + TRAP_FRAME_BYTES <= trap_top(base, h)
    &&& f % 16 == 0
}

/// Whether a trap frame can be where a trap says it is. A core whose frame is elsewhere has to
/// stop.
pub fn check_frame(base: u64, h: usize, f: u64) -> (r: bool)
    requires
        h < MAX_HARTS,
        trap_top(base as int, MAX_HARTS - 1) <= u64::MAX,
    ensures
        r == frame_ok(base as int, h as int, f as int),
{
    let bottom: u64 = base + h as u64 * TRAP_STRIDE;
    let top: u64 = bottom + TRAP_STRIDE;
    f >= bottom && f <= top - TRAP_FRAME_BYTES && f % 16 == 0
}

/// The next time at which a core wants an interrupt, after the one that was due at `deadline`:
/// one interval later, so that delays do not add up, or one interval from now when that has
/// passed.
pub open spec fn next_deadline(deadline: u64, interval: u64, now: u64) -> u64 {
    let ideal = deadline.wrapping_add(interval);
    if ideal < now {
        now.wrapping_add(interval)
    } else {
        ideal
    }
}

/// The timers of the cores.
#[derive(Debug, Clone, Copy)]
pub struct Timer {
    pub deadlines: [u64; MAX_HARTS],
    /// The core sets its timer itself, without the firmware.
    pub use_sstc: bool,
}

impl Timer {
    /// No timer is set.
    pub fn new() -> (r: Timer)
        ensures
            !r.use_sstc,
            r.deadlines@ == seq![0u64, 0, 0, 0],
    {
        Timer { deadlines: [0, 0, 0, 0], use_sstc: false }
    }

    /// Choose whether cores set their timers themselves.
    pub fn set_sstc(&mut self, v: bool)
        ensures
            final(self).use_sstc == v,
            final(self).deadlines == old(self).deadlines,
    {
        self.use_sstc = v;
    }

    /// Whether cores set their timers themselves.
    pub fn sstc_available(&self) -> (r: bool)
        ensures
            r == self.use_sstc,
    {
        self.use_sstc
    }

    /// Set the timer of a core for the first time.
    pub fn enable_timer(&mut self, hart: usize, now: u64, interval: u64) -> (r: u64)
        requires
            hart < MAX_HARTS,
        ensures
            r == now.wrapping_add(interval),
            final(self).deadlines@ == old(self).deadlines@.update(hart as int, r),
            final(self).use_sstc == old(self).use_sstc,
    {
        let d: u64 = now.wrapping_add(interval);
        self.deadlines[hart] = d;
        d
    }

    /// The timer of a core has gone off: the time for which to set it again.
    pub fn rearm(&mut self, hart: usize, now: u64, interval: u64) -> (r: u64)
        requires
            hart < MAX_HARTS,
        ensures
            r == next_deadline(old(self).deadlines@[hart as int], interval, now),
            final(self).deadlines@ == old(self).deadlines@.update(hart as int, r),
            final(self).use_sstc == old(self).use_sstc,
    {
        let ideal: u64 = self.deadlines[hart].wrapping_add(interval);
        let next: u64 = if ideal < now {
            now.wrapping_add(interval)
        } else {
            ideal
        };
        self.deadlines[hart] = next;
        next
    }
}

/// When the interrupt after those that came at `nows` is due.
pub open spec fn deadline_after(deadline: u64, interval: u64, nows: Seq<u64>) -> u64
    decreases nows.len(),
{
    if nows.len() == 0 {
        deadline
    } else {
        next_deadline(deadline_after(deadline, interval, nows.drop_last()), interval, nows.last())
    }
}

/// Law: however late the interrupts come, as long as none is more than an interval late, the one
/// after `n` of them is due `n` intervals after the first.
pub proof fn law_ticks_do_not_drift(deadline: u64, interval: u64, nows: Seq<u64>)
    requires
        deadline + nows.len() * interval <= u64::MAX,
        forall|k: int|
            0 <= k < nows.len() ==> (#[trigger] nows[k]) <= deadline + (k + 1) * interval,
    ensures
        deadline_after(deadline, interval, nows) == deadline + nows.len() * interval,
    decreases nows.len(),
{
    if nows.len() > 0 {
        let n = nows.len();
        let a = nows.drop_last();
        assert(n * interval == (n - 1) * interval + interval) by (nonlinear_arith);
        assert forall|k: int| 0 <= k < a.len() implies (#[trigger] a[k]) <= deadline + (k + 1)
            * interval by {
            assert(a[k] == nows[k]);
        }
        law_ticks_do_not_drift(deadline, interval, a);
        assert(nows[n - 1] <= deadline + (n - 1 + 1) * interval);
    }
}

} // verus!
