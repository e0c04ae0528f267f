//! Calls into the firmware.
//!
//! A call is a value: the extension goes into `a7`, the function into `a6`, the arguments into `a0`
//! to `a3`. The firmware puts an error code into `a0`, zero for success.

use vstd::prelude::*;

verus! {

/// Timer extension.
pub const SBI_EXT_TIME: u64 = 0x5449_4d45;

/// Extension for interrupts between harts.
pub const SBI_EXT_IPI: u64 = 0x73_5049;

/// Extension that starts and stops harts.
pub const SBI_EXT_HSM: u64 = 0x48_534d;

/// A call into the firmware.
#[derive(Debug, Clone, Copy, PartialEq, Eq, Structural)]
pub struct SbiCall {
    pub ext: u64,
    pub fun: u64,
    pub a0: u64,
    pub a1: u64,
    pub a2: u64,
    pub a3: u64,
}

/// Sets the next timer interrupt.
pub fn set_timer(stime_value: u64) -> (r: SbiCall)
    ensures
        r == (SbiCall { ext: SBI_EXT_TIME, fun: 0, a0: stime_value, a1: 0, a2: 0, a3: 0 }),
{
    SbiCall { ext: SBI_EXT_TIME, fun: 0, a0: stime_value, a1: 0, a2: 0, a3: 0 }
}

/// Interrupts the harts of a mask; bit `i` stands for hart `hart_mask_base + i`.
pub fn send_ipi(hart_mask: u64, hart_mask_base: u64) -> (r: SbiCall)
    ensures
        r == (SbiCall {
            ext: SBI_EXT_IPI,
            fun: 0,
            a0: hart_mask,
            a1: hart_mask_base,
            a2: 0,
            a3: 0,
        }),
{
    SbiCall { ext: SBI_EXT_IPI, fun: 0, a0: hart_mask, a1: hart_mask_base, a2: 0, a3: 0 }
}

/// Starts a hart at an address, with an argument for its `a0`; `spriv` is zero for supervisor mode.
pub fn hsm_hart_start(hartid: u64, start_addr: u64, spriv: u64, sarg1: u64) -> (r: SbiCall)
    ensures
        r == (SbiCall {
            ext: SBI_EXT_HSM,
            fun: 0,
            a0: hartid,
            a1: start_addr,
            a2: spriv,
            a3: sarg1,
        }),
{
    SbiCall { ext: SBI_EXT_HSM, fun: 0, a0: hartid, a1: start_addr, a2: spriv, a3: sarg1 }
}

} // verus!
