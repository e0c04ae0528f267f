//! Positions of the registers in a trap frame: position `n` holds `x(n + 1)`.

use vstd::prelude::*;

verus! {

pub const X_RA: usize = 0;

pub const X_SP: usize = 1;

pub const X_GP: usize = 2;

pub const X_TP: usize = 3;

pub const X_T0: usize = 4;

pub const X_T1: usize = 5;

pub const X_T2: usize = 6;

pub const X_S0: usize = 7;

pub const X_S1: usize = 8;

pub const X_A0: usize = 9;

pub const X_A1: usize = 10;

pub const X_A2: usize = 11;

pub const X_A3: usize = 12;

pub const X_A4: usize = 13;

pub const X_A5: usize = 14;

pub const X_A6: usize = 15;

pub const X_A7: usize = 16;

pub const X_S2: usize = 17;

pub const X_S3: usize = 18;

pub const X_S4: usize = 19;

pub const X_S5: usize = 20;

pub const X_S6: usize = 21;

pub const X_S7: usize = 22;

pub const X_S8: usize = 23;

pub const X_S9: usize = 24;

pub const X_S10: usize = 25;

pub const X_S11: usize = 26;

pub const X_T3: usize = 27;

pub const X_T4: usize = 28;

pub const X_T5: usize = 29;

pub const X_T6: usize = 30;

} // verus!
