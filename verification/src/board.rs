//! Board parameters: what the device tree says, where it is plausible, else the defaults of the
//! QEMU `virt` machine.

use vstd::prelude::*;
use crate::fdt::BoardParams;
use crate::mem::MAX_PAGES;
use crate::sv39::SUPER_PAGE;

verus! {

pub const DEFAULT_RAM_START: u64 = 0x8000_0000;

/// 128 MiB.
pub const DEFAULT_RAM_SIZE: u64 = 0x800_0000;

pub const DEFAULT_UART_BASE: u64 = 0x1000_0000;

/// 10 MHz.
pub const DEFAULT_TIMER_FREQ: u64 = 10_000_000;

/// Address at which the firmware enters the kernel.
pub const KERNEL_LINK_BASE: u64 = 0x8020_0000;

/// Physical addresses that the kernel maps end here.
pub const SV39_MAX_PHYS: u64 = 0x80_0000_0000;

/// Parameters of the running board.
#[derive(Clone, Copy)]
pub struct Board {
    pub ram_start: u64,
    pub ram_size: u64,
    pub uart_base: u64,
    pub timer_freq: u64,
}

/// The RAM start is usable by itself.
pub open spec fn start_ok(start: u64) -> bool {
    start != 0 && start % SUPER_PAGE == 0
}

/// The RAM size is usable by itself.
pub open spec fn size_ok(size: u64) -> bool {
    0x10_0000 <= size <= MAX_PAGES * 4096 && size % SUPER_PAGE == 0
}

/// The RAM range holds the kernel, whose image ends at `kernel_end`, and can be mapped.
pub open spec fn range_ok(start: int, size: int, kernel_end: int) -> bool {
    &&& (start + size) % (SUPER_PAGE as int) == 0
    &&& start + size <= SV39_MAX_PHYS
    &&& start <= KERNEL_LINK_BASE
    &&& start + size > kernel_end
}

/// The RAM range that is used for the given parameters.
pub open spec fn ram_of(ram_start: u64, ram_size: u64, kernel_end: u64) -> (u64, u64) {
    let start = if start_ok(ram_start) {
        ram_start
    } else {
        DEFAULT_RAM_START
    };
    let size = if size_ok(ram_size) {
        ram_size
    } else {
        DEFAULT_RAM_SIZE
    };
    if range_ok(start as int, size as int, kernel_end as int) {
        (start, size)
    } else {
        (DEFAULT_RAM_START, DEFAULT_RAM_SIZE)
    }
}

/// The address lies in the RAM.
pub open spec fn in_ram(b: Board, addr: int) -> bool {
    b.ram_start <= addr < b.ram_start + b.ram_size
}

impl Default for Board {
    /// The board of which nothing is known yet.
    fn default() -> (b: Board)
        ensures
            b.wf(),
            b == (Board {
                ram_start: DEFAULT_RAM_START,
                ram_size: DEFAULT_RAM_SIZE,
                uart_base: DEFAULT_UART_BASE,
                timer_freq: DEFAULT_TIMER_FREQ,
            }),
    {
        Board {
            ram_start: DEFAULT_RAM_START,
            ram_size: DEFAULT_RAM_SIZE,
            uart_base: DEFAULT_UART_BASE,
            timer_freq: DEFAULT_TIMER_FREQ,
        }
    }
}

impl Board {
    /// The values are in the ranges that the rest of the kernel relies on.
    pub open spec fn wf(&self) -> bool {
        &&& start_ok(self.ram_start)
        &&& size_ok(self.ram_size)
        &&& self.ram_start + self.ram_size <= SV39_MAX_PHYS
        &&& self.uart_base != 0
        &&& self.uart_base % 4 == 0
        &&& 1000 <= self.timer_freq <= 1_000_000_000
    }
}

/// Board parameters for what the device tree says; `kernel_end` is the end of the kernel image.
pub fn init_from_fdt(params: &BoardParams, kernel_end: u64) -> (b: Board)
    ensures
        b.wf(),
        kernel_end >= KERNEL_LINK_BASE ==> !in_ram(b, b.uart_base as int),
        (b.ram_start, b.ram_size) == ram_of(params.ram_start, params.ram_size, kernel_end),
        b.uart_base == if params.uart_base != 0 && params.uart_base % 4 == 0 && (params.uart_base
            < b.ram_start || params.uart_base >= b.ram_start + b.ram_size) {
            params.uart_base
        } else {
            DEFAULT_UART_BASE
        },
        b.timer_freq == if 1000 <= params.timebase_freq <= 1_000_000_000 {
            params.timebase_freq
        } else {
            DEFAULT_TIMER_FREQ
        },
{
    let start: u64 = if params.ram_start != 0 && params.ram_start % SUPER_PAGE == 0 {
        params.ram_start
    } else {
        DEFAULT_RAM_START
    };
    let size: u64 = if params.ram_size >= 0x10_0000 && params.ram_size <= MAX_PAGES as u64 * 4096
        && params.ram_size % SUPER_PAGE == 0 {
        params.ram_size
    } else {
        DEFAULT_RAM_SIZE
    };
    let end: u64 = start.saturating_add(size);
    let valid: bool = end % SUPER_PAGE == 0 && end <= SV39_MAX_PHYS && start <= KERNEL_LINK_BASE
        && end > kernel_end;
    let ram_start: u64 = if valid {
        start
    } else {
        DEFAULT_RAM_START
    };
    let ram_size: u64 = if valid {
        size
    } else {
        DEFAULT_RAM_SIZE
    };
    let ram_end: u64 = ram_start + ram_size;
    let uart_base: u64 = if params.uart_base != 0 && params.uart_base % 4 == 0 && (params.uart_base
        < ram_start || params.uart_base >= ram_end) {
        params.uart_base
    } else {
        DEFAULT_UART_BASE
    };
    let timer_freq: u64 = if params.timebase_freq >= 1000 && params.timebase_freq <= 1_000_000_000 {
        params.timebase_freq
    } else {
        DEFAULT_TIMER_FREQ
    };
    Board { ram_start, ram_size, uart_base, timer_freq }
}

/// Start of the RAM.
pub fn ram_start(b: &Board) -> (r: u64)
    ensures
        r == b.ram_start,
{
    b.ram_start
}

/// End of the RAM.
pub fn ram_end(b: &Board) -> (r: u64)
    requires
        b.wf(),
    ensures
        r == b.ram_start + b.ram_size,
{
    b.ram_start + b.ram_size
}

/// Size of the RAM in bytes.
pub fn ram_size(b: &Board) -> (r: u64)
    ensures
        r == b.ram_size,
{
    b.ram_size
}

/// Base address of the UART.
pub fn uart_base(b: &Board) -> (r: u64)
    ensures
        r == b.uart_base,
{
    b.uart_base
}

/// Timer frequency in Hz.
pub fn timer_freq(b: &Board) -> (r: u64)
    ensures
        r == b.timer_freq,
{
    b.timer_freq
}

/// Timer ticks in 10 ms.
pub fn timer_interval(b: &Board) -> (r: u64)
    requires
        b.wf(),
    ensures
        r == b.timer_freq / 100,
        r > 0,
{
    b.timer_freq / 100
}

} // verus!
