//! What comes of calls, said of the functions themselves.

use vstd::prelude::*;
use crate::board::{init_from_fdt, timer_interval, Board};
use crate::boot::{heartbeat, interval_us, wake_secondaries};
use crate::clients::{BorrowAt, Borrower, FileTrial, TrialAt};
use crate::fault::{find_slot, in_slot, slot_stack};
use crate::fdt::BoardParams;
use crate::memory_server::{MemoryAt, MemoryServer};
use crate::ramfs::{FileServer, FileState, FsAt};
use crate::sbi::{hsm_hart_start, send_ipi, set_timer, SbiCall};
use crate::sync::{Condvar, LockStep, Mutex, SpinLock};
use crate::uart::{PutStep, Writer};
use crate::uart_server::{rx_ready, tx_ready, UartAt, UartServer};
use crate::user::{
    marker, sys_cap_dup, sys_exit, sys_ipc_recv, sys_ipc_send, sys_map_device, sys_mem_grant,
    sys_mem_map, sys_service_connect, sys_service_register, sys_shm_map, sys_write, uart_got,
    uart_read, uart_sent, uart_write, uart_written, Call, Words,
};

verus! {

/// Law: a read gives no more bytes than the buffer holds and than the server took, and as many as
/// both allow; an error is the one that the kernel told, or else the server.
pub proof fn law_read_fills_the_buffer(w: Words, len: usize, n: Result<usize, i64>)
    requires
        call_ensures(uart_got, (w, len), n),
    ensures
        n is Ok <==> w.a0 == 0 && w.a2 == 0,
        n matches Ok(k) ==> k <= len && k <= w.a3 && (k == len || k == w.a3),
        n matches Err(e) ==> {
            let code = if w.a0 != 0 {
                w.a0
            } else {
                w.a2
            };
            e == code || e + 0x1_0000_0000_0000_0000 == code
        },
{
}

/// Law: a write tells how many bytes the server took where both the kernel and the server were
/// content, and else the error of the kernel, or that of the server.
pub proof fn law_write_tells_the_number(w: Words, n: i64)
    requires
        call_ensures(uart_written, (w,), n),
    ensures
        w.a0 == 0 && w.a2 == 0 && w.a3 <= i64::MAX ==> n == w.a3,
        w.a0 == 0 && w.a2 > i64::MAX ==> n + 0x1_0000_0000_0000_0000 == w.a2,
        w.a0 > i64::MAX ==> n + 0x1_0000_0000_0000_0000 == w.a0,
{
}

/// Law: once a request was sent, its reply is awaited through slot 2; where it was not sent there is
/// nothing to wait for.
pub proof fn law_reply_is_awaited(rc: u64, r: Result<Call, i64>)
    requires
        call_ensures(uart_sent, (rc,), r),
    ensures
        r is Ok <==> rc == 0,
        r matches Ok(c) ==> c.num == 4 && c.args.a0 == 2,
        r matches Err(e) ==> e == -1,
{
}

/// Law: a write puts the beginning of the bytes into the shared page, as many as it holds, and asks
/// for as many to be printed; a read asks for as many as fit into both.
pub proof fn law_console_requests(bytes: &[u8], w: (Vec<u8>, Call), len: usize, c: Call)
    requires
        call_ensures(uart_write, (bytes,), w),
        call_ensures(uart_read, (len,), c),
    ensures
        w.0@.len() == if bytes@.len() < 4096 {
            bytes@.len()
        } else {
            4096
        },
        forall|i: int| 0 <= i < w.0@.len() ==> #[trigger] w.0@[i] == bytes@[i],
        w.1.num == 3 && w.1.args.a0 == 2 && w.1.args.a1 == 1 && w.1.args.a2 == w.0@.len(),
        c.num == 3 && c.args.a0 == 2 && c.args.a1 == 2,
        c.args.a2 == if len < 4096 {
            len
        } else {
            4096
        },
{
}

/// A system call with up to three arguments.
pub open spec fn is_call(c: Call, num: u64, a0: u64, a1: u64, a2: u64) -> bool {
    &&& c.num == num
    &&& c.args.a0 == a0 && c.args.a1 == a1 && c.args.a2 == a2
    &&& c.args.a3 == 0 && c.args.a4 == 0 && c.args.a5 == 0
}

/// Law: each function that makes a system call uses the call's own number, and hands its arguments
/// over in order.
pub proof fn law_system_calls(a: u64, b: u64, c: u64, m: &[u64; 5])
    ensures
        forall|r: Call| #[trigger] call_ensures(sys_exit, (), r) ==> is_call(r, 1, 0, 0, 0),
        forall|r: Call| #[trigger] call_ensures(sys_ipc_recv, (a,), r) ==> is_call(r, 4, a, 0, 0),
        forall|r: Call| #[trigger] call_ensures(sys_shm_map, (a, b, c), r) ==> is_call(r, 5, a, b, c),
        forall|r: Call| #[trigger] call_ensures(sys_cap_dup, (a, b), r) ==> is_call(r, 7, a, b, 0),
        forall|r: Call| #[trigger] call_ensures(sys_write, (a, b, c), r) ==> is_call(r, 8, a, b, c),
        forall|r: Call| #[trigger]
            call_ensures(sys_service_register, (a,), r) ==> is_call(r, 10, a, 0, 0),
        forall|r: Call| #[trigger]
            call_ensures(sys_service_connect, (a, b, c), r) ==> is_call(r, 11, a, b, c),
        forall|r: Call| #[trigger] call_ensures(sys_map_device, (a, b), r) ==> is_call(r, 12, a, b, 0),
        forall|r: Call| #[trigger]
            call_ensures(sys_mem_grant, (a, b, c), r) ==> is_call(r, 13, a, b, c),
        forall|r: Call| #[trigger] call_ensures(sys_mem_map, (a, b), r) ==> is_call(r, 14, a, b, 0),
        forall|r: Call| #[trigger]
            call_ensures(sys_ipc_send, (a, m), r) ==> r.num == 3 && r.args.a0 == a && r.args.a1
                == m@[0] && r.args.a2 == m@[1] && r.args.a3 == m@[2] && r.args.a4 == m@[3]
                && r.args.a5 == m@[4],
{
}

/// Law: the mark of a program that has finished tells its number of arguments in its lower half.
pub proof fn law_marker_tells_arguments(argc: u64, r: u64)
    requires
        call_ensures(marker, (argc,), r),
        argc < 0x1_0000,
    ensures
        r == 0xc0de_0000 + argc,
{
    assert(argc < 0x1_0000 ==> 0xc0de_0000u64 | argc == 0xc0de_0000 + argc) by (bit_vector);
}

/// Law: a server registers its service before anything else: the console as 1, once it has its
/// device at 0x6000_0000, memory as 2, with a full pool, and files as 3, with no file. Their clients
/// connect to them through slot 2.
pub proof fn law_programs_start(argc: u64)
    ensures
        forall|r: (UartServer, Call)| #[trigger]
            call_ensures(UartServer::start, (), r) ==> r.0.at == UartAt::Mapping && is_call(
                r.1,
                12,
                0,
                0x6000_0000,
                0,
            ),
        forall|r: (MemoryServer, Call)| #[trigger]
            call_ensures(MemoryServer::start, (), r) ==> r.0.at == MemoryAt::Registering && is_call(
                r.1,
                10,
                2,
                0,
                0,
            ) && r.0.full@.len() == 4 && (forall|i: int| 0 <= i < 4 ==> #[trigger] r.0.full@[i]),
        forall|r: (FileServer, Call)| #[trigger]
            call_ensures(FileServer::start, (), r) ==> r.0@.at == FsAt::Registering && is_call(
                r.1,
                10,
                3,
                0,
                0,
            ) && r.0@.files.len() == 4 && (forall|i: int|
                0 <= i < 4 ==> (#[trigger] r.0@.files[i]).state == FileState::Free),
        forall|r: (Borrower, Call)| #[trigger]
            call_ensures(Borrower::start, (argc,), r) ==> r.0.at == BorrowAt::Connecting && r.0.argc
                == argc && is_call(r.1, 11, 2, 2, 0),
        forall|r: (FileTrial, Call)| #[trigger]
            call_ensures(FileTrial::start, (argc,), r) ==> r.0.at == TrialAt::Connecting && r.0.argc
                == argc && is_call(r.1, 11, 3, 2, 0),
{
}

/// Law: bit 5 of the line status says that the device takes a byte, and bit 0 that it has one.
pub proof fn law_line_status(lsr: u8, tx: bool, rx: bool)
    requires
        call_ensures(tx_ready, (lsr,), tx),
        call_ensures(rx_ready, (lsr,), rx),
    ensures
        tx <==> lsr / 32 % 2 == 1,
        rx <==> lsr % 2 == 1,
{
    assert((lsr & 0x20 != 0) == (lsr / 32 % 2 == 1)) by (bit_vector);
    assert((lsr & 0x01 != 0) == (lsr % 2 == 1)) by (bit_vector);
}

/// Law: the firmware is called by its extension, as spelled in ASCII: `TIME`, `sPI` and `HSM`; the
/// arguments are handed over in order.
pub proof fn law_firmware_calls(a: u64, b: u64, c: u64, d: u64)
    ensures
        forall|r: SbiCall| #[trigger]
            call_ensures(set_timer, (a,), r) ==> r.ext == 0x5449_4d45 && r.fun == 0 && r.a0 == a,
        forall|r: SbiCall| #[trigger]
            call_ensures(send_ipi, (a, b), r) ==> r.ext == 0x73_5049 && r.fun == 0 && r.a0 == a
                && r.a1 == b,
        forall|r: SbiCall| #[trigger]
            call_ensures(hsm_hart_start, (a, b, c, d), r) ==> r.ext == 0x48_534d && r.fun == 0
                && r.a0 == a && r.a1 == b && r.a2 == c && r.a3 == d,
{
}

/// Law: what the tree tells is used where it can be: a console at an address that is aligned, not
/// zero and outside the RAM, and a clock from 1 kHz to 1 GHz; else 0x1000_0000 and 10 MHz. A hundred
/// ticks of the timer make a second.
pub proof fn law_board_is_plausible(p: &BoardParams, end: u64, b: Board, t: u64)
    requires
        call_ensures(init_from_fdt, (p, end), b),
        call_ensures(timer_interval, (&b,), t),
    ensures
        p.uart_base != 0 && p.uart_base % 4 == 0 && !(b.ram_start <= p.uart_base < b.ram_start
            + b.ram_size) ==> b.uart_base == p.uart_base,
        p.uart_base == 0 || p.uart_base % 4 != 0 || (b.ram_start <= p.uart_base < b.ram_start
            + b.ram_size) ==> b.uart_base == 0x1000_0000,
        1000 <= p.timebase_freq <= 1_000_000_000 ==> b.timer_freq == p.timebase_freq,
        p.timebase_freq < 1000 || p.timebase_freq > 1_000_000_000 ==> b.timer_freq == 10_000_000,
        t * 100 <= b.timer_freq < (t + 1) * 100,
        t > 0,
{
}

/// Law: the idle loop reports every hundred ticks, the tick and ten milliseconds for each.
pub proof fn law_heart_beats(last: u64, t: u64, r: Option<(u64, u64)>)
    requires
        call_ensures(heartbeat, (last, t), r),
        last <= t,
    ensures
        r is Some <==> t - last >= 100,
        r matches Some((tick, ms)) ==> tick == t && (t <= 1_000_000_000_000 ==> ms == 10 * t),
{
}

/// Law: an interval in microseconds is as near from below as a whole number can come.
pub proof fn law_microseconds(interval: u64, freq: u64, r: u64)
    requires
        call_ensures(interval_us, (interval, freq), r),
        freq > 0,
        interval <= 1_000_000_000,
    ensures
        r * freq <= interval * 1_000_000 < (r + 1) * freq,
{
    let x = interval * 1_000_000;
    let f = freq as int;
    vstd::arithmetic::div_mod::lemma_fundamental_div_mod(x, f);
    assert(f * (x / f) == r * freq && (r + 1) * freq == r * freq + freq) by (nonlinear_arith)
        requires
            r == x / f,
            f == freq,
    ;
}

/// Law: every core of the machine is started once but the one that it started on, four at most.
pub proof fn law_cores_are_started(count: usize, boot: usize, r: Vec<usize>)
    requires
        call_ensures(wake_secondaries, (count, boot), r),
    ensures
        count <= 1 ==> r@.len() == 0,
        count > 1 ==> forall|h: usize| #[trigger]
            r@.contains(h) <==> h < count && h < 4 && h != boot,
        r@.no_duplicates(),
{
    let n = if count < 4 {
        count as int
    } else {
        4
    };
    crate::boot::law_every_other_core(n, boot as int);
}

/// Law: the stack that is found for an address holds it, and is the upper half of one of four parts
/// of 32 KiB: of the part that the address lies in.
pub proof fn law_found_stack_holds_address(base: u64, sp: u64, lo: u64, hi: u64, h: int)
    requires
        call_ensures(find_slot, (base, sp), Some((lo, hi))),
        0 <= h < 4,
        base + 0x8000 * h <= sp < base + 0x8000 * h + 0x8000,
    ensures
        lo <= sp < hi,
        lo == base + 0x8000 * h + 0x4000,
        hi == base + 0x8000 * h + 0x8000,
{
    let k = choose|k: int|
        0 <= k < 4 && #[trigger] in_slot(base as int, k, sp as int) && (lo as int, hi as int)
            == slot_stack(base as int, k);
    assert(k == h);
}

/// Law: a byte is sent where the device takes one, given up and counted where the device was busy
/// for too long, and else waits.
pub proof fn law_byte_is_given_up(status: u8, spins: u32, r: PutStep)
    ensures
        forall|w: &mut Writer| #[trigger]
            call_ensures(Writer::putc, (w, status, spins), r) ==> {
                let free = status / 32 % 2 == 1;
                &&& r == PutStep::Send <==> free
                &&& r == PutStep::GiveUp <==> !free && spins >= crate::uart::TX_WAIT_LIMIT
                &&& r == PutStep::GiveUp && w.lost < u64::MAX ==> final(w).lost == w.lost + 1
                &&& r != PutStep::GiveUp ==> final(w).lost == w.lost
                &&& final(w).panic_output == w.panic_output
            },
{
    assert((status & 0x20 != 0) == (status / 32 % 2 == 1)) by (bit_vector);
}

/// Law: a condition wakes those who wait in the order in which they came, one or all of them.
pub proof fn law_condition_wakes_in_order(r: Option<usize>, all: Vec<usize>)
    ensures
        forall|c: &mut Condvar| #[trigger]
            call_ensures(Condvar::notify_one, (c,), r) ==> {
                &&& r is None <==> c@.len() == 0
                &&& c@.len() > 0 ==> r == Some(c@[0]) && final(c)@ == c@.skip(1)
                &&& c@.len() == 0 ==> final(c)@.len() == 0
            },
        forall|c: &mut Condvar| #[trigger]
            call_ensures(Condvar::notify_all, (c,), all) ==> all@ == c@ && final(c)@.len() == 0,
{
}

/// Law: who waits for a condition stands behind all who wait for it, and gives the mutex back.
pub proof fn law_condition_frees_the_mutex(tid: usize, r: Option<usize>)
    ensures
        forall|c: &mut Condvar, m: &mut Mutex<u64>| #[trigger]
            call_ensures(Condvar::wait::<u64>, (c, m, tid), r) ==> {
                &&& final(c)@.len() == c@.len() + 1
                &&& final(c)@.last() == tid
                &&& final(c)@.drop_last() == c@
                &&& !final(m)@.locked
                &&& r is Some <==> m@.waiters.len() > 0
                &&& r matches Some(t) ==> t == m@.waiters[0]
            },
{
}

/// Law: a mutex is taken where it is free; else who asks stands behind all who wait. What it protects
/// stays. A lock is taken where it is free.
pub proof fn law_mutex_has_one_holder(tid: usize, r: LockStep, got: bool)
    ensures
        forall|m: &mut Mutex<u64>| #[trigger]
            call_ensures(Mutex::<u64>::lock, (m, tid), r) ==> {
                &&& r == LockStep::Acquired <==> !m@.locked
                &&& final(m)@.locked
                &&& final(m)@.value == m@.value
                &&& m@.locked ==> final(m)@.waiters.len() == m@.waiters.len() + 1
                    && final(m)@.waiters.last() == tid && final(m)@.waiters.drop_last() == m@.waiters
                &&& !m@.locked ==> final(m)@.waiters == m@.waiters
            },
        forall|l: &mut SpinLock<u64>| #[trigger]
            call_ensures(SpinLock::<u64>::lock, (l,), got) ==> {
                &&& got <==> !l.held()
                &&& final(l).held()
                &&& final(l).inner() == l.inner()
            },
{
}

} // verus!
