//! What the functions of the kernel and of the servers do, said of their calls.

use vstd::prelude::*;
use crate::arch::TRAP_FRAME_WORDS;
use crate::clients::{borrow_next, trial_next, BorrowNext, Borrower, FileTrial, TrialNext};
use crate::device::{device_effect, DeviceTable};
use crate::elf::{load, parse, parse_error, ElfError, ElfInfo, LoadedElf};
use crate::elf_laws::{
    file_bytes, file_start, finds, law_numbers_are_little_endian, law_program_finds_its_file, loads,
    memory_bytes, number, start,
};
use crate::fdt::{BoardParams, Fdt};
use crate::fdt_laws::{covered, entry_has, law_tree_reserves, map_has};
use crate::heap::{HeapError, KernelHeap};
use crate::ipc::{
    purge_process, purged, recv, send, IpcState, RecvBlock, SendBlock, MSG_WORDS,
};
use crate::ipc_laws::{law_receive_takes_first, law_send_reaches_first};
use crate::kernel::{kill_current_process, kill_effect, trap_handler, trapped, Kernel, TrapExit};
use crate::mem::{alloc_pages, free_pages, BuddyAllocator};
use crate::memory_server::{memory_next, MemoryServer};
use crate::mmu::{law_kernel_closed_to_user, lookup, KernelLayout};
use crate::pages::{grant_effect, map_effect, mem_grant, mem_map};
use crate::process::{
    cap_at, cap_duplicate, cap_revoke, clear_cap, create, grant_cap, revoke_effect, Cap, CapError,
    ProcView, ProcessTable,
};
use crate::ramfs::{FileServer, FileState, FsAt, FsNext};
use crate::ramfs_laws::{asks, law_write_replaces_bytes};
use crate::sched::{kernel_thread, last_core, user_thread, with_args, Scheduler, SwitchTarget};
use crate::services::{connect, connect_effect, ServiceTable};
use crate::shm::{mmap_share, share_effect};
use crate::space::Spaces;
use crate::syscall::{handle, handled, Reply};
use crate::thread_laws::{comes_next, given_way, law_yield_takes_turns, runs};
use crate::uart_server::{UartAt, UartEvent, UartNext, UartServer};
use crate::user::{Call, Words, OP_FS_WRITE};

verus! {

/// Law: who receives from a process gets the first message that waits from it, and that message is
/// gone; the others wait as before.
pub proof fn law_recv_gives_first(
    procs: &ProcessTable,
    pid: usize,
    slot: usize,
    hart: usize,
    src: usize,
    k: int,
    r: Result<RecvBlock, u64>,
)
    requires
        cap_at(procs@, pid as int, slot as int) == Ok::<Cap, CapError>(Cap::Proc(src)),
    ensures
        forall|ipc: &mut IpcState, sched: &mut Scheduler|
            (#[trigger] call_ensures(recv, (ipc, sched, procs, pid, slot, hart), r)) && sched@.wf()
                && ipc@.in_step(sched@, None) && 0 <= k < ipc@.sends.len()
                && ipc@.sends[k].sender_pid == src && ipc@.sends[k].dst_pid == pid && (forall|i: int|
                0 <= i < k ==> !((#[trigger] ipc@.sends[i]).sender_pid == src
                    && ipc@.sends[i].dst_pid == pid)) ==> {
                &&& r == Ok::<RecvBlock, u64>(RecvBlock::Done(ipc@.sends[k].msg))
                &&& final(ipc)@.recvs == ipc@.recvs
                &&& final(ipc)@.sends == ipc@.sends.remove(k)
            },
{
    assert forall|ipc: &mut IpcState, sched: &mut Scheduler|
        (#[trigger] call_ensures(recv, (ipc, sched, procs, pid, slot, hart), r)) && sched@.wf()
            && ipc@.in_step(sched@, None) && 0 <= k < ipc@.sends.len() && ipc@.sends[k].sender_pid
            == src && ipc@.sends[k].dst_pid == pid && (forall|i: int|
            0 <= i < k ==> !((#[trigger] ipc@.sends[i]).sender_pid == src && ipc@.sends[i].dst_pid
                == pid)) implies {
        &&& r == Ok::<RecvBlock, u64>(RecvBlock::Done(ipc@.sends[k].msg))
        &&& final(ipc)@.recvs == ipc@.recvs
        &&& final(ipc)@.sends == ipc@.sends.remove(k)
    } by {
        law_receive_takes_first(ipc@, sched@, pid, src, sched@.current[hart as int], k);
        assert(final(ipc)@.sends =~= ipc@.sends.remove(k));
    }
}

/// Law: who sends to a process that waits for it hands the message to the first of its threads that
/// do, which wait no longer.
pub proof fn law_send_gives_to_first(
    procs: &ProcessTable,
    pid: usize,
    slot: usize,
    msg: [u64; MSG_WORDS],
    hart: usize,
    dst: usize,
    k: int,
    r: Result<SendBlock, u64>,
)
    requires
        cap_at(procs@, pid as int, slot as int) == Ok::<Cap, CapError>(Cap::Proc(dst)),
    ensures
        forall|ipc: &mut IpcState, sched: &mut Scheduler|
            (#[trigger] call_ensures(send, (ipc, sched, procs, pid, slot, msg, hart), r))
                && sched@.wf() && ipc@.in_step(sched@, None) && 0 <= k < ipc@.recvs.len()
                && ipc@.recvs[k].recver_pid == dst && ipc@.recvs[k].src_pid == pid && (forall|
                i: int,
            |
                0 <= i < k ==> !((#[trigger] ipc@.recvs[i]).recver_pid == dst
                    && ipc@.recvs[i].src_pid == pid)) ==> {
                &&& r == Ok::<SendBlock, u64>(SendBlock::Done)
                &&& final(ipc)@.sends == ipc@.sends
                &&& final(ipc)@.recvs == ipc@.recvs.remove(k)
                &&& final(sched)@.threads[ipc@.recvs[k].recver_tid as int].ipc_msg == Some(msg@)
            },
{
    assert forall|ipc: &mut IpcState, sched: &mut Scheduler|
        (#[trigger] call_ensures(send, (ipc, sched, procs, pid, slot, msg, hart), r)) && sched@.wf()
            && ipc@.in_step(sched@, None) && 0 <= k < ipc@.recvs.len() && ipc@.recvs[k].recver_pid
            == dst && ipc@.recvs[k].src_pid == pid && (forall|i: int|
            0 <= i < k ==> !((#[trigger] ipc@.recvs[i]).recver_pid == dst && ipc@.recvs[i].src_pid
                == pid)) implies {
        &&& r == Ok::<SendBlock, u64>(SendBlock::Done)
        &&& final(ipc)@.sends == ipc@.sends
        &&& final(ipc)@.recvs == ipc@.recvs.remove(k)
        &&& final(sched)@.threads[ipc@.recvs[k].recver_tid as int].ipc_msg == Some(msg@)
    } by {
        law_send_reaches_first(ipc@, sched@, pid, dst, sched@.current[hart as int], msg, k);
        assert(final(ipc)@.recvs =~= ipc@.recvs.remove(k));
    }
}

/// Law: after each byte but the last that a client asked for, the console server looks for the next;
/// after the last it answers with their number.
pub proof fn law_console_reads_all(n: u64, max: u64, r: UartNext)
    requires
        n < max,
    ensures
        forall|s: &mut UartServer|
            (#[trigger] call_ensures(UartServer::step, (s, UartEvent::Done), r)) && s.at
                == UartAt::Taking(n, max) ==> {
                &&& n + 1 < max ==> r == UartNext::Look && final(s).at == UartAt::Polling(
                    (n + 1) as u64,
                    max,
                )
                &&& n + 1 == max ==> final(s).at == UartAt::Answering && (r matches UartNext::Call(c)
                    && c.num == 3 && c.args.a0 == 0 && c.args.a1 == 0x82 && c.args.a2 == 0
                    && c.args.a3 == max)
            },
{
    assert(0x02u64 | 0x80u64 == 0x82u64) by (bit_vector);
}

/// Law: a file that was written is as long as before, or as the write reaches where that is more.
pub proof fn law_file_grows(fd: u64, offset: u64, len: u64, a5: u64, r: FsNext)
    requires
        fd < 4,
        offset < 4096,
        offset + len <= 4096,
    ensures
        forall|s: &mut FileServer|
            (#[trigger] call_ensures(FileServer::step, (s, asks(OP_FS_WRITE, fd, offset, len, a5)), r))
                && s@.wf() && s@.at == FsAt::Receiving && s@.files[fd as int].state
                == FileState::Open ==> {
                &&& final(s)@.files[fd as int].size >= s@.files[fd as int].size
                &&& final(s)@.files[fd as int].size >= offset + len
                &&& final(s)@.files[fd as int].size == s@.files[fd as int].size
                    || final(s)@.files[fd as int].size == offset + len
                &&& final(s)@.files[fd as int].name == s@.files[fd as int].name
            },
{
    assert forall|s: &mut FileServer|
        (#[trigger] call_ensures(FileServer::step, (s, asks(OP_FS_WRITE, fd, offset, len, a5)), r))
            && s@.wf() && s@.at == FsAt::Receiving && s@.files[fd as int].state
            == FileState::Open implies {
        &&& final(s)@.files[fd as int].size >= s@.files[fd as int].size
        &&& final(s)@.files[fd as int].size >= offset + len
        &&& final(s)@.files[fd as int].size == s@.files[fd as int].size
            || final(s)@.files[fd as int].size == offset + len
        &&& final(s)@.files[fd as int].name == s@.files[fd as int].name
    } by {
        law_write_replaces_bytes(s@, fd, offset, len, a5, |i: int| 0u8);
    }
}

/// Law: what the tree reserves is reserved: the tree itself and each entry of its map, from its
/// address on and as long as its size, and nothing else.
pub proof fn law_parse_reserves(f: &Fdt, p: BoardParams, n: int, x: int)
    requires
        call_ensures(Fdt::parse, (f,), p),
        f.wf(),
        f.fdt_addr != 0,
        map_has(f.data@, f.off_rsvmap as int, f.total_size as int, n),
        n <= 7,
        0 <= x < u64::MAX,
    ensures
        covered(p@.reserved, x) <==> (f.fdt_addr <= x < f.fdt_addr + f.total_size || exists|i: int|
            0 <= i < n && #[trigger] entry_has(f.data@, f.off_rsvmap as int, i, x)),
{
    law_tree_reserves(*f, n, x);
}

/// Law: a program that was loaded finds what its file holds at the addresses that its file names,
/// zero behind that, and starts where its file says.
pub proof fn law_load_shows_the_file(
    pid: usize,
    bytes: &[u8],
    args: &[&[u8]],
    p: LoadedElf,
    h: int,
    k: int,
)
    requires
        loads(bytes@, h),
        0 <= k < memory_bytes(bytes@, h),
    ensures
        forall|s: &mut Spaces|
            (#[trigger] call_ensures(
                load,
                (s, pid, bytes, args),
                Ok::<LoadedElf, ElfError>(p),
            )) && s.inv() ==> {
                &&& p.entry == number(bytes@, 24, 8)
                &&& p.argc == args@.len()
                &&& finds(
                    final(s).mem,
                    s.procs@[pid as int].root as int,
                    start(bytes@, h) + k,
                    if k < file_bytes(bytes@, h) {
                        bytes@[file_start(bytes@, h) + k]
                    } else {
                        0
                    },
                )
            },
{
    law_numbers_are_little_endian(bytes@, 24);
    assert forall|s: &mut Spaces|
        (#[trigger] call_ensures(load, (s, pid, bytes, args), Ok::<LoadedElf, ElfError>(p)))
            && s.inv() implies {
        &&& p.entry == number(bytes@, 24, 8)
        &&& p.argc == args@.len()
        &&& finds(
            final(s).mem,
            s.procs@[pid as int].root as int,
            start(bytes@, h) + k,
            if k < file_bytes(bytes@, h) {
                bytes@[file_start(bytes@, h) + k]
            } else {
                0
            },
        )
    } by {
        let root = s.procs@[pid as int].root as int;
        let (image, pas) = choose|image: Seq<u8>, pas: Seq<int>| #[trigger]
            crate::elf::loaded(final(s).mem, s.mem, root, bytes@, args@, image, pas);
        assert(s.alive(pid as int));
        assert(s.mem.is_root(root)) by {
            reveal(Spaces::isolated);
        }
        law_program_finds_its_file(final(s).mem, s.mem, root, bytes@, args@, image, pas, h, k);
    }
}

/// Law: a file is taken for a program exactly where nothing is wrong with it, and its entry is the
/// number that its header holds.
pub proof fn law_parse_takes_programs(bytes: &[u8], r: Result<ElfInfo, ElfError>)
    requires
        call_ensures(parse, (bytes,), r),
    ensures
        r is Ok <==> parse_error(bytes@) is None,
        r matches Err(e) ==> parse_error(bytes@) == Some(e),
        r matches Ok(i) ==> i.entry == number(bytes@, 24, 8),
{
    law_numbers_are_little_endian(bytes@, 24);
}

/// Law: a thread that gives way goes behind all others of its priority; the core runs the thread that
/// comes next, and the stacks of threads that have ended are to be freed.
pub proof fn law_yield_gives_way(hart: usize, r: (SwitchTarget, Vec<u64>), l: int, k: int)
    requires
        hart < 4,
    ensures
        forall|s: &mut Scheduler|
            (#[trigger] call_ensures(Scheduler::yield_, (s, hart), r)) && s@.wf() && comes_next(
                given_way(s@, hart as int),
                hart as int,
                true,
                l,
                k,
            ) ==> {
                &&& runs(final(s)@, given_way(s@, hart as int), hart as int, l, k)
                &&& r.0.old == s@.current[hart as int]
                &&& r.0.new == final(s)@.current[hart as int]
                &&& r.0.next_root == final(s)@.threads[r.0.new as int].root
                &&& r.1@ == s@.reaper
                &&& final(s)@.reaper.len() == 0
            },
{
    assert forall|s: &mut Scheduler|
        (#[trigger] call_ensures(Scheduler::yield_, (s, hart), r)) && s@.wf() && comes_next(
            given_way(s@, hart as int),
            hart as int,
            true,
            l,
            k,
        ) implies {
        &&& runs(final(s)@, given_way(s@, hart as int), hart as int, l, k)
        &&& r.0.old == s@.current[hart as int]
        &&& r.0.new == final(s)@.current[hart as int]
        &&& r.0.next_root == final(s)@.threads[r.0.new as int].root
        &&& r.1@ == s@.reaper
        &&& final(s)@.reaper.len() == 0
    } by {
        law_yield_takes_turns(s@, hart as int, l, k);
    }
}

/// Law: the scheduler does to its threads what blocking, ending, ticking and waking are, and tells
/// who comes next, and which core has to learn of it.
pub proof fn law_scheduler_calls(
    hart: usize,
    id: usize,
    frame: &[u64; TRAP_FRAME_WORDS],
    b: Option<SwitchTarget>,
    e: SwitchTarget,
    t: Option<usize>,
    w: Option<usize>,
)
    requires
        hart < 4,
    ensures
        forall|s: &mut Scheduler| #[trigger]
            call_ensures(Scheduler::block_current, (s, hart), b) ==> {
                let c = s@.current[hart as int];
                &&& final(s)@ == s@.blocked(hart as int)
                &&& b is None <==> s@.threads[c as int].woken
                &&& b matches Some(x) ==> x.old == c && x.new == final(s)@.current[hart as int]
            },
        forall|s: &mut Scheduler| #[trigger]
            call_ensures(Scheduler::exit, (s, hart), e) ==> final(s)@ == s@.exited(hart as int)
                && e.old == s@.current[hart as int] && e.new == final(s)@.current[hart as int],
        forall|s: &mut Scheduler| #[trigger]
            call_ensures(Scheduler::on_tick, (s, frame, hart), t) ==> (final(s)@, t) == s@.ticked(
                hart as int,
                frame@,
                s.image().global_pointer,
            ),
        forall|s: &mut Scheduler| #[trigger]
            call_ensures(Scheduler::wake, (s, id, hart), w) ==> final(s)@ == s@.awoken(id) && w
                == s@.awoken_ipi(id, hart as int),
{
}

/// Law: a system call, a trap and the end of a process that faulted do what they are for.
pub proof fn law_kernel_calls(
    hart: usize,
    ticks: u64,
    scause: u64,
    r: Reply,
    x: TrapExit,
    t: SwitchTarget,
)
    ensures
        forall|k: &mut Kernel, f: &mut [u64; TRAP_FRAME_WORDS]| #[trigger]
            call_ensures(handle, (k, f, hart, ticks), r) ==> handled(
                *final(k),
                *k,
                f@,
                final(f)@,
                r,
                hart as int,
                ticks,
            ),
        forall|k: &mut Kernel, f: &mut [u64; TRAP_FRAME_WORDS]| #[trigger]
            call_ensures(trap_handler, (k, f, scause, hart, ticks), x) ==> trapped(
                *final(k),
                *k,
                f@,
                final(f)@,
                x,
                scause,
                hart as int,
                ticks,
            ),
        forall|k: &mut Kernel| #[trigger]
            call_ensures(kill_current_process, (k, hart), t) ==> kill_effect(
                *final(k),
                *k,
                hart as int,
                t,
            ),
{
}

/// Law: the memory server and the programs that try the servers out go on as they should.
pub proof fn law_programs_go_on(b: Words, c: Call, n: BorrowNext, t: TrialNext)
    ensures
        forall|s: &mut MemoryServer| #[trigger]
            call_ensures(MemoryServer::step, (s, b), c) ==> (final(s).full@, final(s).at, c)
                == memory_next(s.full@, s.at, b),
        forall|s: &mut Borrower| #[trigger]
            call_ensures(Borrower::step, (s, b), n) ==> (final(s).at, n) == borrow_next(
                s.at,
                b,
                s.argc,
            ) && final(s).argc == s.argc,
        forall|s: &mut FileTrial| #[trigger]
            call_ensures(FileTrial::step, (s, b), t) ==> (final(s).at, final(s).fd, t) == trial_next(
                s.at,
                s.fd,
                s.argc,
                b,
            ) && final(s).argc == s.argc,
{
}

/// Law: pages that are handed out are the caller's until they are given back; what was not handed out
/// is not taken back, and a refusal changes nothing.
pub proof fn law_pages_are_handed_out(
    order: usize,
    addr: u64,
    r: Option<u64>,
    g: Result<(), ()>,
)
    ensures
        forall|a: &mut BuddyAllocator| #[trigger]
            call_ensures(alloc_pages, (a, order), r) ==> {
                &&& r is Some <==> order <= 12 && exists|k: int|
                    order <= k <= 12 && (#[trigger] a@.lists[k]).len() > 0
                &&& r is None ==> final(a)@ == a@
                &&& r matches Some(p) ==> final(a)@.allocated(p as int, order as int) && final(a)@
                    == a@.after_alloc(order as int)
            },
        forall|a: &mut BuddyAllocator| #[trigger]
            call_ensures(free_pages, (a, addr), g) && a@.base % 4096 == 0 ==> {
                &&& g is Ok <==> exists|o: int| #[trigger] a@.allocated(addr as int, o)
                &&& g is Err ==> final(a)@ == a@
                &&& g is Ok ==> forall|o: int| !#[trigger] final(a)@.allocated(addr as int, o)
            },
{
    assert forall|a: &mut BuddyAllocator| #[trigger]
        call_ensures(alloc_pages, (a, order), r) implies (r is Some <==> order <= 12 && exists|k: int|
            order <= k <= 12 && (#[trigger] a@.lists[k]).len() > 0) by {
        if order <= 12 {
            crate::mem::lemma_first_fit(a@.lists, order as int);
            let from = crate::mem::first_fit(a@.lists, order as int);
            if from <= 12 {
                assert(a@.lists[from].len() > 0);
            }
        }
    }
    assert forall|a: &mut BuddyAllocator| #[trigger]
        call_ensures(free_pages, (a, addr), g) && a@.base % 4096 == 0 implies {
        &&& g is Ok <==> exists|o: int| #[trigger] a@.allocated(addr as int, o)
        &&& g is Ok ==> forall|o: int| !#[trigger] final(a)@.allocated(addr as int, o)
    } by {
        crate::memory_laws::law_blocks_can_be_freed(a@, addr as int);
    }
}

/// Law: an object of the heap is aligned, was not handed out before, and has room for all its bytes.
/// Every object that was handed out stays so.
pub proof fn law_objects_are_handed_out(size: u64, align: u64, r: Result<u64, HeapError>)
    requires
        size > 0,
    ensures
        forall|h: &mut KernelHeap, f: &mut BuddyAllocator|
            (#[trigger] call_ensures(KernelHeap::alloc_object, (h, f, size, align), r)) ==> {
                &&& r matches Ok(p) ==> {
                    &&& p as int % align as int == 0
                    &&& exists|hi: int| #[trigger]
                        final(h)@.owns(final(f)@, p as int, hi) && p + size <= hi
                    &&& forall|hi: int| !#[trigger] h@.owns(f@, p as int, hi)
                }
                &&& forall|lo: int, hi: int| #[trigger]
                    h@.owns(f@, lo, hi) ==> final(h)@.owns(final(f)@, lo, hi)
            },
{
}

/// Law: a slot that was given a process, a copy or nothing holds that and nothing else; every other
/// slot of every process stays. A slot that cannot be, and a process that is not there, are refused
/// and nothing changes.
pub proof fn law_slots_are_written(
    pid: usize,
    slot: usize,
    to: usize,
    target: usize,
    r: Result<(), CapError>,
)
    ensures
        forall|t: &mut ProcessTable| #[trigger]
            call_ensures(grant_cap, (t, pid, slot, target), r) ==> wrote(
                final(t)@,
                t@,
                pid as int,
                slot as int,
                Some(Cap::Proc(target)),
                r,
            ),
        forall|t: &mut ProcessTable| #[trigger]
            call_ensures(clear_cap, (t, pid, slot), r) ==> wrote(
                final(t)@,
                t@,
                pid as int,
                slot as int,
                None,
                r,
            ),
        forall|t: &mut ProcessTable| #[trigger]
            call_ensures(cap_duplicate, (t, pid, slot, to), r) && r is Ok ==> {
                &&& slot < 8
                &&& t@[pid as int].caps[slot as int] is Some
                &&& !(t@[pid as int].caps[slot as int] matches Some(Cap::Page(_)))
                &&& wrote(
                    final(t)@,
                    t@,
                    pid as int,
                    to as int,
                    t@[pid as int].caps[slot as int],
                    r,
                )
            },
{
}

/// A slot of a process was written where that can be.
pub open spec fn wrote(
    t: Map<int, ProcView>,
    before: Map<int, ProcView>,
    pid: int,
    slot: int,
    cap: Option<Cap>,
    r: Result<(), CapError>,
) -> bool {
    &&& slot >= 8 ==> r == Err::<(), CapError>(CapError::InvalidSlot)
    &&& slot < 8 && !before.dom().contains(pid) ==> r == Err::<(), CapError>(CapError::NotFound)
    &&& slot < 8 && before.dom().contains(pid) ==> r is Ok
    &&& r is Err ==> t == before
    &&& r is Ok ==> {
        &&& forall|i: int| #[trigger] t.dom().contains(i) <==> before.dom().contains(i)
        &&& forall|i: int| before.dom().contains(i) && i != pid ==> #[trigger] t[i] == before[i]
        &&& t[pid].root == before[pid].root
        &&& t[pid].caps == before[pid].caps.update(slot, cap)
    }
}

/// Law: pages are shared, handed over, mapped and given up, devices mapped and services connected as
/// the system calls of that name say.
pub proof fn law_table_functions(
    a: usize,
    b: usize,
    c: usize,
    d: usize,
    len: u64,
    e: Result<(), u64>,
    id: Result<usize, u64>,
    g: Result<(), CapError>,
    services: &ServiceTable,
)
    ensures
        forall|s: &mut Spaces| #[trigger]
            call_ensures(mmap_share, (s, a, b, c, len), id) ==> share_effect(
                *final(s),
                *s,
                a,
                b,
                c,
                len,
                id,
            ),
        forall|s: &mut Spaces| #[trigger]
            call_ensures(mem_grant, (s, a, b, c, d), e) ==> grant_effect(
                *final(s),
                *s,
                a,
                b,
                c,
                d,
                e,
            ),
        forall|s: &mut Spaces| #[trigger]
            call_ensures(mem_map, (s, a, b, len), e) ==> map_effect(*final(s), *s, a, b, len, e),
        forall|s: &mut Spaces| #[trigger]
            call_ensures(cap_revoke, (s, a, b), g) ==> revoke_effect(*final(s), *s, a, b, g),
        forall|t: &mut DeviceTable, s: &mut Spaces, base: u64| #[trigger]
            call_ensures(crate::device::map, (t, s, base, a, b, len), e) ==> device_effect(
                final(t)@,
                *final(s),
                t@,
                *s,
                base,
                a,
                b,
                len,
                e,
            ),
        forall|p: &mut ProcessTable| #[trigger]
            call_ensures(connect, (services, p, a, b, c, d), e) ==> connect_effect(
                services@,
                final(p)@,
                p@,
                a,
                b,
                c,
                d,
                e,
            ),
{
}

/// Law: a new process has a number of its own, eight empty slots, and an address space in which it
/// sees nothing; the others keep their slots.
pub proof fn law_new_process_is_bare(l: &KernelLayout, pid: usize, v: int)
    requires
        l.wf(),
        0 <= v < 0x40_0000_0000,
        v % 4096 == 0,
    ensures
        forall|s: &mut Spaces| #[trigger]
            call_ensures(create, (s, l), Ok::<usize, ()>(pid)) && s.inv() ==> {
                &&& final(s).procs@.dom() == s.procs@.dom().insert(pid as int)
                &&& final(s).procs@[pid as int].caps.len() == 8
                &&& forall|i: int|
                    0 <= i < 8 ==> #[trigger] final(s).procs@[pid as int].caps[i] is None
                &&& forall|i: int|
                    s.procs@.dom().contains(i) && i != pid ==> #[trigger] final(s).procs@[i]
                        == s.procs@[i]
                &&& final(s).sees(pid as int, v) is None
            },
{
    assert forall|s: &mut Spaces| #[trigger]
        call_ensures(create, (s, l), Ok::<usize, ()>(pid)) && s.inv() implies final(s).sees(
        pid as int,
        v,
    ) is None by {
        law_kernel_closed_to_user(*l, v);
        let root = final(s).procs@[pid as int].root as int;
        assert(lookup(final(s).mem.ram, root, v) == l.kernel_map(v));
    }
}

/// Law: threads are started, moved and ended as asked: a kernel thread and a program take the next
/// entry, a thread is moved to the core that was named, or the last, and the threads of a process
/// end but for the one that runs.
pub proof fn law_threads_come_and_go(
    procs: &ProcessTable,
    pid: usize,
    a: u64,
    b: u64,
    argc: u64,
    argv: u64,
    prio: u8,
    hart: usize,
    id: usize,
)
    ensures
        forall|s: &mut Scheduler| #[trigger]
            call_ensures(Scheduler::spawn, (s, a, prio, b, hart), id) ==> final(s)@ == s@.started(
                kernel_thread(s.image(), a, prio, b, hart),
            ) && id == s@.next_slot(),
        forall|s: &mut Scheduler| #[trigger]
            call_ensures(
                Scheduler::spawn_user_args,
                (s, procs, pid, a, b, argc, argv, prio, hart),
                id,
            ) ==> final(s)@ == s@.started(
                with_args(
                    user_thread(s.image(), procs@[pid as int].root, pid, a, b, prio, hart),
                    argc,
                    argv,
                ),
            ) && id == s@.next_slot(),
        forall|s: &mut Scheduler| #[trigger]
            call_ensures(Scheduler::set_affinity, (s, id, hart), ()) ==> final(s)@ == s@.moved(
                id,
                last_core(hart),
            ),
        forall|s: &mut Scheduler| #[trigger]
            call_ensures(Scheduler::kill_threads, (s, pid, hart), ()) ==> final(s)@ == s@.killed(
                pid,
                hart as int,
            ),
        forall|i: &mut IpcState, s: &mut Scheduler| #[trigger]
            call_ensures(purge_process, (i, s, pid), ()) ==> (final(i)@, final(s)@) == purged(
                i@,
                s@,
                pid,
            ),
{
}

} // verus!
