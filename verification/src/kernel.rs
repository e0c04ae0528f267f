//! The kernel's tables, taken together.

use vstd::prelude::*;
use crate::arch::gpr::{X_A0, X_A7};
use crate::arch::{FRAME_SSTATUS, MAX_HARTS, TRAP_FRAME_WORDS};
use crate::device::{DeviceTable, MAX_DEVICES};
use crate::ipc::{
    law_messages_keep_prios, law_purged_is_forgotten, lemma_purged, purge_process, purged,
    recv_source, send_target, IpcState, IpcView, MSG_WORDS,
};
use crate::process::{destroy, gone, law_ended_process_leaves_nothing, shares_root};
use crate::runqueue::{SchedView, ThreadState};
use crate::sched::{target_of, Scheduler, SwitchTarget};
use crate::sched_laws::{law_levels_killed, lemma_killed_others};
use crate::sched_steps::law_switching_keeps_prios;
use crate::services::{ServiceTable, MAX_SERVICES};
use crate::shm::SHM_VA;
use crate::space::{page_addr, Spaces};
use crate::syscall::{
    handle, handled, index_of, lemma_some_message, message, Reply, SYSCALL_EXIT, SYSCALL_IPC_RECV,
    SYSCALL_IPC_SEND,
};

verus! {

/// The state of the kernel.
pub struct Kernel {
    pub spaces: Spaces,
    pub devices: DeviceTable,
    pub services: ServiceTable,
    pub ipc: IpcState,
    pub sched: Scheduler,
    /// Registers of the serial device.
    pub uart_base: u64,
    /// How many processes were killed because of a fault.
    pub kills: u64,
}

impl Kernel {
    /// What every operation keeps.
    pub open spec fn inv(&self) -> bool {
        &&& self.spaces.inv()
        &&& self.sched.wf()
        &&& self.ipc@.in_step(self.sched@, None)
    }

    /// The serial device is not in the memory that the kernel hands out.
    pub open spec fn device_apart(&self) -> bool {
        &&& self.uart_base < crate::ram::PHYS_LIMIT
        &&& !(self.spaces.mem.frames@.base <= self.uart_base < self.spaces.mem.frames@.addr(
            self.spaces.mem.frames@.pages,
        ))
    }

    /// Priorities are in order: every thread in a queue stands where its priority puts it, and a
    /// thread lends its priority only while it is blocked, so what a core runs has lent nothing.
    pub open spec fn prios_ok(&self) -> bool {
        self.sched@.prios_ok()
    }

    /// The thread that a core runs.
    pub open spec fn running(&self, hart: int) -> usize {
        self.sched@.current[hart]
    }

    /// The process of the thread that a core runs.
    pub open spec fn caller(&self, hart: int) -> Option<usize> {
        self.sched@.threads[self.running(hart) as int].proc_id
    }

    /// Everything but messages and threads is as before.
    pub open spec fn same_tables(&self, before: &Kernel) -> bool {
        &&& self.spaces == before.spaces
        &&& self.devices@ == before.devices@
        &&& self.services@ == before.services@
        &&& self.uart_base == before.uart_base
        &&& self.kills == before.kills
    }

    /// Messages and threads are as before.
    pub open spec fn same_threads(&self, before: &Kernel) -> bool {
        &&& self.ipc@ == before.ipc@
        &&& self.sched@ == before.sched@
        &&& self.sched.image() == before.sched.image()
        &&& self.uart_base == before.uart_base
        &&& self.kills == before.kills
    }

    /// Nothing of the tables changed but the slots of processes.
    pub open spec fn same_but_slots(&self, before: &Kernel) -> bool {
        &&& self.spaces.mem == before.spaces.mem
        &&& self.spaces.shms == before.spaces.shms
        &&& self.spaces.pages == before.spaces.pages
        &&& self.devices@ == before.devices@
        &&& self.services@ == before.services@
    }

    /// Nothing changed.
    pub open spec fn unchanged(&self, before: &Kernel) -> bool {
        self.same_tables(before) && self.same_threads(before)
    }

    /// A thread that belongs to a process is not an idle thread.
    pub proof fn lemma_caller(&self, hart: int)
        requires
            self.inv(),
            0 <= hart < MAX_HARTS,
            self.caller(hart) is Some,
        ensures
            MAX_HARTS <= self.running(hart) < self.sched@.threads.len(),
            self.sched@.threads[self.running(hart) as int].state == ThreadState::Running,
            self.sched@.threads[self.running(hart) as int].hart == hart,
    {
        let c = self.sched@.current[hart];
        let t = self.sched@.threads[c as int];
    }
}

impl Kernel {
    /// Root table of the kernel's own address space.
    pub fn kernel_root(&self) -> (r: u64)
        ensures
            r == self.sched.image().kernel_root,
    {
        self.sched.image_of().kernel_root
    }

    /// How many processes were killed because of a fault.
    pub fn fault_kill_count(&self) -> (r: u64)
        ensures
            r == self.kills,
    {
        self.kills
    }
}

/// What becomes of the tables when a process goes.
pub open spec fn destroyed(k: Kernel, b: Kernel, pid: usize) -> bool {
    if b.spaces.alive(pid as int) {
        &&& gone(k.spaces, b.spaces, pid)
        &&& k.devices@.len() == MAX_DEVICES
        &&& forall|i: int|
            0 <= i < MAX_DEVICES ==> #[trigger] k.devices@[i] == (match b.devices@[i] {
                Some((owner, at)) => if owner == pid {
                    None
                } else {
                    b.devices@[i]
                },
                None => None,
            })
        &&& k.services@.len() == MAX_SERVICES
        &&& forall|i: int|
            0 <= i < MAX_SERVICES ==> #[trigger] k.services@[i] == (if b.services@[i] == Some(pid) {
                None
            } else {
                b.services@[i]
            })
    } else {
        &&& k.spaces == b.spaces
        &&& k.devices@ == b.devices@
        &&& k.services@ == b.services@
    }
}

/// What killing the process of the thread that core `h` runs does: those who wait for it learn
/// that it is gone, its threads end, and everything that it had is taken away. Another thread
/// takes over.
pub open spec fn kill_effect(k: Kernel, b: Kernel, h: int, r: SwitchTarget) -> bool {
    let pid = b.caller(h)->0;
    let (v, s) = purged(b.ipc@, b.sched@, pid);
    &&& k.ipc@ == v
    &&& k.sched@ == s.killed(pid, h).exited(h)
    &&& k.sched.image() == b.sched.image()
    &&& r == target_of(k.sched@, b.running(h), k.running(h))
    &&& destroyed(k, b, pid)
    &&& k.uart_base == b.uart_base
    &&& k.kills == b.kills.wrapping_add(1)
}

/// A process is gone, and its threads with it; the threads of other processes wait as before.
proof fn lemma_wait_on(v: IpcView, s: SchedView, pid: usize, h: int)
    requires
        s.wf(),
        0 <= h < MAX_HARTS,
        s.current[h] >= MAX_HARTS,
        v.in_step(s, None),
        forall|k: int| 0 <= k < v.sends.len() ==> (#[trigger] v.sends[k]).sender_pid != pid,
        forall|k: int| 0 <= k < v.recvs.len() ==> (#[trigger] v.recvs[k]).recver_pid != pid,
    ensures
        v.in_step(s.killed(pid, h).exited(h), None),
{
    let a = s.killed(pid, h);
    let w = a.exited(h);
    lemma_killed_others(s, pid, h);
    a.lemma_exited_threads(h);
    assert forall|k: int| 0 <= k < v.sends.len() implies IpcView::stopped(
        w,
        None,
        (#[trigger] v.sends[k]).sender_tid,
        v.sends[k].sender_pid,
    ) by {
        let x = v.sends[k].sender_tid;
        assert(IpcView::stopped(s, None, v.sends[k].sender_tid, v.sends[k].sender_pid));
        assert(!s.owned(pid, x));
        assert(a.threads[x as int] == s.threads[x as int]);
        assert(w.threads[x as int].state == ThreadState::Blocked);
    }
    assert forall|k: int| 0 <= k < v.recvs.len() implies IpcView::stopped(
        w,
        None,
        (#[trigger] v.recvs[k]).recver_tid,
        v.recvs[k].recver_pid,
    ) by {
        let x = v.recvs[k].recver_tid;
        assert(IpcView::stopped(s, None, v.recvs[k].recver_tid, v.recvs[k].recver_pid));
        assert(!s.owned(pid, x));
        assert(a.threads[x as int] == s.threads[x as int]);
        assert(w.threads[x as int].state == ThreadState::Blocked);
    }
}

/// The running thread keeps its process when those who wait in vain are resumed.
proof fn lemma_purge_keeps_running(v: IpcView, s: SchedView, pid: usize, h: int)
    requires
        s.wf(),
        0 <= h < MAX_HARTS,
        v.in_step(s, None),
    ensures
        purged(v, s, pid).1.current == s.current,
        purged(v, s, pid).1.threads.len() == s.threads.len(),
{
    lemma_purged(v, s, pid);
}

/// Kill the process of the thread that a core runs, because it faulted. The core must not run in
/// the address space of the process, which is taken away.
pub fn kill_current_process(k: &mut Kernel, hart: usize) -> (r: SwitchTarget)
    requires
        old(k).inv(),
        hart < MAX_HARTS,
        old(k).caller(hart as int) is Some,
    ensures
        final(k).inv(),
        kill_effect(*final(k), *old(k), hart as int, r),
{
    let ghost b = *k;
    let ghost h = hart as int;
    proof {
        b.lemma_caller(h);
    }
    let pid: usize = k.sched.current_proc(hart);
    k.kills = k.kills.wrapping_add(1);
    proof {
        lemma_purge_keeps_running(b.ipc@, b.sched@, pid, h);
        law_purged_is_forgotten(b.ipc@, b.sched@, pid);
    }
    purge_process(&mut k.ipc, &mut k.sched, pid);
    proof {
        lemma_wait_on(k.ipc@, k.sched@, pid, h);
        lemma_killed_others(k.sched@, pid, h);
    }
    k.sched.kill_threads(pid, hart);
    destroy(&mut k.spaces, &mut k.devices, &mut k.services, pid);
    k.sched.exit_from_trap(hart)
}

/// Interrupts have this bit set in `scause`.
pub const INTERRUPT: u64 = 0x8000_0000_0000_0000;

/// Interrupt of the timer.
pub const CAUSE_SUPERVISOR_TIMER: u64 = 5;

/// Interrupt by another core.
pub const CAUSE_SUPERVISOR_SOFTWARE: u64 = 1;

/// System call of a user program.
pub const CAUSE_ECALL_FROM_U: u64 = 8;

/// Bit of `sstatus` that is set when the trap came from the kernel.
pub const SSTATUS_SPP: u64 = 0x100;

/// Why the core is in the kernel.
#[derive(Debug, Clone, Copy, PartialEq, Eq, Structural)]
pub enum Trap {
    Timer,
    Software,
    Syscall,
    /// A user program did what it must not.
    UserFault,
    /// The kernel did what it must not, or an interrupt came that nobody handles.
    Fatal,
}

/// Why the core is in the kernel.
pub open spec fn trap_of(scause: u64, sstatus: u64) -> Trap {
    let from_kernel = sstatus & SSTATUS_SPP != 0;
    if scause >= INTERRUPT {
        if scause - INTERRUPT == CAUSE_SUPERVISOR_TIMER {
            Trap::Timer
        } else if scause - INTERRUPT == CAUSE_SUPERVISOR_SOFTWARE {
            Trap::Software
        } else {
            Trap::Fatal
        }
    } else if from_kernel {
        Trap::Fatal
    } else if scause == CAUSE_ECALL_FROM_U {
        Trap::Syscall
    } else {
        Trap::UserFault
    }
}

/// Why the core is in the kernel, from `scause` and `sstatus`.
pub fn classify(scause: u64, sstatus: u64) -> (r: Trap)
    ensures
        r == trap_of(scause, sstatus),
{
    if scause >= INTERRUPT {
        let code: u64 = scause - INTERRUPT;
        if code == CAUSE_SUPERVISOR_TIMER {
            Trap::Timer
        } else if code == CAUSE_SUPERVISOR_SOFTWARE {
            Trap::Software
        } else {
            Trap::Fatal
        }
    } else if sstatus & SSTATUS_SPP != 0 {
        Trap::Fatal
    } else if scause == CAUSE_ECALL_FROM_U {
        Trap::Syscall
    } else {
        Trap::UserFault
    }
}

/// What a core does at the end of a trap.
#[derive(Debug, Clone, Copy, PartialEq, Eq, Structural)]
pub enum TrapExit {
    /// Go on from the frame of the trap.
    Resume,
    /// Acknowledge the interrupt of another core, and go on.
    Acknowledge,
    /// Go on from the frame of another thread, in its address space: thread, root table.
    Frame(usize, u64),
    /// Switch to another thread.
    Switch(SwitchTarget),
    /// Write bytes of the program to the serial device, and go on: address, length.
    Write(u64, u64),
    /// Report what is wrong, and stop.
    Halt,
}

/// What a trap does.
pub open spec fn trapped(
    k: Kernel,
    b: Kernel,
    f: Seq<u64>,
    g: Seq<u64>,
    r: TrapExit,
    scause: u64,
    h: int,
    ticks: u64,
) -> bool {
    match trap_of(scause, f[FRAME_SSTATUS as int]) {
        Trap::Timer => {
            let (s, next) = b.sched@.ticked(h, f, b.sched.image().global_pointer);
            &&& k.sched@ == s
            &&& k.sched.image() == b.sched.image()
            &&& k.ipc@ == b.ipc@
            &&& k.same_tables(&b)
            &&& g == f
            &&& r == match next {
                Some(id) => TrapExit::Frame(id, s.threads[id as int].root),
                None => TrapExit::Resume,
            }
        },
        Trap::Software => r == TrapExit::Acknowledge && g == f && k.unchanged(&b),
        Trap::Fatal => r == TrapExit::Halt && g == f && k.unchanged(&b),
        Trap::UserFault => {
            &&& g == f
            &&& r is Switch
            &&& kill_effect(k, b, h, r->Switch_0)
        },
        Trap::Syscall => if f[X_A7 as int] == SYSCALL_EXIT {
            &&& g == f
            &&& k.same_tables(&b)
            &&& k.ipc@ == b.ipc@
            &&& k.sched@ == b.sched@.exited(h)
            &&& k.sched.image() == b.sched.image()
            &&& r == TrapExit::Switch(target_of(k.sched@, b.running(h), k.running(h)))
        } else {
            match r {
                TrapExit::Resume => handled(k, b, f, g, Reply::Resume, h, ticks),
                TrapExit::Switch(t) => handled(k, b, f, g, Reply::Switch(t), h, ticks),
                TrapExit::Write(buf, len) => handled(k, b, f, g, Reply::Write(buf, len), h, ticks),
                _ => false,
            }
        },
    }
}

/// Handle a trap of a core, given its cause and the frame with the registers of what it ran. Where
/// a user program faulted, the core must have left its address space.
pub fn trap_handler(
    k: &mut Kernel,
    frame: &mut [u64; TRAP_FRAME_WORDS],
    scause: u64,
    hart: usize,
    ticks: u64,
) -> (r: TrapExit)
    requires
        old(k).inv(),
        old(k).device_apart(),
        hart < MAX_HARTS,
        ({
            let t = trap_of(scause, old(frame)@[FRAME_SSTATUS as int]);
            t == Trap::Syscall || t == Trap::UserFault ==> old(k).caller(hart as int) is Some
        }),
    ensures
        final(k).inv(),
        final(k).device_apart(),
        old(k).prios_ok() ==> final(k).prios_ok(),
        trapped(*final(k), *old(k), old(frame)@, final(frame)@, r, scause, hart as int, ticks),
{
    let ghost b = *k;
    let ghost h = hart as int;
    let ghost f = frame@;
    let r: TrapExit = match classify(scause, frame[FRAME_SSTATUS]) {
        Trap::Timer => {
            proof {
                b.sched@.lemma_ticked_threads(h, f, b.sched.image().global_pointer);
                let w = b.sched@.ticked(h, f, b.sched.image().global_pointer).0;
                b.ipc@.lemma_in_step(b.sched@, w, None);
                b.sched@.lemma_ticked(h, f, b.sched.image().global_pointer);
            }
            match k.sched.on_tick(frame, hart) {
                Some(id) => {
                    proof {
                        assert(k.sched@.current[h] == id);
                    }
                    TrapExit::Frame(id, k.sched.thread(id).root)
                },
                None => TrapExit::Resume,
            }
        },
        Trap::Software => TrapExit::Acknowledge,
        Trap::Fatal => TrapExit::Halt,
        Trap::UserFault => TrapExit::Switch(kill_current_process(k, hart)),
        Trap::Syscall => match handle(k, frame, hart, ticks) {
            Reply::Resume => TrapExit::Resume,
            Reply::Switch(t) => TrapExit::Switch(t),
            Reply::Write(buf, len) => TrapExit::Write(buf, len),
            Reply::Exit => {
                proof {
                    b.lemma_caller(h);
                    lemma_some_message(f);
                    k.sched@.lemma_exited_threads(h);
                    k.ipc@.lemma_in_step(k.sched@, k.sched@.exited(h), None);
                }
                TrapExit::Switch(k.sched.exit_from_trap(hart))
            },
        },
    };
    proof {
        if b.prios_ok() {
            law_traps_keep_prios(*k, b, f, frame@, r, scause, h, ticks);
        }
    }
    r
}

/// Law: whatever a trap does, priorities stay in order: the thread that a core takes next is always
/// the best that it can take, and what a core runs has lent nothing.
pub proof fn law_traps_keep_prios(
    k: Kernel,
    b: Kernel,
    f: Seq<u64>,
    g: Seq<u64>,
    r: TrapExit,
    scause: u64,
    h: int,
    ticks: u64,
)
    requires
        b.inv(),
        b.prios_ok(),
        0 <= h < MAX_HARTS,
        f.len() == TRAP_FRAME_WORDS,
        ({
            let t = trap_of(scause, f[FRAME_SSTATUS as int]);
            t == Trap::Syscall || t == Trap::UserFault ==> b.caller(h) is Some
        }),
        trapped(k, b, f, g, r, scause, h, ticks),
    ensures
        k.prios_ok(),
{
    let s = b.sched@;
    law_switching_keeps_prios(s, h, f, b.sched.image().global_pointer, 0);
    match trap_of(scause, f[FRAME_SSTATUS as int]) {
        Trap::Timer => {},
        Trap::Software => {},
        Trap::Fatal => {},
        Trap::UserFault => {
            let pid = b.caller(h)->0;
            b.lemma_caller(h);
            let m: [u64; MSG_WORDS] = [0, 0, 0, 0, 0];
            law_messages_keep_prios(b.ipc@, s, pid, 0, m, h, f);
            lemma_purged(b.ipc@, s, pid);
            let w = purged(b.ipc@, s, pid).1;
            law_levels_killed(w, pid, h);
            lemma_killed_others(w, pid, h);
            law_switching_keeps_prios(w.killed(pid, h), h, f, 0, 0);
        },
        Trap::Syscall => {
            b.lemma_caller(h);
            let n = f[X_A7 as int];
            let pid = b.caller(h)->0;
            let slot = index_of(f[X_A0 as int]) as int;
            if n == SYSCALL_IPC_SEND {
                lemma_some_message(f);
                let m = choose|m: [u64; MSG_WORDS]| #[trigger] m@ == message(f);
                if let Ok(dst) = send_target(b.spaces.procs@, pid as int, slot) {
                    law_messages_keep_prios(b.ipc@, s, pid, dst, m, h, f);
                }
            } else if n == SYSCALL_IPC_RECV {
                let m: [u64; MSG_WORDS] = [0, 0, 0, 0, 0];
                if let Ok(src) = recv_source(b.spaces.procs@, pid as int, slot) {
                    law_messages_keep_prios(b.ipc@, s, pid, src, m, h, f);
                }
            }
        },
    }
}

impl Kernel {
    /// The kernel when it has started: no process, and nobody who waits.
    pub fn new(spaces: Spaces, sched: Scheduler, uart_base: u64) -> (r: Kernel)
        requires
            spaces.inv(),
            sched.wf(),
        ensures
            r.inv(),
            r.spaces == spaces,
            r.sched == sched,
            r.uart_base == uart_base,
            r.kills == 0,
            r.ipc@.sends.len() == 0,
            r.ipc@.recvs.len() == 0,
            forall|i: int| 0 <= i < MAX_DEVICES ==> #[trigger] r.devices@[i] is None,
            forall|i: int| 0 <= i < MAX_SERVICES ==> #[trigger] r.services@[i] is None,
    {
        Kernel {
            spaces,
            devices: DeviceTable::new(),
            services: ServiceTable::new(),
            ipc: IpcState::new(),
            sched,
            uart_base,
            kills: 0,
        }
    }

    /// Whether the serial device is apart from the memory that the kernel hands out.
    pub fn is_device_apart(&self) -> (r: bool)
        requires
            self.inv(),
        ensures
            r == self.device_apart(),
    {
        self.uart_base < crate::ram::PHYS_LIMIT && !crate::mem::page_in_range(
            &self.spaces.mem.frames,
            self.uart_base,
        )
    }
}


/// Law: a process that is killed because of a fault is gone, whatever it offered is offered by
/// nobody, and the other processes stay, with what they offer. They see the pages that they saw,
/// with what is in them, but for one that they shared with the process.
pub proof fn law_fault_ends_one_process(
    k: Kernel,
    b: Kernel,
    h: int,
    r: SwitchTarget,
    j: int,
    id: int,
    v: int,
)
    requires
        b.inv(),
        k.inv(),
        0 <= h < MAX_HARTS,
        b.caller(h) is Some,
        kill_effect(k, b, h, r),
        0 <= id < MAX_SERVICES,
        b.spaces.alive(b.caller(h)->0 as int),
        page_addr(v),
    ensures
        !k.spaces.alive(b.caller(h)->0 as int),
        k.services@[id] != Some(b.caller(h)->0),
        b.spaces.alive(j) && j != b.caller(h)->0 ==> k.spaces.alive(j)
            && k.spaces.procs@[j].root == b.spaces.procs@[j].root,
        b.services@[id] != Some(b.caller(h)->0) ==> k.services@[id] == b.services@[id],
        k.kills == b.kills.wrapping_add(1),
        b.spaces.alive(j) && j != b.caller(h)->0 && !(v == SHM_VA && shares_root(
            b.spaces,
            b.caller(h)->0 as int,
            b.spaces.procs@[j].root as int,
        )) && b.spaces.sees(j, v) is Some ==> {
            let p = b.spaces.sees(j, v)->0;
            &&& k.spaces.sees(j, v) == Some(p)
            &&& forall|a: int|
                p <= a < p + 4096 && a % 8 == 0 ==> #[trigger] k.spaces.mem.ram.word(a)
                    == b.spaces.mem.ram.word(a)
        },
        forall|a: int|
            k.spaces.mem.ram.has(a) && !b.spaces.mem.is_pt(a - a % 4096)
                ==> #[trigger] k.spaces.mem.ram.word(a) == b.spaces.mem.ram.word(a),
{
    let pid = b.caller(h)->0;
    assert(gone(k.spaces, b.spaces, pid));
    if b.spaces.sees(j, v) is Some {
        law_ended_process_leaves_nothing(
            k.spaces,
            b.spaces,
            pid,
            b.spaces.sees(j, v)->0,
            0,
            j,
            v,
        );
    }
    if b.spaces.alive(j) && j != pid {
        assert(k.spaces.procs@.dom().contains(j));
        assert(k.spaces.procs@[j].root == b.spaces.procs@[j].root);
    }
}

} // verus!
