//! What system calls and traps are for: which call does what, where its arguments stand, and what
//! the program finds afterwards.

use vstd::prelude::*;
use crate::device::device_effect;
use crate::ipc::{received, recv_source, send_target, sent, RecvBlock, SendBlock, MSG_WORDS};
use crate::kernel::{kill_effect, trap_of, trapped, Kernel, Trap, TrapExit};
use crate::mmu::lookup;
use crate::pages::{alloc_page_error, grant_effect, map_effect};
use crate::process::{cap_errno_spec, gone, register_effect, shares_slot, CapError};
use crate::sched::SwitchTarget;
use crate::services::connect_effect;
use crate::shm::share_effect;
use crate::space::Spaces;
use crate::sv39::is_user;
use crate::syscall::{
    handled, index_of, message, Reply, SYS_ERR_EACCES, SYS_ERR_EBADF, SYS_ERR_EEXIST,
    SYS_ERR_EFAULT, SYS_ERR_EINVAL, SYS_ERR_ENOMEM,
};

verus! {

/// The program goes on behind its call, with `x` in `a0` and all other registers as they were.
pub open spec fn comes_back(g: Seq<u64>, f: Seq<u64>, x: u64) -> bool {
    &&& g.len() == 36
    &&& g[9] == x
    &&& g[33] == f[33].wrapping_add(4)
    &&& forall|i: int| 0 <= i < 36 && i != 9 && i != 33 ==> #[trigger] g[i] == f[i]
}

/// Nothing of the kernel's state changed.
pub open spec fn untouched(k: Kernel, b: Kernel) -> bool {
    &&& k.spaces == b.spaces
    &&& k.devices@ == b.devices@
    &&& k.services@ == b.services@
    &&& k.ipc@ == b.ipc@
    &&& k.sched@ == b.sched@
    &&& k.kills == b.kills
}

/// Law: call 1 ends the thread; call 2 tells the ticks; calls that there are not, 9 among them, are
/// refused. None of them changes anything else.
pub proof fn law_simple_calls(
    k: Kernel,
    b: Kernel,
    f: Seq<u64>,
    g: Seq<u64>,
    r: Reply,
    h: int,
    ticks: u64,
)
    requires
        f.len() == 36,
        handled(k, b, f, g, r, h, ticks),
    ensures
        f[16] == 1 ==> r == Reply::Exit && g == f && untouched(k, b),
        f[16] == 2 ==> r == Reply::Resume && comes_back(g, f, ticks) && untouched(k, b),
        f[16] == 0 || f[16] == 9 || f[16] > 14 ==> r == Reply::Resume && comes_back(g, f, u64::MAX)
            && untouched(k, b),
{
}

/// The bytes from `buf` on all lie in pages that are mapped for the user.
pub open spec fn all_mapped(b: Kernel, root: int, buf: int, len: int) -> bool {
    forall|p: int|
        buf / 4096 <= p <= (buf + len - 1) / 4096 ==> mapped_for_user(b, root, #[trigger] (p * 4096))
}

/// The address is mapped for the user.
pub open spec fn mapped_for_user(b: Kernel, root: int, va: int) -> bool {
    lookup(b.spaces.mem.ram, root, va) matches Some((level, e)) && is_user(e)
}

/// Law: call 8 writes the bytes that `a1` and `a2` name to file 1, all of them or none: at most 4096,
/// all of them the program's own; it tells how many these are. Nothing of the kernel changes.
pub proof fn law_write_call(
    k: Kernel,
    b: Kernel,
    f: Seq<u64>,
    g: Seq<u64>,
    r: Reply,
    h: int,
    ticks: u64,
)
    requires
        f.len() == 36,
        f[16] == 8,
        b.caller(h) is Some,
        b.spaces.alive(b.caller(h)->0 as int),
        handled(k, b, f, g, r, h, ticks),
    ensures
        ({
            let root = b.spaces.procs@[b.caller(h)->0 as int].root as int;
            let (fd, buf, len) = (f[9], f[10], f[11]);
            let own = len == 0 || (buf + len - 1 <= u64::MAX && all_mapped(
                b,
                root,
                buf as int,
                len as int,
            ));
            &&& untouched(k, b)
            &&& fd != 1 ==> r == Reply::Resume && comes_back(g, f, SYS_ERR_EBADF)
            &&& fd == 1 && len > 4096 ==> r == Reply::Resume && comes_back(g, f, SYS_ERR_EINVAL)
            &&& fd == 1 && len <= 4096 && !own ==> r == Reply::Resume && comes_back(
                g,
                f,
                SYS_ERR_EFAULT,
            )
            &&& fd == 1 && len <= 4096 && own ==> r == Reply::Write(buf, len) && comes_back(g, f, len)
        }),
{
    let root = b.spaces.procs@[b.caller(h)->0 as int].root as int;
    let (buf, len) = (f[10] as int, f[11] as int);
    assert(crate::syscall::readable(b.spaces, root, buf, len) <==> all_mapped(b, root, buf, len)) by {
        if crate::syscall::readable(b.spaces, root, buf, len) {
            assert forall|p: int| buf / 4096 <= p <= (buf + len - 1) / 4096 implies mapped_for_user(
                b,
                root,
                #[trigger] (p * 4096),
            ) by {
                assert(crate::syscall::user_at(b.spaces, root, p * 4096));
            }
        }
        if all_mapped(b, root, buf, len) {
            assert forall|p: int| buf / 4096 <= p <= (buf + len - 1) / 4096 implies crate::syscall::user_at(
                b.spaces,
                root,
                #[trigger] (p * 4096),
            ) by {
                assert(mapped_for_user(b, root, p * 4096));
            }
        }
    }
}

/// Law: call 3 sends the five words in `a1` to `a5`, in this order, through the slot in `a0`: who
/// takes them at once lets the program go on with 0 in `a0`; else the thread waits with its registers
/// as they are. A slot that cannot be sent through is refused, and nothing changes.
pub proof fn law_send_call(
    k: Kernel,
    b: Kernel,
    f: Seq<u64>,
    g: Seq<u64>,
    r: Reply,
    h: int,
    ticks: u64,
    m: [u64; MSG_WORDS],
)
    requires
        f.len() == 36,
        f[16] == 3,
        f[9] < 0xffff_ffff,
        b.caller(h) is Some,
        handled(k, b, f, g, r, h, ticks),
        forall|i: int| 0 <= i < 5 ==> #[trigger] m@[i] == f[10 + i],
    ensures
        k.spaces == b.spaces && k.devices@ == b.devices@ && k.services@ == b.services@,
        match send_target(b.spaces.procs@, b.caller(h)->0 as int, f[9] as int) {
            Err(e) => r == Reply::Resume && comes_back(g, f, e) && untouched(k, b),
            Ok(dst) => {
                let (v, s, done) = sent(
                    b.ipc@,
                    b.sched@,
                    b.caller(h)->0,
                    dst,
                    b.sched@.current[h],
                    m,
                );
                &&& k.ipc@ == v
                &&& done == SendBlock::Done ==> r == Reply::Resume && comes_back(g, f, 0) && k.sched@
                    == s
                &&& done == SendBlock::NoPeer ==> r is Switch && g == f && k.sched@
                    == s.user_blocked(h, f)
            },
        },
{
    assert(m@ =~= message(f));
}

/// Law: call 4 receives through the slot in `a0`: a message that waits is in `a1` to `a5`, in its
/// order, with 0 in `a0`; where none waits the thread waits with its registers as they are. A slot
/// that cannot be received through is refused, and nothing changes.
pub proof fn law_receive_call(
    k: Kernel,
    b: Kernel,
    f: Seq<u64>,
    g: Seq<u64>,
    r: Reply,
    h: int,
    ticks: u64,
)
    requires
        f.len() == 36,
        f[16] == 4,
        f[9] < 0xffff_ffff,
        b.caller(h) is Some,
        handled(k, b, f, g, r, h, ticks),
    ensures
        k.spaces == b.spaces && k.devices@ == b.devices@ && k.services@ == b.services@,
        match recv_source(b.spaces.procs@, b.caller(h)->0 as int, f[9] as int) {
            Err(e) => r == Reply::Resume && comes_back(g, f, e) && untouched(k, b),
            Ok(src) => {
                let (v, s, done) = received(
                    b.ipc@,
                    b.sched@,
                    b.caller(h)->0,
                    src,
                    b.sched@.current[h],
                );
                &&& k.ipc@ == v
                &&& match done {
                    RecvBlock::Done(m) => {
                        &&& r == Reply::Resume
                        &&& k.sched@ == s
                        &&& g.len() == 36
                        &&& g[9] == 0
                        &&& g[33] == f[33].wrapping_add(4)
                        &&& forall|i: int| 0 <= i < 5 ==> g[10 + i] == #[trigger] m@[i]
                        &&& forall|i: int|
                            0 <= i < 36 && !(9 <= i < 15) && i != 33 ==> #[trigger] g[i] == f[i]
                    },
                    RecvBlock::NoPeer => r is Switch && g == f && k.sched@ == s.user_blocked(h, f),
                }
            },
        },
{
}

/// What a call gives back where it gives no number: 0, or why it failed.
pub open spec fn outcome(x: u64) -> Result<(), u64> {
    if x == 0 {
        Ok(())
    } else {
        Err(x)
    }
}

/// Law: calls 5 and 10 to 14 take their arguments from `a0` to `a2`, in this order, on behalf of the
/// process that calls; the program finds the result in `a0` and goes on. Threads and messages stay,
/// and so do the tables that a call has nothing to do with.
pub proof fn law_table_calls(
    k: Kernel,
    b: Kernel,
    f: Seq<u64>,
    g: Seq<u64>,
    r: Reply,
    h: int,
    ticks: u64,
)
    requires
        f.len() == 36,
        5 <= f[16] <= 14,
        f[16] != 8 && f[16] != 9,
        f[9] < 0xffff_ffff && (f[16] != 14 && f[16] != 12 ==> f[10] < 0xffff_ffff) && (f[16] != 5
            ==> f[11] < 0xffff_ffff),
        b.caller(h) is Some,
        handled(k, b, f, g, r, h, ticks),
    ensures
        ({
            let pid = b.caller(h)->0;
            let (a, c, d) = (f[9] as usize, f[10] as usize, f[11] as usize);
            let x = g[9];
            &&& r == Reply::Resume
            &&& comes_back(g, f, x)
            &&& k.ipc@ == b.ipc@
            &&& k.sched@ == b.sched@
            &&& f[16] == 5 ==> {
                let ok = Ok::<usize, u64>(x as usize);
                &&& share_effect(k.spaces, b.spaces, pid, a, c, f[11], ok) || share_effect(
                    k.spaces,
                    b.spaces,
                    pid,
                    a,
                    c,
                    f[11],
                    Err(x),
                )
                &&& k.devices@ == b.devices@ && k.services@ == b.services@
            }
            &&& f[16] == 10 ==> register_effect(
                b.spaces.procs@,
                k.services@,
                b.services@,
                pid,
                a,
                outcome(x),
            ) && k.spaces == b.spaces && k.devices@ == b.devices@
            &&& f[16] == 11 ==> connect_effect(
                b.services@,
                k.spaces.procs@,
                b.spaces.procs@,
                pid,
                a,
                c,
                d,
                outcome(x),
            ) && k.spaces.mem == b.spaces.mem && k.devices@ == b.devices@ && k.services@
                == b.services@
            &&& f[16] == 12 ==> device_effect(
                k.devices@,
                k.spaces,
                b.devices@,
                b.spaces,
                b.uart_base,
                pid,
                a,
                f[10],
                outcome(x),
            ) && k.services@ == b.services@
            &&& f[16] == 13 ==> grant_effect(k.spaces, b.spaces, pid, a, c, d, outcome(x))
                && k.devices@ == b.devices@ && k.services@ == b.services@
            &&& f[16] == 14 ==> map_effect(k.spaces, b.spaces, pid, a, f[10], outcome(x))
                && k.devices@ == b.devices@ && k.services@ == b.services@
        }),
{
}

/// Law: a capability that is copied by call 7 stands in both slots afterwards, and 0 in `a0`; where
/// it cannot be copied no slot changes.
pub proof fn law_copy_call(
    k: Kernel,
    b: Kernel,
    f: Seq<u64>,
    g: Seq<u64>,
    r: Reply,
    h: int,
    ticks: u64,
)
    requires
        f.len() == 36,
        f[16] == 7,
        b.caller(h) is Some,
        b.spaces.alive(b.caller(h)->0 as int),
        b.spaces.procs@[b.caller(h)->0 as int].caps.len() == 8,
        handled(k, b, f, g, r, h, ticks),
    ensures
        ({
            let pid = b.caller(h)->0 as int;
            let was = b.spaces.procs@[pid].caps;
            let is = k.spaces.procs@[pid].caps;
            let fine = f[9] < 8 && f[10] < 8 && was[f[9] as int] is Some && !(
            was[f[9] as int]->0 is Page);
            &&& r == Reply::Resume
            &&& k.ipc@ == b.ipc@ && k.sched@ == b.sched@
            &&& k.spaces.mem == b.spaces.mem
            &&& comes_back(g, f, g[9])
            &&& g[9] == 0 <==> fine
            &&& !fine ==> k.spaces.procs@ == b.spaces.procs@
            &&& fine ==> {
                &&& is.len() == 8
                &&& is[f[10] as int] == was[f[9] as int]
                &&& forall|j: int| 0 <= j < 8 && j != f[10] ==> #[trigger] is[j] == was[j]
                &&& forall|i: int|
                    b.spaces.alive(i) && i != pid ==> #[trigger] k.spaces.procs@[i]
                        == b.spaces.procs@[i]
            }
        }),
{
}

/// Law: why a core is in the kernel: the timer, another core, a system call of a program, a fault of
/// a program, or something that must not be. A fault in the kernel is never taken for one of a
/// program.
pub proof fn law_traps_are_told_apart(scause: u64, sstatus: u64)
    ensures
        trap_of(scause, sstatus) == Trap::Timer <==> scause == 0x8000_0000_0000_0005,
        trap_of(scause, sstatus) == Trap::Software <==> scause == 0x8000_0000_0000_0001,
        trap_of(scause, sstatus) == Trap::Syscall <==> scause == 8 && sstatus & 0x100 == 0,
        trap_of(scause, sstatus) == Trap::UserFault <==> scause < 0x8000_0000_0000_0000 && scause
            != 8 && sstatus & 0x100 == 0,
{
}

/// Law: a tick of the timer goes on with the thread that takes over, in its address space, or with
/// what the core ran; another core's interrupt is acknowledged; what must not be stops the core; a
/// program that faults is ended, and the core goes on with another thread. None of this changes the
/// registers of what was interrupted.
pub proof fn law_traps_end(
    k: Kernel,
    b: Kernel,
    f: Seq<u64>,
    g: Seq<u64>,
    r: TrapExit,
    scause: u64,
    h: int,
    ticks: u64,
)
    requires
        trapped(k, b, f, g, r, scause, h, ticks),
    ensures
        ({
            let user = f[32] & 0x100 == 0;
            let next = b.sched@.ticked(h, f, b.sched.image().global_pointer);
            &&& scause == 0x8000_0000_0000_0005 ==> {
                &&& g == f
                &&& k.sched@ == next.0
                &&& k.spaces == b.spaces && k.ipc@ == b.ipc@
                &&& next.1 is None ==> r == TrapExit::Resume
                &&& next.1 is Some ==> r == TrapExit::Frame(
                    next.1->0,
                    k.sched@.threads[next.1->0 as int].root,
                )
            }
            &&& scause == 0x8000_0000_0000_0001 ==> r == TrapExit::Acknowledge && g == f
                && untouched(k, b)
            &&& scause > 0x8000_0000_0000_0001 && scause != 0x8000_0000_0000_0005 || scause
                == 0x8000_0000_0000_0000 || (scause < 0x8000_0000_0000_0000 && !user) ==> r
                == TrapExit::Halt && g == f && untouched(k, b)
            &&& scause < 0x8000_0000_0000_0000 && scause != 8 && user ==> {
                &&& g == f
                &&& r is Switch
                &&& kill_effect(k, b, h, r->Switch_0)
                &&& k.kills == b.kills.wrapping_add(1)
            }
            &&& scause == 8 && user && f[16] == 1 ==> {
                &&& g == f
                &&& r is Switch
                &&& k.sched@ == b.sched@.exited(h)
                &&& k.spaces == b.spaces && k.ipc@ == b.ipc@
            }
        }),
{
    law_traps_are_told_apart(scause, f[32]);
}

/// Law: a word that stands for a number of a slot or a service stands for itself where it can be
/// one, and for none where it is too large.
pub proof fn law_words_as_numbers(w: u64)
    ensures
        w < 0xffff_ffff ==> index_of(w) == w,
        w >= 0xffff_ffff ==> index_of(w) == 0xffff_ffff,
{
}

/// Law: of a process that was killed no device and no service is left, and those of others stay; its
/// slots are gone, and of the others' slots only those are emptied that shared a page with it.
pub proof fn law_killed_process_loses_all(k: Kernel, b: Kernel, h: int, r: SwitchTarget)
    requires
        kill_effect(k, b, h, r),
        b.caller(h) is Some,
        b.spaces.alive(b.caller(h)->0 as int),
    ensures
        ({
            let pid = b.caller(h)->0;
            &&& !k.spaces.procs@.dom().contains(pid as int)
            &&& forall|i: int|
                0 <= i < 8 ==> (#[trigger] k.devices@[i] matches Some((owner, at)) ==> owner != pid)
            &&& forall|i: int|
                0 <= i < 8 && (b.devices@[i] matches Some((owner, at)) && owner != pid)
                    ==> #[trigger] k.devices@[i] == b.devices@[i]
            &&& forall|i: int| 0 <= i < 8 ==> #[trigger] k.services@[i] != Some(pid)
            &&& forall|i: int|
                0 <= i < 8 && b.services@[i] != Some(pid) ==> #[trigger] k.services@[i]
                    == b.services@[i]
            &&& forall|i: int, s: int|
                i != pid && b.spaces.procs@.dom().contains(i) && 0 <= s < 8
                    ==> #[trigger] k.spaces.procs@[i].caps[s] == (if shared_through(
                    b.spaces,
                    pid,
                    i,
                    s,
                ) {
                    None
                } else {
                    b.spaces.procs@[i].caps[s]
                })
        }),
{
    let pid = b.caller(h)->0;
    assert(gone(k.spaces, b.spaces, pid));
    assert forall|i: int, s: int|
        i != pid && b.spaces.procs@.dom().contains(i) && 0 <= s < 8 implies #[trigger] k.spaces.procs@[i].caps[s]
        == (if shared_through(b.spaces, pid, i, s) {
        None
    } else {
        b.spaces.procs@[i].caps[s]
    }) by {
        assert(k.spaces.procs@.dom().contains(i));
        if shares_slot(b.spaces, pid as int, i, s) {
            let id = choose|id: int| #[trigger]
                b.spaces.owns_shm(id, pid as int) && ((b.spaces.shms@[id].a.0 == i
                    && b.spaces.shms@[id].a.1 == s) || (b.spaces.shms@[id].b.0 == i
                    && b.spaces.shms@[id].b.1 == s));
            assert(b.spaces.shms@.dom().contains(id));
        }
        if shared_through(b.spaces, pid, i, s) {
            let id = choose|id: int| #[trigger]
                b.spaces.shms@.dom().contains(id) && (b.spaces.shms@[id].a.0 == pid
                    || b.spaces.shms@[id].b.0 == pid) && ((b.spaces.shms@[id].a.0 == i
                    && b.spaces.shms@[id].a.1 == s) || (b.spaces.shms@[id].b.0 == i
                    && b.spaces.shms@[id].b.1 == s));
            assert(b.spaces.owns_shm(id, pid as int));
        }
    }
}

/// A page is shared by process `pid` and, through slot `s`, by process `i`.
pub open spec fn shared_through(x: Spaces, pid: usize, i: int, s: int) -> bool {
    exists|id: int| #[trigger]
        x.shms@.dom().contains(id) && (x.shms@[id].a.0 == pid || x.shms@[id].b.0 == pid) && ((
        x.shms@[id].a.0 == i && x.shms@[id].a.1 == s) || (x.shms@[id].b.0 == i && x.shms@[id].b.1
            == s))
}

/// Law: what a program is told of a capability: a slot that cannot be and one that holds something
/// else are a wrong argument, an empty slot grants nothing, and what is gone does not exist.
pub proof fn law_errors_are_told(e: CapError)
    ensures
        e == CapError::InvalidSlot || e == CapError::WrongType ==> cap_errno_spec(e)
            == 0xffff_ffff_ffff_ffff,
        e == CapError::NotFound ==> cap_errno_spec(e) == 0xffff_ffff_ffff_fffe,
        e == CapError::ShmNotFound || e == CapError::PageNotFound ==> cap_errno_spec(e)
            == 0xffff_ffff_ffff_fffd,
{
}

/// Law: a page can be taken for a process exactly where the process is there, the slot is one of its
/// eight and empty, and there is a page and a number for it; the first of these that does not hold
/// is told.
pub proof fn law_page_can_be_taken(s: Spaces, pid: int, slot: int)
    ensures
        ({
            let e = alloc_page_error(s, pid, slot);
            let there = s.procs@.dom().contains(pid);
            let room = s.mem.frames@.free_pages() != 0 && (s.pages.pool().free.len() > 0
                || s.pages.pool().len < 64);
            &&& slot >= 8 ==> e == Some(SYS_ERR_EINVAL)
            &&& slot < 8 && !there ==> e == Some(SYS_ERR_EACCES)
            &&& slot < 8 && there && s.procs@[pid].caps[slot] is Some ==> e == Some(SYS_ERR_EEXIST)
            &&& slot < 8 && there && s.procs@[pid].caps[slot] is None && !room ==> e == Some(
                SYS_ERR_ENOMEM,
            )
            &&& slot < 8 && there && s.procs@[pid].caps[slot] is None && room ==> e is None
        }),
{
}

} // verus!
