//! System calls.
//!
//! A program puts the number of the call into `a7` and its arguments into `a0` to `a5`, and finds
//! the result in `a0`. The largest numbers are error codes. A message also takes `a1` to `a5`.

use vstd::prelude::*;
use crate::arch::gpr::{X_A0, X_A1, X_A2, X_A3, X_A4, X_A5, X_A7};
use crate::arch::{FRAME_SEPC, MAX_HARTS, TRAP_FRAME_WORDS};
use crate::device::device_effect;
use crate::ipc::{received, recv_source, send_target, sent, IpcView, RecvBlock, SendBlock, MSG_WORDS};
use crate::kernel::Kernel;
use crate::mmu::{is_user_mapped, lookup, PhysMemory};
use crate::pages::{grant_effect, map_effect};
use crate::process::{
    cap_at, cap_errno, cap_errno_spec, dup_error, pid_root, register_effect, revoke_effect,
    revoke_error, with_slot, CapError,
};
use crate::runqueue::{returned, SchedView};
use crate::sched::{return_to, target_of, words_of, SwitchTarget};
use crate::services::connect_effect;
use crate::shm::{share_effect, share_error};
use crate::space::{Spaces, MAX_SHMS};
use crate::sv39::is_user;

verus! {

/// End the thread.
pub const SYSCALL_EXIT: u64 = 1;

/// Ticks since the start.
pub const SYSCALL_GET_TICKS: u64 = 2;

/// Send a message: slot, five words.
pub const SYSCALL_IPC_SEND: u64 = 3;

/// Receive a message: slot.
pub const SYSCALL_IPC_RECV: u64 = 4;

/// Share a page: slot, slot of the other process, length.
pub const SYSCALL_SHM_MAP: u64 = 5;

/// Give up a capability: slot.
pub const SYSCALL_CAP_REVOKE: u64 = 6;

/// Copy a capability: from slot, to slot.
pub const SYSCALL_CAP_DUP: u64 = 7;

/// Write: file, buffer, length.
pub const SYSCALL_WRITE: u64 = 8;

/// Read; there is nothing to read from yet.
pub const SYSCALL_READ: u64 = 9;

/// Offer a service: number.
pub const SYSCALL_SERVICE_REGISTER: u64 = 10;

/// Connect to a service: number, own slot, slot of the server.
pub const SYSCALL_SERVICE_CONNECT: u64 = 11;

/// Map a device: number, address.
pub const SYSCALL_MAP_DEVICE: u64 = 12;

/// Hand a page over: slot, slot of the other process, its slot for the page.
pub const SYSCALL_MEM_GRANT: u64 = 13;

/// Map a page: slot, address.
pub const SYSCALL_MEM_MAP: u64 = 14;

/// Invalid argument.
pub const SYS_ERR_EINVAL: u64 = u64::MAX;

/// Not permitted.
pub const SYS_ERR_EACCES: u64 = u64::MAX - 1;

/// No such thing.
pub const SYS_ERR_ENOENT: u64 = u64::MAX - 2;

/// Out of memory or of table entries.
pub const SYS_ERR_ENOMEM: u64 = u64::MAX - 3;

/// No such file.
pub const SYS_ERR_EBADF: u64 = u64::MAX - 4;

/// Memory that cannot be accessed.
pub const SYS_ERR_EFAULT: u64 = u64::MAX - 5;

/// Already in use.
pub const SYS_ERR_EEXIST: u64 = u64::MAX - 6;

/// No such call; the same code as an invalid argument.
pub const SYS_ERR_ENOSYS: u64 = u64::MAX;

/// Most bytes that one call writes.
pub const MAX_WRITE_LEN: u64 = 4096;

/// The file that goes to the serial device.
pub const STDOUT: u64 = 1;

/// A word that is larger than every table stands for an entry that no table has.
pub const NO_ENTRY: u64 = 0xffff_ffff;

/// What is left to do after a system call.
#[derive(Debug, Clone, Copy, PartialEq, Eq, Structural)]
pub enum Reply {
    /// The thread goes on from its frame.
    Resume,
    /// The thread ends.
    Exit,
    /// The thread blocks; another one takes over.
    Switch(SwitchTarget),
    /// Bytes of the program go to the serial device, then the thread goes on: address, length.
    Write(u64, u64),
}

/// The index that a word stands for.
pub open spec fn index_of(w: u64) -> usize {
    if w < NO_ENTRY {
        w as usize
    } else {
        NO_ENTRY as usize
    }
}

fn index(w: u64) -> (r: usize)
    ensures
        r == index_of(w),
        r as int == (if w < NO_ENTRY {
            w as int
        } else {
            NO_ENTRY as int
        }),
{
    if w < NO_ENTRY {
        w as usize
    } else {
        NO_ENTRY as usize
    }
}

/// The message of a call that sends.
pub open spec fn message(f: Seq<u64>) -> Seq<u64> {
    f.subrange(X_A1 as int, X_A1 + MSG_WORDS)
}

/// Every page that the bytes lie in is mapped for the user.
pub open spec fn readable(s: Spaces, root: int, buf: int, len: int) -> bool {
    forall|p: int|
        buf / 4096 <= p <= (buf + len - 1) / 4096 ==> user_at(s, root, #[trigger] (p * 4096))
}

/// The address is mapped for the user.
pub open spec fn user_at(s: Spaces, root: int, va: int) -> bool {
    lookup(s.mem.ram, root, va) matches Some((level, e)) && is_user(e)
}

/// Why bytes cannot be written. A buffer that does not end within the address space cannot be
/// accessed.
pub open spec fn write_error(s: Spaces, pid: int, fd: u64, buf: u64, len: u64) -> Option<u64> {
    if fd != STDOUT {
        Some(SYS_ERR_EBADF)
    } else if len > MAX_WRITE_LEN {
        Some(SYS_ERR_EINVAL)
    } else if len == 0 {
        None
    } else if buf + len - 1 > u64::MAX || !s.alive(pid) || !readable(
        s,
        s.procs@[pid].root as int,
        buf as int,
        len as int,
    ) {
        Some(SYS_ERR_EFAULT)
    } else {
        None
    }
}

/// Whether the bytes of a program can be written, and how many.
pub fn sys_write(s: &Spaces, pid: usize, fd: u64, buf: u64, len: u64) -> (r: Result<u64, u64>)
    requires
        s.inv(),
    ensures
        r == match write_error(*s, pid as int, fd, buf, len) {
            Some(e) => Err::<u64, u64>(e),
            None => Ok(len),
        },
{
    if fd != STDOUT {
        return Err(SYS_ERR_EBADF);
    }
    if len > MAX_WRITE_LEN {
        return Err(SYS_ERR_EINVAL);
    }
    if len > 0 {
        let root: u64 = match pid_root(&s.procs, pid) {
            Some(r) => r,
            None => {
                return Err(SYS_ERR_EFAULT);
            },
        };
        if buf > u64::MAX - (len - 1) {
            return Err(SYS_ERR_EFAULT);
        }
        let first: u64 = buf / 4096;
        let last: u64 = (buf + (len - 1)) / 4096;
        let mut p: u64 = first;
        assert(s.mem.is_root(s.procs@[pid as int].root as int));
        while p <= last
            invariant
                s.inv(),
                s.alive(pid as int),
                root == s.procs@[pid as int].root,
                s.mem.is_root(root as int),
                0 < len <= MAX_WRITE_LEN,
                fd == STDOUT,
                buf + len - 1 <= u64::MAX,
                first == buf as int / 4096,
                last == (buf + len - 1) / 4096,
                first <= p <= last + 1,
                last <= u64::MAX / 4096,
                forall|q: int|
                    first <= q < p ==> user_at(*s, root as int, #[trigger] (q * 4096)),
            decreases last + 1 - p,
        {
            let va: u64 = p * 4096;
            if !is_user_mapped(&s.mem, root, va) {
                proof {
                    assert(!user_at(*s, root as int, (p as int) * 4096));
                    assert(!readable(*s, root as int, buf as int, len as int));
                }
                return Err(SYS_ERR_EFAULT);
            }
            p += 1;
        }
        assert(readable(*s, root as int, buf as int, len as int));
    }
    Ok(len)
}

/// What a call to send does.
pub open spec fn send_effect(k: Kernel, b: Kernel, f: Seq<u64>, g: Seq<u64>, r: Reply, h: int) -> bool {
    let pid = b.caller(h)->0;
    let tid = b.running(h);
    &&& k.same_tables(&b)
    &&& k.sched.image() == b.sched.image()
    &&& match send_target(b.spaces.procs@, pid as int, index_of(f[X_A0 as int]) as int) {
        Err(e) => r == Reply::Resume && g == returned(f, e, None) && k.same_threads(&b),
        Ok(dst) => forall|m: [u64; MSG_WORDS]| #[trigger]
            m@ == message(f) ==> {
                let (v, s, done) = sent(b.ipc@, b.sched@, pid, dst, tid, m);
                &&& k.ipc@ == v
                &&& match done {
                    SendBlock::Done => r == Reply::Resume && g == returned(f, 0, None) && k.sched@
                        == s,
                    SendBlock::NoPeer => {
                        &&& k.sched@ == s.user_blocked(h, f)
                        &&& r == Reply::Switch(target_of(k.sched@, tid, k.running(h)))
                        &&& g == f
                    },
                }
            },
    }
}

/// What a call to receive does.
pub open spec fn recv_effect(k: Kernel, b: Kernel, f: Seq<u64>, g: Seq<u64>, r: Reply, h: int) -> bool {
    let pid = b.caller(h)->0;
    let tid = b.running(h);
    &&& k.same_tables(&b)
    &&& k.sched.image() == b.sched.image()
    &&& match recv_source(b.spaces.procs@, pid as int, index_of(f[X_A0 as int]) as int) {
        Err(e) => r == Reply::Resume && g == returned(f, e, None) && k.same_threads(&b),
        Ok(src) => {
            let (v, s, done) = received(b.ipc@, b.sched@, pid, src, tid);
            &&& k.ipc@ == v
            &&& match done {
                RecvBlock::Done(m) => r == Reply::Resume && g == returned(f, 0, Some(m@))
                    && k.sched@ == s,
                RecvBlock::NoPeer => {
                    &&& k.sched@ == s.user_blocked(h, f)
                    &&& r == Reply::Switch(target_of(k.sched@, tid, k.running(h)))
                    &&& g == f
                },
            }
        },
    }
}

/// What a call does that changes address spaces, capabilities, devices or services: `x` is its
/// result, which the program finds in `a0`.
pub open spec fn table_effect(k: Kernel, b: Kernel, f: Seq<u64>, g: Seq<u64>, r: Reply, h: int) -> bool {
    let pid = b.caller(h)->0;
    let a0 = f[X_A0 as int];
    let a1 = f[X_A1 as int];
    let a2 = f[X_A2 as int];
    let n = f[X_A7 as int];
    let x = g[X_A0 as int];
    &&& r == Reply::Resume
    &&& g == returned(f, x, None)
    &&& k.same_threads(&b)
    &&& n == SYSCALL_SHM_MAP ==> {
        let y: Result<usize, u64> = if share_error(
            b.spaces,
            pid as int,
            index_of(a0) as int,
            index_of(a1) as int,
            a2 as int,
        ) is None {
            Ok(x as usize)
        } else {
            Err(x)
        };
        &&& share_effect(k.spaces, b.spaces, pid, index_of(a0), index_of(a1), a2, y)
        &&& y is Ok ==> x < MAX_SHMS
        &&& k.devices@ == b.devices@
        &&& k.services@ == b.services@
    }
    &&& n == SYSCALL_CAP_REVOKE ==> {
        let y: Result<(), CapError> = match revoke_error(b.spaces, pid as int, index_of(a0) as int) {
            Some(e) => Err(e),
            None => Ok(()),
        };
        &&& revoke_effect(k.spaces, b.spaces, pid, index_of(a0), y)
        &&& x == match y {
            Ok(_) => 0,
            Err(e) => cap_errno_spec(e),
        }
        &&& k.devices@ == b.devices@
        &&& k.services@ == b.services@
    }
    &&& n == SYSCALL_CAP_DUP ==> {
        let from = index_of(a0) as int;
        let to = index_of(a1) as int;
        &&& match dup_error(b.spaces.procs@, pid as int, from, to) {
            Some(e) => x == cap_errno_spec(e) && k.spaces.procs@ == b.spaces.procs@,
            None => x == 0 && k.spaces.procs@ == with_slot(
                b.spaces.procs@,
                pid as int,
                to,
                Some(cap_at(b.spaces.procs@, pid as int, from)->Ok_0),
            ),
        }
        &&& k.spaces.procs.pool() == b.spaces.procs.pool()
        &&& k.same_but_slots(&b)
    }
    &&& n == SYSCALL_SERVICE_REGISTER ==> {
        let y: Result<(), u64> = if x == 0 {
            Ok(())
        } else {
            Err(x)
        };
        &&& register_effect(b.spaces.procs@, k.services@, b.services@, pid, index_of(a0), y)
        &&& k.spaces == b.spaces
        &&& k.devices@ == b.devices@
    }
    &&& n == SYSCALL_SERVICE_CONNECT ==> {
        let y: Result<(), u64> = if x == 0 {
            Ok(())
        } else {
            Err(x)
        };
        &&& connect_effect(
            b.services@,
            k.spaces.procs@,
            b.spaces.procs@,
            pid,
            index_of(a0),
            index_of(a1),
            index_of(a2),
            y,
        )
        &&& k.spaces.procs.pool() == b.spaces.procs.pool()
        &&& k.same_but_slots(&b)
    }
    &&& n == SYSCALL_MAP_DEVICE ==> {
        let y: Result<(), u64> = if x == 0 {
            Ok(())
        } else {
            Err(x)
        };
        &&& device_effect(
            k.devices@,
            k.spaces,
            b.devices@,
            b.spaces,
            b.uart_base,
            pid,
            index_of(a0),
            a1,
            y,
        )
        &&& k.services@ == b.services@
    }
    &&& n == SYSCALL_MEM_GRANT ==> {
        let y: Result<(), u64> = if x == 0 {
            Ok(())
        } else {
            Err(x)
        };
        &&& grant_effect(
            k.spaces,
            b.spaces,
            pid,
            index_of(a0),
            index_of(a1),
            index_of(a2),
            y,
        )
        &&& k.devices@ == b.devices@
        &&& k.services@ == b.services@
    }
    &&& n == SYSCALL_MEM_MAP ==> {
        let y: Result<(), u64> = if x == 0 {
            Ok(())
        } else {
            Err(x)
        };
        &&& map_effect(k.spaces, b.spaces, pid, index_of(a0), a1, y)
        &&& k.devices@ == b.devices@
        &&& k.services@ == b.services@
    }
}

/// The call changes address spaces, capabilities, devices or services.
pub open spec fn is_table_call(n: u64) -> bool {
    ||| n == SYSCALL_SHM_MAP
    ||| n == SYSCALL_CAP_REVOKE
    ||| n == SYSCALL_CAP_DUP
    ||| SYSCALL_SERVICE_REGISTER <= n <= SYSCALL_MEM_MAP
}

/// What a system call does.
pub open spec fn handled(
    k: Kernel,
    b: Kernel,
    f: Seq<u64>,
    g: Seq<u64>,
    r: Reply,
    h: int,
    ticks: u64,
) -> bool {
    let n = f[X_A7 as int];
    if n == SYSCALL_EXIT {
        r == Reply::Exit && g == f && k.unchanged(&b)
    } else if n == SYSCALL_GET_TICKS {
        r == Reply::Resume && g == returned(f, ticks, None) && k.unchanged(&b)
    } else if n == SYSCALL_IPC_SEND {
        send_effect(k, b, f, g, r, h)
    } else if n == SYSCALL_IPC_RECV {
        recv_effect(k, b, f, g, r, h)
    } else if n == SYSCALL_WRITE {
        let fd = f[X_A0 as int];
        let buf = f[X_A1 as int];
        let len = f[X_A2 as int];
        &&& k.unchanged(&b)
        &&& match write_error(b.spaces, b.caller(h)->0 as int, fd, buf, len) {
            Some(e) => r == Reply::Resume && g == returned(f, e, None),
            None => r == Reply::Write(buf, len) && g == returned(f, len, None),
        }
    } else if is_table_call(n) {
        table_effect(k, b, f, g, r, h)
    } else {
        r == Reply::Resume && g == returned(f, SYS_ERR_ENOSYS, None) && k.unchanged(&b)
    }
}

/// The thread that waits is blocked now.
proof fn lemma_blocked_now(v: IpcView, s: SchedView, h: int, f: Seq<u64>)
    requires
        s.wf(),
        0 <= h < MAX_HARTS,
        s.current[h] >= MAX_HARTS,
        f.len() == TRAP_FRAME_WORDS,
        v.in_step(s, Some(s.current[h])),
    ensures
        v.in_step(s.user_blocked(h, f), None),
{
    let c = s.current[h];
    let w = s.user_blocked(h, f);
    s.lemma_user_blocked(h, f);
    assert forall|k: int| 0 <= k < v.sends.len() implies IpcView::stopped(
        w,
        None,
        (#[trigger] v.sends[k]).sender_tid,
        v.sends[k].sender_pid,
    ) by {
        assert(IpcView::stopped(s, Some(c), v.sends[k].sender_tid, v.sends[k].sender_pid));
        let x = w.threads[v.sends[k].sender_tid as int];
    }
    assert forall|k: int| 0 <= k < v.recvs.len() implies IpcView::stopped(
        w,
        None,
        (#[trigger] v.recvs[k]).recver_tid,
        v.recvs[k].recver_pid,
    ) by {
        assert(IpcView::stopped(s, Some(c), v.recvs[k].recver_tid, v.recvs[k].recver_pid));
        let x = w.threads[v.recvs[k].recver_tid as int];
    }
}

/// A call to send.
fn do_send(k: &mut Kernel, frame: &mut [u64; TRAP_FRAME_WORDS], hart: usize) -> (r: Reply)
    requires
        old(k).inv(),
        hart < MAX_HARTS,
        old(k).caller(hart as int) is Some,
    ensures
        final(k).inv(),
        send_effect(*final(k), *old(k), old(frame)@, final(frame)@, r, hart as int),
{
    let ghost b = *k;
    let ghost f = frame@;
    proof {
        b.lemma_caller(hart as int);
    }
    let pid: usize = k.sched.current_proc(hart);
    let slot: usize = index(frame[X_A0]);
    let msg: [u64; MSG_WORDS] = [
        frame[X_A1],
        frame[X_A2],
        frame[X_A3],
        frame[X_A4],
        frame[X_A5],
    ];
    proof {
        assert(msg@ =~= message(f));
        assert forall|m: [u64; MSG_WORDS]| #[trigger] m@ == message(f) implies m == msg by {
            assert(m =~= msg);
        }
    }
    match crate::ipc::send(&mut k.ipc, &mut k.sched, &k.spaces.procs, pid, slot, msg, hart) {
        Ok(SendBlock::Done) => {
            return_to(frame, 0, None);
            Reply::Resume
        },
        Ok(SendBlock::NoPeer) => {
            let ghost s = k.sched@;
            proof {
                let dst = send_target(b.spaces.procs@, pid as int, slot as int)->Ok_0;
                b.sched@.lemma_donated(b.running(hart as int), dst);
                lemma_blocked_now(k.ipc@, s, hart as int, f);
            }
            let t: SwitchTarget = k.sched.block_user_from_trap(frame, hart);
            Reply::Switch(t)
        },
        Err(e) => {
            return_to(frame, e, None);
            Reply::Resume
        },
    }
}

/// A call to receive.
fn do_recv(k: &mut Kernel, frame: &mut [u64; TRAP_FRAME_WORDS], hart: usize) -> (r: Reply)
    requires
        old(k).inv(),
        hart < MAX_HARTS,
        old(k).caller(hart as int) is Some,
    ensures
        final(k).inv(),
        recv_effect(*final(k), *old(k), old(frame)@, final(frame)@, r, hart as int),
{
    let ghost b = *k;
    let ghost f = frame@;
    proof {
        b.lemma_caller(hart as int);
    }
    let pid: usize = k.sched.current_proc(hart);
    let slot: usize = index(frame[X_A0]);
    match crate::ipc::recv(&mut k.ipc, &mut k.sched, &k.spaces.procs, pid, slot, hart) {
        Ok(RecvBlock::Done(m)) => {
            return_to(frame, 0, Some(m));
            assert(words_of(Some(m)) == Some(m@));
            Reply::Resume
        },
        Ok(RecvBlock::NoPeer) => {
            let ghost s = k.sched@;
            proof {
                let src = recv_source(b.spaces.procs@, pid as int, slot as int)->Ok_0;
                b.sched@.lemma_donated(b.running(hart as int), src);
                lemma_blocked_now(k.ipc@, s, hart as int, f);
            }
            let t: SwitchTarget = k.sched.block_user_from_trap(frame, hart);
            Reply::Switch(t)
        },
        Err(e) => {
            return_to(frame, e, None);
            Reply::Resume
        },
    }
}

/// A call to share a page.
fn do_shm_map(k: &mut Kernel, frame: &mut [u64; TRAP_FRAME_WORDS], hart: usize) -> (r: Reply)
    requires
        old(k).inv(),
        hart < MAX_HARTS,
        old(k).caller(hart as int) is Some,
        old(frame)@[X_A7 as int] == SYSCALL_SHM_MAP,
    ensures
        final(k).inv(),
        table_effect(*final(k), *old(k), old(frame)@, final(frame)@, r, hart as int),
{
    let pid: usize = k.sched.current_proc(hart);
    let a: usize = index(frame[X_A0]);
    let b: usize = index(frame[X_A1]);
    let len: u64 = frame[X_A2];
    let ghost before = *k;
    match crate::shm::mmap_share(&mut k.spaces, pid, a, b, len) {
        Ok(id) => {
            proof {
                before.spaces.shms.lemma_view();
                assert(id < MAX_SHMS);
            }
            return_to(frame, id as u64, None);
        },
        Err(e) => {
            return_to(frame, e, None);
        },
    }
    Reply::Resume
}

/// A call to give up a capability.
fn do_cap_revoke(k: &mut Kernel, frame: &mut [u64; TRAP_FRAME_WORDS], hart: usize) -> (r: Reply)
    requires
        old(k).inv(),
        hart < MAX_HARTS,
        old(k).caller(hart as int) is Some,
        old(frame)@[X_A7 as int] == SYSCALL_CAP_REVOKE,
    ensures
        final(k).inv(),
        table_effect(*final(k), *old(k), old(frame)@, final(frame)@, r, hart as int),
{
    let pid: usize = k.sched.current_proc(hart);
    let slot: usize = index(frame[X_A0]);
    match crate::process::cap_revoke(&mut k.spaces, pid, slot) {
        Ok(_) => {
            return_to(frame, 0, None);
        },
        Err(e) => {
            return_to(frame, cap_errno(e), None);
        },
    }
    Reply::Resume
}

/// A call to copy a capability.
fn do_cap_dup(k: &mut Kernel, frame: &mut [u64; TRAP_FRAME_WORDS], hart: usize) -> (r: Reply)
    requires
        old(k).inv(),
        hart < MAX_HARTS,
        old(k).caller(hart as int) is Some,
        old(frame)@[X_A7 as int] == SYSCALL_CAP_DUP,
    ensures
        final(k).inv(),
        table_effect(*final(k), *old(k), old(frame)@, final(frame)@, r, hart as int),
{
    let pid: usize = k.sched.current_proc(hart);
    let from: usize = index(frame[X_A0]);
    let to: usize = index(frame[X_A1]);
    let ghost before = k.spaces;
    proof {
        before.procs.lemma_view();
    }
    let res: Result<(), CapError> = crate::process::cap_duplicate(
        &mut k.spaces.procs,
        pid,
        from,
        to,
    );
    proof {
        let b = k.spaces;
        assert(b.same_procs(&before)) by {
            assert forall|i: int| #![trigger b.procs@[i]] before.alive(i) implies b.procs@[i].root
                == before.procs@[i].root by {}
        }
        assert(b.no_new_page_caps(&before)) by {
            assert forall|i: int, s: int, p: usize| #[trigger] b.holds_page(i, s, p) implies before.holds_page(
                i,
                s,
                p,
            ) by {}
        }
        crate::process::lemma_slots_changed(before, b);
    }
    match res {
        Ok(_) => {
            return_to(frame, 0, None);
        },
        Err(e) => {
            return_to(frame, cap_errno(e), None);
        },
    }
    Reply::Resume
}

/// A call to offer a service.
fn do_register(k: &mut Kernel, frame: &mut [u64; TRAP_FRAME_WORDS], hart: usize) -> (r: Reply)
    requires
        old(k).inv(),
        hart < MAX_HARTS,
        old(k).caller(hart as int) is Some,
        old(frame)@[X_A7 as int] == SYSCALL_SERVICE_REGISTER,
    ensures
        final(k).inv(),
        table_effect(*final(k), *old(k), old(frame)@, final(frame)@, r, hart as int),
{
    let pid: usize = k.sched.current_proc(hart);
    let id: usize = index(frame[X_A0]);
    match crate::process::register_service(&k.spaces.procs, &mut k.services, pid, id) {
        Ok(_) => {
            return_to(frame, 0, None);
        },
        Err(e) => {
            return_to(frame, e, None);
        },
    }
    Reply::Resume
}

/// A call to connect to a service.
fn do_connect(k: &mut Kernel, frame: &mut [u64; TRAP_FRAME_WORDS], hart: usize) -> (r: Reply)
    requires
        old(k).inv(),
        hart < MAX_HARTS,
        old(k).caller(hart as int) is Some,
        old(frame)@[X_A7 as int] == SYSCALL_SERVICE_CONNECT,
    ensures
        final(k).inv(),
        table_effect(*final(k), *old(k), old(frame)@, final(frame)@, r, hart as int),
{
    let pid: usize = k.sched.current_proc(hart);
    let id: usize = index(frame[X_A0]);
    let own: usize = index(frame[X_A1]);
    let other: usize = index(frame[X_A2]);
    let ghost before = k.spaces;
    proof {
        before.procs.lemma_view();
    }
    let res: Result<(), u64> = crate::services::connect(
        &k.services,
        &mut k.spaces.procs,
        pid,
        id,
        own,
        other,
    );
    proof {
        let b = k.spaces;
        assert(b.same_procs(&before)) by {
            assert forall|i: int| #![trigger b.procs@[i]] before.alive(i) implies b.procs@[i].root
                == before.procs@[i].root by {}
        }
        assert(b.no_new_page_caps(&before)) by {
            assert forall|i: int, s: int, p: usize| #[trigger] b.holds_page(i, s, p) implies before.holds_page(
                i,
                s,
                p,
            ) by {}
        }
        crate::process::lemma_slots_changed(before, b);
    }
    match res {
        Ok(_) => {
            return_to(frame, 0, None);
        },
        Err(e) => {
            return_to(frame, e, None);
        },
    }
    Reply::Resume
}

/// A call to map a device.
fn do_map_device(k: &mut Kernel, frame: &mut [u64; TRAP_FRAME_WORDS], hart: usize) -> (r: Reply)
    requires
        old(k).inv(),
        old(k).device_apart(),
        hart < MAX_HARTS,
        old(k).caller(hart as int) is Some,
        old(frame)@[X_A7 as int] == SYSCALL_MAP_DEVICE,
    ensures
        final(k).inv(),
        table_effect(*final(k), *old(k), old(frame)@, final(frame)@, r, hart as int),
{
    let pid: usize = k.sched.current_proc(hart);
    let dev: usize = index(frame[X_A0]);
    let va: u64 = frame[X_A1];
    match crate::device::map(&mut k.devices, &mut k.spaces, k.uart_base, pid, dev, va) {
        Ok(_) => {
            return_to(frame, 0, None);
        },
        Err(e) => {
            return_to(frame, e, None);
        },
    }
    Reply::Resume
}

/// A call to hand a page over.
fn do_mem_grant(k: &mut Kernel, frame: &mut [u64; TRAP_FRAME_WORDS], hart: usize) -> (r: Reply)
    requires
        old(k).inv(),
        hart < MAX_HARTS,
        old(k).caller(hart as int) is Some,
        old(frame)@[X_A7 as int] == SYSCALL_MEM_GRANT,
    ensures
        final(k).inv(),
        table_effect(*final(k), *old(k), old(frame)@, final(frame)@, r, hart as int),
{
    let pid: usize = k.sched.current_proc(hart);
    let src: usize = index(frame[X_A0]);
    let peer: usize = index(frame[X_A1]);
    let dst: usize = index(frame[X_A2]);
    match crate::pages::mem_grant(&mut k.spaces, pid, src, peer, dst) {
        Ok(_) => {
            return_to(frame, 0, None);
        },
        Err(e) => {
            return_to(frame, e, None);
        },
    }
    Reply::Resume
}

/// A call to map a page.
fn do_mem_map(k: &mut Kernel, frame: &mut [u64; TRAP_FRAME_WORDS], hart: usize) -> (r: Reply)
    requires
        old(k).inv(),
        hart < MAX_HARTS,
        old(k).caller(hart as int) is Some,
        old(frame)@[X_A7 as int] == SYSCALL_MEM_MAP,
    ensures
        final(k).inv(),
        table_effect(*final(k), *old(k), old(frame)@, final(frame)@, r, hart as int),
{
    let pid: usize = k.sched.current_proc(hart);
    let slot: usize = index(frame[X_A0]);
    let va: u64 = frame[X_A1];
    match crate::pages::mem_map(&mut k.spaces, pid, slot, va) {
        Ok(_) => {
            return_to(frame, 0, None);
        },
        Err(e) => {
            return_to(frame, e, None);
        },
    }
    Reply::Resume
}

/// No call moves the memory that the kernel hands out.
pub proof fn lemma_region_kept(k: Kernel, b: Kernel, f: Seq<u64>, g: Seq<u64>, r: Reply, h: int, ticks: u64)
    requires
        handled(k, b, f, g, r, h, ticks),
    ensures
        k.spaces.mem.same_region(&b.spaces.mem),
        k.uart_base == b.uart_base,
{
    let n = f[X_A7 as int];
    if is_table_call(n) {
        reveal(PhysMemory::kept);
        reveal(PhysMemory::held);
        reveal(crate::shm::parted);
        reveal(crate::shm::joined);
        reveal(crate::pages::unmapped_at);
        if crate::shm::tables_only(k.spaces.mem, b.spaces.mem) {
            crate::shm::lemma_tables_region(k.spaces.mem, b.spaces.mem);
        }
    }
}

/// Carry out the system call in the frame of the thread that a core runs. The thread belongs to a
/// process.
pub fn handle(k: &mut Kernel, frame: &mut [u64; TRAP_FRAME_WORDS], hart: usize, ticks: u64) -> (r:
    Reply)
    requires
        old(k).inv(),
        old(k).device_apart(),
        hart < MAX_HARTS,
        old(k).caller(hart as int) is Some,
    ensures
        final(k).inv(),
        final(k).device_apart(),
        handled(*final(k), *old(k), old(frame)@, final(frame)@, r, hart as int, ticks),
{
    let ghost b = *k;
    let ghost f = frame@;
    let n: u64 = frame[X_A7];
    let r: Reply = if n == SYSCALL_EXIT {
        Reply::Exit
    } else if n == SYSCALL_GET_TICKS {
        return_to(frame, ticks, None);
        Reply::Resume
    } else if n == SYSCALL_IPC_SEND {
        do_send(k, frame, hart)
    } else if n == SYSCALL_IPC_RECV {
        do_recv(k, frame, hart)
    } else if n == SYSCALL_SHM_MAP {
        do_shm_map(k, frame, hart)
    } else if n == SYSCALL_CAP_REVOKE {
        do_cap_revoke(k, frame, hart)
    } else if n == SYSCALL_CAP_DUP {
        do_cap_dup(k, frame, hart)
    } else if n == SYSCALL_WRITE {
        let pid: usize = k.sched.current_proc(hart);
        let buf: u64 = frame[X_A1];
        match sys_write(&k.spaces, pid, frame[X_A0], buf, frame[X_A2]) {
            Ok(len) => {
                return_to(frame, len, None);
                Reply::Write(buf, len)
            },
            Err(e) => {
                return_to(frame, e, None);
                Reply::Resume
            },
        }
    } else if n == SYSCALL_SERVICE_REGISTER {
        do_register(k, frame, hart)
    } else if n == SYSCALL_SERVICE_CONNECT {
        do_connect(k, frame, hart)
    } else if n == SYSCALL_MAP_DEVICE {
        do_map_device(k, frame, hart)
    } else if n == SYSCALL_MEM_GRANT {
        do_mem_grant(k, frame, hart)
    } else if n == SYSCALL_MEM_MAP {
        do_mem_map(k, frame, hart)
    } else {
        return_to(frame, SYS_ERR_ENOSYS, None);
        Reply::Resume
    };
    proof {
        lemma_region_kept(*k, b, f, frame@, r, hart as int, ticks);
    }
    r
}

/// Law: a system call that returns leaves every register of the program as it was, but for `a0`
/// and, for a call that receives, the message; the program goes on behind the call.
pub proof fn law_registers_kept(
    k: Kernel,
    b: Kernel,
    f: Seq<u64>,
    g: Seq<u64>,
    r: Reply,
    h: int,
    ticks: u64,
    i: int,
)
    requires
        handled(k, b, f, g, r, h, ticks),
        f.len() == TRAP_FRAME_WORDS,
        r == Reply::Resume || r is Write,
        0 <= i < TRAP_FRAME_WORDS,
    ensures
        i != X_A0 && i != FRAME_SEPC && !(f[X_A7 as int] == SYSCALL_IPC_RECV && X_A1 <= i < X_A1
            + MSG_WORDS) ==> g[i] == f[i],
        g[FRAME_SEPC as int] == f[FRAME_SEPC as int].wrapping_add(4),
{
    if f[X_A7 as int] == SYSCALL_IPC_SEND {
        lemma_some_message(f);
    }
}

/// Every five words are the words of some message.
pub proof fn lemma_some_message(f: Seq<u64>)
    requires
        f.len() == TRAP_FRAME_WORDS,
    ensures
        exists|m: [u64; MSG_WORDS]| #[trigger] m@ == message(f),
{
    let x = message(f);
    let m: [u64; MSG_WORDS] = [x[0], x[1], x[2], x[3], x[4]];
    assert(m@ =~= x);
}

} // verus!
