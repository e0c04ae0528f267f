//! Messages between processes.
//!
//! A message is five words. A thread sends it to the process that one of its capabilities names,
//! and a thread of that process receives it. Whoever comes first waits for the other. While it
//! waits, the process that it waits for runs at its priority.
//!
//! A thread that receives through an empty slot listens: it takes a message from any process that
//! can send to it. A thread that asked for this sender goes before one that listens.

use vstd::prelude::*;
use std::collections::VecDeque;
use crate::arch::{MAX_HARTS, TRAP_FRAME_WORDS};
use crate::process::{
    cap_at, cap_errno, cap_errno_spec, cap_target, Cap, CapError, ProcView, ProcessTable,
};
use crate::runqueue::{returned, SchedView, ThreadState, ThreadView};
use crate::sched::{error_words, words_of, Scheduler};
use crate::sched_steps::{law_delivery_keeps_prios, law_switching_keeps_prios};
use crate::syscall::SYS_ERR_ENOENT;

verus! {

/// Words of a message.
pub const MSG_WORDS: usize = 5;

/// Sender that a listening thread waits for. No process has this number.
pub const IPC_ACCEPT_ANY: usize = usize::MAX;

/// What became of a message.
#[derive(Debug, Clone, Copy, PartialEq, Eq, Structural)]
pub enum SendBlock {
    /// A thread has it.
    Done,
    /// Nobody waits for it; the sender has to block.
    NoPeer,
}

/// What was received.
#[derive(Debug, Clone, Copy, PartialEq, Eq)]
pub enum RecvBlock {
    /// A message that was waiting.
    Done([u64; MSG_WORDS]),
    /// No message waits; the receiver has to block.
    NoPeer,
}

/// A thread that waits for its message to be taken.
#[derive(Debug, Clone, Copy)]
pub struct PendingSend {
    pub sender_tid: usize,
    pub sender_pid: usize,
    pub dst_pid: usize,
    pub msg: [u64; MSG_WORDS],
}

/// A thread that waits for a message.
#[derive(Debug, Clone, Copy)]
pub struct PendingRecv {
    pub recver_tid: usize,
    pub recver_pid: usize,
    pub src_pid: usize,
}

/// Threads that wait, in the order in which they came.
pub struct IpcState {
    sends: VecDeque<PendingSend>,
    recvs: VecDeque<PendingRecv>,
}

/// Threads that wait, in the order in which they came.
#[verifier::ext_equal]
pub struct IpcView {
    pub sends: Seq<PendingSend>,
    pub recvs: Seq<PendingRecv>,
}

/// Position of the first thread from `i` on that waits for a message from `src` to `dst`; the
/// length when there is none.
pub open spec fn recv_at(r: Seq<PendingRecv>, dst: usize, src: usize, i: int) -> int
    decreases r.len() - i,
{
    if i >= r.len() {
        r.len() as int
    } else if r[i].recver_pid == dst && r[i].src_pid == src {
        i
    } else {
        recv_at(r, dst, src, i + 1)
    }
}

/// Position of the first thread from `i` on whose message goes from `src` to `dst`; the length
/// when there is none.
pub open spec fn send_at(s: Seq<PendingSend>, src: usize, dst: usize, i: int) -> int
    decreases s.len() - i,
{
    if i >= s.len() {
        s.len() as int
    } else if s[i].sender_pid == src && s[i].dst_pid == dst {
        i
    } else {
        send_at(s, src, dst, i + 1)
    }
}

/// Position of the thread that gets a message from `src` to `dst`: one that waits for `src`, or
/// else one that listens.
pub open spec fn taker(r: Seq<PendingRecv>, dst: usize, src: usize) -> int {
    let k = recv_at(r, dst, src, 0);
    if k < r.len() {
        k
    } else {
        recv_at(r, dst, IPC_ACCEPT_ANY, 0)
    }
}

/// The process that a slot sends to, or why it cannot.
pub open spec fn send_target(t: Map<int, ProcView>, pid: int, slot: int) -> Result<usize, u64> {
    match cap_at(t, pid, slot) {
        Ok(Cap::Proc(d)) => Ok(d),
        Ok(_) => Err(cap_errno_spec(CapError::WrongType)),
        Err(e) => Err(cap_errno_spec(e)),
    }
}

/// The process that a slot receives from, or why it cannot. An empty slot listens.
pub open spec fn recv_source(t: Map<int, ProcView>, pid: int, slot: int) -> Result<usize, u64> {
    match cap_at(t, pid, slot) {
        Ok(Cap::Proc(d)) => Ok(d),
        Ok(_) => Err(cap_errno_spec(CapError::WrongType)),
        Err(CapError::NotFound) => Ok(IPC_ACCEPT_ANY),
        Err(e) => Err(cap_errno_spec(e)),
    }
}

/// Thread `tid` of process `pid` sends to `dst`.
pub open spec fn sent(
    v: IpcView,
    s: SchedView,
    pid: usize,
    dst: usize,
    tid: usize,
    msg: [u64; MSG_WORDS],
) -> (IpcView, SchedView, SendBlock) {
    let k = taker(v.recvs, dst, pid);
    if k < v.recvs.len() {
        (
            IpcView { recvs: v.recvs.remove(k), ..v },
            s.delivered(v.recvs[k].recver_tid, 0, Some(msg@), Some(msg@)),
            SendBlock::Done,
        )
    } else {
        (
            IpcView {
                sends: v.sends.push(
                    PendingSend { sender_tid: tid, sender_pid: pid, dst_pid: dst, msg },
                ),
                ..v
            },
            s.donated(tid, dst),
            SendBlock::NoPeer,
        )
    }
}

/// Thread `tid` of process `pid` receives from `src`, or listens.
pub open spec fn received(v: IpcView, s: SchedView, pid: usize, src: usize, tid: usize) -> (
    IpcView,
    SchedView,
    RecvBlock,
) {
    let k = send_at(v.sends, src, pid, 0);
    if k < v.sends.len() {
        (
            IpcView { sends: v.sends.remove(k), ..v },
            s.delivered(v.sends[k].sender_tid, 0, None, None),
            RecvBlock::Done(v.sends[k].msg),
        )
    } else {
        (
            IpcView {
                recvs: v.recvs.push(
                    PendingRecv { recver_tid: tid, recver_pid: pid, src_pid: src },
                ),
                ..v
            },
            if src == IPC_ACCEPT_ANY {
                s
            } else {
                s.donated(tid, src)
            },
            RecvBlock::NoPeer,
        )
    }
}

impl IpcView {

    /// The threads that wait are blocked, all but `cur`, each waits for one thing, and each
    /// belongs to the process in whose name it waits.
    pub open spec fn in_step(self, s: SchedView, cur: Option<usize>) -> bool {
        &&& forall|k: int|
            0 <= k < self.sends.len() ==> Self::stopped(
                s,
                cur,
                (#[trigger] self.sends[k]).sender_tid,
                self.sends[k].sender_pid,
            )
        &&& forall|k: int|
            0 <= k < self.recvs.len() ==> Self::stopped(
                s,
                cur,
                (#[trigger] self.recvs[k]).recver_tid,
                self.recvs[k].recver_pid,
            )
        &&& forall|k: int, j: int|
            #![trigger self.sends[k], self.sends[j]]
            0 <= k < j < self.sends.len() ==> self.sends[k].sender_tid != self.sends[j].sender_tid
        &&& forall|k: int, j: int|
            #![trigger self.recvs[k], self.recvs[j]]
            0 <= k < j < self.recvs.len() ==> self.recvs[k].recver_tid != self.recvs[j].recver_tid
        &&& forall|k: int, j: int|
            #![trigger self.sends[k], self.recvs[j]]
            0 <= k < self.sends.len() && 0 <= j < self.recvs.len() ==> self.sends[k].sender_tid
                != self.recvs[j].recver_tid
    }

    /// The thread belongs to the process, and it is blocked, or it is `cur`.
    pub open spec fn stopped(s: SchedView, cur: Option<usize>, tid: usize, pid: usize) -> bool {
        &&& tid < s.threads.len()
        &&& s.threads[tid as int].state == ThreadState::Blocked || cur == Some(tid)
        &&& s.threads[tid as int].proc_id == Some(pid)
    }

    /// The thread is blocked.
    pub open spec fn at_rest(s: SchedView, tid: usize) -> bool {
        &&& tid < s.threads.len()
        &&& s.threads[tid as int].state == ThreadState::Blocked
    }

    /// The threads keep waiting when those that are blocked stay blocked.
    pub proof fn lemma_in_step(self, s: SchedView, w: SchedView, cur: Option<usize>)
        requires
            self.in_step(s, cur),
            w.threads.len() >= s.threads.len(),
            forall|i: int|
                0 <= i < s.threads.len() && s.threads[i].state == ThreadState::Blocked ==> (
                #[trigger] w.threads[i]).state == ThreadState::Blocked && w.threads[i].proc_id
                    == s.threads[i].proc_id,
            cur matches Some(c) ==> c < s.threads.len() && w.threads[c as int].proc_id
                == s.threads[c as int].proc_id,
        ensures
            self.in_step(w, cur),
    {
        assert forall|k: int| 0 <= k < self.sends.len() implies Self::stopped(
            w,
            cur,
            (#[trigger] self.sends[k]).sender_tid,
            self.sends[k].sender_pid,
        ) by {
            let x = w.threads[self.sends[k].sender_tid as int];
            assert(Self::stopped(s, cur, self.sends[k].sender_tid, self.sends[k].sender_pid));
        }
        assert forall|k: int| 0 <= k < self.recvs.len() implies Self::stopped(
            w,
            cur,
            (#[trigger] self.recvs[k]).recver_tid,
            self.recvs[k].recver_pid,
        ) by {
            let x = w.threads[self.recvs[k].recver_tid as int];
            assert(Self::stopped(s, cur, self.recvs[k].recver_tid, self.recvs[k].recver_pid));
        }
    }
}

impl IpcState {
    pub closed spec fn view(&self) -> IpcView {
        IpcView { sends: self.sends@, recvs: self.recvs@ }
    }

    /// Nobody waits.
    pub fn new() -> (r: IpcState)
        ensures
            r@.sends.len() == 0,
            r@.recvs.len() == 0,
    {
        IpcState { sends: VecDeque::new(), recvs: VecDeque::new() }
    }

    fn find_recv(&self, dst: usize, src: usize) -> (r: usize)
        ensures
            r as int == recv_at(self@.recvs, dst, src, 0),
    {
        let n: usize = self.recvs.len();
        let mut i: usize = 0;
        while i < n
            invariant
                i <= n,
                n == self@.recvs.len(),
                self@.recvs == self.recvs@,
                recv_at(self@.recvs, dst, src, 0) == recv_at(self@.recvs, dst, src, i as int),
            decreases n - i,
        {
            let x: PendingRecv = self.recvs[i];
            if x.recver_pid == dst && x.src_pid == src {
                return i;
            }
            i += 1;
        }
        n
    }

    fn find_send(&self, src: usize, dst: usize) -> (r: usize)
        ensures
            r as int == send_at(self@.sends, src, dst, 0),
    {
        let n: usize = self.sends.len();
        let mut i: usize = 0;
        while i < n
            invariant
                i <= n,
                n == self@.sends.len(),
                self@.sends == self.sends@,
                send_at(self@.sends, src, dst, 0) == send_at(self@.sends, src, dst, i as int),
            decreases n - i,
        {
            let x: PendingSend = self.sends[i];
            if x.sender_pid == src && x.dst_pid == dst {
                return i;
            }
            i += 1;
        }
        n
    }
}

/// The running thread of process `pid` sends a message through one of its slots. When nobody takes
/// it, the thread has to block.
pub fn send(
    ipc: &mut IpcState,
    sched: &mut Scheduler,
    procs: &ProcessTable,
    pid: usize,
    slot: usize,
    msg: [u64; MSG_WORDS],
    hart: usize,
) -> (r: Result<SendBlock, u64>)
    requires
        old(sched).wf(),
        procs.wf(),
        hart < MAX_HARTS,
        old(sched)@.threads[old(sched)@.current[hart as int] as int].proc_id == Some(pid),
        old(ipc)@.in_step(old(sched)@, None),
    ensures
        final(sched).wf(),
        final(sched).image() == old(sched).image(),
        match send_target(procs@, pid as int, slot as int) {
            Err(e) => {
                &&& r == Err::<SendBlock, u64>(e)
                &&& final(ipc)@ == old(ipc)@
                &&& final(sched)@ == old(sched)@
            },
            Ok(dst) => {
                &&& r is Ok
                &&& (final(ipc)@, final(sched)@, r->Ok_0) == sent(
                    old(ipc)@,
                    old(sched)@,
                    pid,
                    dst,
                    old(sched)@.current[hart as int],
                    msg,
                )
            },
        },
        final(ipc)@.in_step(
            final(sched)@,
            if r == Ok::<SendBlock, u64>(SendBlock::NoPeer) {
                Some(old(sched)@.current[hart as int])
            } else {
                None
            },
        ),
{
    let dst: usize = match cap_target(procs, pid, slot) {
        Ok(Cap::Proc(d)) => d,
        Ok(_) => {
            return Err(cap_errno(CapError::WrongType));
        },
        Err(e) => {
            return Err(cap_errno(e));
        },
    };
    let ghost v = ipc@;
    let ghost s = sched@;
    let tid: usize = sched.current_id(hart);
    let n: usize = ipc.recvs.len();
    let mut pos: usize = ipc.find_recv(dst, pid);
    proof {
        lemma_recv_at(v.recvs, dst, pid, 0);
        lemma_recv_at(v.recvs, dst, IPC_ACCEPT_ANY, 0);
    }
    if pos == n {
        pos = ipc.find_recv(dst, IPC_ACCEPT_ANY);
    }
    if pos < n {
        let x: PendingRecv = ipc.recvs[pos];
        assert(x == v.recvs[pos as int]);
        let _ = ipc.recvs.remove(pos);
        proof {
            assert(IpcView::stopped(s, None, v.recvs[pos as int].recver_tid, v.recvs[pos as int].recver_pid));
            assert(words_of(Some(msg)) == Some(msg@));
            assert(ipc@ =~= (IpcView { recvs: v.recvs.remove(pos as int), ..v }));
            s.lemma_delivered(x.recver_tid, 0, Some(msg@), Some(msg@));
            lemma_recv_gone(v, s, s.delivered(x.recver_tid, 0, Some(msg@), Some(msg@)), pos as int);
        }
        sched.ipc_wake_with_msg(x.recver_tid, Some(msg));
        return Ok(SendBlock::Done);
    }
    ipc.sends.push_back(PendingSend { sender_tid: tid, sender_pid: pid, dst_pid: dst, msg });
    proof {
        assert(s.current[hart as int] < s.threads.len() && s.threads[tid as int].state
            == ThreadState::Running);
        s.lemma_donated(tid, dst);
        let w = s.donated(tid, dst);
        v.lemma_in_step(s, w, None);
        assert(ipc@.in_step(w, Some(tid))) by {
            assert forall|k: int| 0 <= k < ipc@.sends.len() implies IpcView::stopped(
                w,
                Some(tid),
                (#[trigger] ipc@.sends[k]).sender_tid,
                ipc@.sends[k].sender_pid,
            ) by {
                if k < v.sends.len() {
                    assert(IpcView::stopped(w, None, v.sends[k].sender_tid, v.sends[k].sender_pid));
                }
            }
            assert forall|k: int| 0 <= k < ipc@.recvs.len() implies IpcView::stopped(
                w,
                Some(tid),
                (#[trigger] ipc@.recvs[k]).recver_tid,
                ipc@.recvs[k].recver_pid,
            ) by {
                assert(IpcView::stopped(w, None, v.recvs[k].recver_tid, v.recvs[k].recver_pid));
            }
            lemma_not_waiting(v, s, tid);
        }
    }
    sched.donate_on_block(tid, dst);
    Ok(SendBlock::NoPeer)
}

/// The running thread of process `pid` receives a message through one of its slots. When none
/// waits, the thread has to block.
pub fn recv(
    ipc: &mut IpcState,
    sched: &mut Scheduler,
    procs: &ProcessTable,
    pid: usize,
    slot: usize,
    hart: usize,
) -> (r: Result<RecvBlock, u64>)
    requires
        old(sched).wf(),
        procs.wf(),
        hart < MAX_HARTS,
        old(sched)@.threads[old(sched)@.current[hart as int] as int].proc_id == Some(pid),
        old(ipc)@.in_step(old(sched)@, None),
    ensures
        final(sched).wf(),
        final(sched).image() == old(sched).image(),
        match recv_source(procs@, pid as int, slot as int) {
            Err(e) => {
                &&& r == Err::<RecvBlock, u64>(e)
                &&& final(ipc)@ == old(ipc)@
                &&& final(sched)@ == old(sched)@
            },
            Ok(src) => {
                &&& r is Ok
                &&& (final(ipc)@, final(sched)@, r->Ok_0) == received(
                    old(ipc)@,
                    old(sched)@,
                    pid,
                    src,
                    old(sched)@.current[hart as int],
                )
            },
        },
        final(ipc)@.in_step(
            final(sched)@,
            if r == Ok::<RecvBlock, u64>(RecvBlock::NoPeer) {
                Some(old(sched)@.current[hart as int])
            } else {
                None
            },
        ),
{
    let src: usize = match cap_target(procs, pid, slot) {
        Ok(Cap::Proc(d)) => d,
        Ok(_) => {
            return Err(cap_errno(CapError::WrongType));
        },
        Err(CapError::NotFound) => IPC_ACCEPT_ANY,
        Err(e) => {
            return Err(cap_errno(e));
        },
    };
    let ghost v = ipc@;
    let ghost s = sched@;
    let tid: usize = sched.current_id(hart);
    let n: usize = ipc.sends.len();
    let pos: usize = ipc.find_send(src, pid);
    proof {
        lemma_send_at(v.sends, src, pid, 0);
    }
    if pos < n {
        let x: PendingSend = ipc.sends[pos];
        assert(x == v.sends[pos as int]);
        let _ = ipc.sends.remove(pos);
        proof {
            assert(IpcView::stopped(s, None, v.sends[pos as int].sender_tid, v.sends[pos as int].sender_pid));
            assert(ipc@ =~= (IpcView { sends: v.sends.remove(pos as int), ..v }));
            s.lemma_delivered(x.sender_tid, 0, None, None);
            lemma_send_gone(v, s, s.delivered(x.sender_tid, 0, None, None), pos as int);
        }
        sched.ipc_wake_with_msg(x.sender_tid, None);
        return Ok(RecvBlock::Done(x.msg));
    }
    ipc.recvs.push_back(PendingRecv { recver_tid: tid, recver_pid: pid, src_pid: src });
    proof {
        assert(s.current[hart as int] < s.threads.len() && s.threads[tid as int].state
            == ThreadState::Running);
        s.lemma_donated(tid, src);
        let w = if src == IPC_ACCEPT_ANY {
            s
        } else {
            s.donated(tid, src)
        };
        v.lemma_in_step(s, w, None);
        assert(ipc@.in_step(w, Some(tid))) by {
            assert forall|k: int| 0 <= k < ipc@.sends.len() implies IpcView::stopped(
                w,
                Some(tid),
                (#[trigger] ipc@.sends[k]).sender_tid,
                ipc@.sends[k].sender_pid,
            ) by {
                assert(IpcView::stopped(w, None, v.sends[k].sender_tid, v.sends[k].sender_pid));
            }
            assert forall|k: int| 0 <= k < ipc@.recvs.len() implies IpcView::stopped(
                w,
                Some(tid),
                (#[trigger] ipc@.recvs[k]).recver_tid,
                ipc@.recvs[k].recver_pid,
            ) by {
                if k < v.recvs.len() {
                    assert(IpcView::stopped(w, None, v.recvs[k].recver_tid, v.recvs[k].recver_pid));
                }
            }
            lemma_not_waiting(v, s, tid);
        }
    }
    if src != IPC_ACCEPT_ANY {
        sched.donate_on_block(tid, src);
    }
    Ok(RecvBlock::NoPeer)
}

/// A thread that is not blocked does not wait.
proof fn lemma_not_waiting(v: IpcView, s: SchedView, tid: usize)
    requires
        v.in_step(s, None),
        tid < s.threads.len(),
        s.threads[tid as int].state != ThreadState::Blocked,
    ensures
        forall|k: int| 0 <= k < v.sends.len() ==> (#[trigger] v.sends[k]).sender_tid != tid,
        forall|k: int| 0 <= k < v.recvs.len() ==> (#[trigger] v.recvs[k]).recver_tid != tid,
{
    assert forall|k: int| 0 <= k < v.sends.len() implies (#[trigger] v.sends[k]).sender_tid != tid by {
        assert(IpcView::stopped(s, None, v.sends[k].sender_tid, v.sends[k].sender_pid));
    }
    assert forall|k: int| 0 <= k < v.recvs.len() implies (#[trigger] v.recvs[k]).recver_tid != tid by {
        assert(IpcView::stopped(s, None, v.recvs[k].recver_tid, v.recvs[k].recver_pid));
    }
}

/// One thread that waited to receive is resumed.
proof fn lemma_recv_gone(v: IpcView, s: SchedView, w: SchedView, pos: int)
    requires
        v.in_step(s, None),
        0 <= pos < v.recvs.len(),
        w.threads.len() == s.threads.len(),
        forall|i: int|
            0 <= i < s.threads.len() && i != v.recvs[pos].recver_tid ==> #[trigger] w.threads[i]
                == s.threads[i],
    ensures
        (IpcView { recvs: v.recvs.remove(pos), ..v }).in_step(w, None),
{
    let u = IpcView { recvs: v.recvs.remove(pos), ..v };
    let gone = v.recvs[pos].recver_tid;
    assert forall|k: int| 0 <= k < u.recvs.len() implies #[trigger] u.recvs[k] == v.recvs[if k < pos {
        k
    } else {
        k + 1
    }] by {}
    assert forall|k: int| 0 <= k < u.sends.len() implies IpcView::stopped(
        w,
        None,
        (#[trigger] u.sends[k]).sender_tid,
        u.sends[k].sender_pid,
    ) by {
        assert(IpcView::stopped(s, None, v.sends[k].sender_tid, v.sends[k].sender_pid));
        assert(v.sends[k].sender_tid != v.recvs[pos].recver_tid);
    }
    assert forall|k: int| 0 <= k < u.recvs.len() implies IpcView::stopped(
        w,
        None,
        (#[trigger] u.recvs[k]).recver_tid,
        u.recvs[k].recver_pid,
    ) && u.recvs[k].recver_tid != gone by {
        let j = if k < pos {
            k
        } else {
            k + 1
        };
        assert(IpcView::stopped(s, None, v.recvs[j].recver_tid, v.recvs[j].recver_pid));
        if j < pos {
            assert(v.recvs[j].recver_tid != v.recvs[pos].recver_tid);
        } else {
            assert(v.recvs[pos].recver_tid != v.recvs[j].recver_tid);
        }
    }
}

/// One thread that waited to send is resumed.
proof fn lemma_send_gone(v: IpcView, s: SchedView, w: SchedView, pos: int)
    requires
        v.in_step(s, None),
        0 <= pos < v.sends.len(),
        w.threads.len() == s.threads.len(),
        forall|i: int|
            0 <= i < s.threads.len() && i != v.sends[pos].sender_tid ==> #[trigger] w.threads[i]
                == s.threads[i],
    ensures
        (IpcView { sends: v.sends.remove(pos), ..v }).in_step(w, None),
{
    let u = IpcView { sends: v.sends.remove(pos), ..v };
    let gone = v.sends[pos].sender_tid;
    assert forall|k: int| 0 <= k < u.sends.len() implies #[trigger] u.sends[k] == v.sends[if k < pos {
        k
    } else {
        k + 1
    }] by {}
    assert forall|k: int| 0 <= k < u.recvs.len() implies IpcView::stopped(
        w,
        None,
        (#[trigger] u.recvs[k]).recver_tid,
        u.recvs[k].recver_pid,
    ) by {
        assert(IpcView::stopped(s, None, v.recvs[k].recver_tid, v.recvs[k].recver_pid));
        assert(v.sends[pos].sender_tid != v.recvs[k].recver_tid);
    }
    assert forall|k: int| 0 <= k < u.sends.len() implies IpcView::stopped(
        w,
        None,
        (#[trigger] u.sends[k]).sender_tid,
        u.sends[k].sender_pid,
    ) && u.sends[k].sender_tid != gone by {
        let j = if k < pos {
            k
        } else {
            k + 1
        };
        assert(IpcView::stopped(s, None, v.sends[j].sender_tid, v.sends[j].sender_pid));
        if j < pos {
            assert(v.sends[j].sender_tid != v.sends[pos].sender_tid);
        } else {
            assert(v.sends[pos].sender_tid != v.sends[j].sender_tid);
        }
    }
}

pub proof fn lemma_recv_at(r: Seq<PendingRecv>, dst: usize, src: usize, i: int)
    requires
        0 <= i <= r.len(),
    ensures
        i <= recv_at(r, dst, src, i) <= r.len(),
        recv_at(r, dst, src, i) < r.len() ==> r[recv_at(r, dst, src, i)].recver_pid == dst
            && r[recv_at(r, dst, src, i)].src_pid == src,
        forall|k: int|
            i <= k < recv_at(r, dst, src, i) ==> !((#[trigger] r[k]).recver_pid == dst
                && r[k].src_pid == src),
    decreases r.len() - i,
{
    if i < r.len() && !(r[i].recver_pid == dst && r[i].src_pid == src) {
        lemma_recv_at(r, dst, src, i + 1);
    }
}

pub proof fn lemma_send_at(s: Seq<PendingSend>, src: usize, dst: usize, i: int)
    requires
        0 <= i <= s.len(),
    ensures
        i <= send_at(s, src, dst, i) <= s.len(),
        send_at(s, src, dst, i) < s.len() ==> s[send_at(s, src, dst, i)].sender_pid == src
            && s[send_at(s, src, dst, i)].dst_pid == dst,
        forall|k: int|
            i <= k < send_at(s, src, dst, i) ==> !((#[trigger] s[k]).sender_pid == src
                && s[k].dst_pid == dst),
    decreases s.len() - i,
{
    if i < s.len() && !(s[i].sender_pid == src && s[i].dst_pid == dst) {
        lemma_send_at(s, src, dst, i + 1);
    }
}

/// The wait has nothing to do with the process.
pub open spec fn recv_apart(pid: usize) -> spec_fn(PendingRecv) -> bool {
    |x: PendingRecv| x.src_pid != pid && x.recver_pid != pid
}

/// The wait has nothing to do with the process.
pub open spec fn send_apart(pid: usize) -> spec_fn(PendingSend) -> bool {
    |x: PendingSend| x.dst_pid != pid && x.sender_pid != pid
}

/// Threads of other processes that wait for a message from the process, in order.
pub open spec fn hopeless_recvs(r: Seq<PendingRecv>, pid: usize) -> Seq<usize>
    decreases r.len(),
{
    if r.len() == 0 {
        Seq::empty()
    } else {
        let a = hopeless_recvs(r.drop_last(), pid);
        if r.last().src_pid == pid && r.last().recver_pid != pid {
            a.push(r.last().recver_tid)
        } else {
            a
        }
    }
}

/// Threads of other processes that wait for the process to take their message, in order.
pub open spec fn hopeless_sends(s: Seq<PendingSend>, pid: usize) -> Seq<usize>
    decreases s.len(),
{
    if s.len() == 0 {
        Seq::empty()
    } else {
        let a = hopeless_sends(s.drop_last(), pid);
        if s.last().dst_pid == pid && s.last().sender_pid != pid {
            a.push(s.last().sender_tid)
        } else {
            a
        }
    }
}

/// Threads are resumed, one after the other, with an error.
pub open spec fn failed_all(s: SchedView, tids: Seq<usize>, code: u64) -> SchedView
    decreases tids.len(),
{
    if tids.len() == 0 {
        s
    } else {
        failed_all(s, tids.drop_last(), code).delivered(
            tids.last(),
            code,
            None,
            Some(error_words(code)),
        )
    }
}

/// A thread that was resumed with an error.
pub open spec fn failed(t: ThreadView, code: u64) -> ThreadView {
    ThreadView {
        frame: returned(t.frame, code, None),
        ipc_msg: Some(error_words(code)),
        state: ThreadState::Ready,
        ..t
    }
}

/// A process is gone: nobody of it waits, and those who waited for it learn that it does not
/// exist.
pub open spec fn purged(v: IpcView, s: SchedView, pid: usize) -> (IpcView, SchedView) {
    (
        IpcView {
            sends: v.sends.filter(send_apart(pid)),
            recvs: v.recvs.filter(recv_apart(pid)),
        },
        failed_all(
            s,
            hopeless_recvs(v.recvs, pid) + hopeless_sends(v.sends, pid),
            SYS_ERR_ENOENT,
        ),
    )
}

/// What is in the list of those who wait in vain.
proof fn lemma_hopeless_recvs(r: Seq<PendingRecv>, pid: usize)
    ensures
        forall|i: int|
            0 <= i < hopeless_recvs(r, pid).len() ==> exists|k: int|
                0 <= k < r.len() && (#[trigger] r[k]).recver_tid == #[trigger] hopeless_recvs(
                    r,
                    pid,
                )[i] && r[k].src_pid == pid && r[k].recver_pid != pid,
        (forall|k: int, j: int|
            #![trigger r[k], r[j]]
            0 <= k < j < r.len() ==> r[k].recver_tid != r[j].recver_tid) ==> hopeless_recvs(
            r,
            pid,
        ).no_duplicates(),
    decreases r.len(),
{
    if r.len() > 0 {
        let e = r.drop_last();
        let a = hopeless_recvs(e, pid);
        let b = hopeless_recvs(r, pid);
        lemma_hopeless_recvs(e, pid);
        assert forall|i: int| 0 <= i < b.len() implies exists|k: int|
            0 <= k < r.len() && (#[trigger] r[k]).recver_tid == #[trigger] b[i] && r[k].src_pid
                == pid && r[k].recver_pid != pid by {
            if i < a.len() {
                assert(a[i] == b[i]);
                let k = choose|k: int|
                    0 <= k < e.len() && (#[trigger] e[k]).recver_tid == a[i] && e[k].src_pid == pid
                        && e[k].recver_pid != pid;
                assert(r[k] == e[k]);
            } else {
                assert(r[r.len() - 1].recver_tid == b[i]);
            }
        }
        if forall|k: int, j: int|
            #![trigger r[k], r[j]]
            0 <= k < j < r.len() ==> r[k].recver_tid != r[j].recver_tid {
            assert forall|k: int, j: int|
                #![trigger e[k], e[j]]
                0 <= k < j < e.len() implies e[k].recver_tid != e[j].recver_tid by {
                assert(r[k] == e[k] && r[j] == e[j]);
            }
            assert forall|i: int, j: int| 0 <= i < b.len() && 0 <= j < b.len() && i != j implies b[i]
                != b[j] by {
                let lo = if i < j {
                    i
                } else {
                    j
                };
                let hi = if i < j {
                    j
                } else {
                    i
                };
                assert(a[lo] == b[lo]);
                if hi < a.len() {
                    assert(a[hi] == b[hi]);
                } else {
                    let k = choose|k: int|
                        0 <= k < e.len() && (#[trigger] e[k]).recver_tid == a[lo] && e[k].src_pid
                            == pid && e[k].recver_pid != pid;
                    assert(r[k] == e[k]);
                    assert(r[k].recver_tid != r[r.len() - 1].recver_tid);
                }
            }
        }
    }
}

proof fn lemma_hopeless_sends(s: Seq<PendingSend>, pid: usize)
    ensures
        forall|i: int|
            0 <= i < hopeless_sends(s, pid).len() ==> exists|k: int|
                0 <= k < s.len() && (#[trigger] s[k]).sender_tid == #[trigger] hopeless_sends(
                    s,
                    pid,
                )[i] && s[k].dst_pid == pid && s[k].sender_pid != pid,
        (forall|k: int, j: int|
            #![trigger s[k], s[j]]
            0 <= k < j < s.len() ==> s[k].sender_tid != s[j].sender_tid) ==> hopeless_sends(
            s,
            pid,
        ).no_duplicates(),
    decreases s.len(),
{
    if s.len() > 0 {
        let e = s.drop_last();
        let a = hopeless_sends(e, pid);
        let b = hopeless_sends(s, pid);
        lemma_hopeless_sends(e, pid);
        assert forall|i: int| 0 <= i < b.len() implies exists|k: int|
            0 <= k < s.len() && (#[trigger] s[k]).sender_tid == #[trigger] b[i] && s[k].dst_pid
                == pid && s[k].sender_pid != pid by {
            if i < a.len() {
                assert(a[i] == b[i]);
                let k = choose|k: int|
                    0 <= k < e.len() && (#[trigger] e[k]).sender_tid == a[i] && e[k].dst_pid == pid
                        && e[k].sender_pid != pid;
                assert(s[k] == e[k]);
            } else {
                assert(s[s.len() - 1].sender_tid == b[i]);
            }
        }
        if forall|k: int, j: int|
            #![trigger s[k], s[j]]
            0 <= k < j < s.len() ==> s[k].sender_tid != s[j].sender_tid {
            assert forall|k: int, j: int|
                #![trigger e[k], e[j]]
                0 <= k < j < e.len() implies e[k].sender_tid != e[j].sender_tid by {
                assert(s[k] == e[k] && s[j] == e[j]);
            }
            assert forall|i: int, j: int| 0 <= i < b.len() && 0 <= j < b.len() && i != j implies b[i]
                != b[j] by {
                let lo = if i < j {
                    i
                } else {
                    j
                };
                let hi = if i < j {
                    j
                } else {
                    i
                };
                assert(a[lo] == b[lo]);
                if hi < a.len() {
                    assert(a[hi] == b[hi]);
                } else {
                    let k = choose|k: int|
                        0 <= k < e.len() && (#[trigger] e[k]).sender_tid == a[lo] && e[k].dst_pid
                            == pid && e[k].sender_pid != pid;
                    assert(s[k] == e[k]);
                    assert(s[k].sender_tid != s[s.len() - 1].sender_tid);
                }
            }
        }
    }
}

/// Resuming threads that are blocked keeps everything in order and leaves the other threads
/// alone.
proof fn lemma_failed_all(s: SchedView, tids: Seq<usize>, code: u64)
    requires
        s.wf(),
        tids.no_duplicates(),
        forall|i: int| 0 <= i < tids.len() ==> IpcView::at_rest(s, #[trigger] tids[i]),
    ensures
        failed_all(s, tids, code).wf(),
        failed_all(s, tids, code).threads.len() == s.threads.len(),
        failed_all(s, tids, code).current == s.current,
        forall|x: usize|
            x < s.threads.len() && !tids.contains(x) ==> #[trigger] failed_all(
                s,
                tids,
                code,
            ).threads[x as int] == s.threads[x as int],
        forall|i: int|
            0 <= i < tids.len() ==> failed_all(s, tids, code).threads[(#[trigger] tids[i]) as int]
                == failed(s.threads[tids[i] as int], code),
    decreases tids.len(),
{
    if tids.len() > 0 {
        let a = tids.drop_last();
        let y = tids.last();
        assert(a.no_duplicates()) by {
            assert forall|i: int, j: int| 0 <= i < a.len() && 0 <= j < a.len() && i != j implies a[i]
                != a[j] by {
                assert(tids[i] != tids[j]);
            }
        }
        assert forall|i: int| 0 <= i < a.len() implies IpcView::at_rest(s, #[trigger] a[i]) by {
            assert(tids[i] == a[i]);
        }
        lemma_failed_all(s, a, code);
        let v = failed_all(s, a, code);
        assert(!a.contains(y)) by {
            if a.contains(y) {
                let k = choose|k: int| 0 <= k < a.len() && a[k] == y;
                assert(tids[k] != tids[tids.len() - 1]);
            }
        }
        assert(IpcView::at_rest(s, tids[tids.len() - 1]));
        assert(v.threads[y as int] == s.threads[y as int]);
        v.lemma_delivered(y, code, None, Some(error_words(code)));
        assert forall|x: usize| x < s.threads.len() && !tids.contains(x) implies #[trigger] failed_all(
            s,
            tids,
            code,
        ).threads[x as int] == s.threads[x as int] by {
            assert(tids[tids.len() - 1] == y);
            assert(x != y);
            if a.contains(x) {
                let k = choose|k: int| 0 <= k < a.len() && a[k] == x;
                assert(tids[k] == x);
            }
            assert(v.threads[x as int] == s.threads[x as int]);
        }
        assert forall|i: int| 0 <= i < tids.len() implies failed_all(
            s,
            tids,
            code,
        ).threads[(#[trigger] tids[i]) as int] == failed(s.threads[tids[i] as int], code) by {
            if i < a.len() {
                assert(tids[i] == a[i]);
                assert(tids[i] != tids[tids.len() - 1]);
                assert(v.threads[a[i] as int] == failed(s.threads[a[i] as int], code));
            }
        }
    }
}

proof fn lemma_filter_recvs(r: Seq<PendingRecv>, p: spec_fn(PendingRecv) -> bool)
    ensures
        forall|i: int|
            0 <= i < r.filter(p).len() ==> p(#[trigger] r.filter(p)[i]) && exists|k: int|
                0 <= k < r.len() && #[trigger] r[k] == r.filter(p)[i],
        (forall|k: int, j: int|
            #![trigger r[k], r[j]]
            0 <= k < j < r.len() ==> r[k].recver_tid != r[j].recver_tid) ==> (forall|
            k: int,
            j: int,
        |
            #![trigger r.filter(p)[k], r.filter(p)[j]]
            0 <= k < j < r.filter(p).len() ==> r.filter(p)[k].recver_tid != r.filter(
                p,
            )[j].recver_tid),
    decreases r.len(),
{
    reveal(Seq::filter);
    if r.len() > 0 {
        let e = r.drop_last();
        let f = e.filter(p);
        let g = r.filter(p);
        lemma_filter_recvs(e, p);
        assert forall|i: int| 0 <= i < g.len() implies p(#[trigger] g[i]) && exists|k: int|
            0 <= k < r.len() && #[trigger] r[k] == g[i] by {
            if i < f.len() {
                assert(g[i] == f[i]);
                let k = choose|k: int| 0 <= k < e.len() && #[trigger] e[k] == f[i];
                assert(r[k] == g[i]);
            } else {
                assert(r[r.len() - 1] == g[i]);
            }
        }
        if forall|k: int, j: int|
            #![trigger r[k], r[j]]
            0 <= k < j < r.len() ==> r[k].recver_tid != r[j].recver_tid {
            assert forall|k: int, j: int|
                #![trigger e[k], e[j]]
                0 <= k < j < e.len() implies e[k].recver_tid != e[j].recver_tid by {
                assert(r[k] == e[k] && r[j] == e[j]);
            }
            assert forall|k: int, j: int|
                #![trigger g[k], g[j]]
                0 <= k < j < g.len() implies g[k].recver_tid != g[j].recver_tid by {
                assert(g[k] == f[k]);
                if j < f.len() {
                    assert(g[j] == f[j]);
                } else {
                    let i = choose|i: int| 0 <= i < e.len() && #[trigger] e[i] == f[k];
                    assert(r[i] == e[i]);
                    assert(r[i].recver_tid != r[r.len() - 1].recver_tid);
                }
            }
        }
    }
}

proof fn lemma_filter_sends(s: Seq<PendingSend>, p: spec_fn(PendingSend) -> bool)
    ensures
        forall|i: int|
            0 <= i < s.filter(p).len() ==> p(#[trigger] s.filter(p)[i]) && exists|k: int|
                0 <= k < s.len() && #[trigger] s[k] == s.filter(p)[i],
        (forall|k: int, j: int|
            #![trigger s[k], s[j]]
            0 <= k < j < s.len() ==> s[k].sender_tid != s[j].sender_tid) ==> (forall|
            k: int,
            j: int,
        |
            #![trigger s.filter(p)[k], s.filter(p)[j]]
            0 <= k < j < s.filter(p).len() ==> s.filter(p)[k].sender_tid != s.filter(
                p,
            )[j].sender_tid),
    decreases s.len(),
{
    reveal(Seq::filter);
    if s.len() > 0 {
        let e = s.drop_last();
        let f = e.filter(p);
        let g = s.filter(p);
        lemma_filter_sends(e, p);
        assert forall|i: int| 0 <= i < g.len() implies p(#[trigger] g[i]) && exists|k: int|
            0 <= k < s.len() && #[trigger] s[k] == g[i] by {
            if i < f.len() {
                assert(g[i] == f[i]);
                let k = choose|k: int| 0 <= k < e.len() && #[trigger] e[k] == f[i];
                assert(s[k] == g[i]);
            } else {
                assert(s[s.len() - 1] == g[i]);
            }
        }
        if forall|k: int, j: int|
            #![trigger s[k], s[j]]
            0 <= k < j < s.len() ==> s[k].sender_tid != s[j].sender_tid {
            assert forall|k: int, j: int|
                #![trigger e[k], e[j]]
                0 <= k < j < e.len() implies e[k].sender_tid != e[j].sender_tid by {
                assert(s[k] == e[k] && s[j] == e[j]);
            }
            assert forall|k: int, j: int|
                #![trigger g[k], g[j]]
                0 <= k < j < g.len() implies g[k].sender_tid != g[j].sender_tid by {
                assert(g[k] == f[k]);
                if j < f.len() {
                    assert(g[j] == f[j]);
                } else {
                    let i = choose|i: int| 0 <= i < e.len() && #[trigger] e[i] == f[k];
                    assert(s[i] == e[i]);
                    assert(s[i].sender_tid != s[s.len() - 1].sender_tid);
                }
            }
        }
    }
}

/// Those who wait in vain are blocked, each occurs once, and none of them is among those who keep
/// waiting.
pub proof fn lemma_purged(v: IpcView, s: SchedView, pid: usize)
    requires
        s.wf(),
        v.in_step(s, None),
    ensures
        ({
            let tids = hopeless_recvs(v.recvs, pid) + hopeless_sends(v.sends, pid);
            &&& tids.no_duplicates()
            &&& forall|i: int|
                0 <= i < tids.len() ==> IpcView::at_rest(s, #[trigger] tids[i])
        }),
        purged(v, s, pid).1.wf(),
        purged(v, s, pid).1.current == s.current,
        purged(v, s, pid).1.threads.len() == s.threads.len(),
        purged(v, s, pid).0.in_step(purged(v, s, pid).1, None),
{
    let a = hopeless_recvs(v.recvs, pid);
    let b = hopeless_sends(v.sends, pid);
    let tids = a + b;
    let (u, w) = purged(v, s, pid);
    lemma_hopeless_recvs(v.recvs, pid);
    lemma_hopeless_sends(v.sends, pid);
    assert(a.no_duplicates());
    assert(b.no_duplicates());
    assert forall|i: int, j: int| 0 <= i < a.len() && 0 <= j < b.len() implies a[i] != b[j] by {
        let k = choose|k: int|
            0 <= k < v.recvs.len() && (#[trigger] v.recvs[k]).recver_tid == a[i]
                && v.recvs[k].src_pid == pid && v.recvs[k].recver_pid != pid;
        let l = choose|l: int|
            0 <= l < v.sends.len() && (#[trigger] v.sends[l]).sender_tid == b[j]
                && v.sends[l].dst_pid == pid && v.sends[l].sender_pid != pid;
        assert(v.sends[l].sender_tid != v.recvs[k].recver_tid);
    }
    assert forall|i: int, j: int| 0 <= i < tids.len() && 0 <= j < tids.len() && i != j implies tids[i]
        != tids[j] by {
        if i < a.len() && j < a.len() {
            assert(a[i] != a[j]);
        } else if i >= a.len() && j >= a.len() {
            assert(b[i - a.len()] != b[j - a.len()]);
        } else if i < a.len() {
            assert(a[i] != b[j - a.len()]);
        } else {
            assert(a[j] != b[i - a.len()]);
        }
    }
    assert forall|i: int| 0 <= i < tids.len() implies IpcView::at_rest(s, #[trigger] tids[i]) by {
        if i < a.len() {
            assert(tids[i] == a[i]);
            let k = choose|k: int|
                0 <= k < v.recvs.len() && (#[trigger] v.recvs[k]).recver_tid == a[i]
                    && v.recvs[k].src_pid == pid && v.recvs[k].recver_pid != pid;
            assert(IpcView::stopped(s, None, v.recvs[k].recver_tid, v.recvs[k].recver_pid));
        } else {
            assert(tids[i] == b[i - a.len()]);
            let l = choose|l: int|
                0 <= l < v.sends.len() && (#[trigger] v.sends[l]).sender_tid == b[i - a.len()]
                    && v.sends[l].dst_pid == pid && v.sends[l].sender_pid != pid;
            assert(IpcView::stopped(s, None, v.sends[l].sender_tid, v.sends[l].sender_pid));
        }
    }
    lemma_failed_all(s, tids, SYS_ERR_ENOENT);
    lemma_filter_recvs(v.recvs, recv_apart(pid));
    lemma_filter_sends(v.sends, send_apart(pid));
    assert forall|k: int| 0 <= k < u.recvs.len() implies IpcView::stopped(
        w,
        None,
        (#[trigger] u.recvs[k]).recver_tid,
        u.recvs[k].recver_pid,
    ) by {
        let j = choose|j: int| 0 <= j < v.recvs.len() && #[trigger] v.recvs[j] == u.recvs[k];
        assert(IpcView::stopped(s, None, v.recvs[j].recver_tid, v.recvs[j].recver_pid));
        let x = v.recvs[j].recver_tid;
        assert(recv_apart(pid)(u.recvs[k]));
        if tids.contains(x) {
            let i = choose|i: int| 0 <= i < tids.len() && tids[i] == x;
            if i < a.len() {
                assert(a[i] == x);
                let m = choose|m: int|
                    0 <= m < v.recvs.len() && (#[trigger] v.recvs[m]).recver_tid == a[i]
                        && v.recvs[m].src_pid == pid && v.recvs[m].recver_pid != pid;
                if m < j {
                    assert(v.recvs[m].recver_tid != v.recvs[j].recver_tid);
                } else if j < m {
                    assert(v.recvs[j].recver_tid != v.recvs[m].recver_tid);
                }
                assert(false);
            } else {
                assert(b[i - a.len()] == x);
                let m = choose|m: int|
                    0 <= m < v.sends.len() && (#[trigger] v.sends[m]).sender_tid == b[i - a.len()]
                        && v.sends[m].dst_pid == pid && v.sends[m].sender_pid != pid;
                assert(v.sends[m].sender_tid != v.recvs[j].recver_tid);
                assert(false);
            }
        }
        assert(w.threads[x as int] == s.threads[x as int]);
    }
    assert forall|k: int| 0 <= k < u.sends.len() implies IpcView::stopped(
        w,
        None,
        (#[trigger] u.sends[k]).sender_tid,
        u.sends[k].sender_pid,
    ) by {
        let j = choose|j: int| 0 <= j < v.sends.len() && #[trigger] v.sends[j] == u.sends[k];
        assert(IpcView::stopped(s, None, v.sends[j].sender_tid, v.sends[j].sender_pid));
        let x = v.sends[j].sender_tid;
        assert(send_apart(pid)(u.sends[k]));
        if tids.contains(x) {
            let i = choose|i: int| 0 <= i < tids.len() && tids[i] == x;
            if i < a.len() {
                assert(a[i] == x);
                let m = choose|m: int|
                    0 <= m < v.recvs.len() && (#[trigger] v.recvs[m]).recver_tid == a[i]
                        && v.recvs[m].src_pid == pid && v.recvs[m].recver_pid != pid;
                assert(v.sends[j].sender_tid != v.recvs[m].recver_tid);
                assert(false);
            } else {
                assert(b[i - a.len()] == x);
                let m = choose|m: int|
                    0 <= m < v.sends.len() && (#[trigger] v.sends[m]).sender_tid == b[i - a.len()]
                        && v.sends[m].dst_pid == pid && v.sends[m].sender_pid != pid;
                if m < j {
                    assert(v.sends[m].sender_tid != v.sends[j].sender_tid);
                } else if j < m {
                    assert(v.sends[j].sender_tid != v.sends[m].sender_tid);
                }
                assert(false);
            }
        }
        assert(w.threads[x as int] == s.threads[x as int]);
    }
    assert forall|k: int, j: int|
        #![trigger u.sends[k], u.recvs[j]]
        0 <= k < u.sends.len() && 0 <= j < u.recvs.len() implies u.sends[k].sender_tid
        != u.recvs[j].recver_tid by {
        let l = choose|l: int| 0 <= l < v.sends.len() && #[trigger] v.sends[l] == u.sends[k];
        let m = choose|m: int| 0 <= m < v.recvs.len() && #[trigger] v.recvs[m] == u.recvs[j];
        assert(v.sends[l].sender_tid != v.recvs[m].recver_tid);
    }
}

impl IpcState {
    /// Forget the waits that have to do with a process; the threads of other processes among them.
    fn drop_process(&mut self, pid: usize) -> (tids: Vec<usize>)
        ensures
            final(self)@ == (IpcView {
                sends: old(self)@.sends.filter(send_apart(pid)),
                recvs: old(self)@.recvs.filter(recv_apart(pid)),
            }),
            tids@ == hopeless_recvs(old(self)@.recvs, pid) + hopeless_sends(old(self)@.sends, pid),
    {
        let ghost v = self@;
        let mut tids: Vec<usize> = Vec::new();
        let mut recvs: VecDeque<PendingRecv> = VecDeque::new();
        let n: usize = self.recvs.len();
        let mut i: usize = 0;
        proof {
            reveal(Seq::filter);
            assert(v.recvs.subrange(0, 0) =~= Seq::empty());
            assert(v.sends.subrange(0, 0) =~= Seq::empty());
        }
        while i < n
            invariant
                i <= n,
                n == v.recvs.len(),
                self@ == v,
                self.recvs@ == v.recvs,
                recvs@ == v.recvs.subrange(0, i as int).filter(recv_apart(pid)),
                tids@ == hopeless_recvs(v.recvs.subrange(0, i as int), pid),
            decreases n - i,
        {
            let x: PendingRecv = self.recvs[i];
            proof {
                crate::runqueue::lemma_filter_step(v.recvs, recv_apart(pid), i as int);
                let e = v.recvs.subrange(0, i + 1);
                assert(e.drop_last() =~= v.recvs.subrange(0, i as int));
                assert(e.last() == x);
            }
            if x.src_pid == pid {
                if x.recver_pid != pid {
                    tids.push(x.recver_tid);
                }
            } else if x.recver_pid != pid {
                recvs.push_back(x);
            }
            i += 1;
        }
        proof {
            assert(v.recvs.subrange(0, n as int) =~= v.recvs);
        }
        let mut sends: VecDeque<PendingSend> = VecDeque::new();
        let m: usize = self.sends.len();
        let mut j: usize = 0;
        proof {
            assert(tids@ =~= hopeless_recvs(v.recvs, pid) + hopeless_sends(
                v.sends.subrange(0, 0),
                pid,
            ));
        }
        while j < m
            invariant
                j <= m,
                m == v.sends.len(),
                self@ == v,
                self.sends@ == v.sends,
                sends@ == v.sends.subrange(0, j as int).filter(send_apart(pid)),
                tids@ == hopeless_recvs(v.recvs, pid) + hopeless_sends(
                    v.sends.subrange(0, j as int),
                    pid,
                ),
            decreases m - j,
        {
            let x: PendingSend = self.sends[j];
            proof {
                crate::runqueue::lemma_filter_step(v.sends, send_apart(pid), j as int);
                let e = v.sends.subrange(0, j + 1);
                assert(e.drop_last() =~= v.sends.subrange(0, j as int));
                assert(e.last() == x);
            }
            if x.dst_pid == pid {
                if x.sender_pid != pid {
                    let ghost t0 = tids@;
                    tids.push(x.sender_tid);
                    assert(tids@ =~= hopeless_recvs(v.recvs, pid) + hopeless_sends(
                        v.sends.subrange(0, j as int),
                        pid,
                    ).push(x.sender_tid));
                }
            } else if x.sender_pid != pid {
                sends.push_back(x);
            }
            j += 1;
        }
        proof {
            assert(v.sends.subrange(0, m as int) =~= v.sends);
        }
        self.recvs = recvs;
        self.sends = sends;
        tids
    }
}

/// A process ends. Its threads wait for nothing any more. Threads of other processes that wait for
/// it are resumed, and learn that it does not exist.
pub fn purge_process(ipc: &mut IpcState, sched: &mut Scheduler, pid: usize)
    requires
        old(sched).wf(),
        old(ipc)@.in_step(old(sched)@, None),
    ensures
        final(sched).wf(),
        final(sched).image() == old(sched).image(),
        (final(ipc)@, final(sched)@) == purged(old(ipc)@, old(sched)@, pid),
        final(ipc)@.in_step(final(sched)@, None),
        final(sched)@.current == old(sched)@.current,
{
    let ghost v = ipc@;
    let ghost s = sched@;
    proof {
        lemma_purged(v, s, pid);
    }
    let tids: Vec<usize> = ipc.drop_process(pid);
    let n: usize = tids.len();
    let mut i: usize = 0;
    proof {
        assert(tids@.subrange(0, 0) =~= Seq::empty());
    }
    while i < n
        invariant
            i <= n,
            n == tids@.len(),
            s.wf(),
            sched.wf(),
            sched.image() == old(sched).image(),
            tids@.no_duplicates(),
            forall|k: int| 0 <= k < tids@.len() ==> IpcView::at_rest(s, #[trigger] tids@[k]),
            sched@ == failed_all(s, tids@.subrange(0, i as int), SYS_ERR_ENOENT),
        decreases n - i,
    {
        let tid: usize = tids[i];
        proof {
            let a = tids@.subrange(0, i as int);
            let e = tids@.subrange(0, i + 1);
            assert(e.drop_last() =~= a);
            assert(e.last() == tid);
            assert(a.no_duplicates()) by {
                assert forall|k: int, j: int| 0 <= k < a.len() && 0 <= j < a.len() && k
                    != j implies a[k] != a[j] by {
                    assert(tids@[k] != tids@[j]);
                }
            }
            assert forall|k: int| 0 <= k < a.len() implies IpcView::at_rest(s, #[trigger] a[k]) by {
                assert(tids@[k] == a[k]);
            }
            lemma_failed_all(s, a, SYS_ERR_ENOENT);
            assert(!a.contains(tid)) by {
                if a.contains(tid) {
                    let k = choose|k: int| 0 <= k < a.len() && a[k] == tid;
                    assert(tids@[k] != tids@[i as int]);
                }
            }
            assert(IpcView::at_rest(s, tids@[i as int]));
            assert(sched@.threads[tid as int] == s.threads[tid as int]);
        }
        sched.ipc_wake_with_err(tid, SYS_ERR_ENOENT);
        i += 1;
    }
    proof {
        assert(tids@.subrange(0, n as int) =~= tids@);
    }
}

/// Law: of the threads that wait for a message, the one that came first gets it; one that asked
/// for this sender goes before one that listens.
pub proof fn law_first_come(r: Seq<PendingRecv>, dst: usize, src: usize, j: int)
    requires
        0 <= j < r.len(),
        r[j].recver_pid == dst,
        r[j].src_pid == src || r[j].src_pid == IPC_ACCEPT_ANY,
    ensures
        ({
            let k = taker(r, dst, src);
            &&& 0 <= k < r.len()
            &&& r[k].recver_pid == dst
            &&& r[k].src_pid == src || r[k].src_pid == IPC_ACCEPT_ANY
            &&& r[j].src_pid == src ==> r[k].src_pid == src && k <= j
            &&& r[j].src_pid == r[k].src_pid ==> k <= j
        }),
{
    lemma_recv_at(r, dst, src, 0);
    lemma_recv_at(r, dst, IPC_ACCEPT_ANY, 0);
}

/// Law: a message that nobody took is received, whole, by the first thread of the other process
/// that asks for it, when no earlier message waits; its sender is resumed, with success.
pub proof fn law_sent_is_received(
    v: IpcView,
    s: SchedView,
    a: usize,
    b: usize,
    tid: usize,
    msg: [u64; MSG_WORDS],
    s2: SchedView,
    other: usize,
)
    requires
        taker(v.recvs, b, a) == v.recvs.len(),
        send_at(v.sends, a, b, 0) == v.sends.len(),
    ensures
        sent(v, s, a, b, tid, msg).2 == SendBlock::NoPeer,
        ({
            let v1 = sent(v, s, a, b, tid, msg).0;
            let (v2, s3, r) = received(v1, s2, b, a, other);
            &&& r == RecvBlock::Done(msg)
            &&& v2 == v
            &&& s3 == s2.delivered(tid, 0, None, None)
        }),
{
    let v1 = sent(v, s, a, b, tid, msg).0;
    lemma_recv_at(v.recvs, b, a, 0);
    lemma_recv_at(v.recvs, b, IPC_ACCEPT_ANY, 0);
    lemma_send_at(v.sends, a, b, 0);
    lemma_send_at(v1.sends, a, b, 0);
    let k = send_at(v1.sends, a, b, 0);
    assert(v1.sends[v.sends.len() as int].msg == msg);
    assert(k == v.sends.len()) by {
        if k < v.sends.len() {
            assert(v1.sends[k] == v.sends[k]);
        }
    }
    assert(v1.sends.remove(k) =~= v.sends);
    assert(received(v1, s2, b, a, other).0 =~= v);
}

/// Law: a thread that waits for a message from a process, or that listens, gets the next one that
/// the process sends it, whole, in its registers, when nobody waits before it.
pub proof fn law_waiting_receives(
    v: IpcView,
    s: SchedView,
    a: usize,
    b: usize,
    any: bool,
    tid: usize,
    s2: SchedView,
    other: usize,
    msg: [u64; MSG_WORDS],
)
    requires
        taker(v.recvs, b, a) == v.recvs.len(),
        send_at(v.sends, if any { IPC_ACCEPT_ANY } else { a }, b, 0) == v.sends.len(),
    ensures
        received(v, s, b, if any { IPC_ACCEPT_ANY } else { a }, tid).2 == RecvBlock::NoPeer,
        ({
            let v1 = received(v, s, b, if any { IPC_ACCEPT_ANY } else { a }, tid).0;
            let (v2, s3, r) = sent(v1, s2, a, b, other, msg);
            &&& r == SendBlock::Done
            &&& v2 == v
            &&& s3 == s2.delivered(tid, 0, Some(msg@), Some(msg@))
        }),
{
    let src = if any {
        IPC_ACCEPT_ANY
    } else {
        a
    };
    let v1 = received(v, s, b, src, tid).0;
    lemma_recv_at(v.recvs, b, a, 0);
    lemma_recv_at(v.recvs, b, IPC_ACCEPT_ANY, 0);
    lemma_recv_at(v1.recvs, b, a, 0);
    lemma_recv_at(v1.recvs, b, IPC_ACCEPT_ANY, 0);
    lemma_send_at(v.sends, src, b, 0);
    let n = v.recvs.len() as int;
    let k = taker(v1.recvs, b, a);
    assert(v1.recvs[n].recver_tid == tid);
    assert(k == n) by {
        let x = recv_at(v1.recvs, b, a, 0);
        if x < n {
            assert(v1.recvs[x] == v.recvs[x]);
        }
        let y = recv_at(v1.recvs, b, IPC_ACCEPT_ANY, 0);
        if y < n {
            assert(v1.recvs[y] == v.recvs[y]);
        }
    }
    assert(v1.recvs.remove(k) =~= v.recvs);
    assert(sent(v1, s2, a, b, other, msg).0 =~= v);
}

/// Law: when a process has ended, nothing that waits has to do with it, and the others wait as
/// before.
pub proof fn law_purged_is_forgotten(v: IpcView, s: SchedView, pid: usize)
    ensures
        forall|k: int|
            0 <= k < purged(v, s, pid).0.sends.len() ==> (#[trigger] purged(
                v,
                s,
                pid,
            ).0.sends[k]).sender_pid != pid && purged(v, s, pid).0.sends[k].dst_pid != pid,
        forall|k: int|
            0 <= k < purged(v, s, pid).0.recvs.len() ==> (#[trigger] purged(
                v,
                s,
                pid,
            ).0.recvs[k]).recver_pid != pid && purged(v, s, pid).0.recvs[k].src_pid != pid,
        forall|k: int|
            0 <= k < v.sends.len() && (#[trigger] v.sends[k]).sender_pid != pid
                && v.sends[k].dst_pid != pid ==> purged(v, s, pid).0.sends.contains(v.sends[k]),
        forall|k: int|
            0 <= k < v.recvs.len() && (#[trigger] v.recvs[k]).recver_pid != pid
                && v.recvs[k].src_pid != pid ==> purged(v, s, pid).0.recvs.contains(v.recvs[k]),
{
    let u = purged(v, s, pid).0;
    lemma_filter_recvs(v.recvs, recv_apart(pid));
    lemma_filter_sends(v.sends, send_apart(pid));
    broadcast use vstd::seq_lib::group_filter_ensures;

    assert forall|k: int| 0 <= k < u.sends.len() implies (#[trigger] u.sends[k]).sender_pid != pid
        && u.sends[k].dst_pid != pid by {
        assert(send_apart(pid)(u.sends[k]));
    }
    assert forall|k: int| 0 <= k < u.recvs.len() implies (#[trigger] u.recvs[k]).recver_pid != pid
        && u.recvs[k].src_pid != pid by {
        assert(recv_apart(pid)(u.recvs[k]));
    }
    assert forall|k: int|
        0 <= k < v.sends.len() && (#[trigger] v.sends[k]).sender_pid != pid && v.sends[k].dst_pid
            != pid implies u.sends.contains(v.sends[k]) by {
        assert(send_apart(pid)(v.sends[k]));
    }
    assert forall|k: int|
        0 <= k < v.recvs.len() && (#[trigger] v.recvs[k]).recver_pid != pid && v.recvs[k].src_pid
            != pid implies u.recvs.contains(v.recvs[k]) by {
        assert(recv_apart(pid)(v.recvs[k]));
    }
}

/// Who waits for a process is in the list of those who wait in vain.
proof fn lemma_hopeless_all(v: IpcView, pid: usize)
    ensures
        forall|k: int|
            0 <= k < v.recvs.len() && (#[trigger] v.recvs[k]).src_pid == pid
                && v.recvs[k].recver_pid != pid ==> hopeless_recvs(v.recvs, pid).contains(
                v.recvs[k].recver_tid,
            ),
        forall|k: int|
            0 <= k < v.sends.len() && (#[trigger] v.sends[k]).dst_pid == pid
                && v.sends[k].sender_pid != pid ==> hopeless_sends(v.sends, pid).contains(
                v.sends[k].sender_tid,
            ),
    decreases v.recvs.len() + v.sends.len(),
{
    if v.recvs.len() > 0 {
        let e = v.recvs.drop_last();
        lemma_hopeless_all(IpcView { recvs: e, ..v }, pid);
        let a = hopeless_recvs(e, pid);
        let b = hopeless_recvs(v.recvs, pid);
        assert forall|k: int|
            0 <= k < v.recvs.len() && (#[trigger] v.recvs[k]).src_pid == pid
                && v.recvs[k].recver_pid != pid implies b.contains(v.recvs[k].recver_tid) by {
            if k < e.len() {
                assert(e[k] == v.recvs[k]);
                let i = choose|i: int| 0 <= i < a.len() && a[i] == v.recvs[k].recver_tid;
                assert(b[i] == v.recvs[k].recver_tid);
            } else {
                assert(b[b.len() - 1] == v.recvs[k].recver_tid);
            }
        }
    } else if v.sends.len() > 0 {
        let e = v.sends.drop_last();
        lemma_hopeless_all(IpcView { sends: e, ..v }, pid);
        let a = hopeless_sends(e, pid);
        let b = hopeless_sends(v.sends, pid);
        assert forall|k: int|
            0 <= k < v.sends.len() && (#[trigger] v.sends[k]).dst_pid == pid
                && v.sends[k].sender_pid != pid implies b.contains(v.sends[k].sender_tid) by {
            if k < e.len() {
                assert(e[k] == v.sends[k]);
                let i = choose|i: int| 0 <= i < a.len() && a[i] == v.sends[k].sender_tid;
                assert(b[i] == v.sends[k].sender_tid);
            } else {
                assert(b[b.len() - 1] == v.sends[k].sender_tid);
            }
        }
    }
}

/// A thread that does not wait for the process stays as it is.
pub proof fn lemma_unconcerned_stays(v: IpcView, s: SchedView, pid: usize, x: usize)
    requires
        s.wf(),
        v.in_step(s, None),
        x < s.threads.len(),
        forall|k: int|
            0 <= k < v.sends.len() && (#[trigger] v.sends[k]).sender_tid == x ==> v.sends[k].dst_pid
                != pid || v.sends[k].sender_pid == pid,
        forall|k: int|
            0 <= k < v.recvs.len() && (#[trigger] v.recvs[k]).recver_tid == x ==> v.recvs[k].src_pid
                != pid || v.recvs[k].recver_pid == pid,
    ensures
        purged(v, s, pid).1.threads[x as int] == s.threads[x as int],
{
    let a = hopeless_recvs(v.recvs, pid);
    let b = hopeless_sends(v.sends, pid);
    let tids = a + b;
    lemma_purged(v, s, pid);
    lemma_hopeless_recvs(v.recvs, pid);
    lemma_hopeless_sends(v.sends, pid);
    lemma_failed_all(s, tids, SYS_ERR_ENOENT);
    if tids.contains(x) {
        let i = choose|i: int| 0 <= i < tids.len() && tids[i] == x;
        if i < a.len() {
            assert(a[i] == x);
        } else {
            assert(b[i - a.len()] == x);
        }
    }
}

/// Law: when a process has ended, every thread of another process that waited for a message from
/// it, or for it to take one, goes on and learns that the process does not exist.
pub proof fn law_waiters_learn_the_end(v: IpcView, s: SchedView, pid: usize)
    requires
        s.wf(),
        v.in_step(s, None),
    ensures
        forall|k: int|
            0 <= k < v.recvs.len() && (#[trigger] v.recvs[k]).src_pid == pid
                && v.recvs[k].recver_pid != pid ==> purged(
                v,
                s,
                pid,
            ).1.threads[v.recvs[k].recver_tid as int] == failed(
                s.threads[v.recvs[k].recver_tid as int],
                SYS_ERR_ENOENT,
            ),
        forall|k: int|
            0 <= k < v.sends.len() && (#[trigger] v.sends[k]).dst_pid == pid
                && v.sends[k].sender_pid != pid ==> purged(
                v,
                s,
                pid,
            ).1.threads[v.sends[k].sender_tid as int] == failed(
                s.threads[v.sends[k].sender_tid as int],
                SYS_ERR_ENOENT,
            ),
{
    let a = hopeless_recvs(v.recvs, pid);
    let b = hopeless_sends(v.sends, pid);
    let tids = a + b;
    lemma_purged(v, s, pid);
    lemma_failed_all(s, tids, SYS_ERR_ENOENT);
    lemma_hopeless_all(v, pid);
    let w = purged(v, s, pid).1;
    assert forall|k: int|
        0 <= k < v.recvs.len() && (#[trigger] v.recvs[k]).src_pid == pid && v.recvs[k].recver_pid
            != pid implies w.threads[v.recvs[k].recver_tid as int] == failed(
        s.threads[v.recvs[k].recver_tid as int],
        SYS_ERR_ENOENT,
    ) by {
        let i = choose|i: int| 0 <= i < a.len() && a[i] == v.recvs[k].recver_tid;
        assert(tids[i] == v.recvs[k].recver_tid);
    }
    assert forall|k: int|
        0 <= k < v.sends.len() && (#[trigger] v.sends[k]).dst_pid == pid && v.sends[k].sender_pid
            != pid implies w.threads[v.sends[k].sender_tid as int] == failed(
        s.threads[v.sends[k].sender_tid as int],
        SYS_ERR_ENOENT,
    ) by {
        let i = choose|i: int| 0 <= i < b.len() && b[i] == v.sends[k].sender_tid;
        assert(tids[a.len() + i] == v.sends[k].sender_tid);
    }
}

/// Resuming threads with an error keeps priorities in order.
proof fn lemma_failed_prios(s: SchedView, tids: Seq<usize>, code: u64)
    requires
        s.wf(),
        s.prios_ok(),
        tids.no_duplicates(),
        forall|i: int| 0 <= i < tids.len() ==> IpcView::at_rest(s, #[trigger] tids[i]),
    ensures
        failed_all(s, tids, code).prios_ok(),
    decreases tids.len(),
{
    if tids.len() > 0 {
        let a = tids.drop_last();
        let y = tids.last();
        assert(a.no_duplicates()) by {
            assert forall|i: int, j: int| 0 <= i < a.len() && 0 <= j < a.len() && i != j implies a[i]
                != a[j] by {
                assert(tids[i] != tids[j]);
            }
        }
        assert forall|i: int| 0 <= i < a.len() implies IpcView::at_rest(s, #[trigger] a[i]) by {
            assert(tids[i] == a[i]);
        }
        lemma_failed_prios(s, a, code);
        lemma_failed_all(s, a, code);
        assert(!a.contains(y)) by {
            if a.contains(y) {
                let k = choose|k: int| 0 <= k < a.len() && a[k] == y;
                assert(tids[k] != tids[tids.len() - 1]);
            }
        }
        assert(IpcView::at_rest(s, tids[tids.len() - 1]));
        let v = failed_all(s, a, code);
        assert(v.threads[y as int] == s.threads[y as int]);
        law_delivery_keeps_prios(v, y, code, None, Some(error_words(code)));
    }
}

/// Law: whether a message finds its thread or a thread waits, and when those who wait for a process
/// learn that it is gone, priorities stay in order.
pub proof fn law_messages_keep_prios(
    v: IpcView,
    s: SchedView,
    pid: usize,
    peer: usize,
    msg: [u64; MSG_WORDS],
    h: int,
    frame: Seq<u64>,
)
    requires
        s.wf(),
        s.prios_ok(),
        v.in_step(s, None),
        0 <= h < MAX_HARTS,
        s.current[h] >= MAX_HARTS,
        frame.len() == TRAP_FRAME_WORDS,
    ensures
        ({
            let (u, w, done) = sent(v, s, pid, peer, s.current[h], msg);
            match done {
                SendBlock::Done => w.prios_ok(),
                SendBlock::NoPeer => w.user_blocked(h, frame).prios_ok(),
            }
        }),
        ({
            let (u, w, done) = received(v, s, pid, peer, s.current[h]);
            match done {
                RecvBlock::Done(m) => w.prios_ok(),
                RecvBlock::NoPeer => w.user_blocked(h, frame).prios_ok(),
            }
        }),
        purged(v, s, pid).1.prios_ok(),
{
    law_switching_keeps_prios(s, h, frame, 0, peer);
    let k = taker(v.recvs, peer, pid);
    lemma_recv_at(v.recvs, peer, pid, 0);
    lemma_recv_at(v.recvs, peer, IPC_ACCEPT_ANY, 0);
    if k < v.recvs.len() {
        let t = v.recvs[k].recver_tid;
        assert(IpcView::stopped(s, None, v.recvs[k].recver_tid, v.recvs[k].recver_pid));
        law_delivery_keeps_prios(s, t, 0, Some(msg@), Some(msg@));
    }
    let j = send_at(v.sends, peer, pid, 0);
    lemma_send_at(v.sends, peer, pid, 0);
    if j < v.sends.len() {
        let t = v.sends[j].sender_tid;
        assert(IpcView::stopped(s, None, v.sends[j].sender_tid, v.sends[j].sender_pid));
        law_delivery_keeps_prios(s, t, 0, None, None);
    }
    lemma_purged(v, s, pid);
    lemma_failed_prios(
        s,
        hopeless_recvs(v.recvs, pid) + hopeless_sends(v.sends, pid),
        SYS_ERR_ENOENT,
    );
}

} // verus!
