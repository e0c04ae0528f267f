//! What messages are for: who gets which words, who goes on, and who keeps waiting.

use vstd::prelude::*;
use crate::ipc::{
    law_purged_is_forgotten, law_waiters_learn_the_end, lemma_purged, lemma_recv_at, lemma_send_at,
    purged, received, recv_at, recv_source, send_at, send_target, sent, taker, IpcView, PendingRecv,
    PendingSend, RecvBlock, SendBlock, IPC_ACCEPT_ANY, MSG_WORDS,
};
use crate::process::{Cap, ProcView};
use crate::runqueue::{SchedView, ThreadState, ThreadView};
use crate::syscall::{SYS_ERR_EACCES, SYS_ERR_EINVAL, SYS_ERR_ENOENT};

verus! {

/// A thread goes on behind its system call, with a result in `a0`; its other registers, but for
/// those from `from` to `to`, and all else of it stay.
pub open spec fn goes_on(t: ThreadView, was: ThreadView, a0: u64, from: int, to: int) -> bool {
    &&& t.state == ThreadState::Ready
    &&& t.frame.len() == 36
    &&& t.frame[9] == a0
    &&& t.frame[33] == was.frame[33].wrapping_add(4)
    &&& forall|i: int|
        0 <= i < 36 && i != 9 && i != 33 && !(from <= i < to) ==> #[trigger] t.frame[i]
            == was.frame[i]
    &&& t == (ThreadView { state: t.state, frame: t.frame, ipc_msg: t.ipc_msg, ..was })
}

/// All threads but one are as before.
pub open spec fn others_stay(w: SchedView, s: SchedView, tid: usize) -> bool {
    &&& w.threads.len() == s.threads.len()
    &&& w.current == s.current
    &&& forall|x: int| 0 <= x < s.threads.len() && x != tid ==> #[trigger] w.threads[x] == s.threads[x]
}

/// Law: who receives from a process gets the words of the first message that waits from it, whatever
/// waits before and behind it from others; that message is gone, its sender goes on and learns that
/// it succeeded, and all other messages and threads wait as before.
pub proof fn law_receive_takes_first(
    v: IpcView,
    s: SchedView,
    pid: usize,
    src: usize,
    tid: usize,
    k: int,
)
    requires
        s.wf(),
        v.in_step(s, None),
        0 <= k < v.sends.len(),
        v.sends[k].sender_pid == src,
        v.sends[k].dst_pid == pid,
        forall|i: int|
            0 <= i < k ==> !((#[trigger] v.sends[i]).sender_pid == src && v.sends[i].dst_pid == pid),
    ensures
        ({
            let (u, w, r) = received(v, s, pid, src, tid);
            let sender = v.sends[k].sender_tid;
            &&& r == RecvBlock::Done(v.sends[k].msg)
            &&& u.recvs == v.recvs
            &&& u.sends.len() == v.sends.len() - 1
            &&& forall|i: int| 0 <= i < k ==> #[trigger] u.sends[i] == v.sends[i]
            &&& forall|i: int| k <= i < u.sends.len() ==> #[trigger] u.sends[i] == v.sends[i + 1]
            &&& others_stay(w, s, sender)
            &&& goes_on(w.threads[sender as int], s.threads[sender as int], 0, 0, 0)
        }),
{
    lemma_send_at(v.sends, src, pid, 0);
    let j = send_at(v.sends, src, pid, 0);
    assert(j == k) by {
        if j > k {
            assert(v.sends[k].sender_pid == src);
        }
        if j < k {
            assert(v.sends[j].sender_pid == src);
        }
    }
    let sender = v.sends[k].sender_tid;
    assert(IpcView::stopped(s, None, v.sends[k].sender_tid, v.sends[k].sender_pid));
    s.lemma_delivered(sender, 0, None, None);
    assert(s.threads[sender as int].ok());
}

/// Law: where no message waits from the process that is asked, the receiver waits, behind all that
/// wait already; no message and no thread changes. While it waits for a process it lends it its
/// priority, and none where it listens.
pub proof fn law_receive_waits(v: IpcView, s: SchedView, pid: usize, src: usize, tid: usize)
    requires
        s.wf(),
        tid < s.threads.len(),
        forall|i: int|
            0 <= i < v.sends.len() ==> !((#[trigger] v.sends[i]).sender_pid == src
                && v.sends[i].dst_pid == pid),
    ensures
        ({
            let (u, w, r) = received(v, s, pid, src, tid);
            &&& r == RecvBlock::NoPeer
            &&& u.sends == v.sends
            &&& u.recvs.len() == v.recvs.len() + 1
            &&& forall|i: int| 0 <= i < v.recvs.len() ==> #[trigger] u.recvs[i] == v.recvs[i]
            &&& u.recvs[v.recvs.len() as int] == (PendingRecv {
                recver_tid: tid,
                recver_pid: pid,
                src_pid: src,
            })
            &&& w.threads == s.threads
            &&& w.current == s.current
            &&& src == usize::MAX ==> w == s
            &&& src != usize::MAX ==> w == s.donated(tid, src)
        }),
{
    lemma_send_at(v.sends, src, pid, 0);
    let j = send_at(v.sends, src, pid, 0);
    assert(j == v.sends.len()) by {
        if j < v.sends.len() {
            assert(v.sends[j].sender_pid == src);
        }
    }
    s.lemma_donated(tid, src);
}

/// Law: what others send after a message does not change what a receive gives: the message that
/// waits longest from the process that is asked is received, also with later messages behind it.
pub proof fn law_later_sends_do_not_matter(
    v: IpcView,
    more: Seq<PendingSend>,
    s: SchedView,
    pid: usize,
    src: usize,
    tid: usize,
)
    requires
        s.wf(),
        (IpcView { sends: v.sends + more, ..v }).in_step(s, None),
        exists|k: int|
            0 <= k < v.sends.len() && (#[trigger] v.sends[k]).sender_pid == src
                && v.sends[k].dst_pid == pid,
    ensures
        ({
            let all = IpcView { sends: v.sends + more, ..v };
            &&& received(all, s, pid, src, tid).2 == received(v, s, pid, src, tid).2
            &&& received(all, s, pid, src, tid).1 == received(v, s, pid, src, tid).1
            &&& received(all, s, pid, src, tid).0.sends == received(v, s, pid, src, tid).0.sends
                + more
        }),
{
    let all = v.sends + more;
    lemma_send_at(v.sends, src, pid, 0);
    lemma_send_at(all, src, pid, 0);
    let k = send_at(v.sends, src, pid, 0);
    let j = send_at(all, src, pid, 0);
    let i = choose|i: int|
        0 <= i < v.sends.len() && (#[trigger] v.sends[i]).sender_pid == src && v.sends[i].dst_pid
            == pid;
    assert(k <= i);
    assert(all[k] == v.sends[k]);
    assert(j <= k);
    assert(all[j] == v.sends[j]);
    assert(j == k);
    assert(all.remove(k) =~= v.sends.remove(k) + more);
}

/// Law: a message goes to the first thread of its process that waits for this sender, or else to the
/// first that listens: that thread goes on with success in `a0` and the five words in `a1` to `a5`,
/// and waits no more. All others wait as before, and the sender does not wait.
pub proof fn law_send_reaches_first(
    v: IpcView,
    s: SchedView,
    pid: usize,
    dst: usize,
    tid: usize,
    msg: [u64; MSG_WORDS],
    k: int,
)
    requires
        s.wf(),
        v.in_step(s, None),
        0 <= k < v.recvs.len(),
        v.recvs[k].recver_pid == dst,
        ({
            ||| v.recvs[k].src_pid == pid && forall|i: int|
                0 <= i < k ==> !((#[trigger] v.recvs[i]).recver_pid == dst && v.recvs[i].src_pid
                    == pid)
            ||| v.recvs[k].src_pid == usize::MAX && (forall|i: int|
                0 <= i < k ==> !((#[trigger] v.recvs[i]).recver_pid == dst && v.recvs[i].src_pid
                    == usize::MAX)) && (forall|i: int|
                0 <= i < v.recvs.len() ==> !((#[trigger] v.recvs[i]).recver_pid == dst
                    && v.recvs[i].src_pid == pid))
        }),
    ensures
        ({
            let (u, w, r) = sent(v, s, pid, dst, tid, msg);
            let to = v.recvs[k].recver_tid;
            &&& r == SendBlock::Done
            &&& u.sends == v.sends
            &&& u.recvs.len() == v.recvs.len() - 1
            &&& forall|i: int| 0 <= i < k ==> #[trigger] u.recvs[i] == v.recvs[i]
            &&& forall|i: int| k <= i < u.recvs.len() ==> #[trigger] u.recvs[i] == v.recvs[i + 1]
            &&& others_stay(w, s, to)
            &&& goes_on(w.threads[to as int], s.threads[to as int], 0, 10, 15)
            &&& forall|i: int| 0 <= i < 5 ==> w.threads[to as int].frame[10 + i] == #[trigger] msg@[i]
            &&& w.threads[to as int].ipc_msg == Some(msg@)
        }),
{
    lemma_recv_at(v.recvs, dst, pid, 0);
    lemma_recv_at(v.recvs, dst, IPC_ACCEPT_ANY, 0);
    let a = recv_at(v.recvs, dst, pid, 0);
    let b = recv_at(v.recvs, dst, IPC_ACCEPT_ANY, 0);
    assert(taker(v.recvs, dst, pid) == k) by {
        if a < v.recvs.len() {
            assert(v.recvs[a].recver_pid == dst && v.recvs[a].src_pid == pid);
            if k < a {
                assert(!(v.recvs[k].recver_pid == dst && v.recvs[k].src_pid == pid));
            }
        } else {
            assert(!(v.recvs[k].recver_pid == dst && v.recvs[k].src_pid == pid));
            if b < v.recvs.len() {
                assert(v.recvs[b].recver_pid == dst && v.recvs[b].src_pid == usize::MAX);
            }
        }
    }
    let to = v.recvs[k].recver_tid;
    assert(IpcView::stopped(s, None, v.recvs[k].recver_tid, v.recvs[k].recver_pid));
    s.lemma_delivered(to, 0, Some(msg@), Some(msg@));
    assert(s.threads[to as int].ok());
}

/// Law: a message that no thread waits for waits itself, behind all that wait already, with its
/// sender and its words; no thread changes. The sender lends its priority to the process that is to
/// take the message.
pub proof fn law_send_waits(
    v: IpcView,
    s: SchedView,
    pid: usize,
    dst: usize,
    tid: usize,
    msg: [u64; MSG_WORDS],
)
    requires
        s.wf(),
        tid < s.threads.len(),
        forall|i: int|
            0 <= i < v.recvs.len() ==> !((#[trigger] v.recvs[i]).recver_pid == dst && (
            v.recvs[i].src_pid == pid || v.recvs[i].src_pid == usize::MAX)),
    ensures
        ({
            let (u, w, r) = sent(v, s, pid, dst, tid, msg);
            &&& r == SendBlock::NoPeer
            &&& u.recvs == v.recvs
            &&& u.sends.len() == v.sends.len() + 1
            &&& forall|i: int| 0 <= i < v.sends.len() ==> #[trigger] u.sends[i] == v.sends[i]
            &&& u.sends[v.sends.len() as int] == (PendingSend {
                sender_tid: tid,
                sender_pid: pid,
                dst_pid: dst,
                msg,
            })
            &&& w.threads == s.threads
            &&& w.current == s.current
            &&& w == s.donated(tid, dst)
        }),
{
    lemma_recv_at(v.recvs, dst, pid, 0);
    lemma_recv_at(v.recvs, dst, IPC_ACCEPT_ANY, 0);
    let a = recv_at(v.recvs, dst, pid, 0);
    let b = recv_at(v.recvs, dst, IPC_ACCEPT_ANY, 0);
    if a < v.recvs.len() {
        assert(v.recvs[a].recver_pid == dst && v.recvs[a].src_pid == pid);
    }
    if b < v.recvs.len() {
        assert(v.recvs[b].recver_pid == dst && v.recvs[b].src_pid == usize::MAX);
    }
    s.lemma_donated(tid, dst);
}

/// Law: messages go to, and come from, the process that the slot names, and nobody else. Receiving
/// through an empty slot listens; sending through one is not allowed. A slot that names a page, and
/// one that is not there, are refused.
pub proof fn law_slot_names_the_peer(t: Map<int, ProcView>, pid: int, slot: int)
    requires
        t.dom().contains(pid),
        t[pid].caps.len() == 8,
        slot >= 0,
    ensures
        slot >= 8 ==> send_target(t, pid, slot) == Err::<usize, u64>(SYS_ERR_EINVAL) && recv_source(
            t,
            pid,
            slot,
        ) == Err::<usize, u64>(SYS_ERR_EINVAL),
        slot < 8 ==> match t[pid].caps[slot] {
            Some(Cap::Proc(d)) => send_target(t, pid, slot) == Ok::<usize, u64>(d) && recv_source(
                t,
                pid,
                slot,
            ) == Ok::<usize, u64>(d),
            Some(_) => send_target(t, pid, slot) == Err::<usize, u64>(SYS_ERR_EINVAL)
                && recv_source(t, pid, slot) == Err::<usize, u64>(SYS_ERR_EINVAL),
            None => send_target(t, pid, slot) == Err::<usize, u64>(SYS_ERR_EACCES) && recv_source(
                t,
                pid,
                slot,
            ) == Ok::<usize, u64>(usize::MAX),
        },
{
}

/// One stands before the other in a list.
pub open spec fn before<A>(s: Seq<A>, x: A, y: A) -> bool {
    exists|k: int, l: int| #![trigger s[k], s[l]] 0 <= k < l < s.len() && s[k] == x && s[l] == y
}

/// Those of a list that are kept stand in their order.
proof fn lemma_kept_in_order<A>(s: Seq<A>, p: spec_fn(A) -> bool)
    ensures
        forall|i: int, j: int|
            0 <= i < j < s.filter(p).len() ==> #[trigger] before(
                s,
                s.filter(p)[i],
                s.filter(p)[j],
            ),
        forall|i: int| 0 <= i < s.filter(p).len() ==> s.contains(#[trigger] s.filter(p)[i]),
    decreases s.len(),
{
    reveal(Seq::filter);
    if s.len() > 0 {
        let e = s.drop_last();
        let f = e.filter(p);
        let g = s.filter(p);
        lemma_kept_in_order(e, p);
        assert forall|i: int| 0 <= i < g.len() implies s.contains(#[trigger] g[i]) by {
            if i < f.len() {
                assert(g[i] == f[i]);
                assert(e.contains(f[i]));
                let k = choose|k: int| 0 <= k < e.len() && e[k] == f[i];
                assert(s[k] == g[i]);
            } else {
                assert(s[s.len() - 1] == g[i]);
            }
        }
        assert forall|i: int, j: int| 0 <= i < j < g.len() implies #[trigger] before(
            s,
            g[i],
            g[j],
        ) by {
            assert(g[i] == f[i]);
            if j < f.len() {
                assert(g[j] == f[j]);
                assert(before(e, f[i], f[j]));
                let (k, l) = choose|k: int, l: int|
                    #![trigger e[k], e[l]]
                    0 <= k < l < e.len() && e[k] == f[i] && e[l] == f[j];
                assert(s[k] == g[i] && s[l] == g[j]);
            } else {
                assert(e.contains(f[i]));
                let k = choose|k: int| 0 <= k < e.len() && e[k] == f[i];
                assert(s[k] == g[i] && s[s.len() - 1] == g[j]);
            }
        }
    }
}

/// Law: when a process has ended, a thread that did not wait for it stays as it is.
pub proof fn law_unconcerned_stay(v: IpcView, s: SchedView, pid: usize, x: usize)
    requires
        s.wf(),
        v.in_step(s, None),
        x < s.threads.len(),
        forall|k: int|
            0 <= k < v.sends.len() && (#[trigger] v.sends[k]).sender_tid == x ==> v.sends[k].dst_pid
                != pid || v.sends[k].sender_pid == pid,
        forall|k: int|
            0 <= k < v.recvs.len() && (#[trigger] v.recvs[k]).recver_tid == x ==> v.recvs[k].src_pid
                != pid || v.recvs[k].recver_pid == pid,
    ensures
        purged(v, s, pid).1.threads[x as int] == s.threads[x as int],
        purged(v, s, pid).1.threads.len() == s.threads.len(),
        purged(v, s, pid).1.current == s.current,
{
    crate::ipc::lemma_unconcerned_stays(v, s, pid, x);
    lemma_purged(v, s, pid);
}

/// Law: when a process has ended, exactly those waits are left that have nothing to do with it, and
/// they stand in the order in which they came.
pub proof fn law_purge_keeps_the_order(v: IpcView, s: SchedView, pid: usize, u: IpcView)
    requires
        u == purged(v, s, pid).0,
    ensures
        forall|i: int, j: int|
            0 <= i < j < u.sends.len() ==> #[trigger] before(v.sends, u.sends[i], u.sends[j]),
        forall|i: int, j: int|
            0 <= i < j < u.recvs.len() ==> #[trigger] before(v.recvs, u.recvs[i], u.recvs[j]),
        forall|i: int| 0 <= i < u.sends.len() ==> v.sends.contains(#[trigger] u.sends[i]),
        forall|i: int| 0 <= i < u.recvs.len() ==> v.recvs.contains(#[trigger] u.recvs[i]),
        forall|k: int|
            0 <= k < v.sends.len() ==> u.sends.contains(#[trigger] v.sends[k]) == (
            v.sends[k].sender_pid != pid && v.sends[k].dst_pid != pid),
        forall|k: int|
            0 <= k < v.recvs.len() ==> u.recvs.contains(#[trigger] v.recvs[k]) == (
            v.recvs[k].recver_pid != pid && v.recvs[k].src_pid != pid),
{
    law_purged_is_forgotten(v, s, pid);
    let f = v.sends.filter(crate::ipc::send_apart(pid));
    let g = v.recvs.filter(crate::ipc::recv_apart(pid));
    assert(u.sends == f && u.recvs == g);
    lemma_kept_in_order(v.sends, crate::ipc::send_apart(pid));
    lemma_kept_in_order(v.recvs, crate::ipc::recv_apart(pid));
    assert forall|i: int, j: int| 0 <= i < j < u.sends.len() implies #[trigger] before(
        v.sends,
        u.sends[i],
        u.sends[j],
    ) by {
        assert(before(v.sends, f[i], f[j]));
    }
    assert forall|i: int, j: int| 0 <= i < j < u.recvs.len() implies #[trigger] before(
        v.recvs,
        u.recvs[i],
        u.recvs[j],
    ) by {
        assert(before(v.recvs, g[i], g[j]));
    }
}

/// Law: a thread of another process that waits for the process that has ended goes on, and finds in
/// `a0` that the process does not exist; its other registers stay.
pub proof fn law_waiter_is_told(v: IpcView, s: SchedView, pid: usize, x: usize)
    requires
        s.wf(),
        v.in_step(s, None),
        (exists|k: int|
            0 <= k < v.recvs.len() && (#[trigger] v.recvs[k]).recver_tid == x && v.recvs[k].src_pid
                == pid && v.recvs[k].recver_pid != pid) || (exists|k: int|
            0 <= k < v.sends.len() && (#[trigger] v.sends[k]).sender_tid == x && v.sends[k].dst_pid
                == pid && v.sends[k].sender_pid != pid),
    ensures
        ({
            let w = purged(v, s, pid).1;
            &&& w.threads.len() == s.threads.len()
            &&& x < s.threads.len()
            &&& goes_on(w.threads[x as int], s.threads[x as int], SYS_ERR_ENOENT, 0, 0)
            &&& w.threads[x as int].ipc_msg is Some
            &&& w.threads[x as int].ipc_msg->0.len() == 5
            &&& forall|i: int|
                0 <= i < 5 ==> #[trigger] w.threads[x as int].ipc_msg->0[i] == SYS_ERR_ENOENT
        }),
{
    law_waiters_learn_the_end(v, s, pid);
    lemma_purged(v, s, pid);
    if exists|k: int|
        0 <= k < v.recvs.len() && (#[trigger] v.recvs[k]).recver_tid == x && v.recvs[k].src_pid
            == pid && v.recvs[k].recver_pid != pid {
        let k = choose|k: int|
            0 <= k < v.recvs.len() && (#[trigger] v.recvs[k]).recver_tid == x && v.recvs[k].src_pid
                == pid && v.recvs[k].recver_pid != pid;
        assert(IpcView::stopped(s, None, v.recvs[k].recver_tid, v.recvs[k].recver_pid));
    } else {
        let k = choose|k: int|
            0 <= k < v.sends.len() && (#[trigger] v.sends[k]).sender_tid == x && v.sends[k].dst_pid
                == pid && v.sends[k].sender_pid != pid;
        assert(IpcView::stopped(s, None, v.sends[k].sender_tid, v.sends[k].sender_pid));
    }
    assert(s.threads[x as int].ok());
}

} // verus!
