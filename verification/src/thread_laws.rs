//! What the scheduler is for: which thread a core runs next, and what becomes of the others.

use vstd::prelude::*;
use crate::runqueue::{
    donor_at, expanded, lemma_donor_at, returned, Donation, SchedView, ThreadState, ThreadView,
};
use crate::sched::{
    clamped, idle_thread, kernel_thread, last_core, target_of, user_thread, with_args, Image,
};

verus! {

/// The thread can be switched to: one that gives way can give way to all that stopped somewhere; the
/// timer can switch to those that were interrupted, and to those that were woken.
pub open spec fn can_run(t: ThreadView, giving_way: bool) -> bool {
    if giving_way {
        t.ctx_valid || t.frame_valid
    } else {
        t.frame_valid || (t.ctx_valid && t.woken)
    }
}

/// The thread at place `k` of level `l` is the one for core `h` to run: no better level has one that
/// can be switched to, and none that stands before it in its own.
pub open spec fn comes_next(v: SchedView, h: int, giving_way: bool, l: int, k: int) -> bool {
    &&& 0 <= l < 3
    &&& 0 <= k < v.ready[3 * h + l].len()
    &&& can_run(v.threads[v.ready[3 * h + l][k] as int], giving_way)
    &&& forall|i: int|
        0 <= i < k ==> !can_run(v.threads[(#[trigger] v.ready[3 * h + l][i]) as int], giving_way)
    &&& l > 0 ==> nobody_at(v, h, giving_way, 0)
    &&& l > 1 ==> nobody_at(v, h, giving_way, 1)
}

/// Level `m` of core `h` has no thread that can be switched to.
pub open spec fn nobody_at(v: SchedView, h: int, giving_way: bool, m: int) -> bool {
    forall|i: int|
        0 <= i < v.ready[3 * h + m].len() ==> !can_run(
            v.threads[(#[trigger] v.ready[3 * h + m][i]) as int],
            giving_way,
        )
}

/// Core `h` has no thread that can be switched to.
pub open spec fn nobody(v: SchedView, h: int, giving_way: bool) -> bool {
    nobody_at(v, h, giving_way, 0) && nobody_at(v, h, giving_way, 1) && nobody_at(
        v,
        h,
        giving_way,
        2,
    )
}

/// From `u` core `h` went on to run the thread at place `k` of level `l`, for a full time slice: it
/// left its queue, those before it went to the end, and nothing else changed.
pub open spec fn runs(w: SchedView, u: SchedView, h: int, l: int, k: int) -> bool {
    let q = u.ready[3 * h + l];
    let x = q[k] as int;
    &&& w.current == u.current.update(h, q[k])
    &&& w.ticks_run == u.ticks_run.update(h, 0)
    &&& w.threads == u.threads.update(
        x,
        ThreadView { state: ThreadState::Running, ..u.threads[x] },
    )
    &&& w.ready == u.ready.update(3 * h + l, q.skip(k + 1) + q.take(k))
    &&& w.donations == u.donations
    &&& w.idle == u.idle
    &&& w.free_slots == u.free_slots
    &&& w.reaper == u.reaper
}

/// From `u` core `h` went on to run thread `x`, which is in no queue, for a full time slice.
pub open spec fn falls_back(w: SchedView, u: SchedView, h: int, x: usize) -> bool {
    w == (SchedView {
        current: u.current.update(h, x),
        ticks_run: u.ticks_run.update(h, 0),
        ..u
    })
}

/// What the scheduler finds is the thread that comes next.
proof fn lemma_next(v: SchedView, h: int, giving_way: bool, l: int, k: int)
    requires
        comes_next(v, h, giving_way, l, k),
    ensures
        v.best_level(h, giving_way) == Some(l),
        v.first(h, l, giving_way) == k,
        v.next(h, giving_way) == v.ready[3 * h + l][k],
{
    lemma_found(v, h, giving_way, 0);
    lemma_found(v, h, giving_way, 1);
    lemma_found(v, h, giving_way, 2);
    let q = v.ready[3 * h + l];
    v.lemma_first(q, giving_way, 0);
    let j = v.first(h, l, giving_way);
    assert(j == k) by {
        if j < k {
            assert(v.eligible(q[j], giving_way));
            assert(!can_run(v.threads[q[j] as int], giving_way));
        }
        if j > k {
            assert(!v.eligible(q[k], giving_way));
        }
    }
}

proof fn lemma_found(v: SchedView, h: int, giving_way: bool, m: int)
    ensures
        nobody_at(v, h, giving_way, m) ==> !v.has(h, m, giving_way),
{
    let q = v.ready[3 * h + m];
    v.lemma_first(q, giving_way, 0);
    if nobody_at(v, h, giving_way, m) && v.has(h, m, giving_way) {
        let j = v.first(h, m, giving_way);
        assert(v.eligible(q[j], giving_way));
        assert(!can_run(v.threads[v.ready[3 * h + m][j] as int], giving_way));
    }
}

/// Law: a core that looks for something to run takes the thread of the best level that can be
/// switched to and has waited longest; where there is none it goes on with what it runs, or idles.
pub proof fn law_core_takes_the_best(v: SchedView, h: int, giving_way: bool, l: int, k: int)
    requires
        0 <= h < 4,
        v.ready.len() == 12,
        v.ticks_run.len() == 4,
        v.current.len() == 4,
        comes_next(v, h, giving_way, l, k) || nobody(v, h, giving_way),
    ensures
        comes_next(v, h, giving_way, l, k) ==> runs(v.switched(h, giving_way), v, h, l, k),
        nobody(v, h, giving_way) ==> falls_back(
            v.switched(h, giving_way),
            v,
            h,
            if v.threads[v.current[h] as int].state == ThreadState::Running {
                v.current[h]
            } else {
                v.idle[h]
            },
        ),
{
    let u = SchedView { ticks_run: v.ticks_run.update(h, 0), ..v };
    if comes_next(v, h, giving_way, l, k) {
        assert(comes_next(u, h, giving_way, l, k)) by {
            assert forall|i: int| 0 <= i < k implies !can_run(
                u.threads[(#[trigger] u.ready[3 * h + l][i]) as int],
                giving_way,
            ) by {
                assert(!can_run(v.threads[v.ready[3 * h + l][i] as int], giving_way));
            }
            lemma_nobody_same(v, u, h, giving_way, 0);
            lemma_nobody_same(v, u, h, giving_way, 1);
        }
        lemma_next(u, h, giving_way, l, k);
        let q = u.ready[3 * h + l];
        assert(q.subrange(k + 1, q.len() as int) =~= q.skip(k + 1));
        assert(q.subrange(0, k) =~= q.take(k));
    }
    if nobody(v, h, giving_way) {
        lemma_nobody_same(v, u, h, giving_way, 0);
        lemma_nobody_same(v, u, h, giving_way, 1);
        lemma_nobody_same(v, u, h, giving_way, 2);
        lemma_found(u, h, giving_way, 0);
        lemma_found(u, h, giving_way, 1);
        lemma_found(u, h, giving_way, 2);
    }
}

proof fn lemma_nobody_same(v: SchedView, u: SchedView, h: int, giving_way: bool, m: int)
    requires
        u.ready == v.ready,
        u.threads == v.threads,
    ensures
        nobody_at(u, h, giving_way, m) == nobody_at(v, h, giving_way, m),
{
}

/// Law: a thread that gives way stands behind all others of its priority, can be resumed where it
/// gave way, and the core goes on with the thread that comes next then: with the same one only when
/// nobody else is as good.
pub proof fn law_yield_takes_turns(v: SchedView, h: int, l: int, k: int)
    requires
        v.wf(),
        0 <= h < 4,
        comes_next(given_way(v, h), h, true, l, k),
    ensures
        runs(v.yielded(h), given_way(v, h), h, l, k),
        v.yielded(h).reaper.len() == 0,
{
    let c = v.current[h] as int;
    assert(v.threads[c].hart == h);
    let u = given_way(v, h);
    let a = v.gave_way(h).enqueue(c);
    assert(a.threads =~= u.threads);
    assert(v.gave_way(h).eff_prio(c) == v.eff_prio(c));
    assert(a =~= u);
    v.lemma_yielded(h);
    v.lemma_eff_prio(c);
    assert(u.reaper =~= Seq::<u64>::empty());
    law_core_takes_the_best(u, h, true, l, k);
}

/// What the core runs stands at the end of the queue of its priority.
pub open spec fn given_way(v: SchedView, h: int) -> SchedView {
    let c = v.current[h] as int;
    let q = 3 * h + v.eff_prio(c);
    SchedView {
        threads: v.threads.update(
            c,
            ThreadView {
                state: ThreadState::Ready,
                frame_valid: false,
                ctx_valid: true,
                ..v.threads[c]
            },
        ),
        ready: v.ready.update(q, v.ready[q].push(v.current[h])),
        reaper: Seq::empty(),
        ..v
    }
}

/// What the core runs has stopped.
pub open spec fn stopped(v: SchedView, h: int, t: ThreadView) -> SchedView {
    SchedView { threads: v.threads.update(v.current[h] as int, t), ..v }
}

/// Law: a thread that blocks without having been woken is blocked, stands in no queue, and can be
/// resumed where it stopped; the core goes on with the thread that comes next, or idles. One that
/// was woken goes on, and has to be woken again next time.
pub proof fn law_block_stops(v: SchedView, h: int, l: int, k: int)
    requires
        v.wf(),
        0 <= h < 4,
        v.current[h] >= 4,
    ensures
        ({
            let c = v.current[h] as int;
            let t = v.threads[c];
            let u = stopped(
                v,
                h,
                ThreadView {
                    state: ThreadState::Blocked,
                    frame_valid: false,
                    ctx_valid: true,
                    ..t
                },
            );
            let w = v.blocked(h);
            &&& t.woken ==> w == stopped(v, h, ThreadView { woken: false, ..t })
            &&& !t.woken && comes_next(u, h, true, l, k) ==> runs(w, u, h, l, k)
            &&& !t.woken && nobody(u, h, true) ==> falls_back(w, u, h, h as usize)
            &&& !t.woken ==> w.threads[c].state == ThreadState::Blocked && !w.queued(c as usize)
        }),
{
    let c = v.current[h] as int;
    let t = v.threads[c];
    assert(t.ok() && t.hart == h);
    if !t.woken {
        let n = ThreadView {
            state: ThreadState::Blocked,
            frame_valid: false,
            ctx_valid: true,
            ..t
        };
        let u = stopped(v, h, n);
        assert(v.idle[h] == h);
        v.lemma_stopped(u, h, n);
        u.lemma_switched_threads(h);
        if comes_next(u, h, true, l, k) || nobody(u, h, true) {
            law_core_takes_the_best(u, h, true, l, k);
        }
        crate::sched_laws::law_ready_is_queued_once(v.blocked(h), c as usize);
    }
}

/// Law: a thread that waits in a system call is blocked with its registers as they were at the call,
/// and the core goes on with the thread that comes next, or idles.
pub proof fn law_waiting_keeps_registers(v: SchedView, h: int, frame: Seq<u64>, l: int, k: int)
    requires
        v.wf(),
        0 <= h < 4,
        v.current[h] >= 4,
        frame.len() == 36,
    ensures
        ({
            let c = v.current[h] as int;
            let u = stopped(
                v,
                h,
                ThreadView {
                    state: ThreadState::Blocked,
                    frame,
                    frame_valid: true,
                    ctx_valid: false,
                    woken: false,
                    ..v.threads[c]
                },
            );
            let w = v.user_blocked(h, frame);
            &&& comes_next(u, h, true, l, k) ==> runs(w, u, h, l, k)
            &&& nobody(u, h, true) ==> falls_back(w, u, h, h as usize)
            &&& w.threads[c].frame == frame
            &&& w.threads[c].state == ThreadState::Blocked
        }),
{
    let c = v.current[h] as int;
    let t = v.threads[c];
    assert(t.ok() && t.hart == h);
    let n = ThreadView {
        state: ThreadState::Blocked,
        frame,
        frame_valid: true,
        ctx_valid: false,
        woken: false,
        ..t
    };
    let u = stopped(v, h, n);
    assert(v.idle[h] == h);
    v.lemma_stopped(u, h, n);
    u.lemma_switched_threads(h);
    if comes_next(u, h, true, l, k) || nobody(u, h, true) {
        law_core_takes_the_best(u, h, true, l, k);
    }
}

/// Law: a thread that ends is gone: its stack is to be freed, last of those that wait for that, its
/// entry is to be used again, last of those that wait for that, and the core goes on with the thread
/// that comes next, or idles.
pub proof fn law_exit_ends(v: SchedView, h: int, l: int, k: int)
    requires
        v.wf(),
        0 <= h < 4,
        v.current[h] >= 4,
    ensures
        ({
            let c = v.current[h];
            let t = v.threads[c as int];
            let u = SchedView {
                threads: v.threads.update(
                    c as int,
                    ThreadView {
                        state: ThreadState::Exited,
                        frame_valid: false,
                        ctx_valid: true,
                        stack: None,
                        ..t
                    },
                ),
                reaper: if t.stack is Some {
                    v.reaper.push(t.stack->0)
                } else {
                    v.reaper
                },
                free_slots: v.free_slots.push(c),
                ..v
            };
            let w = v.exited(h);
            &&& comes_next(u, h, true, l, k) ==> runs(w, u, h, l, k)
            &&& nobody(u, h, true) ==> falls_back(w, u, h, h as usize)
            &&& w.threads[c as int].state == ThreadState::Exited
        }),
{
    let c = v.current[h];
    let t = v.threads[c as int];
    assert(t.ok() && t.hart == h);
    let u = SchedView {
        threads: v.threads.update(
            c as int,
            ThreadView {
                state: ThreadState::Exited,
                frame_valid: false,
                ctx_valid: true,
                stack: None,
                ..t
            },
        ),
        reaper: if t.stack is Some {
            v.reaper.push(t.stack->0)
        } else {
            v.reaper
        },
        free_slots: v.free_slots.push(c),
        ..v
    };
    assert(v.idle[h] == h);
    v.lemma_exited_threads(h);
    if comes_next(u, h, true, l, k) || nobody(u, h, true) {
        law_core_takes_the_best(u, h, true, l, k);
    }
}

/// Law: a thread that is woken while it is blocked is ready, at the end of the queue of its own core
/// and priority; one that is not blocked yet keeps in mind that it was woken. Nothing else changes.
pub proof fn law_wake_makes_ready(v: SchedView, id: usize)
    requires
        v.wf(),
        id < v.threads.len(),
    ensures
        ({
            let t = v.threads[id as int];
            let w = v.awoken(id);
            let q = 3 * t.hart + v.eff_prio(id as int);
            &&& t.state == ThreadState::Blocked ==> w == (SchedView {
                threads: v.threads.update(
                    id as int,
                    ThreadView { woken: true, state: ThreadState::Ready, ..t },
                ),
                ready: v.ready.update(q, v.ready[q].push(id)),
                ..v
            })
            &&& t.state != ThreadState::Blocked ==> w == (SchedView {
                threads: v.threads.update(id as int, ThreadView { woken: true, ..t }),
                ..v
            })
        }),
{
    let t = v.threads[id as int];
    let w = v.awoken(id);
    let a = v.with_thread(id as int, ThreadView { woken: true, ..t });
    assert(a.eff_prio(id as int) == v.eff_prio(id as int));
    if t.state == ThreadState::Blocked {
        assert(w.threads =~= v.threads.update(
            id as int,
            ThreadView { woken: true, state: ThreadState::Ready, ..t },
        ));
    }
}

/// Law: another core is interrupted exactly when it idles and a blocked thread of its own was woken.
pub proof fn law_idle_core_is_told(v: SchedView, id: usize, me: int)
    requires
        v.wf(),
        id < v.threads.len(),
        0 <= me < 4,
    ensures
        ({
            let g = v.threads[id as int].hart;
            let told = v.threads[id as int].state == ThreadState::Blocked && g != me
                && v.current[g as int] == g;
            &&& told ==> v.awoken_ipi(id, me) == Some(g)
            &&& !told ==> v.awoken_ipi(id, me) is None
        }),
{
    let g = v.threads[id as int].hart;
    assert(v.threads[id as int].ok());
    assert(v.idle[g as int] == g);
}

/// Law: a thread that is started takes the entry that has waited longest to be used again, or a new
/// one, and stands at the end of the queue of its core and priority. No other thread changes.
pub proof fn law_start_takes_oldest_entry(v: SchedView, t: ThreadView)
    requires
        v.wf(),
        v.has_slot(),
        t.ok(),
        t.state == ThreadState::Ready,
        t.resumable(),
    ensures
        ({
            let id = if v.free_slots.len() > 0 {
                v.free_slots[0]
            } else {
                v.threads.len() as usize
            };
            let w = v.started(t);
            let q = 3 * t.hart + w.eff_prio(id as int);
            &&& v.next_slot() == id
            &&& w.threads[id as int] == t
            &&& w.threads.len() == if v.free_slots.len() > 0 {
                v.threads.len()
            } else {
                v.threads.len() + 1
            }
            &&& forall|i: int|
                0 <= i < v.threads.len() && i != id ==> #[trigger] w.threads[i] == v.threads[i]
            &&& w.ready == v.ready.update(q, v.ready[q].push(id))
            &&& w.current == v.current
            &&& w.donations == v.donations
            &&& v.free_slots.len() > 0 ==> w.free_slots == v.free_slots.skip(1)
            &&& v.free_slots.len() == 0 ==> w.free_slots == v.free_slots
        }),
{
    v.lemma_started(t);
    let w = v.started(t);
    let id = v.next_slot() as int;
    let p = v.placed(t);
    assert(p.threads[id] == t);
    assert(w.eff_prio(id) == p.eff_prio(id));
    if v.free_slots.len() > 0 {
        assert(v.free_slots.subrange(1, v.free_slots.len() as int) =~= v.free_slots.skip(1));
        let x = v.free_slots[0];
        assert(x < v.threads.len());
    }
}

/// Law: a program starts at its entry, in user mode with interrupts on afterwards, on its stack, with
/// its arguments in `a0` and `a1` and zero in all other registers, in its own address space. A
/// priority below the lowest counts as the lowest.
pub proof fn law_program_starts(
    image: Image,
    root: u64,
    proc_id: usize,
    pc: u64,
    sp: u64,
    prio: u8,
    hart: usize,
    argc: u64,
    argv: u64,
)
    ensures
        ({
            let t = with_args(user_thread(image, root, proc_id, pc, sp, prio, hart), argc, argv);
            &&& t.frame.len() == 36
            &&& t.frame[33] == pc
            &&& t.frame[32] == 0x20
            &&& t.frame[1] == sp
            &&& t.frame[9] == argc
            &&& t.frame[10] == argv
            &&& forall|i: int|
                0 <= i < 36 && i != 33 && i != 32 && i != 1 && i != 9 && i != 10
                    ==> #[trigger] t.frame[i] == 0
            &&& t.frame_valid && !t.ctx_valid
            &&& t.state == ThreadState::Ready
            &&& t.prio == if prio < 2 {
                prio
            } else {
                2
            }
            &&& t.root == root
            &&& t.proc_id == Some(proc_id)
            &&& t.hart == hart
            &&& t.stack is None
            &&& t.ipc_msg is None
            &&& !t.woken
        }),
{
}

/// Law: a kernel thread starts in the common entry with interrupts on afterwards, at the top of its
/// own stack of 16 KiB, aligned to 16 bytes, in the kernel's address space.
pub proof fn law_kernel_thread_starts(image: Image, entry: u64, prio: u8, stack: u64, hart: usize)
    requires
        stack <= u64::MAX - 16384,
    ensures
        ({
            let t = kernel_thread(image, entry, prio, stack, hart);
            let top = stack + 16384 - (stack + 16384) % 16;
            &&& t.frame.len() == 36
            &&& t.frame[33] == image.thread_entry
            &&& t.frame[32] == 0x120
            &&& t.frame[1] == top
            &&& t.frame[2] == image.global_pointer
            &&& forall|i: int|
                0 <= i < 36 && i != 33 && i != 32 && i != 1 && i != 2 ==> #[trigger] t.frame[i] == 0
            &&& t.ctx.ra == image.thread_entry
            &&& t.ctx.sp == top
            &&& t.frame_valid && t.ctx_valid
            &&& t.state == ThreadState::Ready
            &&& t.prio == if prio < 2 {
                prio
            } else {
                2
            }
            &&& t.entry == entry
            &&& t.root == image.kernel_root
            &&& t.proc_id is None
            &&& t.hart == hart
            &&& t.stack == Some(stack)
        }),
{
}

/// Law: a thread that gave way and that the timer switches to goes on where it gave way, with the
/// registers that it kept.
pub proof fn law_context_becomes_frame(t: ThreadView, gp: u64)
    requires
        t.ctx.s.len() == 12,
    ensures
        ({
            let e = expanded(t, gp);
            &&& e.frame.len() == 36
            &&& e.frame[33] == t.ctx.ra
            &&& e.frame[32] == 0x120
            &&& e.frame[1] == t.ctx.sp
            &&& e.frame[2] == gp
            &&& e.frame[7] == t.ctx.s[0]
            &&& e.frame[8] == t.ctx.s[1]
            &&& forall|i: int| 2 <= i < 12 ==> e.frame[15 + i] == #[trigger] t.ctx.s[i]
            &&& e.frame_valid && !e.ctx_valid && !e.woken
            &&& e == (ThreadView {
                frame: e.frame,
                frame_valid: true,
                ctx_valid: false,
                woken: false,
                ..t
            })
        }),
{
}

/// Law: who goes from one thread to another is told both, the address space of the new one, and
/// whether the new one goes on from an interrupt.
pub proof fn law_switch_is_told(v: SchedView, from: usize, to: usize)
    ensures
        ({
            let s = target_of(v, from, to);
            &&& s.old == from
            &&& s.new == to
            &&& s.next_root == v.threads[to as int].root
            &&& s.use_frame == !v.threads[to as int].ctx_valid
        }),
{
}

/// Law: a tick that ends the time slice of what the core runs, or finds something better waiting,
/// puts it at the end of the queue of its priority with its registers, and the core goes on with the
/// thread that comes next then; the slice begins anew. Where nobody can be switched to the core goes
/// on with what it runs.
pub proof fn law_tick_ends_the_slice(
    v: SchedView,
    h: int,
    frame: Seq<u64>,
    gp: u64,
    l: int,
    k: int,
)
    requires
        v.wf(),
        0 <= h < 4,
        frame.len() == 36,
        v.ticks_run[h] < u64::MAX,
        v.ticks_run[h] + 1 >= 10 || v.better_waits(h),
    ensures
        ({
            let (w, r) = v.ticked(h, frame, gp);
            let c = v.current[h];
            let q = 3 * h + v.eff_prio(c as int);
            let u = SchedView {
                threads: v.threads.update(
                    c as int,
                    ThreadView {
                        state: ThreadState::Ready,
                        frame,
                        frame_valid: true,
                        ctx_valid: false,
                        ..v.threads[c as int]
                    },
                ),
                ready: v.ready.update(q, v.ready[q].push(c)),
                ..v
            };
            let x = u.ready[3 * h + l][k];
            &&& nobody(v, h, false) ==> r is None && w == (SchedView {
                ticks_run: v.ticks_run.update(h, 0),
                ..v
            })
            &&& !nobody(v, h, false) && comes_next(u, h, false, l, k) ==> {
                &&& w.current == v.current.update(h, x)
                &&& r == if x == c {
                    None::<usize>
                } else {
                    Some(x)
                }
                &&& w.ticks_run == v.ticks_run.update(h, 0)
                &&& w.ready == u.ready.update(
                    3 * h + l,
                    u.ready[3 * h + l].skip(k + 1) + u.ready[3 * h + l].take(k),
                )
                &&& w.threads[x as int].state == ThreadState::Running
                &&& w.threads[x as int].frame_valid
                &&& u.threads[x as int].frame_valid ==> w.threads[x as int] == (ThreadView {
                    state: ThreadState::Running,
                    ..u.threads[x as int]
                })
                &&& w.threads.len() == u.threads.len()
                &&& forall|i: int|
                    0 <= i < u.threads.len() && i != x ==> #[trigger] w.threads[i] == u.threads[i]
            }
        }),
{
    let c = v.current[h];
    assert(v.threads[c as int].hart == h && c < v.threads.len());
    v.lemma_eff_prio(c as int);
    lemma_somebody(v, h);
    let q = 3 * h + v.eff_prio(c as int);
    let u = SchedView {
        threads: v.threads.update(
            c as int,
            ThreadView {
                state: ThreadState::Ready,
                frame,
                frame_valid: true,
                ctx_valid: false,
                ..v.threads[c as int]
            },
        ),
        ready: v.ready.update(q, v.ready[q].push(c)),
        ..v
    };
    let fresh = SchedView { ticks_run: v.ticks_run.update(h, 0), ..v };
    let a = fresh.interrupted(h, frame);
    let b = SchedView { ticks_run: v.ticks_run.update(h, 0), ..u };
    if !nobody(v, h, false) && comes_next(u, h, false, l, k) {
        assert(fresh.eff_prio(c as int) == v.eff_prio(c as int));
        assert(a.threads =~= u.threads);
        assert(a =~= b);
        assert(comes_next(b, h, false, l, k)) by {
            assert forall|i: int| 0 <= i < k implies !can_run(
                b.threads[(#[trigger] b.ready[3 * h + l][i]) as int],
                false,
            ) by {
                assert(!can_run(u.threads[u.ready[3 * h + l][i] as int], false));
            }
            lemma_nobody_same(u, b, h, false, 0);
            lemma_nobody_same(u, b, h, false, 1);
        }
        lemma_next(b, h, false, l, k);
        let s = b.ready[3 * h + l];
        assert(s.subrange(k + 1, s.len() as int) =~= s.skip(k + 1));
        assert(s.subrange(0, k) =~= s.take(k));
        v.lemma_ticks_only(fresh);
        fresh.lemma_interrupted(h, frame);
        a.lemma_picked(h, false);
        let x = s[k];
        let w = v.ticked(h, frame, gp).0;
        assert(w.current =~= v.current.update(h, x));
    }
}

/// The scheduler finds somebody exactly when there is somebody.
proof fn lemma_somebody(v: SchedView, h: int)
    ensures
        nobody(v, h, false) <==> v.best_level(h, false) is None,
{
    lemma_has(v, h, 0);
    lemma_has(v, h, 1);
    lemma_has(v, h, 2);
}

proof fn lemma_has(v: SchedView, h: int, m: int)
    ensures
        nobody_at(v, h, false, m) <==> !v.has(h, m, false),
{
    lemma_found(v, h, false, m);
    let q = v.ready[3 * h + m];
    v.lemma_first(q, false, 0);
    if !v.has(h, m, false) {
        assert forall|i: int| 0 <= i < q.len() implies !can_run(
            v.threads[(#[trigger] v.ready[3 * h + m][i]) as int],
            false,
        ) by {
            assert(!v.eligible(q[i], false));
        }
    }
}

/// Law: something better waits exactly when a level above that of what the core runs has a thread
/// that the timer can switch to.
pub proof fn law_better_is_better(v: SchedView, h: int)
    requires
        v.wf(),
        0 <= h < 4,
    ensures
        v.better_waits(h) <==> (v.eff_prio(v.current[h] as int) > 0 && !nobody_at(v, h, false, 0))
            || (v.eff_prio(v.current[h] as int) > 1 && !nobody_at(v, h, false, 1)),
{
    lemma_has(v, h, 0);
    lemma_has(v, h, 1);
}

/// Law: a thread lends its priority once: to the process it waits for now, with the priority that
/// counts for it now. What others lend stays.
pub proof fn law_lends_once(v: SchedView, tid: usize, peer: usize)
    requires
        v.wf(),
        tid < v.threads.len(),
    ensures
        ({
            let d = v.donated(tid, peer).donations;
            &&& exists|k: int|
                0 <= k < d.len() && #[trigger] d[k] == (Donation {
                    donor_tid: tid,
                    peer_proc: peer,
                    prio: v.eff_prio(tid as int),
                })
            &&& forall|k: int|
                0 <= k < d.len() && (#[trigger] d[k]).donor_tid == tid ==> d[k].peer_proc == peer
                    && d[k].prio == v.eff_prio(tid as int)
            &&& forall|k: int|
                0 <= k < d.len() && (#[trigger] d[k]).donor_tid != tid ==> v.donations.contains(
                    d[k],
                )
            &&& forall|k: int|
                0 <= k < v.donations.len() && (#[trigger] v.donations[k]).donor_tid != tid
                    ==> d.contains(v.donations[k])
        }),
{
    let new = Donation { donor_tid: tid, peer_proc: peer, prio: v.eff_prio(tid as int) };
    let k = donor_at(v.donations, tid, 0);
    lemma_donor_at(v.donations, tid, 0);
    let all = if k < v.donations.len() {
        v.donations.update(k, new)
    } else {
        v.donations.push(new)
    };
    let u = SchedView { donations: all, ..v };
    v.lemma_donations_only(u);
    u.lemma_requeued(peer);
    let d = v.donated(tid, peer).donations;
    assert(d == all);
    assert(all[k] == new);
    assert forall|i: int| 0 <= i < d.len() && (#[trigger] d[i]).donor_tid == tid implies d[i].peer_proc
        == peer && d[i].prio == v.eff_prio(tid as int) by {
        if i != k {
            assert(d[i] == v.donations[i]);
            if k < v.donations.len() {
                assert(v.donations[k].donor_tid == tid);
            }
        }
    }
    assert forall|i: int| 0 <= i < d.len() && (#[trigger] d[i]).donor_tid != tid implies v.donations.contains(
        d[i],
    ) by {
        assert(d[i] == v.donations[i]);
    }
    assert forall|i: int|
        0 <= i < v.donations.len() && (#[trigger] v.donations[i]).donor_tid != tid implies d.contains(
        v.donations[i],
    ) by {
        assert(d[i] == v.donations[i]);
    }
}

/// Law: a thread that comes to belong to another core stands there, at the end of the queue of its
/// priority, if it is ready, and no longer on its old core; the others keep their places.
pub proof fn law_move_changes_the_core(v: SchedView, id: usize, h: usize)
    requires
        v.wf(),
        4 <= id < v.threads.len(),
        h < 4,
        v.threads[id as int].state == ThreadState::Ready || v.threads[id as int].state
            == ThreadState::Blocked,
    ensures
        ({
            let t = v.threads[id as int];
            let w = v.moved(id, h);
            let q = 3 * h + v.eff_prio(id as int);
            &&& w.threads == v.threads.update(id as int, ThreadView { hart: h, ..t })
            &&& w.current == v.current
            &&& w.donations == v.donations
            &&& t.state == ThreadState::Blocked || t.hart == h ==> w.ready == v.ready
            &&& t.state == ThreadState::Ready && t.hart != h ==> {
                &&& w.ready[q].last() == id
                &&& w.ready[q].len() == v.ready[q].len() + 1
                &&& forall|i: int|
                    0 <= i < v.ready[q].len() ==> #[trigger] w.ready[q][i] == v.ready[q][i]
                &&& forall|r: int, i: int|
                    #![trigger w.ready[r][i]]
                    0 <= r < 12 && r != q && 0 <= i < w.ready[r].len() ==> w.ready[r][i] != id
            }
        }),
{
    let t = v.threads[id as int];
    let w = v.moved(id, h);
    assert(t.ok());
    v.lemma_moved(id, h);
    v.lemma_eff_prio(id as int);
    if t.state == ThreadState::Ready && t.hart == h {
        assert(v.threads.update(id as int, ThreadView { hart: h, ..t }) =~= v.threads);
    }
    if t.state == ThreadState::Ready && t.hart != h {
        let a = v.unqueued(id);
        let u = ThreadView { hart: h, ..t };
        let b = a.with_thread(id as int, u);
        let q = 3 * h + v.eff_prio(id as int);
        assert(b.eff_prio(id as int) == v.eff_prio(id as int));
        assert(w.threads =~= v.threads.update(id as int, u));
        assert(a.ready[q] == v.ready[q]) by {
            assert(!v.ready[q].contains(id)) by {
                reveal(SchedView::queues_ok);
                if v.ready[q].contains(id) {
                    let i = choose|i: int| 0 <= i < v.ready[q].len() && v.ready[q][i] == id;
                    assert(v.entry_ok(q, v.ready[q][i]));
                }
            }
            lemma_filter_all(v.ready[q], id);
        }
        assert(w.ready[q] == v.ready[q].push(id));
        crate::sched_laws::law_ready_is_queued_once(w, id);
        assert forall|r: int, i: int|
            #![trigger w.ready[r][i]]
            0 <= r < 12 && r != q && 0 <= i < w.ready[r].len() implies w.ready[r][i] != id by {
            if w.ready[r][i] == id {
                assert(w.ready[q][v.ready[q].len() as int] == id);
            }
        }
    }
}

/// Nothing is taken out where there is nothing to take out.
proof fn lemma_filter_all(s: Seq<usize>, id: usize)
    requires
        !s.contains(id),
    ensures
        s.filter(crate::runqueue::but_for(id)) == s,
    decreases s.len(),
{
    reveal(Seq::filter);
    if s.len() > 0 {
        let e = s.drop_last();
        assert(!e.contains(id)) by {
            if e.contains(id) {
                let i = choose|i: int| 0 <= i < e.len() && e[i] == id;
                assert(s[i] == id);
            }
        }
        lemma_filter_all(e, id);
        assert(s[s.len() - 1] != id) by {
            assert(s.contains(s[s.len() - 1]));
        }
        assert(e.push(s.last()) =~= s);
    }
}

/// Law: a system call that returns goes on behind the call, with its result in `a0` and a message, if
/// there is one, in `a1` to `a5`; the other registers stay.
pub proof fn law_return_sets_registers(frame: Seq<u64>, a0: u64, regs: Option<Seq<u64>>)
    requires
        frame.len() == 36,
        regs is Some ==> regs->0.len() == 5,
    ensures
        ({
            let f = returned(frame, a0, regs);
            &&& f.len() == 36
            &&& f[9] == a0
            &&& f[33] == frame[33].wrapping_add(4)
            &&& regs is Some ==> forall|i: int| 0 <= i < 5 ==> f[10 + i] == #[trigger] regs->0[i]
            &&& forall|i: int|
                0 <= i < 36 && i != 9 && i != 33 && (regs is None || !(10 <= i < 15))
                    ==> #[trigger] f[i] == frame[i]
        }),
{
}

/// Law: the idle thread of a core belongs to that core and to the kernel, has the lowest priority,
/// runs, and starts in the idle loop at the top of its own stack of 16 KiB, aligned to 16 bytes.
pub proof fn law_idle_thread_starts(image: Image, stack: u64, h: int)
    requires
        stack <= u64::MAX - 16384,
        0 <= h < 4,
    ensures
        ({
            let t = idle_thread(image, stack, h);
            let top = stack + 16384 - (stack + 16384) % 16;
            &&& t.prio == 2
            &&& t.state == ThreadState::Running
            &&& t.hart == h
            &&& t.ctx.ra == image.idle_entry
            &&& t.ctx.sp == top
            &&& t.ctx.s.len() == 12
            &&& forall|i: int| 0 <= i < 12 ==> #[trigger] t.ctx.s[i] == 0
            &&& t.ctx_valid && !t.frame_valid && !t.woken
            &&& t.proc_id is None && t.ipc_msg is None
            &&& t.root == image.kernel_root
            &&& t.entry == image.idle_entry
            &&& t.stack == Some(stack)
        }),
{
}

/// Law: a core that is asked for and is not there stands for the last, and a priority that is not
/// there for the lowest.
pub proof fn law_limits_are_kept(hart: usize, prio: u8)
    ensures
        hart < 4 ==> last_core(hart) == hart,
        hart >= 4 ==> last_core(hart) == 3,
        prio <= 2 ==> clamped(prio) == prio,
        prio > 2 ==> clamped(prio) == 2,
{
}

} // verus!
