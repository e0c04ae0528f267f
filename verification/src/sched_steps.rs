//! What may happen to the scheduler, one step after the other, and what holds whatever happens:
//! priorities stay in order, and a message waits for the thread that it was sent to.

use vstd::prelude::*;
use crate::arch::{MAX_HARTS, TRAP_FRAME_WORDS};
use crate::runqueue::{
    donor_at, lemma_donor_at, ContextView, Donation, SchedView, ThreadState, ThreadView,
    PRIO_LEVELS,
};
use crate::sched::error_words;
use crate::sched_laws::{
    law_levels_delivered, law_levels_donated, law_levels_killed, law_levels_moved,
    law_levels_started, law_levels_switching, law_levels_ticked, lemma_filter_in,
    lemma_killed_others,
};

verus! {

/// A step of the scheduler.
pub enum SchedStep {
    /// The timer ticks on a core that runs with this frame; the kernel's global pointer.
    Tick(int, Seq<u64>, u64),
    /// What a core runs gives way.
    Yield(int),
    /// What a core runs blocks.
    Block(int),
    /// What a core runs blocks in a system call, and goes on from this frame.
    UserBlock(int, Seq<u64>),
    /// What a core runs waits in a system call for a process, to which it lends its priority.
    Wait(int, usize, Seq<u64>),
    /// A thread lends its priority to a process.
    Lend(usize, usize),
    /// What a core runs has blocked before.
    Unblock(int),
    /// What a core runs begins.
    Enter(int),
    /// Where a thread goes on is noted.
    Save(usize, ContextView),
    /// A thread is woken.
    Wake(usize),
    /// A thread moves to another core.
    Move(usize, usize),
    /// A thread that waits is resumed: `a0`, the registers after it, and the message.
    Deliver(usize, u64, Option<Seq<u64>>, Option<Seq<u64>>),
    /// What a core runs takes the message that it was woken with.
    Take(int),
    /// A new thread.
    Start(ThreadView),
    /// A new thread that belongs to a process.
    StartOwned(ThreadView, usize),
    /// What a core runs ends.
    Exit(int),
    /// A process is killed from a core.
    Kill(usize, int),
    /// A core that idles looks for something to run.
    Idle(int),
    /// The stacks of threads that are gone are taken away.
    Reap,
}

impl SchedView {
    /// The message of what a core runs is taken.
    pub open spec fn message_taken(self, h: int) -> SchedView {
        let c = self.current[h] as int;
        self.with_thread(c, ThreadView { ipc_msg: None, ..self.threads[c] })
    }

    /// The scheduler after a step.
    pub open spec fn after_step(self, s: SchedStep) -> SchedView {
        match s {
            SchedStep::Tick(h, frame, gp) => self.ticked(h, frame, gp).0,
            SchedStep::Yield(h) => self.yielded(h),
            SchedStep::Block(h) => self.blocked(h),
            SchedStep::UserBlock(h, frame) => self.user_blocked(h, frame),
            SchedStep::Wait(h, peer, frame) => self.donated(self.current[h], peer).user_blocked(
                h,
                frame,
            ),
            SchedStep::Lend(tid, peer) => self.donated(tid, peer),
            SchedStep::Unblock(h) => {
                let c = self.current[h] as int;
                self.with_thread(c, ThreadView { woken: false, ..self.threads[c] })
            },
            SchedStep::Enter(h) => {
                let c = self.current[h] as int;
                self.with_thread(c, ThreadView { frame_valid: false, ..self.threads[c] })
            },
            SchedStep::Save(id, ctx) => self.with_thread(
                id as int,
                ThreadView { ctx, ..self.threads[id as int] },
            ),
            SchedStep::Wake(id) => self.awoken(id),
            SchedStep::Move(id, h) => self.moved(id, h),
            SchedStep::Deliver(tid, a0, regs, msg) => self.delivered(tid, a0, regs, msg),
            SchedStep::Take(h) => self.message_taken(h),
            SchedStep::Start(t) => self.started(t),
            SchedStep::StartOwned(t, p) => self.started_owned(t, p),
            SchedStep::Exit(h) => self.exited(h),
            SchedStep::Kill(p, h) => self.killed(p, h),
            SchedStep::Idle(h) => self.switched(h, true),
            SchedStep::Reap => SchedView { reaper: Seq::empty(), ..self },
        }
    }

    /// The step can be made: cores and threads exist, idle threads neither block nor end, and who
    /// is resumed waits.
    pub open spec fn allows(self, s: SchedStep) -> bool {
        match s {
            SchedStep::Tick(h, frame, gp) => 0 <= h < MAX_HARTS && frame.len() == TRAP_FRAME_WORDS,
            SchedStep::Yield(h) => 0 <= h < MAX_HARTS,
            SchedStep::Block(h) => 0 <= h < MAX_HARTS && self.current[h] >= MAX_HARTS,
            SchedStep::UserBlock(h, frame) => {
                0 <= h < MAX_HARTS && self.current[h] >= MAX_HARTS && frame.len()
                    == TRAP_FRAME_WORDS
            },
            SchedStep::Wait(h, peer, frame) => {
                0 <= h < MAX_HARTS && self.current[h] >= MAX_HARTS && frame.len()
                    == TRAP_FRAME_WORDS
            },
            SchedStep::Lend(tid, peer) => tid < self.threads.len(),
            SchedStep::Unblock(h) => 0 <= h < MAX_HARTS,
            SchedStep::Enter(h) => 0 <= h < MAX_HARTS,
            SchedStep::Save(id, ctx) => id < self.threads.len() && ctx.s.len() == 12,
            SchedStep::Wake(id) => true,
            SchedStep::Move(id, h) => {
                &&& MAX_HARTS <= id < self.threads.len()
                &&& h < MAX_HARTS
                &&& self.threads[id as int].state == ThreadState::Ready
                    || self.threads[id as int].state == ThreadState::Blocked
            },
            SchedStep::Deliver(tid, a0, regs, msg) => {
                &&& tid < self.threads.len()
                &&& self.threads[tid as int].state == ThreadState::Blocked
                &&& msg matches Some(m) ==> m.len() == 5
            },
            SchedStep::Take(h) => 0 <= h < MAX_HARTS,
            SchedStep::Start(t) => {
                self.has_slot() && t.ok() && t.state == ThreadState::Ready && t.resumable()
            },
            SchedStep::StartOwned(t, p) => {
                &&& self.has_slot()
                &&& t.ok()
                &&& t.state == ThreadState::Ready
                &&& t.resumable()
                &&& t.proc_id is None
            },
            SchedStep::Exit(h) => 0 <= h < MAX_HARTS && self.current[h] >= MAX_HARTS,
            SchedStep::Kill(p, h) => 0 <= h < MAX_HARTS,
            SchedStep::Idle(h) => 0 <= h < MAX_HARTS && self.current[h] == h,
            SchedStep::Reap => true,
        }
    }

    /// The step does not concern the message of a thread: the thread does not take it and is given
    /// no other, and it does not end.
    pub open spec fn spares(self, s: SchedStep, tid: usize) -> bool {
        match s {
            SchedStep::Deliver(t, _, _, _) => t != tid,
            SchedStep::Take(h) => self.current[h] != tid,
            SchedStep::Exit(h) => self.current[h] != tid,
            SchedStep::Kill(p, _) => !self.owned(p, tid),
            _ => true,
        }
    }

    /// The scheduler after steps, in order.
    pub open spec fn after_steps(self, steps: Seq<SchedStep>) -> SchedView
        decreases steps.len(),
    {
        if steps.len() == 0 {
            self
        } else {
            self.after_steps(steps.drop_last()).after_step(steps.last())
        }
    }

    /// Every step can be made in its turn, and none concerns the message of the thread.
    pub open spec fn lets_wait(self, steps: Seq<SchedStep>, tid: usize) -> bool
        decreases steps.len(),
    {
        steps.len() > 0 ==> {
            let v = self.after_steps(steps.drop_last());
            &&& self.lets_wait(steps.drop_last(), tid)
            &&& v.allows(steps.last())
            &&& v.spares(steps.last(), tid)
        }
    }
}

impl SchedView {
    /// When a core takes its next thread, only that thread changes, and only in that it runs.
    proof fn lemma_switched_keeps(self, h: int)
        requires
            0 <= h < MAX_HARTS,
            self.wf_at(h),
        ensures
            self.switched(h, true).threads.len() == self.threads.len(),
            forall|i: int|
                0 <= i < self.threads.len() ==> (#[trigger] self.switched(h, true).threads[i])
                    == self.threads[i] || (self.threads[i].state == ThreadState::Ready
                    && self.switched(h, true).threads[i] == (ThreadView {
                    state: ThreadState::Running,
                    ..self.threads[i]
                })),
    {
        let v = SchedView { ticks_run: self.ticks_run.update(h, 0), ..self };
        self.lemma_same_queues(v);
        v.lemma_picked(h, true);
    }

    /// Lending keeps everything in order.
    proof fn lemma_lent_wf(self, tid: usize, peer: usize)
        requires
            self.wf(),
            tid < self.threads.len(),
        ensures
            self.donated(tid, peer).wf(),
            self.donated(tid, peer).threads == self.threads,
            self.donated(tid, peer).current == self.current,
            self.donated(tid, peer).donations == {
                let d = Donation {
                    donor_tid: tid,
                    peer_proc: peer,
                    prio: self.eff_prio(tid as int),
                };
                let k = donor_at(self.donations, tid, 0);
                if k < self.donations.len() {
                    self.donations.update(k, d)
                } else {
                    self.donations.push(d)
                }
            },
    {
        let d = Donation { donor_tid: tid, peer_proc: peer, prio: self.eff_prio(tid as int) };
        let k = donor_at(self.donations, tid, 0);
        lemma_donor_at(self.donations, tid, 0);
        self.lemma_eff_prio(tid as int);
        let all = if k < self.donations.len() {
            self.donations.update(k, d)
        } else {
            self.donations.push(d)
        };
        let v = SchedView { donations: all, ..self };
        self.lemma_donations_only(v);
        v.lemma_requeued(peer);
        assert(v.donations_ok()) by {
            assert forall|a: int| 0 <= a < all.len() implies (#[trigger] all[a]).donor_tid
                < v.threads.len() && all[a].prio < PRIO_LEVELS by {
                if a < self.donations.len() {
                    let x = self.donations[a];
                }
            }
            assert forall|a: int, b: int|
                #![trigger all[a], all[b]]
                0 <= a < b < all.len() implies all[a].donor_tid != all[b].donor_tid by {
                if a < self.donations.len() {
                    let x = self.donations[a];
                }
                if b < self.donations.len() {
                    let y = self.donations[b];
                }
            }
        }
        v.lemma_ready_only(v.requeued(peer));
    }

    /// What a step does to a thread that it spares: it stays, with its message.
    pub open spec fn still_there(self, v: SchedView, tid: usize) -> bool {
        &&& v.wf()
        &&& v.threads.len() >= self.threads.len()
        &&& v.threads[tid as int].ipc_msg == self.threads[tid as int].ipc_msg
        &&& v.threads[tid as int].state != ThreadState::Exited
    }

    proof fn lemma_running(self, h: int)
        requires
            self.wf(),
            0 <= h < MAX_HARTS,
        ensures
            self.current[h] < self.threads.len(),
            self.threads[self.current[h] as int].ok(),
            self.threads[self.current[h] as int].state == ThreadState::Running,
            self.threads[self.current[h] as int].hart == h,
    {
        let c = self.current[h];
        let t = self.threads[c as int];
    }
}

/// Law: no step of the scheduler changes the message that a thread was woken with, but for the
/// thread taking it and for another message to it; and a thread that did not end keeps its entry.
pub proof fn law_step_keeps_message(v: SchedView, s: SchedStep, tid: usize)
    requires
        v.wf(),
        v.allows(s),
        tid < v.threads.len(),
        v.threads[tid as int].state != ThreadState::Exited,
        v.spares(s, tid),
    ensures
        v.still_there(v.after_step(s), tid),
{
    match s {
        SchedStep::Tick(h, frame, gp) => lemma_tick_keeps(v, h, frame, gp, tid),
        SchedStep::Yield(h) => lemma_yield_keeps(v, h, tid),
        SchedStep::Block(h) => lemma_block_keeps(v, h, tid),
        SchedStep::UserBlock(h, frame) => lemma_user_block_keeps(v, h, frame, tid),
        SchedStep::Wait(h, peer, frame) => lemma_wait_keeps(v, h, peer, frame, tid),
        SchedStep::Lend(t, peer) => v.lemma_lent_wf(t, peer),
        SchedStep::Unblock(h) => {
            v.lemma_running(h);
            let t = v.threads[v.current[h] as int];
            lemma_detail_keeps(v, v.current[h], ThreadView { woken: false, ..t }, tid);
        },
        SchedStep::Enter(h) => {
            v.lemma_running(h);
            let t = v.threads[v.current[h] as int];
            lemma_detail_keeps(v, v.current[h], ThreadView { frame_valid: false, ..t }, tid);
        },
        SchedStep::Save(id, ctx) => {
            assert(v.threads[id as int].ok());
            lemma_detail_keeps(v, id, ThreadView { ctx, ..v.threads[id as int] }, tid);
        },
        SchedStep::Wake(id) => lemma_wake_keeps(v, id, tid),
        SchedStep::Move(id, h) => lemma_move_keeps(v, id, h, tid),
        SchedStep::Deliver(t, a0, regs, msg) => v.lemma_delivered(t, a0, regs, msg),
        SchedStep::Take(h) => {
            v.lemma_running(h);
            let t = v.threads[v.current[h] as int];
            lemma_detail_keeps(v, v.current[h], ThreadView { ipc_msg: None, ..t }, tid);
        },
        SchedStep::Start(t) => v.lemma_started(t),
        SchedStep::StartOwned(t, p) => lemma_start_owned_keeps(v, t, p, tid),
        SchedStep::Exit(h) => lemma_exit_keeps(v, h, tid),
        SchedStep::Kill(p, h) => lemma_killed_others(v, p, h),
        SchedStep::Idle(h) => {
            v.lemma_running(h);
            v.lemma_switched_keeps(h);
            v.lemma_switched(h);
        },
        SchedStep::Reap => lemma_reap_keeps(v),
    }
}

proof fn lemma_tick_keeps(v: SchedView, h: int, frame: Seq<u64>, gp: u64, tid: usize)
    requires
        v.wf(),
        0 <= h < MAX_HARTS,
        frame.len() == TRAP_FRAME_WORDS,
        tid < v.threads.len(),
        v.threads[tid as int].state != ThreadState::Exited,
    ensures
        v.still_there(v.ticked(h, frame, gp).0, tid),
{
    v.lemma_running(h);
    v.lemma_ticked(h, frame, gp);
    let fresh = SchedView { ticks_run: v.ticks_run.update(h, 0), ..v };
    v.lemma_ticks_only(fresh);
    fresh.lemma_interrupted(h, frame);
    let a = fresh.interrupted(h, frame);
    a.lemma_picked(h, false);
    let x = a.threads[tid as int];
}

proof fn lemma_yield_keeps(v: SchedView, h: int, tid: usize)
    requires
        v.wf(),
        0 <= h < MAX_HARTS,
        tid < v.threads.len(),
        v.threads[tid as int].state != ThreadState::Exited,
    ensures
        v.still_there(v.yielded(h), tid),
{
    v.lemma_running(h);
    v.lemma_yielded(h);
    v.gave_way(h).enqueue(v.current[h] as int).lemma_switched_keeps(h);
}

proof fn lemma_block_keeps(v: SchedView, h: int, tid: usize)
    requires
        v.wf(),
        0 <= h < MAX_HARTS,
        v.current[h] >= MAX_HARTS,
        tid < v.threads.len(),
        v.threads[tid as int].state != ThreadState::Exited,
    ensures
        v.still_there(v.blocked(h), tid),
{
    v.lemma_running(h);
    let c = v.current[h] as int;
    let t0 = v.threads[c];
    if t0.woken {
        v.lemma_detail_changed(c as usize, ThreadView { woken: false, ..t0 });
    } else {
        let t = ThreadView {
            state: ThreadState::Blocked,
            frame_valid: false,
            ctx_valid: true,
            ..t0
        };
        v.lemma_stopped(v.with_thread(c, t), h, t);
        v.with_thread(c, t).lemma_switched_keeps(h);
    }
}

proof fn lemma_wait_keeps(v: SchedView, h: int, peer: usize, frame: Seq<u64>, tid: usize)
    requires
        v.wf(),
        0 <= h < MAX_HARTS,
        v.current[h] >= MAX_HARTS,
        frame.len() == TRAP_FRAME_WORDS,
        tid < v.threads.len(),
        v.threads[tid as int].state != ThreadState::Exited,
    ensures
        v.still_there(v.donated(v.current[h], peer).user_blocked(h, frame), tid),
{
    v.lemma_running(h);
    v.lemma_lent_wf(v.current[h], peer);
    lemma_user_block_keeps(v.donated(v.current[h], peer), h, frame, tid);
}

proof fn lemma_detail_keeps(v: SchedView, id: usize, t: ThreadView, tid: usize)
    requires
        v.wf(),
        id < v.threads.len(),
        t.ok(),
        t.state == v.threads[id as int].state,
        t.hart == v.threads[id as int].hart,
        t.proc_id == v.threads[id as int].proc_id,
        v.threads[id as int].resumable() && t.state != ThreadState::Running ==> t.resumable(),
        t.ipc_msg == v.threads[id as int].ipc_msg || id != tid,
        tid < v.threads.len(),
        v.threads[tid as int].state != ThreadState::Exited,
    ensures
        v.still_there(v.with_thread(id as int, t), tid),
{
    v.lemma_detail_changed(id, t);
}

proof fn lemma_wake_keeps(v: SchedView, id: usize, tid: usize)
    requires
        v.wf(),
        tid < v.threads.len(),
        v.threads[tid as int].state != ThreadState::Exited,
    ensures
        v.still_there(v.awoken(id), tid),
{
    if id < v.threads.len() {
        v.lemma_awoken(id);
    }
}

proof fn lemma_move_keeps(v: SchedView, id: usize, h: usize, tid: usize)
    requires
        v.wf(),
        v.allows(SchedStep::Move(id, h)),
        tid < v.threads.len(),
        v.threads[tid as int].state != ThreadState::Exited,
    ensures
        v.still_there(v.moved(id, h), tid),
{
    v.lemma_moved(id, h);
}

proof fn lemma_start_owned_keeps(v: SchedView, t: ThreadView, p: usize, tid: usize)
    requires
        v.wf(),
        v.allows(SchedStep::StartOwned(t, p)),
        tid < v.threads.len(),
        v.threads[tid as int].state != ThreadState::Exited,
    ensures
        v.still_there(v.started_owned(t, p), tid),
{
    v.lemma_started(t);
    let id = v.next_slot();
    let a = v.started(t);
    let u = ThreadView { proc_id: Some(p), state: ThreadState::Ready, ..t };
    let b = a.with_thread(id as int, u);
    a.lemma_owner_changed(id, u);
    b.lemma_requeued(p);
    b.lemma_ready_only(b.requeued(p));
}

proof fn lemma_reap_keeps(v: SchedView)
    requires
        v.wf(),
    ensures
        (SchedView { reaper: Seq::empty(), ..v }).wf(),
{
    let w = SchedView { reaper: Seq::empty(), ..v };
    v.lemma_same_queues(w);
    v.lemma_rest(w);
    assert(w.donations_ok()) by {
        assert forall|k: int| 0 <= k < w.donations.len() implies (#[trigger] w.donations[k]).donor_tid
            < w.threads.len() && w.donations[k].prio < PRIO_LEVELS by {
            let x = v.donations[k];
        }
    }
}

proof fn lemma_user_block_keeps(v: SchedView, h: int, frame: Seq<u64>, tid: usize)
    requires
        v.wf(),
        0 <= h < MAX_HARTS,
        v.current[h] >= MAX_HARTS,
        frame.len() == TRAP_FRAME_WORDS,
        tid < v.threads.len(),
        v.threads[tid as int].state != ThreadState::Exited,
    ensures
        v.still_there(v.user_blocked(h, frame), tid),
{
    v.lemma_running(h);
    let c = v.current[h] as int;
    let t = ThreadView {
        state: ThreadState::Blocked,
        frame,
        frame_valid: true,
        ctx_valid: false,
        woken: false,
        ..v.threads[c]
    };
    v.lemma_stopped(v.with_thread(c, t), h, t);
    v.with_thread(c, t).lemma_switched_keeps(h);
}

proof fn lemma_exit_keeps(v: SchedView, h: int, tid: usize)
    requires
        v.wf(),
        0 <= h < MAX_HARTS,
        v.current[h] >= MAX_HARTS,
        v.current[h] != tid,
        tid < v.threads.len(),
        v.threads[tid as int].state != ThreadState::Exited,
    ensures
        v.still_there(v.exited(h), tid),
{
    v.lemma_running(h);
    let c = v.current[h];
    let t0 = v.threads[c as int];
    let e = SchedView {
        reaper: match t0.stack {
            Some(s) => v.reaper.push(s),
            None => v.reaper,
        },
        free_slots: v.free_slots.push(c),
        ..v
    };
    let t = ThreadView {
        state: ThreadState::Exited,
        frame_valid: false,
        ctx_valid: true,
        stack: None,
        ..t0
    };
    v.lemma_stopped(e.with_thread(c as int, t), h, t);
    e.with_thread(c as int, t).lemma_switched_keeps(h);
}

proof fn lemma_steps_keep_message(v: SchedView, steps: Seq<SchedStep>, tid: usize)
    requires
        v.wf(),
        tid < v.threads.len(),
        v.threads[tid as int].state != ThreadState::Exited,
        v.lets_wait(steps, tid),
    ensures
        v.still_there(v.after_steps(steps), tid),
    decreases steps.len(),
{
    if steps.len() > 0 {
        lemma_steps_keep_message(v, steps.drop_last(), tid);
        law_step_keeps_message(v.after_steps(steps.drop_last()), steps.last(), tid);
    }
}

/// Law: a thread that was woken with a message takes that message once it runs, whatever is
/// scheduled in between, and takes it once: the next time there is none. Where it was woken without
/// a message there is none the first time, and after an error there are five times its code.
pub proof fn law_message_is_taken_once(
    v: SchedView,
    tid: usize,
    a0: u64,
    regs: Option<Seq<u64>>,
    msg: Option<Seq<u64>>,
    steps: Seq<SchedStep>,
    h: int,
)
    requires
        v.wf(),
        v.allows(SchedStep::Deliver(tid, a0, regs, msg)),
        v.delivered(tid, a0, regs, msg).lets_wait(steps, tid),
        0 <= h < MAX_HARTS,
        v.delivered(tid, a0, regs, msg).after_steps(steps).current[h] == tid,
    ensures
        ({
            let w = v.delivered(tid, a0, regs, msg).after_steps(steps);
            &&& w.wf()
            &&& w.threads[w.current[h] as int].ipc_msg == msg
            &&& w.message_taken(h).current[h] == tid
            &&& w.message_taken(h).threads[tid as int].ipc_msg is None
            &&& w.message_taken(h).message_taken(h) == w.message_taken(h)
        }),
        error_words(a0).len() == 5,
        forall|k: int| 0 <= k < 5 ==> #[trigger] error_words(a0)[k] == a0,
{
    let d = v.delivered(tid, a0, regs, msg);
    v.lemma_delivered(tid, a0, regs, msg);
    lemma_steps_keep_message(d, steps, tid);
    let w = d.after_steps(steps);
    w.lemma_running(h);
    let m = w.message_taken(h);
    assert(m.message_taken(h).threads =~= m.threads);
}

impl SchedView {
    /// The thread lends its priority.
    pub open spec fn lends(self, tid: usize) -> bool {
        exists|k: int| 0 <= k < self.donations.len() && (#[trigger] self.donations[k]).donor_tid == tid
    }

    /// The step is one of a thread that lends while it waits, and no longer: a thread that lends is
    /// resumed by what it waits for.
    pub open spec fn orderly(self, s: SchedStep) -> bool {
        match s {
            SchedStep::Lend(tid, peer) => {
                self.threads[tid as int].state == ThreadState::Blocked && !self.lends(tid)
            },
            SchedStep::Wake(id) => !self.lends(id),
            _ => true,
        }
    }

    /// The donations are the same, and blocked threads stay blocked.
    proof fn lemma_lent_on(self, w: SchedView)
        requires
            self.lent_ok(),
            w.donations == self.donations,
            w.threads.len() >= self.threads.len(),
            forall|i: int|
                0 <= i < self.threads.len() && self.threads[i].state == ThreadState::Blocked ==> (
                #[trigger] w.threads[i]).state == ThreadState::Blocked,
        ensures
            w.lent_ok(),
    {
        assert forall|k: int| 0 <= k < w.donations.len() implies self.donations.contains(
            #[trigger] w.donations[k],
        ) && w.threads[w.donations[k].donor_tid as int].state == ThreadState::Blocked by {
            let x = self.donations[k].donor_tid as int;
            let t = w.threads[x];
        }
        self.lemma_lent_same(w);
    }

    /// What the core runs lends nothing.
    proof fn lemma_running_lends_nothing(self, h: int)
        requires
            self.wf(),
            self.lent_ok(),
            0 <= h < MAX_HARTS,
        ensures
            !self.lends(self.current[h]),
    {
        self.lemma_running(h);
    }
}

/// A core takes its next thread.
proof fn lemma_switch_lent(v: SchedView, h: int)
    requires
        v.lent_ok(),
        0 <= h < MAX_HARTS,
        v.wf_at(h),
    ensures
        v.switched(h, true).lent_ok(),
{
    v.lemma_switched_keeps(h);
    let w = v.switched(h, true);
    v.lemma_lent_on(w);
}

/// Law: a tick, giving way, blocking, ending and waiting for a process keep priorities in order.
pub proof fn law_switching_keeps_prios(v: SchedView, h: int, frame: Seq<u64>, gp: u64, peer: usize)
    requires
        v.wf(),
        v.prios_ok(),
        0 <= h < MAX_HARTS,
        frame.len() == TRAP_FRAME_WORDS,
    ensures
        v.ticked(h, frame, gp).0.prios_ok(),
        v.yielded(h).prios_ok(),
        v.current[h] >= MAX_HARTS ==> {
            &&& v.blocked(h).prios_ok()
            &&& v.user_blocked(h, frame).prios_ok()
            &&& v.exited(h).prios_ok()
            &&& v.donated(v.current[h], peer).user_blocked(h, frame).prios_ok()
        },
{
    v.lemma_running(h);
    law_levels_ticked(v, h, frame, gp);
    law_levels_switching(v, h, frame, 0);
    v.lemma_ticked_threads(h, frame, gp);
    v.lemma_lent_on(v.ticked(h, frame, gp).0);
    // Giving way.
    v.lemma_yielded(h);
    let g = v.gave_way(h).enqueue(v.current[h] as int);
    v.lemma_lent_on(g);
    lemma_switch_lent(g, h);
    if v.current[h] >= MAX_HARTS {
        lemma_block_prios(v, h);
        lemma_user_block_prios(v, h, frame);
        v.lemma_exited_threads(h);
        v.lemma_lent_on(v.exited(h));
        lemma_wait_prios(v, h, frame, peer);
    }
}

proof fn lemma_block_prios(v: SchedView, h: int)
    requires
        v.wf(),
        v.prios_ok(),
        0 <= h < MAX_HARTS,
        v.current[h] >= MAX_HARTS,
    ensures
        v.blocked(h).lent_ok(),
{
    v.lemma_running(h);
    let c = v.current[h] as int;
    let t0 = v.threads[c];
    if t0.woken {
        v.lemma_lent_on(v.blocked(h));
    } else {
        let t = ThreadView {
            state: ThreadState::Blocked,
            frame_valid: false,
            ctx_valid: true,
            ..t0
        };
        v.lemma_stopped(v.with_thread(c, t), h, t);
        v.lemma_lent_on(v.with_thread(c, t));
        lemma_switch_lent(v.with_thread(c, t), h);
    }
}

proof fn lemma_user_block_prios(v: SchedView, h: int, frame: Seq<u64>)
    requires
        v.wf(),
        v.prios_ok(),
        0 <= h < MAX_HARTS,
        v.current[h] >= MAX_HARTS,
        frame.len() == TRAP_FRAME_WORDS,
    ensures
        v.user_blocked(h, frame).lent_ok(),
{
    v.lemma_user_blocked(h, frame);
    v.lemma_lent_on(v.user_blocked(h, frame));
}

proof fn lemma_wait_prios(v: SchedView, h: int, frame: Seq<u64>, peer: usize)
    requires
        v.wf(),
        v.prios_ok(),
        0 <= h < MAX_HARTS,
        v.current[h] >= MAX_HARTS,
        frame.len() == TRAP_FRAME_WORDS,
    ensures
        v.donated(v.current[h], peer).user_blocked(h, frame).prios_ok(),
{
    let c = v.current[h];
    v.lemma_running(h);
    v.lemma_running_lends_nothing(h);
    lemma_donor_at(v.donations, c, 0);
    assert(donor_at(v.donations, c, 0) == v.donations.len()) by {
        let k = donor_at(v.donations, c, 0);
        if k < v.donations.len() {
            assert(v.donations[k].donor_tid == c);
        }
    }
    v.lemma_lent_wf(c, peer);
    law_levels_donated(v, c, peer);
    let d = v.donated(c, peer);
    law_levels_switching(d, h, frame, 0);
    d.lemma_user_blocked(h, frame);
    let w = d.user_blocked(h, frame);
    assert(w.donations == d.donations);
    assert forall|k: int| 0 <= k < w.donations.len() implies (#[trigger] w.donations[k]).donor_tid
        < w.threads.len() && w.threads[w.donations[k].donor_tid as int].state
        == ThreadState::Blocked by {
        if k < v.donations.len() {
            assert(w.donations[k] == v.donations[k]);
            let x = v.donations[k].donor_tid as int;
            let t = w.threads[x];
        }
    }
}

/// Law: a message to a thread that waits keeps priorities in order.
pub proof fn law_delivery_keeps_prios(
    v: SchedView,
    tid: usize,
    a0: u64,
    regs: Option<Seq<u64>>,
    msg: Option<Seq<u64>>,
)
    requires
        v.wf(),
        v.prios_ok(),
        v.allows(SchedStep::Deliver(tid, a0, regs, msg)),
    ensures
        v.delivered(tid, a0, regs, msg).prios_ok(),
{
    law_levels_delivered(v, tid, a0, regs, msg);
    v.lemma_delivered(tid, a0, regs, msg);
    let w = v.delivered(tid, a0, regs, msg);
    let keep = |x: Donation| !seq![tid].contains(x.donor_tid);
    lemma_filter_in(v.donations, keep);
    assert forall|k: int| 0 <= k < w.donations.len() implies v.donations.contains(
        #[trigger] w.donations[k],
    ) && w.threads[w.donations[k].donor_tid as int].state == ThreadState::Blocked by {
        assert(w.donations == v.donations.filter(keep));
        assert(w.donations[k].donor_tid != tid);
        assert(v.donations.contains(w.donations[k]));
        let j = choose|j: int| 0 <= j < v.donations.len() && v.donations[j] == w.donations[k];
        assert(v.threads[v.donations[j].donor_tid as int].state == ThreadState::Blocked);
    }
    v.lemma_lent_same(w);
}

/// Law: whatever step the scheduler makes, priorities stay in order: every thread in a queue stands
/// where its priority puts it, and what a core runs has lent nothing. Threads lend only while they
/// wait, and are then resumed by what they wait for.
pub proof fn law_steps_keep_prios(v: SchedView, s: SchedStep)
    requires
        v.wf(),
        v.prios_ok(),
        v.allows(s),
        v.orderly(s),
    ensures
        v.after_step(s).prios_ok(),
        forall|h: int| 0 <= h < MAX_HARTS ==> !v.lends(#[trigger] v.current[h]),
{
    assert forall|h: int| 0 <= h < MAX_HARTS implies !v.lends(#[trigger] v.current[h]) by {
        v.lemma_running_lends_nothing(h);
    }
    let w = v.after_step(s);
    let f = Seq::new(TRAP_FRAME_WORDS as nat, |i: int| 0u64);
    match s {
        SchedStep::Tick(h, frame, gp) => law_switching_keeps_prios(v, h, frame, gp, 0),
        SchedStep::Yield(h) => law_switching_keeps_prios(v, h, f, 0, 0),
        SchedStep::Block(h) => law_switching_keeps_prios(v, h, f, 0, 0),
        SchedStep::UserBlock(h, frame) => law_switching_keeps_prios(v, h, frame, 0, 0),
        SchedStep::Wait(h, peer, frame) => law_switching_keeps_prios(v, h, frame, 0, peer),
        SchedStep::Lend(t, peer) => lemma_lend_prios(v, t, peer),
        SchedStep::Unblock(h) => {
            v.lemma_running(h);
            let t = v.threads[v.current[h] as int];
            lemma_detail_prios(v, v.current[h], ThreadView { woken: false, ..t });
        },
        SchedStep::Enter(h) => {
            v.lemma_running(h);
            let t = v.threads[v.current[h] as int];
            lemma_detail_prios(v, v.current[h], ThreadView { frame_valid: false, ..t });
        },
        SchedStep::Save(id, ctx) => {
            lemma_detail_prios(v, id, ThreadView { ctx, ..v.threads[id as int] });
        },
        SchedStep::Wake(id) => lemma_wake_prios(v, id),
        SchedStep::Move(id, h) => {
            law_levels_moved(v, id, h);
            v.lemma_lent_on(w);
        },
        SchedStep::Deliver(t, a0, regs, msg) => law_delivery_keeps_prios(v, t, a0, regs, msg),
        SchedStep::Take(h) => {
            v.lemma_running(h);
            let t = v.threads[v.current[h] as int];
            lemma_detail_prios(v, v.current[h], ThreadView { ipc_msg: None, ..t });
        },
        SchedStep::Start(t) => {
            law_levels_started(v, t, 0);
            v.lemma_started(t);
            v.lemma_lent_on(w);
        },
        SchedStep::StartOwned(t, p) => lemma_start_owned_prios(v, t, p),
        SchedStep::Exit(h) => law_switching_keeps_prios(v, h, f, 0, 0),
        SchedStep::Kill(p, h) => law_levels_killed(v, p, h),
        SchedStep::Idle(h) => {
            v.lemma_levels_switched(h);
            v.lemma_running(h);
            lemma_switch_lent(v, h);
        },
        SchedStep::Reap => {
            v.lemma_levels_same(w);
            v.lemma_lent_on(w);
        },
    }
}

proof fn lemma_lend_prios(v: SchedView, tid: usize, peer: usize)
    requires
        v.wf(),
        v.prios_ok(),
        tid < v.threads.len(),
        v.threads[tid as int].state == ThreadState::Blocked,
        !v.lends(tid),
    ensures
        v.donated(tid, peer).prios_ok(),
{
    v.lemma_lent_wf(tid, peer);
    law_levels_donated(v, tid, peer);
    lemma_donor_at(v.donations, tid, 0);
    let w = v.donated(tid, peer);
    assert forall|k: int| 0 <= k < w.donations.len() implies (#[trigger] w.donations[k]).donor_tid
        < w.threads.len() && w.threads[w.donations[k].donor_tid as int].state
        == ThreadState::Blocked by {
        if k < v.donations.len() {
            let x = v.donations[k];
        }
    }
}

proof fn lemma_detail_prios(v: SchedView, id: usize, t: ThreadView)
    requires
        v.wf(),
        v.prios_ok(),
        id < v.threads.len(),
        t.prio == v.threads[id as int].prio,
        t.proc_id == v.threads[id as int].proc_id,
        t.hart == v.threads[id as int].hart,
        t.state == v.threads[id as int].state,
    ensures
        v.with_thread(id as int, t).prios_ok(),
{
    v.lemma_levels_thread(id as int, t);
    v.lemma_lent_on(v.with_thread(id as int, t));
}

proof fn lemma_wake_prios(v: SchedView, id: usize)
    requires
        v.wf(),
        v.prios_ok(),
        !v.lends(id),
    ensures
        v.awoken(id).prios_ok(),
{
    let f = Seq::new(TRAP_FRAME_WORDS as nat, |i: int| 0u64);
    law_levels_switching(v, 0, f, id);
    let w = v.awoken(id);
    assert forall|k: int| 0 <= k < w.donations.len() implies v.donations.contains(
        #[trigger] w.donations[k],
    ) && w.threads[w.donations[k].donor_tid as int].state == ThreadState::Blocked by {
        assert(w.donations[k] == v.donations[k]);
        assert(v.donations[k].donor_tid != id);
    }
    v.lemma_lent_same(w);
}

proof fn lemma_start_owned_prios(v: SchedView, t: ThreadView, p: usize)
    requires
        v.wf(),
        v.prios_ok(),
        v.allows(SchedStep::StartOwned(t, p)),
    ensures
        v.started_owned(t, p).prios_ok(),
{
    law_levels_started(v, t, p);
    v.lemma_started(t);
    let id = v.next_slot();
    let a = v.started(t);
    let u = ThreadView { proc_id: Some(p), state: ThreadState::Ready, ..t };
    let b = a.with_thread(id as int, u);
    a.lemma_owner_changed(id, u);
    b.lemma_requeued(p);
    v.lemma_lent_on(v.started_owned(t, p));
}

} // verus!
