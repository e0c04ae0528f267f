//! Threads and the scheduler.
//!
//! Each core runs the threads that belong to it: the best priority first, in turn within a
//! priority. A thread that gives way leaves its state in its context; one that the timer
//! interrupts leaves it in its trap frame. While a thread waits for a message, the process that it
//! waits for runs at its priority.
//!
//! The functions here decide what runs next. They hand back what the machine has to do: switch to
//! another thread, or interrupt another core.

use vstd::prelude::*;
use std::collections::VecDeque;
use crate::arch::gpr::{X_A0, X_A1, X_GP, X_S0, X_S1, X_S2, X_SP};
use crate::arch::{Context, FRAME_SEPC, FRAME_SSTATUS, MAX_HARTS, TRAP_FRAME_WORDS};
use crate::ipc::MSG_WORDS;
use crate::process::{root, ProcessTable};
use crate::runqueue::{
    boosted, but_for, donor_at, donors_to, expanded, lemma_donor_at, not_from,
    not_to, peers_of, returned, ContextView, Donation, SchedView, ThreadState, ThreadView, MAX_THREADS,
    PRIO_LEVELS, QUEUES,
};

verus! {

/// Bytes of a thread's stack.
pub const THREAD_STACK_SIZE: u64 = 16384;

/// Timer ticks that a thread may run while others of its priority wait.
pub const SLICE_TICKS: u64 = 10;

/// The best priority.
pub const PRIO_HIGH: u8 = 0;

pub const PRIO_MED: u8 = 1;

/// The worst priority.
pub const PRIO_LOW: u8 = 2;

/// `sstatus` of a thread that starts in the kernel: interrupts on, supervisor mode.
pub const SSTATUS_KERNEL: u64 = 0x120;

/// `sstatus` of a thread that starts in a user program: interrupts on, user mode.
pub const SSTATUS_USER: u64 = 0x20;

/// A thread.
#[derive(Debug, Clone, Copy)]
pub struct Thread {
    pub prio: u8,
    pub state: ThreadState,
    /// State of a thread that gave way.
    pub ctx: Context,
    /// State of a thread that was interrupted.
    pub frame: [u64; TRAP_FRAME_WORDS],
    /// The frame holds where the thread stopped.
    pub frame_valid: bool,
    /// The context holds where the thread stopped.
    pub ctx_valid: bool,
    /// Woken since it last blocked.
    pub woken: bool,
    /// Message for a kernel thread, which cannot read it from its frame.
    pub ipc_msg: Option<[u64; MSG_WORDS]>,
    pub proc_id: Option<usize>,
    /// Core that the thread runs on.
    pub hart: usize,
    /// Root table of the address space that the thread runs in.
    pub root: u64,
    /// Address of the function that a kernel thread runs.
    pub entry: u64,
    /// Address of its stack.
    pub stack: Option<u64>,
}

impl Thread {
    pub open spec fn view(&self) -> ThreadView {
        ThreadView {
            prio: self.prio,
            state: self.state,
            ctx: ContextView { ra: self.ctx.ra, sp: self.ctx.sp, s: self.ctx.s@ },
            frame: self.frame@,
            frame_valid: self.frame_valid,
            ctx_valid: self.ctx_valid,
            woken: self.woken,
            ipc_msg: match self.ipc_msg {
                Some(m) => Some(m@),
                None => None,
            },
            proc_id: self.proc_id,
            hart: self.hart,
            root: self.root,
            entry: self.entry,
            stack: self.stack,
        }
    }
}

/// Addresses that new threads start from.
#[derive(Debug, Clone, Copy)]
pub struct Image {
    /// Runs the function of a kernel thread, and ends the thread when it returns.
    pub thread_entry: u64,
    /// Loop of an idle thread.
    pub idle_entry: u64,
    /// Where a user thread must never get.
    pub user_stub: u64,
    pub global_pointer: u64,
    /// Root table of the kernel's own address space.
    pub kernel_root: u64,
}

/// What a core has to do to switch threads: resume `new` from its frame or its context, with
/// `next_root` as its address space, and leave the state of `old` in its context.
#[derive(Debug, Clone, Copy, PartialEq, Eq, Structural)]
pub struct SwitchTarget {
    pub old: usize,
    pub new: usize,
    pub use_frame: bool,
    pub next_root: u64,
}

/// The scheduler.
pub struct Scheduler {
    threads: Vec<Thread>,
    ready: Vec<VecDeque<usize>>,
    donations: Vec<Donation>,
    current: [usize; MAX_HARTS],
    idle: [usize; MAX_HARTS],
    ticks_run: [u64; MAX_HARTS],
    free_slots: VecDeque<usize>,
    reaper: VecDeque<u64>,
    image: Image,
}

impl Scheduler {
    pub closed spec fn view(&self) -> SchedView {
        SchedView {
            threads: Seq::new(self.threads@.len(), |i: int| self.threads@[i]@),
            ready: Seq::new(self.ready@.len(), |q: int| self.ready@[q]@),
            donations: self.donations@,
            current: self.current@,
            idle: self.idle@,
            ticks_run: self.ticks_run@,
            free_slots: self.free_slots@,
            reaper: self.reaper@,
        }
    }

    /// Addresses that new threads start from.
    pub closed spec fn image(&self) -> Image {
        self.image
    }

    pub open spec fn wf(&self) -> bool {
        self@.wf()
    }

    /// Addresses that new threads start from.
    pub fn image_of(&self) -> (r: Image)
        ensures
            r == self.image(),
    {
        self.image
    }

    /// Replace a thread.
    fn put(&mut self, id: usize, t: Thread)
        requires
            id < old(self)@.threads.len(),
        ensures
            final(self)@ == old(self)@.with_thread(id as int, t@),
            final(self).image() == old(self).image(),
    {
        let ghost before = self@;
        self.threads.set(id, t);
        assert(self@.threads =~= before.threads.update(id as int, t@));
        assert(self@.ready =~= before.ready);
    }

    /// Take the first thread out of a queue.
    fn pop(&mut self, q: usize) -> (r: Option<usize>)
        requires
            q < old(self)@.ready.len(),
        ensures
            match r {
                Some(id) => {
                    let s = old(self)@.ready[q as int];
                    &&& s.len() > 0
                    &&& id == s[0]
                    &&& final(self)@ == (SchedView {
                        ready: old(self)@.ready.update(q as int, s.subrange(1, s.len() as int)),
                        ..old(self)@
                    })
                },
                None => old(self)@.ready[q as int].len() == 0 && final(self)@ == old(self)@,
            },
            final(self).image() == old(self).image(),
    {
        let ghost before = self@;
        let ghost raw = self.ready@;
        let r = self.ready[q].pop_front();
        proof {
            assert forall|k: int| 0 <= k < raw.len() implies #[trigger] self@.ready[k] == (if k == q {
                if r is Some {
                    before.ready[k].subrange(1, before.ready[k].len() as int)
                } else {
                    before.ready[k]
                }
            } else {
                before.ready[k]
            }) by {
                assert(self.ready@[k]@ == self@.ready[k]);
                assert(raw[k]@ == before.ready[k]);
            }
            if r is Some {
                assert(self@.ready =~= before.ready.update(
                    q as int,
                    before.ready[q as int].subrange(1, before.ready[q as int].len() as int),
                ));
            } else {
                assert(self@.ready =~= before.ready);
            }
            assert(self@.threads =~= before.threads);
        }
        r
    }

    /// Put a thread at the end of a queue.
    fn push(&mut self, q: usize, id: usize)
        requires
            q < old(self)@.ready.len(),
        ensures
            final(self)@ == (SchedView {
                ready: old(self)@.ready.update(q as int, old(self)@.ready[q as int].push(id)),
                ..old(self)@
            }),
            final(self).image() == old(self).image(),
    {
        let ghost before = self@;
        let ghost raw = self.ready@;
        self.ready[q].push_back(id);
        proof {
            assert forall|k: int| 0 <= k < raw.len() implies #[trigger] self@.ready[k] == (if k == q {
                before.ready[k].push(id)
            } else {
                before.ready[k]
            }) by {
                assert(self.ready@[k]@ == self@.ready[k]);
                assert(raw[k]@ == before.ready[k]);
            }
            assert(self@.ready =~= before.ready.update(q as int, before.ready[q as int].push(id)));
            assert(self@.threads =~= before.threads);
        }
    }

    /// The priority that counts for a thread.
    pub fn eff_prio(&self, id: usize) -> (r: u8)
        requires
            id < self@.threads.len(),
        ensures
            r == self@.eff_prio(id as int),
    {
        let mut p: u8 = self.threads[id].prio;
        if let Some(proc_id) = self.threads[id].proc_id {
            let ghost d = self.donations@;
            let mut i: usize = 0;
            assert(d.subrange(0, 0) =~= Seq::empty());
            while i < self.donations.len()
                invariant
                    i <= self.donations@.len(),
                    d == self.donations@,
                    id < self.threads@.len(),
                    p == boosted(d.subrange(0, i as int), proc_id, self.threads@[id as int].prio),
                decreases self.donations@.len() - i,
            {
                let x: Donation = self.donations[i];
                proof {
                    let e = d.subrange(0, i + 1);
                    assert(e.drop_last() =~= d.subrange(0, i as int));
                    assert(e.last() == x);
                }
                if x.peer_proc == proc_id && x.prio < p {
                    p = x.prio;
                }
                i += 1;
            }
            assert(d.subrange(0, i as int) =~= d);
        }
        p
    }

    /// Put a thread at the end of the queue of its core and priority.
    fn enqueue(&mut self, id: usize)
        requires
            old(self)@.shape_ok(),
            id < old(self)@.threads.len(),
        ensures
            final(self)@ == old(self)@.enqueue(id as int),
            final(self).image() == old(self).image(),
    {
        let ghost before = self@;
        proof {
            before.lemma_eff_prio(id as int);
            assert(before.threads[id as int].ok());
        }
        let prio: usize = self.eff_prio(id) as usize;
        let h: usize = self.threads[id].hart;
        self.push(h * 3 + prio, id);
        let mut t: Thread = self.threads[id];
        assert(t@ == self@.threads[id as int]);
        t.state = ThreadState::Ready;
        self.put(id, t);
    }

    /// The thread that a core runs next: the first of the best priority that can be switched to.
    /// When there is none the core goes on with what it runs, or idles if that has stopped.
    fn pick_next(&mut self, hart: usize, need_ctx: bool) -> (r: usize)
        requires
            hart < MAX_HARTS,
            old(self)@.shape_ok(),
            old(self)@.queues_ok(Set::empty()),
            old(self)@.current[hart as int] < old(self)@.threads.len(),
        ensures
            r == old(self)@.next(hart as int, need_ctx),
            final(self)@ == old(self)@.picked(hart as int, need_ctx),
            final(self).image() == old(self).image(),
    {
        let ghost before = self@;
        let mut level: usize = 0;
        while level < PRIO_LEVELS
            invariant
                hart < MAX_HARTS,
                level <= PRIO_LEVELS,
                before == old(self)@,
                before.shape_ok(),
                before.queues_ok(Set::empty()),
                self@ == before,
                self.image() == old(self).image(),
                forall|l: int| 0 <= l < level ==> !#[trigger] before.has(hart as int, l, need_ctx),
            decreases PRIO_LEVELS - level,
        {
            let qi: usize = hart * 3 + level;
            let ghost q = before.ready[qi as int];
            let round: usize = self.ready[qi].len();
            assert(self.ready@[qi as int]@ == self@.ready[qi as int]);
            let mut j: usize = 0;
            proof {
                assert(qi == SchedView::qi(hart as int, level as int));
                assert(q.subrange(0, q.len() as int) + q.subrange(0, 0) =~= q);
                before.lemma_first(q, need_ctx, 0);
            }
            while j < round
                invariant
                    hart < MAX_HARTS,
                    level < PRIO_LEVELS,
                    qi == hart * 3 + level,
                    qi == SchedView::qi(hart as int, level as int),
                    j <= round,
                    round == q.len(),
                    before == old(self)@,
                    before.shape_ok(),
                    before.queues_ok(Set::empty()),
                    q == before.ready[qi as int],
                    self.ready@.len() == QUEUES,
                    self@.threads == before.threads,
                    self@ == (SchedView { ready: self@.ready, ..before }),
                    self@.ready == before.ready.update(
                        qi as int,
                        q.subrange(j as int, q.len() as int) + q.subrange(0, j as int),
                    ),
                    self.image() == old(self).image(),
                    before.first_from(q, need_ctx, 0) == before.first_from(q, need_ctx, j as int),
                    forall|l: int|
                        0 <= l < level ==> !#[trigger] before.has(hart as int, l, need_ctx),
                decreases round - j,
            {
                let id: usize = match self.pop(qi) {
                    Some(id) => id,
                    None => {
                        assert(false);
                        0
                    },
                };
                proof {
                    reveal(SchedView::queues_ok);
                    let w = q.subrange(j as int, q.len() as int) + q.subrange(0, j as int);
                    assert(w[0] == q[j as int]);
                    assert(before.entry_ok(qi as int, before.ready[qi as int][j as int]));
                    assert(w.subrange(1, w.len() as int) =~= q.subrange(j + 1, q.len() as int)
                        + q.subrange(0, j as int));
                    assert(self@.ready =~= before.ready.update(
                        qi as int,
                        q.subrange(j + 1, q.len() as int) + q.subrange(0, j as int),
                    ));
                }
                let t: Thread = self.threads[id];
                assert(t@ == before.threads[id as int]);
                let ok: bool = if need_ctx {
                    t.ctx_valid || t.frame_valid
                } else {
                    t.frame_valid || (t.ctx_valid && t.woken)
                };
                if ok {
                    let mut u: Thread = t;
                    u.state = ThreadState::Running;
                    self.put(id, u);
                    proof {
                        assert(before.has(hart as int, level as int, need_ctx));
                        assert(before.first(hart as int, level as int, need_ctx) == j);
                        assert(before.best_level(hart as int, need_ctx) == Some(level as int)) by {
                            if level == 1 {
                                assert(!before.has(hart as int, 0, need_ctx));
                            }
                            if level == 2 {
                                assert(!before.has(hart as int, 0, need_ctx));
                                assert(!before.has(hart as int, 1, need_ctx));
                            }
                        }
                        assert(self@ =~= before.picked(hart as int, need_ctx));
                    }
                    return id;
                }
                self.push(qi, id);
                proof {
                    let w = q.subrange(j + 1, q.len() as int) + q.subrange(0, j as int);
                    assert(w.push(id) =~= q.subrange(j + 1, q.len() as int) + q.subrange(0, j + 1));
                    assert(self@.ready =~= before.ready.update(
                        qi as int,
                        q.subrange(j + 1, q.len() as int) + q.subrange(0, j + 1),
                    ));
                }
                j += 1;
            }
            proof {
                assert(q.subrange(j as int, q.len() as int) + q.subrange(0, j as int) =~= q);
                assert(self@.ready =~= before.ready);
                assert(self@ =~= before);
                assert(!before.has(hart as int, level as int, need_ctx));
            }
            level += 1;
        }
        proof {
            assert(!before.has(hart as int, 0, need_ctx));
            assert(!before.has(hart as int, 1, need_ctx));
            assert(!before.has(hart as int, 2, need_ctx));
        }
        let cur: usize = self.current[hart];
        if self.threads[cur].state != ThreadState::Running {
            self.idle[hart]
        } else {
            cur
        }
    }
}

impl Scheduler {
    /// Take the threads of a process out of one queue, and list them.
    fn strip_queue(&mut self, qi: usize, proc_id: usize, buf: &mut Vec<usize>)
        requires
            qi < QUEUES,
            old(self)@.shape_ok(),
            forall|i: int|
                0 <= i < old(self)@.ready[qi as int].len() ==> (#[trigger] old(
                    self,
                )@.ready[qi as int][i]) < old(self)@.threads.len(),
        ensures
            final(self)@ == (SchedView {
                ready: old(self)@.ready.update(
                    qi as int,
                    old(self)@.ready[qi as int].filter(
                        |id: usize| !old(self)@.owned(proc_id, id),
                    ),
                ),
                ..old(self)@
            }),
            final(buf)@ == old(buf)@ + old(self)@.ready[qi as int].filter(
                |id: usize| old(self)@.owned(proc_id, id),
            ),
            final(self).image() == old(self).image(),
    {
        let ghost before = self@;
        let ghost s = before.ready[qi as int];
        let ghost keep = |id: usize| !before.owned(proc_id, id);
        let ghost take = |id: usize| before.owned(proc_id, id);
        let round: usize = self.ready[qi].len();
        assert(self.ready@[qi as int]@ == s);
        let mut j: usize = 0;
        proof {
            reveal(Seq::filter);
            assert(s.subrange(0, s.len() as int) + s.subrange(0, 0).filter(keep) =~= s);
            assert(before.ready.update(qi as int, s) =~= before.ready);
            assert(s.subrange(0, 0).filter(take) =~= Seq::empty());
        }
        while j < round
            invariant
                qi < QUEUES,
                before == old(self)@,
                before.shape_ok(),
                s == before.ready[qi as int],
                keep == (|id: usize| !before.owned(proc_id, id)),
                take == (|id: usize| before.owned(proc_id, id)),
                round == s.len(),
                j <= round,
                forall|i: int| 0 <= i < s.len() ==> (#[trigger] s[i]) < before.threads.len(),
                self@ == (SchedView {
                    ready: before.ready.update(
                        qi as int,
                        s.subrange(j as int, s.len() as int) + s.subrange(0, j as int).filter(keep),
                    ),
                    ..before
                }),
                buf@ == old(buf)@ + s.subrange(0, j as int).filter(take),
                self.image() == old(self).image(),
            decreases round - j,
        {
            let ghost w = s.subrange(j as int, s.len() as int) + s.subrange(0, j as int).filter(
                keep,
            );
            proof {
                assert(self@.ready[qi as int] == w);
                assert(w[0] == s[j as int]);
                crate::runqueue::lemma_filter_step(s, keep, j as int);
                crate::runqueue::lemma_filter_step(s, take, j as int);
            }
            let id: usize = match self.pop(qi) {
                Some(id) => id,
                None => {
                    assert(false);
                    0
                },
            };
            let t: Thread = self.threads[id];
            assert(t@ == before.threads[id as int]);
            let mine: bool = match t.proc_id {
                Some(p) => p == proc_id,
                None => false,
            };
            if mine {
                buf.push(id);
                proof {
                    assert(w.subrange(1, w.len() as int) =~= s.subrange(j + 1, s.len() as int)
                        + s.subrange(0, j + 1).filter(keep));
                    assert(self@.ready =~= before.ready.update(
                        qi as int,
                        s.subrange(j + 1, s.len() as int) + s.subrange(0, j + 1).filter(keep),
                    ));
                    assert(buf@ =~= old(buf)@ + s.subrange(0, j + 1).filter(take));
                }
            } else {
                self.push(qi, id);
                proof {
                    assert(w.subrange(1, w.len() as int).push(id) =~= s.subrange(
                        j + 1,
                        s.len() as int,
                    ) + s.subrange(0, j + 1).filter(keep));
                    assert(self@.ready =~= before.ready.update(
                        qi as int,
                        s.subrange(j + 1, s.len() as int) + s.subrange(0, j + 1).filter(keep),
                    ));
                }
            }
            j += 1;
        }
        proof {
            assert(s.subrange(0, s.len() as int) =~= s);
            assert(s.subrange(j as int, s.len() as int) + s.filter(keep) =~= s.filter(keep));
        }
    }

    /// Take the threads of a process out of all queues, and list them.
    fn strip_queues(&mut self, proc_id: usize, buf: &mut Vec<usize>)
        requires
            old(self)@.shape_ok(),
            old(self)@.queues_ok(Set::empty()),
            old(buf)@.len() == 0,
        ensures
            final(self)@ == old(self)@.stripped(proc_id),
            final(buf)@ == old(self)@.collected(proc_id, QUEUES as int),
            final(self).image() == old(self).image(),
    {
        let ghost before = self@;
        let ghost st = before.stripped(proc_id);
        let mut q: usize = 0;
        while q < QUEUES
            invariant
                q <= QUEUES,
                before == old(self)@,
                before.shape_ok(),
                before.queues_ok(Set::empty()),
                st == before.stripped(proc_id),
                self@.ready.len() == QUEUES,
                self@ == (SchedView { ready: self@.ready, ..before }),
                forall|k: int|
                    0 <= k < q ==> #[trigger] self@.ready[k] == before.ready[k].filter(
                        |id: usize| !before.owned(proc_id, id),
                    ),
                forall|k: int| q <= k < QUEUES ==> #[trigger] self@.ready[k] == before.ready[k],
                buf@ == before.collected(proc_id, q as int),
                self.image() == old(self).image(),
            decreases QUEUES - q,
        {
            let ghost a = self@;
            proof {
                assert forall|i: int| 0 <= i < a.ready[q as int].len() implies (
                #[trigger] a.ready[q as int][i]) < a.threads.len() by {
                    reveal(SchedView::queues_ok);
                    assert(a.ready[q as int] == before.ready[q as int]);
                    assert(before.entry_ok(q as int, before.ready[q as int][i]));
                }
                assert forall|id: usize| a.owned(proc_id, id) == before.owned(proc_id, id) by {}
                assert((|id: usize| !a.owned(proc_id, id)) =~= (|id: usize|
                    !before.owned(proc_id, id)));
                assert((|id: usize| a.owned(proc_id, id)) =~= (|id: usize|
                    before.owned(proc_id, id)));
            }
            self.strip_queue(q, proc_id, buf);
            q += 1;
        }
        proof {
            assert(self@.ready =~= st.ready);
            assert(self@ =~= st);
        }
    }

    /// Sort the threads of a process that are ready into the queues of their priority anew.
    fn requeue_proc_threads(&mut self, proc_id: usize)
        requires
            old(self)@.shape_ok(),
            old(self)@.queues_ok(Set::empty()),
        ensures
            final(self)@ == old(self)@.requeued(proc_id),
            final(self).image() == old(self).image(),
    {
        let ghost before = self@;
        let ghost st = before.stripped(proc_id);
        let mut buf: Vec<usize> = Vec::new();
        self.strip_queues(proc_id, &mut buf);
        proof {
            before.lemma_collected(Set::empty(), proc_id, QUEUES as int);
            before.lemma_stripped(proc_id);
            assert(buf@.subrange(0, 0) =~= Seq::empty());
        }
        let n: usize = buf.len();
        let mut i: usize = 0;
        while i < n
            invariant
                i <= n,
                n == buf@.len(),
                self@.shape_ok(),
                self@.threads.len() == before.threads.len(),
                before.shape_ok(),
                before.queues_ok(Set::empty()),
                buf@ == before.collected(proc_id, QUEUES as int),
                forall|x: usize| #[trigger]
                    before.collected(proc_id, QUEUES as int).contains(x) ==> exists|q: int|
                        0 <= q < QUEUES && (#[trigger] before.ready[q]).contains(x),
                self@ == st.enqueue_all(buf@.subrange(0, i as int)),
                self.image() == old(self).image(),
            decreases n - i,
        {
            let id: usize = buf[i];
            proof {
                assert(buf@.contains(buf@[i as int]));
                let q = choose|q: int| 0 <= q < QUEUES && (#[trigger] before.ready[q]).contains(id);
                before.lemma_once(Set::empty(), q, q, id);
                self@.lemma_enqueue_shape(id as int);
                let e = buf@.subrange(0, i + 1);
                assert(e.drop_last() =~= buf@.subrange(0, i as int));
                assert(e.last() == id);
            }
            self.enqueue(id);
            i += 1;
        }
        assert(buf@.subrange(0, n as int) =~= buf@);
    }

    /// Lend the priority of a thread, which is about to block, to the process that it waits for.
    fn register_donation(&mut self, donor_tid: usize, peer_proc: usize)
        requires
            old(self).wf(),
            donor_tid < old(self)@.threads.len(),
        ensures
            final(self)@ == old(self)@.donated(donor_tid, peer_proc),
            final(self).wf(),
            final(self).image() == old(self).image(),
    {
        let ghost before = self@;
        let prio: u8 = self.eff_prio(donor_tid);
        let d: Donation = Donation { donor_tid, peer_proc, prio };
        let n: usize = self.donations.len();
        let mut i: usize = 0;
        while i < n && self.donations[i].donor_tid != donor_tid
            invariant
                i <= n,
                n == self.donations@.len(),
                self@ == before,
                self.donations@ == before.donations,
                donor_at(before.donations, donor_tid, 0) == donor_at(
                    before.donations,
                    donor_tid,
                    i as int,
                ),
            decreases n - i,
        {
            i += 1;
        }
        if i < n {
            self.donations.set(i, d);
        } else {
            self.donations.push(d);
        }
        proof {
            let k = donor_at(before.donations, donor_tid, 0);
            lemma_donor_at(before.donations, donor_tid, 0);
            before.lemma_eff_prio(donor_tid as int);
            let all = if k < before.donations.len() {
                before.donations.update(k, d)
            } else {
                before.donations.push(d)
            };
            let v = SchedView { donations: all, ..before };
            assert(self@.threads =~= before.threads);
            assert(self@.ready =~= before.ready);
            assert(self@ =~= v);
            before.lemma_donations_only(v);
            v.lemma_requeued(peer_proc);
            assert(v.donations_ok()) by {
                assert forall|a: int| 0 <= a < all.len() implies (#[trigger] all[a]).donor_tid
                    < v.threads.len() && all[a].prio < PRIO_LEVELS by {
                    if a < before.donations.len() {
                        let x = before.donations[a];
                    }
                }
                assert forall|a: int, b: int|
                    #![trigger all[a], all[b]]
                    0 <= a < b < all.len() implies all[a].donor_tid != all[b].donor_tid by {
                    if a < before.donations.len() {
                        let x = before.donations[a];
                    }
                    if b < before.donations.len() {
                        let y = before.donations[b];
                    }
                }
            }
            v.lemma_ready_only(v.requeued(peer_proc));
        }
        self.requeue_proc_threads(peer_proc);
    }

    /// Take back what threads lent, and sort the processes that had it anew, but for `skip`.
    fn revoke_donations_of(&mut self, tids: &Vec<usize>, skip_proc: Option<usize>)
        requires
            old(self).wf(),
        ensures
            final(self)@ == old(self)@.undonated(tids@, skip_proc),
            final(self).wf(),
            final(self).image() == old(self).image(),
    {
        let ghost before = self@;
        let ghost d = before.donations;
        let ghost keep = |x: Donation| !tids@.contains(x.donor_tid);
        let mut kept: Vec<Donation> = Vec::new();
        let mut affected: Vec<usize> = Vec::new();
        let n: usize = self.donations.len();
        let mut i: usize = 0;
        proof {
            reveal(Seq::filter);
            assert(d.subrange(0, 0) =~= Seq::empty());
        }
        while i < n
            invariant
                i <= n,
                n == d.len(),
                d == self.donations@,
                d == before.donations,
                self@ == before,
                keep == (|x: Donation| !tids@.contains(x.donor_tid)),
                kept@ == d.subrange(0, i as int).filter(keep),
                affected@ == peers_of(d.subrange(0, i as int), tids@),
                self.image() == old(self).image(),
            decreases n - i,
        {
            let x: Donation = self.donations[i];
            let hit: bool = holds(tids, x.donor_tid);
            proof {
                crate::runqueue::lemma_filter_step(d, keep, i as int);
                let e = d.subrange(0, i + 1);
                assert(e.drop_last() =~= d.subrange(0, i as int));
                assert(e.last() == x);
            }
            if hit {
                if !holds(&affected, x.peer_proc) {
                    affected.push(x.peer_proc);
                }
            } else {
                kept.push(x);
            }
            i += 1;
        }
        proof {
            assert(d.subrange(0, n as int) =~= d);
        }
        self.donations = kept;
        let ghost v = SchedView { donations: not_from(d, tids@), ..before };
        proof {
            assert(self@.threads =~= before.threads);
            assert(self@.ready =~= before.ready);
            assert(self@ =~= v);
            before.lemma_donations_only(v);
            before.lemma_fewer_donations(v, keep);
        }
        let ghost want = |p: usize| Some(p) != skip_proc;
        let m: usize = affected.len();
        let mut j: usize = 0;
        proof {
            assert(affected@.subrange(0, 0) =~= Seq::empty());
            reveal(Seq::filter);
        }
        while j < m
            invariant
                j <= m,
                m == affected@.len(),
                want == (|p: usize| Some(p) != skip_proc),
                v.wf(),
                self@ == v.requeued_all(affected@.subrange(0, j as int).filter(want)),
                self@.shape_ok(),
                self@.queues_ok(Set::empty()),
                self.image() == old(self).image(),
            decreases m - j,
        {
            let p: usize = affected[j];
            let ghost a = affected@.subrange(0, j as int).filter(want);
            proof {
                crate::runqueue::lemma_filter_step(affected@, want, j as int);
                v.lemma_requeued_all(affected@.subrange(0, j + 1).filter(want));
            }
            let go: bool = match skip_proc {
                Some(s) => s != p,
                None => true,
            };
            if go {
                proof {
                    assert(a.push(p).drop_last() =~= a);
                }
                self.requeue_proc_threads(p);
            }
            j += 1;
        }
        proof {
            assert(affected@.subrange(0, m as int) =~= affected@);
            v.lemma_requeued_all(affected@.filter(want));
            v.lemma_ready_only(self@);
        }
    }

    /// Take back what a thread lent.
    fn revoke_donations(&mut self, donor_tid: usize)
        requires
            old(self).wf(),
        ensures
            final(self)@ == old(self)@.undonated(seq![donor_tid], None),
            final(self).wf(),
            final(self).image() == old(self).image(),
    {
        let mut tids: Vec<usize> = Vec::new();
        tids.push(donor_tid);
        assert(tids@ =~= seq![donor_tid]);
        self.revoke_donations_of(&tids, None);
    }

    /// Take back what was lent to a process that is going away.
    fn revoke_donations_for_proc(&mut self, proc_id: usize)
        requires
            old(self).wf(),
        ensures
            final(self)@ == old(self)@.undonated_to(proc_id),
            final(self).wf(),
            final(self).image() == old(self).image(),
    {
        let ghost before = self@;
        let ghost d = before.donations;
        let ghost keep = |x: Donation| x.peer_proc != proc_id;
        let mut kept: Vec<Donation> = Vec::new();
        let mut donors: Vec<usize> = Vec::new();
        let n: usize = self.donations.len();
        let mut i: usize = 0;
        proof {
            reveal(Seq::filter);
            assert(d.subrange(0, 0) =~= Seq::empty());
        }
        while i < n
            invariant
                i <= n,
                n == d.len(),
                d == self.donations@,
                d == before.donations,
                before.donations_ok(),
                self@ == before,
                keep == (|x: Donation| x.peer_proc != proc_id),
                kept@ == d.subrange(0, i as int).filter(keep),
                donors@ == donors_to(d.subrange(0, i as int), proc_id),
                forall|k: int| 0 <= k < donors@.len() ==> (#[trigger] donors@[k]) < before.threads.len(),
                self.image() == old(self).image(),
            decreases n - i,
        {
            let x: Donation = self.donations[i];
            proof {
                crate::runqueue::lemma_filter_step(d, keep, i as int);
                let e = d.subrange(0, i + 1);
                assert(e.drop_last() =~= d.subrange(0, i as int));
                assert(e.last() == x);
                assert(before.donations[i as int].donor_tid < before.threads.len());
            }
            if x.peer_proc == proc_id {
                donors.push(x.donor_tid);
            } else {
                kept.push(x);
            }
            i += 1;
        }
        proof {
            assert(d.subrange(0, n as int) =~= d);
        }
        self.donations = kept;
        let ghost v = SchedView { donations: not_to(d, proc_id), ..before };
        proof {
            assert(self@.threads =~= before.threads);
            assert(self@.ready =~= before.ready);
            assert(self@ =~= v);
            before.lemma_donations_only(v);
            before.lemma_fewer_donations(v, keep);
            assert(donors@.subrange(0, 0) =~= Seq::empty());
        }
        let m: usize = donors.len();
        let mut j: usize = 0;
        while j < m
            invariant
                j <= m,
                m == donors@.len(),
                v.wf(),
                v.threads == before.threads,
                self@.threads == before.threads,
                forall|k: int| 0 <= k < donors@.len() ==> (#[trigger] donors@[k]) < before.threads.len(),
                self@ == v.requeued_all(before.procs_of(donors@.subrange(0, j as int), proc_id)),
                self@.shape_ok(),
                self@.queues_ok(Set::empty()),
                self.image() == old(self).image(),
            decreases m - j,
        {
            let tid: usize = donors[j];
            let ghost a = before.procs_of(donors@.subrange(0, j as int), proc_id);
            proof {
                let e = donors@.subrange(0, j + 1);
                assert(e.drop_last() =~= donors@.subrange(0, j as int));
                assert(e.last() == tid);
                v.lemma_requeued_all(before.procs_of(e, proc_id));
                assert(donors@[j as int] < before.threads.len());
            }
            let t: Thread = self.threads[tid];
            assert(t@ == before.threads[tid as int]);
            if let Some(p) = t.proc_id {
                if p != proc_id {
                    proof {
                        assert(a.push(p).drop_last() =~= a);
                    }
                    self.requeue_proc_threads(p);
                }
            }
            j += 1;
        }
        proof {
            assert(donors@.subrange(0, m as int) =~= donors@);
            v.lemma_requeued_all(before.procs_of(donors@, proc_id));
            v.lemma_ready_only(self@);
        }
    }
}

/// Whether a number occurs in a list.
fn holds(v: &Vec<usize>, x: usize) -> (r: bool)
    ensures
        r == v@.contains(x),
{
    let mut i: usize = 0;
    while i < v.len()
        invariant
            i <= v@.len(),
            forall|k: int| 0 <= k < i ==> v@[k] != x,
        decreases v@.len() - i,
    {
        if v[i] == x {
            assert(v@[i as int] == x);
            return true;
        }
        i += 1;
    }
    false
}

/// What a core has to do to go from one thread to another.
pub open spec fn target_of(v: SchedView, old_id: usize, new_id: usize) -> SwitchTarget {
    SwitchTarget {
        old: old_id,
        new: new_id,
        use_frame: !v.threads[new_id as int].ctx_valid,
        next_root: v.threads[new_id as int].root,
    }
}

impl Scheduler {
    /// Make an idle thread for each core, on the given stacks.
    pub fn new(image: Image, stacks: [u64; MAX_HARTS]) -> (r: Scheduler)
        requires
            forall|h: int| 0 <= h < MAX_HARTS ==> #[trigger] stacks@[h] <= u64::MAX - THREAD_STACK_SIZE,
        ensures
            r.wf(),
            r.image() == image,
            r@.threads.len() == MAX_HARTS,
            forall|h: int|
                0 <= h < MAX_HARTS ==> #[trigger] r@.threads[h] == idle_thread(image, stacks@[h], h),
            forall|q: int| 0 <= q < QUEUES ==> (#[trigger] r@.ready[q]).len() == 0,
            r@.donations.len() == 0,
            forall|h: int| 0 <= h < MAX_HARTS ==> #[trigger] r@.current[h] == h,
            forall|h: int| 0 <= h < MAX_HARTS ==> #[trigger] r@.ticks_run[h] == 0,
            r@.free_slots.len() == 0,
            r@.reaper.len() == 0,
            r@.prios_ok(),
    {
        let mut s = Scheduler {
            threads: Vec::new(),
            ready: Vec::new(),
            donations: Vec::new(),
            current: [0, 1, 2, 3],
            idle: [0, 1, 2, 3],
            ticks_run: [0, 0, 0, 0],
            free_slots: VecDeque::new(),
            reaper: VecDeque::new(),
            image,
        };
        let mut q: usize = 0;
        while q < QUEUES
            invariant
                q <= QUEUES,
                s.ready@.len() == q,
                forall|k: int| 0 <= k < q ==> (#[trigger] s.ready@[k])@.len() == 0,
                s.threads@.len() == 0,
                s.donations@.len() == 0,
                s.current@ == seq![0usize, 1, 2, 3],
                s.idle@ == seq![0usize, 1, 2, 3],
                s.ticks_run@ == seq![0u64, 0, 0, 0],
                s.free_slots@.len() == 0,
                s.reaper@.len() == 0,
                s.image == image,
            decreases QUEUES - q,
        {
            s.ready.push(VecDeque::new());
            q += 1;
        }
        let mut h: usize = 0;
        while h < MAX_HARTS
            invariant
                h <= MAX_HARTS,
                s.ready@.len() == QUEUES,
                forall|k: int| 0 <= k < QUEUES ==> (#[trigger] s.ready@[k])@.len() == 0,
                s.threads@.len() == h,
                forall|k: int|
                    0 <= k < h ==> (#[trigger] s.threads@[k])@ == idle_thread(image, stacks@[k], k),
                forall|k: int|
                    0 <= k < MAX_HARTS ==> #[trigger] stacks@[k] <= u64::MAX - THREAD_STACK_SIZE,
                s.donations@.len() == 0,
                s.current@ == seq![0usize, 1, 2, 3],
                s.idle@ == seq![0usize, 1, 2, 3],
                s.ticks_run@ == seq![0u64, 0, 0, 0],
                s.free_slots@.len() == 0,
                s.reaper@.len() == 0,
                s.image == image,
            decreases MAX_HARTS - h,
        {
            assert(stacks@[h as int] <= u64::MAX - THREAD_STACK_SIZE);
            let top: u64 = stack_top_of(stacks[h]);
            let mut frame: [u64; TRAP_FRAME_WORDS] = [0;36];
            frame[FRAME_SEPC] = image.idle_entry;
            frame[FRAME_SSTATUS] = SSTATUS_KERNEL;
            let t: Thread = Thread {
                prio: PRIO_LOW,
                state: ThreadState::Running,
                ctx: Context { ra: image.idle_entry, sp: top, s: [0;12] },
                frame,
                frame_valid: false,
                ctx_valid: true,
                woken: false,
                ipc_msg: None,
                proc_id: None,
                hart: h,
                root: image.kernel_root,
                entry: image.idle_entry,
                stack: Some(stacks[h]),
            };
            assert(t@ =~= idle_thread(image, stacks@[h as int], h as int));
            s.threads.push(t);
            h += 1;
        }
        proof {
            let v = s@;
            reveal(SchedView::queues_ok);
            assert forall|k: int| 0 <= k < MAX_HARTS implies #[trigger] v.threads[k] == idle_thread(
                image,
                stacks@[k],
                k,
            ) by {
                assert(s.threads@[k]@ == v.threads[k]);
            }
            assert forall|k: int| 0 <= k < QUEUES implies (#[trigger] v.ready[k]).len() == 0 by {
                assert(s.ready@[k]@ == v.ready[k]);
            }
            assert forall|id: usize|
                id < v.threads.len() && (#[trigger] v.threads[id as int]).state
                    == ThreadState::Ready implies v.queued(id) by {
                assert(v.threads[id as int] == idle_thread(image, stacks@[id as int], id as int));
            }
        }
        s
    }

    /// Whether the first `limit` levels of a core have a thread that the timer may switch to.
    fn any_waits(&self, hart: usize, limit: usize) -> (r: bool)
        requires
            self.wf(),
            hart < MAX_HARTS,
            limit <= PRIO_LEVELS,
        ensures
            r == exists|l: int| 0 <= l < limit && #[trigger] self@.has(hart as int, l, false),
    {
        let mut l: usize = 0;
        while l < limit
            invariant
                self.wf(),
                hart < MAX_HARTS,
                limit <= PRIO_LEVELS,
                l <= limit,
                forall|k: int| 0 <= k < l ==> !#[trigger] self@.has(hart as int, k, false),
            decreases limit - l,
        {
            let qi: usize = hart * 3 + l;
            let ghost q = self@.ready[qi as int];
            let n: usize = self.ready[qi].len();
            assert(self.ready@[qi as int]@ == q);
            let mut i: usize = 0;
            while i < n
                invariant
                    self.wf(),
                    hart < MAX_HARTS,
                    l < PRIO_LEVELS,
                    l < limit,
                    qi == hart * 3 + l,
                    q == self@.ready[qi as int],
                    self.ready@[qi as int]@ == q,
                    n == q.len(),
                    i <= n,
                    self@.first_from(q, false, 0) == self@.first_from(q, false, i as int),
                decreases n - i,
            {
                let id: usize = self.ready[qi][i];
                proof {
                    reveal(SchedView::queues_ok);
                    assert(self@.entry_ok(qi as int, self@.ready[qi as int][i as int]));
                }
                let t: Thread = self.threads[id];
                assert(t@ == self@.threads[id as int]);
                if t.frame_valid || (t.ctx_valid && t.woken) {
                    assert(self@.has(hart as int, l as int, false));
                    return true;
                }
                i += 1;
            }
            assert(!self@.has(hart as int, l as int, false));
            l += 1;
        }
        false
    }

    /// Make a frame from the context of a thread that gave way, so that it can be resumed as if
    /// it had been interrupted.
    fn expand_ctx_to_frame(&mut self, id: usize)
        requires
            id < old(self)@.threads.len(),
        ensures
            final(self)@ == old(self)@.with_thread(
                id as int,
                expanded(old(self)@.threads[id as int], old(self).image().global_pointer),
            ),
            final(self).image() == old(self).image(),
    {
        let ghost before = self@;
        let mut t: Thread = self.threads[id];
        assert(t@ == before.threads[id as int]);
        let ctx: Context = t.ctx;
        let mut frame: [u64; TRAP_FRAME_WORDS] = [0;36];
        frame[FRAME_SEPC] = ctx.ra;
        frame[FRAME_SSTATUS] = SSTATUS_KERNEL;
        frame[X_SP] = ctx.sp;
        frame[X_GP] = self.image.global_pointer;
        frame[X_S0] = ctx.s[0];
        frame[X_S1] = ctx.s[1];
        let mut i: usize = 2;
        while i < 12
            invariant
                2 <= i <= 12,
                frame@.len() == TRAP_FRAME_WORDS,
                forall|k: int|
                    0 <= k < TRAP_FRAME_WORDS ==> #[trigger] frame@[k] == (if k == FRAME_SEPC {
                        ctx.ra
                    } else if k == FRAME_SSTATUS {
                        SSTATUS_KERNEL
                    } else if k == X_SP {
                        ctx.sp
                    } else if k == X_GP {
                        self.image.global_pointer
                    } else if k == X_S0 {
                        ctx.s@[0]
                    } else if k == X_S1 {
                        ctx.s@[1]
                    } else if X_S2 <= k < X_S2 + i - 2 {
                        ctx.s@[k - X_S2 + 2]
                    } else {
                        0
                    }),
            decreases 12 - i,
        {
            frame[X_S2 + i - 2] = ctx.s[i];
            i += 1;
        }
        t.frame = frame;
        t.frame_valid = true;
        t.ctx_valid = false;
        t.woken = false;
        proof {
            let e = expanded(before.threads[id as int], self.image.global_pointer);
            assert(t@.frame =~= e.frame);
            assert(t@ =~= e);
        }
        self.put(id, t);
    }

    /// The timer ticked while a core ran with the given frame. The thread that takes over, to be
    /// resumed from its frame in its own address space; `None` when the core goes on with what it
    /// runs.
    ///
    /// A thread of better priority takes over at once, one of the same priority when the time slice
    /// is used up. Threads of worse priority wait: the interrupted thread stands at a better level
    /// and is picked again.
    pub fn on_tick(&mut self, frame: &[u64; TRAP_FRAME_WORDS], hart: usize) -> (r: Option<usize>)
        requires
            old(self).wf(),
            hart < MAX_HARTS,
        ensures
            final(self).wf(),
            final(self).image() == old(self).image(),
            (final(self)@, r) == old(self)@.ticked(
                hart as int,
                frame@,
                old(self).image().global_pointer,
            ),
    {
        let ghost before = self@;
        let ghost h = hart as int;
        let ghost gp = self.image.global_pointer;
        proof {
            before.lemma_ticked(h, frame@, gp);
            assert(before.current[h] < before.threads.len());
        }
        let ticks: u64 = self.ticks_run[hart].wrapping_add(1);
        let cur: usize = self.current[hart];
        self.ticks_run[hart] = ticks;
        proof {
            assert(ticks == if before.ticks_run[h] == u64::MAX {
                0
            } else {
                (before.ticks_run[h] + 1) as u64
            });
            assert(self@.threads =~= before.threads);
            assert(self@.ready =~= before.ready);
            assert(self@ =~= (SchedView { ticks_run: before.ticks_run.update(h, ticks), ..before }));
            before.lemma_ticks_only(self@);
        }
        if ticks < SLICE_TICKS {
            let p: usize = self.eff_prio(cur) as usize;
            let ghost v = self@;
            proof {
                before.lemma_eff_prio(cur as int);
                before.lemma_same_has(v, h);
            }
            let higher: bool = self.any_waits(hart, p);
            proof {
                assert(before.better_waits(h) == higher) by {
                    if before.better_waits(h) {
                        if p > 0 && before.has(h, 0, false) {
                            assert(v.has(h, 0, false));
                        } else {
                            assert(v.has(h, 1, false));
                        }
                    }
                    if higher {
                        let l = choose|l: int| 0 <= l < p && #[trigger] v.has(h, l, false);
                        assert(before.has(h, l, false));
                    }
                }
            }
            if !higher {
                return None;
            }
        }
        self.ticks_run[hart] = 0;
        let ghost fresh = self@;
        proof {
            assert(self@.threads =~= before.threads);
            assert(self@.ready =~= before.ready);
            assert(fresh =~= (SchedView { ticks_run: before.ticks_run.update(h, 0), ..before }));
            before.lemma_ticks_only(fresh);
            before.lemma_same_has(fresh, h);
        }
        let other: bool = self.any_waits(hart, PRIO_LEVELS);
        proof {
            assert(other == before.best_level(h, false) is Some) by {
                if other {
                    let l = choose|l: int| 0 <= l < 3 && #[trigger] fresh.has(h, l, false);
                    assert(before.has(h, l, false));
                } else {
                    assert(!fresh.has(h, 0, false));
                    assert(!fresh.has(h, 1, false));
                    assert(!fresh.has(h, 2, false));
                }
            }
        }
        if !other {
            return None;
        }
        let mut t: Thread = self.threads[cur];
        assert(t@ == fresh.threads[cur as int]);
        t.frame = *frame;
        t.frame_valid = true;
        t.ctx_valid = false;
        self.put(cur, t);
        proof {
            fresh.lemma_interrupted(h, frame@);
            let ghost c = fresh.threads[cur as int];
            assert(t@ =~= (ThreadView { frame: frame@, frame_valid: true, ctx_valid: false, ..c }));
            assert(c.ok());
            assert(self@.shape_ok()) by {
                assert forall|i: int| 0 <= i < self@.threads.len() implies (
                #[trigger] self@.threads[i]).ok() by {
                    assert(fresh.threads[i].ok());
                }
            }
        }
        self.enqueue(cur);
        let ghost v = self@;
        assert(v == fresh.interrupted(h, frame@));
        let next: usize = self.pick_next(hart, false);
        proof {
            v.lemma_picked(h, false);
        }
        if next == cur {
            return None;
        }
        let ghost w = self@;
        self.current[hart] = next;
        proof {
            assert(self@.threads =~= w.threads);
            assert(self@.ready =~= w.ready);
            assert(self@ =~= (SchedView { current: w.current.update(h, next), ..w }));
        }
        if !self.threads[next].frame_valid {
            self.expand_ctx_to_frame(next);
        }
        proof {
            assert(self@ =~= before.ticked(h, frame@, gp).0);
        }
        Some(next)
    }
}

/// The idle thread of a core.
pub open spec fn idle_thread(image: Image, stack: u64, h: int) -> ThreadView {
    ThreadView {
        prio: PRIO_LOW,
        state: ThreadState::Running,
        ctx: ContextView {
            ra: image.idle_entry,
            sp: stack_top(stack),
            s: Seq::new(12, |i: int| 0u64),
        },
        frame: start_frame(image.idle_entry, SSTATUS_KERNEL, 0, 0),
        frame_valid: false,
        ctx_valid: true,
        woken: false,
        ipc_msg: None,
        proc_id: None,
        hart: h as usize,
        root: image.kernel_root,
        entry: image.idle_entry,
        stack: Some(stack),
    }
}

/// Frame from which a thread starts.
pub open spec fn start_frame(pc: u64, sstatus: u64, sp: u64, gp: u64) -> Seq<u64> {
    Seq::new(
        TRAP_FRAME_WORDS as nat,
        |i: int|
            if i == FRAME_SEPC {
                pc
            } else if i == FRAME_SSTATUS {
                sstatus
            } else if i == X_SP {
                sp
            } else if i == X_GP {
                gp
            } else {
                0
            },
    )
}

/// Initial stack pointer: the end of the stack, aligned to 16 bytes.
pub open spec fn stack_top(stack: u64) -> u64 {
    ((stack + THREAD_STACK_SIZE) / 16 * 16) as u64
}

fn stack_top_of(stack: u64) -> (r: u64)
    requires
        stack <= u64::MAX - THREAD_STACK_SIZE,
    ensures
        r == stack_top(stack),
{
    (stack + THREAD_STACK_SIZE) / 16 * 16
}

impl Scheduler {
    /// Take the next thread for a core. The thread that ran there has given way or stopped.
    fn switch(&mut self, hart: usize) -> (r: SwitchTarget)
        requires
            hart < MAX_HARTS,
            old(self)@.wf_at(hart as int),
            old(self)@.threads[old(self)@.current[hart as int] as int].hart == hart,
            old(self)@.threads[old(self)@.current[hart as int] as int].state
                != ThreadState::Running || old(self)@.current[hart as int] < MAX_HARTS,
        ensures
            final(self)@ == old(self)@.switched(hart as int, true),
            final(self).wf(),
            final(self).image() == old(self).image(),
            r == target_of(
                final(self)@,
                old(self)@.current[hart as int],
                final(self)@.current[hart as int],
            ),
    {
        let ghost before = self@;
        let ghost h = hart as int;
        proof {
            before.lemma_switched(h);
        }
        let cur: usize = self.current[hart];
        self.ticks_run[hart] = 0;
        let ghost v = self@;
        proof {
            assert(v.threads =~= before.threads);
            assert(v.ready =~= before.ready);
            assert(v =~= (SchedView { ticks_run: before.ticks_run.update(h, 0), ..before }));
            before.lemma_same_queues(v);
        }
        let next: usize = self.pick_next(hart, true);
        let ghost w = self@;
        self.current[hart] = next;
        proof {
            assert(self@.threads =~= w.threads);
            assert(self@.ready =~= w.ready);
            assert(self@ =~= before.switched(h, true));
            assert(self@.current[h] < self@.threads.len());
            assert(self.threads@[next as int]@ == self@.threads[next as int]);
        }
        SwitchTarget {
            old: cur,
            new: next,
            use_frame: !self.threads[next].ctx_valid,
            next_root: self.threads[next].root,
        }
    }

    /// Take the stacks of threads that are gone, to be freed.
    fn take_reaper(&mut self) -> (r: Vec<u64>)
        ensures
            r@ == old(self)@.reaper,
            final(self)@ == (SchedView { reaper: Seq::empty(), ..old(self)@ }),
            final(self).image() == old(self).image(),
    {
        let ghost before = self@;
        let mut out: Vec<u64> = Vec::new();
        let n: usize = self.reaper.len();
        let mut i: usize = 0;
        while i < n
            invariant
                i <= n,
                n == before.reaper.len(),
                out@ == before.reaper.subrange(0, i as int),
                self.reaper@ == before.reaper.subrange(i as int, n as int),
                self@ == (SchedView { reaper: self.reaper@, ..before }),
                self.image() == old(self).image(),
            decreases n - i,
        {
            let ghost a = self@;
            let x: u64 = match self.reaper.pop_front() {
                Some(x) => x,
                None => {
                    assert(false);
                    0
                },
            };
            out.push(x);
            proof {
                assert(self.reaper@ =~= before.reaper.subrange(i + 1, n as int));
                assert(out@ =~= before.reaper.subrange(0, i + 1));
                assert(self@.threads =~= a.threads);
                assert(self@.ready =~= a.ready);
            }
            i += 1;
        }
        assert(out@ =~= before.reaper);
        assert(self.reaper@ =~= Seq::empty());
        out
    }

    /// What the core runs gives way to others of its priority. The core has to switch; the
    /// stacks are to be freed.
    pub fn yield_(&mut self, hart: usize) -> (r: (SwitchTarget, Vec<u64>))
        requires
            old(self).wf(),
            hart < MAX_HARTS,
        ensures
            final(self).wf(),
            final(self).image() == old(self).image(),
            final(self)@ == old(self)@.yielded(hart as int),
            r.0 == target_of(
                final(self)@,
                old(self)@.current[hart as int],
                final(self)@.current[hart as int],
            ),
            r.1@ == old(self)@.reaper,
    {
        let ghost before = self@;
        let ghost h = hart as int;
        proof {
            before.lemma_yielded(h);
            assert(before.current[h] < before.threads.len());
        }
        let stacks: Vec<u64> = self.take_reaper();
        let cur: usize = self.current[hart];
        let mut t: Thread = self.threads[cur];
        assert(t@ == before.threads[cur as int]);
        t.frame_valid = false;
        t.ctx_valid = true;
        self.put(cur, t);
        assert(self@ =~= before.gave_way(h));
        self.enqueue(cur);
        let target: SwitchTarget = self.switch(hart);
        (target, stacks)
    }

    /// What the core runs blocks until it is woken. `None` when it was woken before: it goes on.
    /// Otherwise the core has to switch; when the thread runs again, it calls `unblocked`.
    pub fn block_current(&mut self, hart: usize) -> (r: Option<SwitchTarget>)
        requires
            old(self).wf(),
            hart < MAX_HARTS,
            old(self)@.current[hart as int] >= MAX_HARTS,
        ensures
            final(self).wf(),
            final(self).image() == old(self).image(),
            final(self)@ == old(self)@.blocked(hart as int),
            r == (if old(self)@.threads[old(self)@.current[hart as int] as int].woken {
                None
            } else {
                Some(
                    target_of(
                        final(self)@,
                        old(self)@.current[hart as int],
                        final(self)@.current[hart as int],
                    ),
                )
            }),
    {
        let ghost before = self@;
        let ghost h = hart as int;
        let cur: usize = self.current[hart];
        assert(before.current[h] < before.threads.len());
        let mut t: Thread = self.threads[cur];
        assert(t@ == before.threads[cur as int]);
        assert(t@.ok());
        if t.woken {
            t.woken = false;
            self.put(cur, t);
            proof {
                before.lemma_detail_changed(cur, t@);
            }
            return None;
        }
        t.state = ThreadState::Blocked;
        t.frame_valid = false;
        t.ctx_valid = true;
        self.put(cur, t);
        proof {
            before.lemma_stopped(self@, h, t@);
        }
        Some(self.switch(hart))
    }

    /// A thread that blocked runs again.
    pub fn unblocked(&mut self, hart: usize)
        requires
            old(self).wf(),
            hart < MAX_HARTS,
        ensures
            final(self).wf(),
            final(self).image() == old(self).image(),
            final(self)@ == old(self)@.with_thread(
                old(self)@.current[hart as int] as int,
                ThreadView {
                    woken: false,
                    ..old(self)@.threads[old(self)@.current[hart as int] as int]
                },
            ),
    {
        let ghost before = self@;
        let cur: usize = self.current[hart];
        assert(before.current[hart as int] < before.threads.len());
        let mut t: Thread = self.threads[cur];
        assert(t@ == before.threads[cur as int]);
        assert(t@.ok());
        t.woken = false;
        self.put(cur, t);
        proof {
            before.lemma_detail_changed(cur, t@);
        }
    }

    /// The function of the thread that a core has begun to run. From now on the thread goes on
    /// where it gives way, and no longer from its first frame.
    pub fn thread_entry(&mut self, hart: usize) -> (r: u64)
        requires
            old(self).wf(),
            hart < MAX_HARTS,
        ensures
            final(self).wf(),
            final(self).image() == old(self).image(),
            r == old(self)@.threads[old(self)@.current[hart as int] as int].entry,
            final(self)@ == old(self)@.with_thread(
                old(self)@.current[hart as int] as int,
                ThreadView {
                    frame_valid: false,
                    ..old(self)@.threads[old(self)@.current[hart as int] as int]
                },
            ),
    {
        let ghost before = self@;
        let cur: usize = self.current[hart];
        assert(before.current[hart as int] < before.threads.len());
        let mut t: Thread = self.threads[cur];
        assert(t@ == before.threads[cur as int]);
        assert(t@.ok());
        t.frame_valid = false;
        self.put(cur, t);
        proof {
            before.lemma_detail_changed(cur, t@);
        }
        t.entry
    }

    /// Notes where a thread that gave way goes on.
    pub fn save_context(&mut self, id: usize, ctx: Context)
        requires
            old(self).wf(),
            id < old(self)@.threads.len(),
        ensures
            final(self).wf(),
            final(self).image() == old(self).image(),
            final(self)@ == old(self)@.with_thread(
                id as int,
                ThreadView {
                    ctx: ContextView { ra: ctx.ra, sp: ctx.sp, s: ctx.s@ },
                    ..old(self)@.threads[id as int]
                },
            ),
    {
        let ghost before = self@;
        let mut t: Thread = self.threads[id];
        assert(t@ == before.threads[id as int]);
        assert(t@.ok());
        t.ctx = ctx;
        self.put(id, t);
        proof {
            before.lemma_detail_changed(id, t@);
        }
    }

    /// Wake a thread. A thread that does not exist is ignored; one that is not blocked will not
    /// block the next time. The core that is to be interrupted, because it idles and the thread
    /// belongs to it.
    pub fn wake(&mut self, id: usize, my_hart: usize) -> (r: Option<usize>)
        requires
            old(self).wf(),
            my_hart < MAX_HARTS,
        ensures
            final(self).wf(),
            final(self).image() == old(self).image(),
            final(self)@ == old(self)@.awoken(id),
            r == old(self)@.awoken_ipi(id, my_hart as int),
    {
        let ghost before = self@;
        if id < self.threads.len() {
            proof {
                before.lemma_awoken(id);
            }
            let mut t: Thread = self.threads[id];
            assert(t@ == before.threads[id as int]);
            assert(t@.ok());
            let was_blocked: bool = t.state == ThreadState::Blocked;
            let tgt: usize = t.hart;
            t.woken = true;
            self.put(id, t);
            if was_blocked {
                self.enqueue(id);
                if tgt != my_hart && self.current[tgt] == self.idle[tgt] {
                    return Some(tgt);
                }
            }
        }
        None
    }

    /// A thread ends. The core has to switch; the entry and, later, the stack are used again.
    pub fn exit(&mut self, hart: usize) -> (r: SwitchTarget)
        requires
            old(self).wf(),
            hart < MAX_HARTS,
            old(self)@.current[hart as int] >= MAX_HARTS,
        ensures
            final(self).wf(),
            final(self).image() == old(self).image(),
            final(self)@ == old(self)@.exited(hart as int),
            r == target_of(
                final(self)@,
                old(self)@.current[hart as int],
                final(self)@.current[hart as int],
            ),
    {
        let ghost before = self@;
        let ghost h = hart as int;
        let cur: usize = self.current[hart];
        assert(before.current[h] < before.threads.len());
        let mut t: Thread = self.threads[cur];
        assert(t@ == before.threads[cur as int]);
        assert(t@.ok());
        if let Some(stack) = t.stack {
            self.reaper.push_back(stack);
        }
        t.stack = None;
        t.state = ThreadState::Exited;
        t.frame_valid = false;
        t.ctx_valid = true;
        self.free_slots.push_back(cur);
        proof {
            assert(self@.threads =~= before.threads);
            assert(self@.ready =~= before.ready);
        }
        self.put(cur, t);
        proof {
            before.lemma_stopped(self@, h, t@);
        }
        self.switch(hart)
    }

    /// A user thread ends, in a system call or after a fault.
    pub fn exit_from_trap(&mut self, hart: usize) -> (r: SwitchTarget)
        requires
            old(self).wf(),
            hart < MAX_HARTS,
            old(self)@.current[hart as int] >= MAX_HARTS,
        ensures
            final(self).wf(),
            final(self).image() == old(self).image(),
            final(self)@ == old(self)@.exited(hart as int),
            r == target_of(
                final(self)@,
                old(self)@.current[hart as int],
                final(self)@.current[hart as int],
            ),
    {
        self.exit(hart)
    }

    /// A user thread blocks in a system call. It goes on from the frame.
    pub fn block_user_from_trap(&mut self, frame: &[u64; TRAP_FRAME_WORDS], hart: usize) -> (r:
        SwitchTarget)
        requires
            old(self).wf(),
            hart < MAX_HARTS,
            old(self)@.current[hart as int] >= MAX_HARTS,
        ensures
            final(self).wf(),
            final(self).image() == old(self).image(),
            final(self)@ == old(self)@.user_blocked(hart as int, frame@),
            r == target_of(
                final(self)@,
                old(self)@.current[hart as int],
                final(self)@.current[hart as int],
            ),
    {
        let ghost before = self@;
        let ghost h = hart as int;
        let cur: usize = self.current[hart];
        assert(before.current[h] < before.threads.len());
        let mut t: Thread = self.threads[cur];
        assert(t@ == before.threads[cur as int]);
        assert(t@.ok());
        t.frame = *frame;
        t.frame_valid = true;
        t.ctx_valid = false;
        t.woken = false;
        t.state = ThreadState::Blocked;
        self.put(cur, t);
        proof {
            before.lemma_stopped(self@, h, t@);
        }
        self.switch(hart)
    }

    /// The idle loop of a core looks for something to run. `None` when there is nothing.
    pub fn secondary_idle(&mut self, hart: usize) -> (r: Option<SwitchTarget>)
        requires
            old(self).wf(),
            hart < MAX_HARTS,
            old(self)@.current[hart as int] == hart,
        ensures
            final(self).wf(),
            final(self).image() == old(self).image(),
            final(self)@ == old(self)@.switched(hart as int, true),
            r == (if final(self)@.current[hart as int] == hart {
                None
            } else {
                Some(target_of(final(self)@, hart, final(self)@.current[hart as int]))
            }),
    {
        let t: SwitchTarget = self.switch(hart);
        if t.new == hart {
            None
        } else {
            Some(t)
        }
    }

    /// Take the stacks of threads that are gone, to be freed.
    pub fn drain_reaper(&mut self) -> (r: Vec<u64>)
        requires
            old(self).wf(),
        ensures
            final(self).wf(),
            final(self).image() == old(self).image(),
            r@ == old(self)@.reaper,
            final(self)@ == (SchedView { reaper: Seq::empty(), ..old(self)@ }),
    {
        let ghost before = self@;
        let r: Vec<u64> = self.take_reaper();
        proof {
            before.lemma_ticks_only(SchedView { ticks_run: before.ticks_run, ..before });
            before.lemma_same_queues(self@);
            before.lemma_rest(self@);
            assert(self@.donations_ok()) by {
                assert forall|k: int| 0 <= k < self@.donations.len() implies (
                #[trigger] self@.donations[k]).donor_tid < self@.threads.len()
                    && self@.donations[k].prio < PRIO_LEVELS by {
                    let x = before.donations[k];
                }
            }
        }
        r
    }
}

impl Scheduler {
    /// Whether there is room for another thread.
    pub fn can_spawn(&self) -> (r: bool)
        ensures
            r == self@.has_slot(),
    {
        self.free_slots.len() > 0 || self.threads.len() < MAX_THREADS
    }

    /// Put a thread into a free entry and into its queue.
    fn start(&mut self, t: Thread) -> (r: usize)
        requires
            old(self).wf(),
            old(self)@.has_slot(),
            t@.ok(),
            t.state == ThreadState::Ready,
            t@.resumable(),
        ensures
            final(self).wf(),
            final(self).image() == old(self).image(),
            final(self)@ == old(self)@.started(t@),
            r == old(self)@.next_slot(),
    {
        let ghost before = self@;
        proof {
            before.lemma_started(t@);
        }
        let reuse = self.free_slots.pop_front();
        let id: usize = match reuse {
            Some(idx) => idx,
            None => self.threads.len(),
        };
        if id < self.threads.len() {
            self.threads.set(id, t);
        } else {
            self.threads.push(t);
        }
        proof {
            assert(self@.threads =~= before.placed(t@).threads);
            assert(self@.ready =~= before.ready);
            assert(self@ =~= before.placed(t@));
        }
        self.enqueue(id);
        id
    }

    /// Start a kernel thread that runs the function at `entry`, on the given stack and the given
    /// core. A priority that does not exist counts as the worst.
    pub fn spawn(&mut self, entry: u64, prio: u8, stack: u64, hart: usize) -> (r: usize)
        requires
            old(self).wf(),
            old(self)@.has_slot(),
            hart < MAX_HARTS,
            stack <= u64::MAX - THREAD_STACK_SIZE,
        ensures
            final(self).wf(),
            final(self).image() == old(self).image(),
            final(self)@ == old(self)@.started(
                kernel_thread(old(self).image(), entry, prio, stack, hart),
            ),
            r == old(self)@.next_slot(),
    {
        let image: Image = self.image;
        let sp: u64 = stack_top_of(stack);
        let mut frame: [u64; TRAP_FRAME_WORDS] = [0;36];
        frame[FRAME_SEPC] = image.thread_entry;
        frame[FRAME_SSTATUS] = SSTATUS_KERNEL;
        frame[X_SP] = sp;
        frame[X_GP] = image.global_pointer;
        let p: u8 = if prio < PRIO_LOW {
            prio
        } else {
            PRIO_LOW
        };
        let t: Thread = Thread {
            prio: p,
            state: ThreadState::Ready,
            ctx: Context { ra: image.thread_entry, sp, s: [0;12] },
            frame,
            frame_valid: true,
            ctx_valid: true,
            woken: false,
            ipc_msg: None,
            proc_id: None,
            hart,
            root: image.kernel_root,
            entry,
            stack: Some(stack),
        };
        assert(t@ =~= kernel_thread(image, entry, prio, stack, hart));
        self.start(t)
    }

    /// Start a user thread of a process at `entry_pc`, with the given stack pointer.
    pub fn spawn_user(
        &mut self,
        procs: &ProcessTable,
        proc_id: usize,
        entry_pc: u64,
        user_sp: u64,
        prio: u8,
        hart: usize,
    ) -> (r: usize)
        requires
            old(self).wf(),
            old(self)@.has_slot(),
            hart < MAX_HARTS,
            procs.wf(),
            procs@.dom().contains(proc_id as int),
        ensures
            final(self).wf(),
            final(self).image() == old(self).image(),
            final(self)@ == old(self)@.started(
                user_thread(
                    old(self).image(),
                    procs@[proc_id as int].root,
                    proc_id,
                    entry_pc,
                    user_sp,
                    prio,
                    hart,
                ),
            ),
            r == old(self)@.next_slot(),
    {
        proof {
            let t = user_thread(
                self.image(),
                procs@[proc_id as int].root,
                proc_id,
                entry_pc,
                user_sp,
                prio,
                hart,
            );
            assert(with_args(t, 0, 0) =~= t);
        }
        self.spawn_user_args(procs, proc_id, entry_pc, user_sp, 0, 0, prio, hart)
    }

    /// Start the thread of a program that was loaded: it finds the number of its arguments and
    /// their addresses in its first registers.
    pub fn spawn_user_args(
        &mut self,
        procs: &ProcessTable,
        proc_id: usize,
        entry_pc: u64,
        user_sp: u64,
        argc: u64,
        argv: u64,
        prio: u8,
        hart: usize,
    ) -> (r: usize)
        requires
            old(self).wf(),
            old(self)@.has_slot(),
            hart < MAX_HARTS,
            procs.wf(),
            procs@.dom().contains(proc_id as int),
        ensures
            final(self).wf(),
            final(self).image() == old(self).image(),
            final(self)@ == old(self)@.started(
                with_args(
                    user_thread(
                        old(self).image(),
                        procs@[proc_id as int].root,
                        proc_id,
                        entry_pc,
                        user_sp,
                        prio,
                        hart,
                    ),
                    argc,
                    argv,
                ),
            ),
            r == old(self)@.next_slot(),
    {
        let p: u8 = if prio < PRIO_LOW {
            prio
        } else {
            PRIO_LOW
        };
        let space: u64 = root(procs, proc_id);
        let mut frame: [u64; TRAP_FRAME_WORDS] = [0;36];
        frame[FRAME_SEPC] = entry_pc;
        frame[FRAME_SSTATUS] = SSTATUS_USER;
        frame[X_SP] = user_sp;
        frame[X_A0] = argc;
        frame[X_A1] = argv;
        let t: Thread = Thread {
            prio: p,
            state: ThreadState::Ready,
            ctx: Context { ra: entry_pc, sp: user_sp, s: [0;12] },
            frame,
            frame_valid: true,
            ctx_valid: false,
            woken: false,
            ipc_msg: None,
            proc_id: Some(proc_id),
            hart,
            root: space,
            entry: self.image.user_stub,
            stack: None,
        };
        assert(t@ =~= with_args(
            user_thread(self.image, space, proc_id, entry_pc, user_sp, prio, hart),
            argc,
            argv,
        ));
        self.start(t)
    }

    /// Start a kernel thread that belongs to a process. If something is lent to the process, the
    /// thread has it too.
    pub fn spawn_owned(&mut self, entry: u64, prio: u8, proc_id: usize, stack: u64, hart: usize) -> (r:
        usize)
        requires
            old(self).wf(),
            old(self)@.has_slot(),
            hart < MAX_HARTS,
            stack <= u64::MAX - THREAD_STACK_SIZE,
        ensures
            final(self).wf(),
            final(self).image() == old(self).image(),
            final(self)@ == old(self)@.started_owned(
                kernel_thread(old(self).image(), entry, prio, stack, hart),
                proc_id,
            ),
            r == old(self)@.next_slot(),
    {
        let ghost before = self@;
        let ghost kt = kernel_thread(self.image(), entry, prio, stack, hart);
        proof {
            before.lemma_started(kt);
        }
        let id: usize = self.spawn(entry, prio, stack, hart);
        let ghost v = self@;
        let mut t: Thread = self.threads[id];
        assert(t@ == v.threads[id as int]);
        t.proc_id = Some(proc_id);
        self.put(id, t);
        proof {
            v.lemma_owner_changed(id, t@);
        }
        let ghost w = self@;
        let n: usize = self.donations.len();
        let mut i: usize = 0;
        while i < n
            invariant
                i <= n,
                n == self.donations@.len(),
                self@ == w,
                w.donations == self.donations@,
                w.wf(),
                self.image() == old(self).image(),
                w == v.with_thread(id as int, t@),
                v == before.started(kt),
                before == old(self)@,
                kt == kernel_thread(old(self).image(), entry, prio, stack, hart),
                id == before.next_slot(),
                t@ == (ThreadView { proc_id: Some(proc_id), state: ThreadState::Ready, ..kt }),
                forall|k: int| 0 <= k < i ==> (#[trigger] self.donations@[k]).peer_proc != proc_id,
            decreases n - i,
        {
            if self.donations[i].peer_proc == proc_id {
                proof {
                    assert(w.donations[i as int].peer_proc == proc_id);
                    w.lemma_requeued(proc_id);
                    w.lemma_ready_only(w.requeued(proc_id));
                }
                self.requeue_proc_threads(proc_id);
                return id;
            }
            i += 1;
        }
        id
    }

    /// Lend the priority of a thread to the process that it is about to wait for.
    pub fn donate_on_block(&mut self, donor_tid: usize, peer_proc: usize)
        requires
            old(self).wf(),
            donor_tid < old(self)@.threads.len(),
        ensures
            final(self).wf(),
            final(self).image() == old(self).image(),
            final(self)@ == old(self)@.donated(donor_tid, peer_proc),
    {
        self.register_donation(donor_tid, peer_proc);
    }

    /// The message that the running thread was woken with, once.
    pub fn take_ipc_msg(&mut self, hart: usize) -> (r: Option<[u64; MSG_WORDS]>)
        requires
            old(self).wf(),
            hart < MAX_HARTS,
        ensures
            final(self).wf(),
            final(self).image() == old(self).image(),
            final(self)@ == old(self)@.with_thread(
                old(self)@.current[hart as int] as int,
                ThreadView {
                    ipc_msg: None,
                    ..old(self)@.threads[old(self)@.current[hart as int] as int]
                },
            ),
            match old(self)@.threads[old(self)@.current[hart as int] as int].ipc_msg {
                Some(m) => r matches Some(x) && x@ == m,
                None => r is None,
            },
    {
        let ghost before = self@;
        let cur: usize = self.current[hart];
        assert(before.current[hart as int] < before.threads.len());
        let mut t: Thread = self.threads[cur];
        assert(t@ == before.threads[cur as int]);
        assert(t@.ok());
        let msg: Option<[u64; MSG_WORDS]> = t.ipc_msg;
        t.ipc_msg = None;
        self.put(cur, t);
        proof {
            before.lemma_detail_changed(cur, t@);
        }
        msg
    }

    /// How many threads lend their priority.
    pub fn donation_count(&self) -> (r: usize)
        ensures
            r == self@.donations.len(),
    {
        self.donations.len()
    }

    /// The thread that a core runs.
    pub fn current_id(&self, hart: usize) -> (r: usize)
        requires
            self.wf(),
            hart < MAX_HARTS,
        ensures
            r == self@.current[hart as int],
    {
        self.current[hart]
    }

    /// The process of the thread that a core runs, which must have one.
    pub fn current_proc(&self, hart: usize) -> (r: usize)
        requires
            self.wf(),
            hart < MAX_HARTS,
            self@.threads[self@.current[hart as int] as int].proc_id is Some,
        ensures
            self@.threads[self@.current[hart as int] as int].proc_id == Some(r),
    {
        let cur: usize = self.current[hart];
        assert(self@.current[hart as int] < self@.threads.len());
        let t: Thread = self.threads[cur];
        assert(t@ == self@.threads[cur as int]);
        match t.proc_id {
            Some(p) => p,
            None => {
                assert(false);
                0
            },
        }
    }

    /// Whether a thread is blocked.
    pub fn is_blocked(&self, id: usize) -> (r: bool)
        ensures
            r == (id < self@.threads.len() && self@.threads[id as int].state
                == ThreadState::Blocked),
    {
        if id < self.threads.len() {
            let t: Thread = self.threads[id];
            assert(t@ == self@.threads[id as int]);
            t.state == ThreadState::Blocked
        } else {
            false
        }
    }

    /// A thread as it stands.
    pub fn thread(&self, id: usize) -> (r: Thread)
        requires
            id < self@.threads.len(),
        ensures
            r@ == self@.threads[id as int],
    {
        self.threads[id]
    }

    /// How many entries the table has.
    pub fn thread_count(&self) -> (r: usize)
        ensures
            r == self@.threads.len(),
    {
        self.threads.len()
    }

    /// A thread that waits for a message gets it, or just learns that its own was taken. It goes
    /// on behind its system call, which returns zero.
    pub fn ipc_wake_with_msg(&mut self, tid: usize, msg: Option<[u64; MSG_WORDS]>)
        requires
            old(self).wf(),
            tid < old(self)@.threads.len(),
            old(self)@.threads[tid as int].state == ThreadState::Blocked,
        ensures
            final(self).wf(),
            final(self).image() == old(self).image(),
            final(self)@ == old(self)@.delivered(tid, 0, words_of(msg), words_of(msg)),
    {
        self.deliver(tid, 0, msg, msg);
    }

    /// A thread that waits for a message learns that none will come: its system call returns
    /// `code`.
    pub fn ipc_wake_with_err(&mut self, tid: usize, code: u64)
        requires
            old(self).wf(),
            tid < old(self)@.threads.len(),
            old(self)@.threads[tid as int].state == ThreadState::Blocked,
        ensures
            final(self).wf(),
            final(self).image() == old(self).image(),
            final(self)@ == old(self)@.delivered(tid, code, None, Some(error_words(code))),
    {
        let m: [u64; MSG_WORDS] = [code, code, code, code, code];
        assert(m@ =~= error_words(code));
        self.deliver(tid, code, None, Some(m));
    }

    fn deliver(
        &mut self,
        tid: usize,
        a0: u64,
        regs: Option<[u64; MSG_WORDS]>,
        msg: Option<[u64; MSG_WORDS]>,
    )
        requires
            old(self).wf(),
            tid < old(self)@.threads.len(),
            old(self)@.threads[tid as int].state == ThreadState::Blocked,
        ensures
            final(self).wf(),
            final(self).image() == old(self).image(),
            final(self)@ == old(self)@.delivered(tid, a0, words_of(regs), words_of(msg)),
    {
        let ghost before = self@;
        let mut t: Thread = self.threads[tid];
        assert(t@ == before.threads[tid as int]);
        assert(t@.ok());
        let ghost f0 = t.frame@;
        return_to(&mut t.frame, a0, regs);
        t.ipc_msg = msg;
        self.put(tid, t);
        proof {
            assert(t@ =~= (ThreadView {
                frame: returned(f0, a0, words_of(regs)),
                ipc_msg: words_of(msg),
                ..before.threads[tid as int]
            }));
            before.lemma_detail_changed(tid, t@);
            self@.lemma_ready_again(tid);
        }
        self.enqueue(tid);
        self.revoke_donations(tid);
    }
}

/// The words of a message.
pub open spec fn words_of(m: Option<[u64; MSG_WORDS]>) -> Option<Seq<u64>> {
    match m {
        Some(x) => Some(x@),
        None => None,
    }
}

/// What a kernel thread finds as its message when there was an error.
pub open spec fn error_words(code: u64) -> Seq<u64> {
    seq![code, code, code, code, code]
}

/// Let a system call return.
pub fn return_to(frame: &mut [u64; TRAP_FRAME_WORDS], a0: u64, regs: Option<[u64; MSG_WORDS]>)
    ensures
        final(frame)@ == returned(old(frame)@, a0, words_of(regs)),
{
    let ghost f0 = frame@;
    frame[X_A0] = a0;
    if let Some(m) = regs {
        frame[X_A1] = m[0];
        frame[X_A1 + 1] = m[1];
        frame[X_A1 + 2] = m[2];
        frame[X_A1 + 3] = m[3];
        frame[X_A1 + 4] = m[4];
    }
    frame[FRAME_SEPC] = frame[FRAME_SEPC].wrapping_add(4);
    assert(frame@ =~= returned(f0, a0, words_of(regs)));
}

/// Priority that counts when `prio` is asked for.
pub open spec fn clamped(prio: u8) -> u8 {
    if prio < PRIO_LOW {
        prio
    } else {
        PRIO_LOW
    }
}

/// A kernel thread before it has run.
pub open spec fn kernel_thread(
    image: Image,
    entry: u64,
    prio: u8,
    stack: u64,
    hart: usize,
) -> ThreadView {
    ThreadView {
        prio: clamped(prio),
        state: ThreadState::Ready,
        ctx: ContextView {
            ra: image.thread_entry,
            sp: stack_top(stack),
            s: Seq::new(12, |i: int| 0u64),
        },
        frame: start_frame(
            image.thread_entry,
            SSTATUS_KERNEL,
            stack_top(stack),
            image.global_pointer,
        ),
        frame_valid: true,
        ctx_valid: true,
        woken: false,
        ipc_msg: None,
        proc_id: None,
        hart,
        root: image.kernel_root,
        entry,
        stack: Some(stack),
    }
}

/// A thread with two arguments in its first registers.
pub open spec fn with_args(t: ThreadView, argc: u64, argv: u64) -> ThreadView {
    ThreadView { frame: t.frame.update(X_A0 as int, argc).update(X_A1 as int, argv), ..t }
}

/// A user thread before it has run. It can be resumed from its frame only, in user mode.
pub open spec fn user_thread(
    image: Image,
    root: u64,
    proc_id: usize,
    pc: u64,
    sp: u64,
    prio: u8,
    hart: usize,
) -> ThreadView {
    ThreadView {
        prio: clamped(prio),
        state: ThreadState::Ready,
        ctx: ContextView { ra: pc, sp, s: Seq::new(12, |i: int| 0u64) },
        frame: start_frame(pc, SSTATUS_USER, sp, 0),
        frame_valid: true,
        ctx_valid: false,
        woken: false,
        ipc_msg: None,
        proc_id: Some(proc_id),
        hart,
        root,
        entry: image.user_stub,
        stack: None,
    }
}

impl Scheduler {
    /// Take a thread out of the queues.
    fn remove_from_ready(&mut self, id: usize)
        requires
            old(self)@.shape_ok(),
        ensures
            final(self)@ == old(self)@.unqueued(id),
            final(self).image() == old(self).image(),
    {
        let ghost before = self@;
        let mut q: usize = 0;
        while q < QUEUES
            invariant
                q <= QUEUES,
                before == old(self)@,
                before.shape_ok(),
                self@.ready.len() == QUEUES,
                self@ == (SchedView { ready: self@.ready, ..before }),
                forall|k: int|
                    0 <= k < q ==> #[trigger] self@.ready[k] == before.ready[k].filter(but_for(id)),
                forall|k: int| q <= k < QUEUES ==> #[trigger] self@.ready[k] == before.ready[k],
                self.image() == old(self).image(),
            decreases QUEUES - q,
        {
            self.drop_from(q, id);
            q += 1;
        }
        proof {
            assert(self@.ready =~= before.unqueued(id).ready);
            assert(self@ =~= before.unqueued(id));
        }
    }

    /// Take a thread out of one queue.
    fn drop_from(&mut self, qi: usize, id: usize)
        requires
            qi < QUEUES,
            old(self)@.ready.len() == QUEUES,
        ensures
            final(self)@ == (SchedView {
                ready: old(self)@.ready.update(
                    qi as int,
                    old(self)@.ready[qi as int].filter(but_for(id)),
                ),
                ..old(self)@
            }),
            final(self).image() == old(self).image(),
    {
        let ghost before = self@;
        let ghost s = before.ready[qi as int];
        let ghost keep = but_for(id);
        let round: usize = self.ready[qi].len();
        assert(self.ready@[qi as int]@ == s);
        let mut j: usize = 0;
        proof {
            reveal(Seq::filter);
            assert(s.subrange(0, s.len() as int) + s.subrange(0, 0).filter(keep) =~= s);
            assert(before.ready.update(qi as int, s) =~= before.ready);
        }
        while j < round
            invariant
                qi < QUEUES,
                before == old(self)@,
                before.ready.len() == QUEUES,
                s == before.ready[qi as int],
                keep == but_for(id),
                round == s.len(),
                j <= round,
                self@ == (SchedView {
                    ready: before.ready.update(
                        qi as int,
                        s.subrange(j as int, s.len() as int) + s.subrange(0, j as int).filter(keep),
                    ),
                    ..before
                }),
                self.image() == old(self).image(),
            decreases round - j,
        {
            let ghost w = s.subrange(j as int, s.len() as int) + s.subrange(0, j as int).filter(
                keep,
            );
            proof {
                assert(self@.ready[qi as int] == w);
                assert(w[0] == s[j as int]);
                crate::runqueue::lemma_filter_step(s, keep, j as int);
            }
            let x: usize = match self.pop(qi) {
                Some(x) => x,
                None => {
                    assert(false);
                    0
                },
            };
            if x == id {
                proof {
                    assert(w.subrange(1, w.len() as int) =~= s.subrange(j + 1, s.len() as int)
                        + s.subrange(0, j + 1).filter(keep));
                    assert(self@.ready =~= before.ready.update(
                        qi as int,
                        s.subrange(j + 1, s.len() as int) + s.subrange(0, j + 1).filter(keep),
                    ));
                }
            } else {
                self.push(qi, x);
                proof {
                    assert(w.subrange(1, w.len() as int).push(x) =~= s.subrange(
                        j + 1,
                        s.len() as int,
                    ) + s.subrange(0, j + 1).filter(keep));
                    assert(self@.ready =~= before.ready.update(
                        qi as int,
                        s.subrange(j + 1, s.len() as int) + s.subrange(0, j + 1).filter(keep),
                    ));
                }
            }
            j += 1;
        }
        proof {
            assert(s.subrange(0, s.len() as int) =~= s);
            assert(s.subrange(j as int, s.len() as int) + s.filter(keep) =~= s.filter(keep));
        }
    }

    /// Move a thread that does not run, and that is not an idle thread, to another core. A core
    /// that does not exist counts as the last.
    pub fn set_affinity(&mut self, id: usize, hart: usize)
        requires
            old(self).wf(),
            MAX_HARTS <= id < old(self)@.threads.len(),
            old(self)@.threads[id as int].state == ThreadState::Ready || old(
                self,
            )@.threads[id as int].state == ThreadState::Blocked,
        ensures
            final(self).wf(),
            final(self).image() == old(self).image(),
            final(self)@ == old(self)@.moved(id, last_core(hart)),
    {
        let ghost before = self@;
        let h: usize = if hart < MAX_HARTS {
            hart
        } else {
            MAX_HARTS - 1
        };
        proof {
            before.lemma_moved(id, h);
        }
        let mut t: Thread = self.threads[id];
        assert(t@ == before.threads[id as int]);
        if t.state == ThreadState::Ready {
            if t.hart != h {
                self.remove_from_ready(id);
                t.hart = h;
                self.put(id, t);
                self.enqueue(id);
            }
        } else {
            t.hart = h;
            self.put(id, t);
        }
    }

    /// End a thread that is in no queue.
    fn bury(&mut self, id: usize)
        requires
            id < old(self)@.threads.len(),
        ensures
            final(self)@ == old(self)@.buried_one(id),
            final(self).image() == old(self).image(),
    {
        let ghost before = self@;
        let mut t: Thread = self.threads[id];
        assert(t@ == before.threads[id as int]);
        if t.state == ThreadState::Running {
            return;
        }
        if t.state != ThreadState::Exited {
            self.free_slots.push_back(id);
        }
        if let Some(stack) = t.stack {
            self.reaper.push_back(stack);
        }
        t.stack = None;
        t.state = ThreadState::Exited;
        t.frame_valid = false;
        t.ctx_valid = false;
        proof {
            assert(self@.threads =~= before.threads);
            assert(self@.ready =~= before.ready);
        }
        self.put(id, t);
    }

    /// End the threads of a process, but for the one that core `hart` runs, and take back what
    /// they lent and what was lent to them. A thread that another core runs goes on, until it
    /// faults.
    #[verifier::rlimit(30)]
    pub fn kill_threads(&mut self, proc_id: usize, hart: usize)
        requires
            old(self).wf(),
            hart < MAX_HARTS,
        ensures
            final(self).wf(),
            final(self).image() == old(self).image(),
            final(self)@ == old(self)@.killed(proc_id, hart as int),
    {
        let ghost before = self@;
        let ghost h = hart as int;
        let cur: usize = self.current[hart];
        let n: usize = self.threads.len();
        let mut victims: Vec<usize> = Vec::new();
        let mut i: usize = 0;
        while i < n
            invariant
                i <= n,
                n == self@.threads.len(),
                n <= MAX_THREADS,
                self@ == before,
                cur == before.current[h],
                victims@ == before.victims(proc_id, cur, i as int),
                self.image() == old(self).image(),
            decreases n - i,
        {
            let t: Thread = self.threads[i];
            assert(t@ == before.threads[i as int]);
            let mine: bool = match t.proc_id {
                Some(p) => p == proc_id,
                None => false,
            };
            if mine && i != cur {
                victims.push(i);
            }
            i += 1;
        }
        self.strip_all(proc_id);
        let ghost st = self@;
        let ghost loose = before.collected(proc_id, QUEUES as int).to_set();
        proof {
            before.lemma_to_bury(proc_id);
            before.lemma_victims(proc_id, cur, n as int);
            assert(victims@.subrange(0, 0) =~= Seq::empty());
        }
        let m: usize = victims.len();
        let mut j: usize = 0;
        let ghost mut left = loose;
        while j < m
            invariant
                j <= m,
                m == victims@.len(),
                n == before.threads.len(),
                before.wf(),
                victims@ == before.victims(proc_id, cur, n as int),
                forall|x: usize| #[trigger]
                    victims@.contains(x) <==> x < n && before.owned(proc_id, x) && x != cur,
                st == before.stripped(proc_id),
                forall|x: usize|
                    x < n && before.owned(proc_id, x) ==> !#[trigger] st.queued(x),
                self@ == st.buried(victims@.subrange(0, j as int)),
                self@.burying(left),
                self@.threads.len() == n,
                self@.ready == st.ready,
                forall|x: usize| #[trigger]
                    left.contains(x) ==> loose.contains(x) && !victims@.subrange(
                        0,
                        j as int,
                    ).contains(x),
                self.image() == old(self).image(),
            decreases m - j,
        {
            let id: usize = victims[j];
            proof {
                let e = victims@.subrange(0, j + 1);
                assert(e.drop_last() =~= victims@.subrange(0, j as int));
                assert(e.last() == id);
                assert(victims@.contains(victims@[j as int]));
                assert(id >= MAX_HARTS) by {
                    let t = before.threads[id as int];
                }
                assert(!self@.queued(id)) by {
                    assert(!st.queued(id));
                    if self@.queued(id) {
                        let (q, k) = choose|q: int, k: int|
                            #![trigger self@.ready[q][k]]
                            0 <= q < QUEUES && 0 <= k < self@.ready[q].len() && self@.ready[q][k]
                                == id;
                        assert(st.ready[q][k] == id);
                    }
                }
                self@.lemma_buried_one(left, id);
                assert forall|x: usize| #[trigger] left.remove(id).contains(x) implies loose.contains(x)
                    && !e.contains(x) by {
                    assert(left.contains(x));
                    if e.contains(x) {
                        let k = choose|k: int| 0 <= k < e.len() && e[k] == x;
                        if k < j {
                            assert(victims@.subrange(0, j as int)[k] == x);
                        }
                    }
                }
                left = left.remove(id);
            }
            self.bury(id);
            j += 1;
        }
        proof {
            assert(victims@.subrange(0, m as int) =~= victims@);
            assert forall|x: usize| !left.contains(x) by {
                if left.contains(x) {
                    assert(loose.contains(x));
                    assert(before.owned(proc_id, x));
                    assert(x != cur);
                    assert(victims@.contains(x));
                }
            }
            assert(left =~= Set::empty());
        }
        self.revoke_donations_for_proc(proc_id);
        victims.push(cur);
        self.revoke_donations_of(&victims, Some(proc_id));
    }

    /// Take the threads of a process out of all queues.
    fn strip_all(&mut self, proc_id: usize)
        requires
            old(self)@.shape_ok(),
            old(self)@.queues_ok(Set::empty()),
        ensures
            final(self)@ == old(self)@.stripped(proc_id),
            final(self).image() == old(self).image(),
    {
        let mut buf: Vec<usize> = Vec::new();
        self.strip_queues(proc_id, &mut buf);
    }
}

/// The core that counts when `hart` is asked for.
pub open spec fn last_core(hart: usize) -> usize {
    if hart < MAX_HARTS {
        hart
    } else {
        (MAX_HARTS - 1) as usize
    }
}

/// Nanoseconds of one switch, when `2 * n` switches took `dt` ticks of a clock of `freq` ticks a
/// second.
pub fn bench(dt: u64, freq: u64, n: u64) -> (r: u64)
    requires
        freq > 0,
        0 < n <= u64::MAX / 2,
    ensures
        r == (if dt * (1_000_000_000int / freq as int) > u64::MAX {
            u64::MAX as int
        } else {
            dt * (1_000_000_000int / freq as int)
        }) / (2 * n) as int,
{
    let ns: u64 = 1_000_000_000u64 / freq;
    let total: u64 = match dt.checked_mul(ns) {
        Some(t) => t,
        None => u64::MAX,
    };
    total / (2 * n)
}

} // verus!
