//! Model of the scheduler: threads, run queues and priority donations.
//!
//! Each core has one queue per priority. A thread that is ready stands in exactly one queue, one
//! of its own core. Its level is its own priority, or a higher one that a blocked thread has
//! donated to its process.

use vstd::prelude::*;
use crate::arch::gpr::{X_A0, X_A1, X_GP, X_S0, X_S1, X_S2, X_SP};
use crate::arch::{FRAME_SEPC, FRAME_SSTATUS, MAX_HARTS, TRAP_FRAME_WORDS};
use crate::sched::{SLICE_TICKS, SSTATUS_KERNEL};

verus! {

/// Most threads.
pub const MAX_THREADS: usize = 64;

/// Priorities.
pub const PRIO_LEVELS: usize = 3;

/// Queues: one for each core and priority.
pub const QUEUES: usize = 12;

/// State of a thread.
#[derive(Debug, Clone, Copy, PartialEq, Eq, Structural)]
pub enum ThreadState {
    /// In a queue.
    Ready,
    Running,
    /// Waiting to be woken.
    Blocked,
    /// Gone; the entry can be used again.
    Exited,
}

/// A priority that a blocked thread lends to the process it waits for.
#[derive(Debug, Clone, Copy, PartialEq, Eq, Structural)]
pub struct Donation {
    pub donor_tid: usize,
    pub peer_proc: usize,
    pub prio: u8,
}

/// Registers that a call preserves.
#[verifier::ext_equal]
pub struct ContextView {
    pub ra: u64,
    pub sp: u64,
    pub s: Seq<u64>,
}

/// A thread.
#[verifier::ext_equal]
pub struct ThreadView {
    pub prio: u8,
    pub state: ThreadState,
    pub ctx: ContextView,
    pub frame: Seq<u64>,
    /// The frame holds where the thread stopped.
    pub frame_valid: bool,
    /// The context holds where the thread stopped.
    pub ctx_valid: bool,
    /// Woken since it last blocked.
    pub woken: bool,
    pub ipc_msg: Option<Seq<u64>>,
    pub proc_id: Option<usize>,
    pub hart: usize,
    pub root: u64,
    pub entry: u64,
    pub stack: Option<u64>,
}

impl ThreadView {
    /// There is something to resume the thread from.
    pub open spec fn resumable(self) -> bool {
        self.ctx_valid || self.frame_valid
    }

    /// The timer may switch to the thread: it was preempted, or it blocked and was woken.
    pub open spec fn preemptable(self) -> bool {
        self.frame_valid || (self.ctx_valid && self.woken)
    }

    pub open spec fn ok(self) -> bool {
        &&& self.prio < PRIO_LEVELS
        &&& self.frame.len() == TRAP_FRAME_WORDS
        &&& self.ctx.s.len() == 12
        &&& self.hart < MAX_HARTS
        &&& self.ipc_msg matches Some(m) ==> m.len() == 5
    }
}

/// The scheduler.
#[verifier::ext_equal]
pub struct SchedView {
    pub threads: Seq<ThreadView>,
    /// Queue of core `h` and level `l` at `3 * h + l`.
    pub ready: Seq<Seq<usize>>,
    pub donations: Seq<Donation>,
    /// What each core runs.
    pub current: Seq<usize>,
    /// What each core runs when there is nothing else: thread `h` on core `h`.
    pub idle: Seq<usize>,
    pub ticks_run: Seq<u64>,
    /// Entries of threads that have ended, oldest first. Each is used again once, so that how many
    /// threads there are decides how many more can be started.
    pub free_slots: Seq<usize>,
    /// Stacks of threads that have ended, to be freed.
    pub reaper: Seq<u64>,
}

/// The better of a priority and those donated to a process. A smaller number is better.
pub open spec fn boosted(d: Seq<Donation>, proc_id: usize, prio: u8) -> u8
    decreases d.len(),
{
    if d.len() == 0 {
        prio
    } else {
        let rest = boosted(d.drop_last(), proc_id, prio);
        if d.last().peer_proc == proc_id && d.last().prio < rest {
            d.last().prio
        } else {
            rest
        }
    }
}

/// Law: the effective priority is the best of a thread's own and all that are donated to its
/// process.
pub proof fn law_boosted_is_best(d: Seq<Donation>, proc_id: usize, prio: u8)
    ensures
        boosted(d, proc_id, prio) <= prio,
        forall|i: int|
            0 <= i < d.len() && (#[trigger] d[i]).peer_proc == proc_id ==> boosted(d, proc_id, prio)
                <= d[i].prio,
        boosted(d, proc_id, prio) == prio || exists|i: int|
            0 <= i < d.len() && (#[trigger] d[i]).peer_proc == proc_id && boosted(d, proc_id, prio)
                == d[i].prio,
    decreases d.len(),
{
    if d.len() > 0 {
        let e = d.drop_last();
        law_boosted_is_best(e, proc_id, prio);
        assert forall|i: int| 0 <= i < d.len() && (#[trigger] d[i]).peer_proc == proc_id implies
            boosted(d, proc_id, prio) <= d[i].prio by {
            if i < e.len() {
                assert(e[i] == d[i]);
            }
        }
        if boosted(d, proc_id, prio) != prio {
            if boosted(e, proc_id, prio) == boosted(d, proc_id, prio) {
                let i = choose|i: int|
                    0 <= i < e.len() && (#[trigger] e[i]).peer_proc == proc_id && boosted(
                        e,
                        proc_id,
                        prio,
                    ) == e[i].prio;
                assert(d[i] == e[i]);
            } else {
                assert(d[d.len() - 1] == d.last());
            }
        }
    }
}

impl SchedView {
    /// Position of a queue.
    pub open spec fn qi(h: int, level: int) -> int {
        3 * h + level
    }

    /// Priority that counts for a thread.
    pub open spec fn eff_prio(self, id: int) -> u8 {
        match self.threads[id].proc_id {
            Some(p) => boosted(self.donations, p, self.threads[id].prio),
            None => self.threads[id].prio,
        }
    }

    /// With another thread in place of `id`.
    pub open spec fn with_thread(self, id: int, t: ThreadView) -> SchedView {
        SchedView { threads: self.threads.update(id, t), ..self }
    }

    /// The thread stands in some queue.
    pub open spec fn queued(self, id: usize) -> bool {
        exists|q: int, i: int|
            #![trigger self.ready[q][i]]
            0 <= q < QUEUES && 0 <= i < self.ready[q].len() && self.ready[q][i] == id
    }

    /// Put a thread at the end of its queue.
    pub open spec fn enqueue(self, id: int) -> SchedView {
        let q = Self::qi(self.threads[id].hart as int, self.eff_prio(id) as int);
        SchedView {
            ready: self.ready.update(q, self.ready[q].push(id as usize)),
            threads: self.threads.update(
                id,
                ThreadView { state: ThreadState::Ready, ..self.threads[id] },
            ),
            ..self
        }
    }

    /// The thread in a queue can be switched to: by the timer, or by a thread that gives way.
    pub open spec fn eligible(self, id: usize, need_ctx: bool) -> bool {
        if need_ctx {
            self.threads[id as int].resumable()
        } else {
            self.threads[id as int].preemptable()
        }
    }

    /// Position of the first thread from `i` on that can be switched to; the length of the queue
    /// when there is none.
    pub open spec fn first_from(self, q: Seq<usize>, need_ctx: bool, i: int) -> int
        decreases q.len() - i,
    {
        if i >= q.len() {
            q.len() as int
        } else if self.eligible(q[i], need_ctx) {
            i
        } else {
            self.first_from(q, need_ctx, i + 1)
        }
    }

    /// Position of the first thread of a queue that can be switched to.
    pub open spec fn first(self, h: int, level: int, need_ctx: bool) -> int {
        self.first_from(self.ready[Self::qi(h, level)], need_ctx, 0)
    }

    /// A level has a thread that can be switched to.
    pub open spec fn has(self, h: int, level: int, need_ctx: bool) -> bool {
        self.first(h, level, need_ctx) < self.ready[Self::qi(h, level)].len()
    }

    /// The best level of a core that has a thread to switch to.
    pub open spec fn best_level(self, h: int, need_ctx: bool) -> Option<int> {
        if self.has(h, 0, need_ctx) {
            Some(0)
        } else if self.has(h, 1, need_ctx) {
            Some(1)
        } else if self.has(h, 2, need_ctx) {
            Some(2)
        } else {
            None
        }
    }

    /// The thread that the core runs next.
    pub open spec fn next(self, h: int, need_ctx: bool) -> usize {
        match self.best_level(h, need_ctx) {
            Some(l) => self.ready[Self::qi(h, l)][self.first(h, l, need_ctx)],
            None => if self.threads[self.current[h] as int].state == ThreadState::Running {
                self.current[h]
            } else {
                self.idle[h]
            },
        }
    }

    /// That thread is taken out of its queue and runs; those before it go to the end.
    pub open spec fn picked(self, h: int, need_ctx: bool) -> SchedView {
        match self.best_level(h, need_ctx) {
            Some(l) => {
                let q = self.ready[Self::qi(h, l)];
                let k = self.first(h, l, need_ctx);
                let id = q[k] as int;
                SchedView {
                    ready: self.ready.update(
                        Self::qi(h, l),
                        q.subrange(k + 1, q.len() as int) + q.subrange(0, k),
                    ),
                    threads: self.threads.update(
                        id,
                        ThreadView { state: ThreadState::Running, ..self.threads[id] },
                    ),
                    ..self
                }
            },
            None => self,
        }
    }

    /// The core runs what comes next, for a full time slice.
    pub open spec fn switched(self, h: int, need_ctx: bool) -> SchedView {
        let v = SchedView { ticks_run: self.ticks_run.update(h, 0), ..self };
        let w = v.picked(h, need_ctx);
        SchedView { current: w.current.update(h, v.next(h, need_ctx)), ..w }
    }
}

impl SchedView {
    /// Sizes, and what every thread keeps.
    pub open spec fn shape_ok(self) -> bool {
        &&& MAX_HARTS <= self.threads.len() <= MAX_THREADS
        &&& self.ready.len() == QUEUES
        &&& self.current.len() == MAX_HARTS
        &&& self.idle.len() == MAX_HARTS
        &&& self.ticks_run.len() == MAX_HARTS
        &&& forall|i: int| 0 <= i < self.threads.len() ==> (#[trigger] self.threads[i]).ok()
        &&& forall|h: int| 0 <= h < MAX_HARTS ==> #[trigger] self.idle[h] == h
    }

    /// An entry of queue `q` is a thread of that core that is ready and can be resumed.
    pub open spec fn entry_ok(self, q: int, id: usize) -> bool {
        &&& id < self.threads.len()
        &&& self.threads[id as int].state == ThreadState::Ready
        &&& self.threads[id as int].resumable()
        &&& 3 * self.threads[id as int].hart <= q < 3 * self.threads[id as int].hart + 3
    }

    /// Threads that are ready stand in one queue each, but for those of `loose`, which stand in
    /// none.
    #[verifier::opaque]
    pub open spec fn queues_ok(self, loose: Set<usize>) -> bool {
        &&& forall|q: int, i: int|
            #![trigger self.ready[q][i]]
            0 <= q < QUEUES && 0 <= i < self.ready[q].len() ==> self.entry_ok(q, self.ready[q][i])
                && !loose.contains(self.ready[q][i])
        &&& forall|q: int, i: int, r: int, j: int|
            #![trigger self.ready[q][i], self.ready[r][j]]
            0 <= q < QUEUES && 0 <= i < self.ready[q].len() && 0 <= r < QUEUES && 0 <= j
                < self.ready[r].len() && self.ready[q][i] == self.ready[r][j] ==> q == r && i == j
        &&& forall|id: usize|
            id < self.threads.len() && (#[trigger] self.threads[id as int]).state
                == ThreadState::Ready ==> self.queued(id) || loose.contains(id)
    }

    /// Every core but `x` runs a thread of its own.
    pub open spec fn current_ok(self, x: int) -> bool {
        forall|h: int|
            0 <= h < MAX_HARTS && h != x ==> (#[trigger] self.current[h]) < self.threads.len()
                && self.threads[self.current[h] as int].state == ThreadState::Running
                && self.threads[self.current[h] as int].hart == h
    }

    /// What the state of a thread says of it.
    pub open spec fn states_ok(self) -> bool {
        &&& forall|i: int|
            0 <= i < self.threads.len() ==> match (#[trigger] self.threads[i]).state {
                ThreadState::Ready => true,
                ThreadState::Running => i < MAX_HARTS || i
                    == self.current[self.threads[i].hart as int],
                ThreadState::Blocked => self.threads[i].resumable() && i >= MAX_HARTS,
                ThreadState::Exited => self.free_slots.contains(i as usize) && i >= MAX_HARTS,
            }
        &&& forall|i: int|
            0 <= i < MAX_HARTS ==> (#[trigger] self.threads[i]).hart == i && self.threads[i].proc_id
                is None
    }

    /// Entries to use again belong to threads that are gone.
    pub open spec fn free_ok(self) -> bool {
        &&& forall|k: int|
            0 <= k < self.free_slots.len() ==> (#[trigger] self.free_slots[k])
                < self.threads.len() && self.threads[self.free_slots[k] as int].state
                == ThreadState::Exited
        &&& forall|k: int, j: int|
            0 <= k < j < self.free_slots.len() ==> #[trigger] self.free_slots[k]
                != #[trigger] self.free_slots[j]
    }

    /// A thread donates to one process at most.
    pub open spec fn donations_ok(self) -> bool {
        &&& forall|k: int|
            0 <= k < self.donations.len() ==> (#[trigger] self.donations[k]).donor_tid
                < self.threads.len() && self.donations[k].prio < PRIO_LEVELS
        &&& forall|k: int, j: int|
            #![trigger self.donations[k], self.donations[j]]
            0 <= k < j < self.donations.len() ==> self.donations[k].donor_tid
                != self.donations[j].donor_tid
    }

    /// What holds between operations.
    pub open spec fn wf(self) -> bool {
        &&& self.shape_ok()
        &&& self.queues_ok(Set::empty())
        &&& self.current_ok(-1)
        &&& self.states_ok()
        &&& self.free_ok()
        &&& self.donations_ok()
    }

    /// What holds while core `h` changes what it runs.
    pub open spec fn wf_at(self, h: int) -> bool {
        &&& self.shape_ok()
        &&& self.queues_ok(Set::empty())
        &&& self.current_ok(h)
        &&& 0 <= self.current[h] < self.threads.len()
        &&& self.states_ok()
        &&& self.free_ok()
        &&& self.donations_ok()
    }

    pub proof fn lemma_eff_prio(self, id: int)
        requires
            self.shape_ok(),
            0 <= id < self.threads.len(),
        ensures
            self.eff_prio(id) <= self.threads[id].prio,
            self.eff_prio(id) < PRIO_LEVELS,
            0 <= Self::qi(self.threads[id].hart as int, self.eff_prio(id) as int) < QUEUES,
    {
        assert(self.threads[id].ok());
        if self.threads[id].proc_id is Some {
            law_boosted_is_best(self.donations, self.threads[id].proc_id->0, self.threads[id].prio);
        }
    }

    /// A thread in a queue is ready.
    pub proof fn lemma_queued(self, loose: Set<usize>, id: usize)
        requires
            self.queues_ok(loose),
            self.queued(id),
        ensures
            id < self.threads.len(),
            self.threads[id as int].state == ThreadState::Ready,
            self.threads[id as int].resumable(),
            !loose.contains(id),
    {
        reveal(SchedView::queues_ok);
        let (q, i) = choose|q: int, i: int|
            #![trigger self.ready[q][i]]
            0 <= q < QUEUES && 0 <= i < self.ready[q].len() && self.ready[q][i] == id;
        assert(self.entry_ok(q, self.ready[q][i]));
    }

    /// Putting a thread into its queue.
    pub proof fn lemma_enqueue(self, loose: Set<usize>, id: usize)
        requires
            self.shape_ok(),
            self.queues_ok(loose),
            id < self.threads.len(),
            self.threads[id as int].resumable(),
            self.threads[id as int].state != ThreadState::Ready || loose.contains(id),
            !self.queued(id),
        ensures
            self.enqueue(id as int).shape_ok(),
            self.enqueue(id as int).queues_ok(loose.remove(id)),
            forall|x: usize| #[trigger]
                self.enqueue(id as int).queued(x) <==> self.queued(x) || x == id,
    {
        reveal(SchedView::queues_ok);
        self.lemma_eff_prio(id as int);
        let v = self.enqueue(id as int);
        let q0 = Self::qi(self.threads[id as int].hart as int, self.eff_prio(id as int) as int);
        let n = self.ready[q0].len() as int;
        assert forall|i: int| 0 <= i < v.threads.len() implies (#[trigger] v.threads[i]).ok() by {
            assert(self.threads[i].ok());
        }
        assert forall|q: int, i: int|
            #![trigger v.ready[q][i]]
            0 <= q < QUEUES && 0 <= i < v.ready[q].len() implies v.entry_ok(q, v.ready[q][i])
            && !loose.remove(id).contains(v.ready[q][i]) && (v.ready[q][i] == id <==> q == q0 && i
            == n) by {
            if q == q0 && i == n {
            } else {
                let x = self.ready[q][i];
                assert(self.entry_ok(q, x));
                assert(self.queued(x));
            }
        }
        assert forall|q: int, i: int, r: int, j: int|
            #![trigger v.ready[q][i], v.ready[r][j]]
            0 <= q < QUEUES && 0 <= i < v.ready[q].len() && 0 <= r < QUEUES && 0 <= j
                < v.ready[r].len() && v.ready[q][i] == v.ready[r][j] implies q == r && i == j by {
            if v.ready[q][i] != id {
                let x = self.ready[q][i];
                let y = self.ready[r][j];
            }
        }
        assert forall|x: usize| #[trigger] v.queued(x) <==> self.queued(x) || x == id by {
            if v.queued(x) {
                let (q, i) = choose|q: int, i: int|
                    #![trigger v.ready[q][i]]
                    0 <= q < QUEUES && 0 <= i < v.ready[q].len() && v.ready[q][i] == x;
                if x != id {
                    assert(self.ready[q][i] == x);
                }
            }
            if self.queued(x) {
                let (q, i) = choose|q: int, i: int|
                    #![trigger self.ready[q][i]]
                    0 <= q < QUEUES && 0 <= i < self.ready[q].len() && self.ready[q][i] == x;
                assert(v.ready[q][i] == x);
            }
            if x == id {
                assert(v.ready[q0][n] == id);
            }
        }
        assert forall|x: usize|
            x < v.threads.len() && (#[trigger] v.threads[x as int]).state
                == ThreadState::Ready implies v.queued(x) || loose.remove(id).contains(x) by {
            if x != id {
                let t = self.threads[x as int];
            }
        }
    }

    /// What `first_from` finds.
    pub proof fn lemma_first(self, q: Seq<usize>, need_ctx: bool, i: int)
        requires
            0 <= i <= q.len(),
        ensures
            i <= self.first_from(q, need_ctx, i) <= q.len(),
            self.first_from(q, need_ctx, i) < q.len() ==> self.eligible(
                q[self.first_from(q, need_ctx, i)],
                need_ctx,
            ),
            forall|j: int|
                i <= j < self.first_from(q, need_ctx, i) ==> !self.eligible(
                    #[trigger] q[j],
                    need_ctx,
                ),
        decreases q.len() - i,
    {
        if i < q.len() && !self.eligible(q[i], need_ctx) {
            self.lemma_first(q, need_ctx, i + 1);
        }
    }

    /// Taking a thread out of its queue to run it.
    pub proof fn lemma_picked(self, h: int, need_ctx: bool)
        requires
            0 <= h < MAX_HARTS,
            self.shape_ok(),
            self.queues_ok(Set::empty()),
            self.states_ok(),
            0 <= self.current[h] < self.threads.len(),
        ensures
            self.picked(h, need_ctx).shape_ok(),
            self.picked(h, need_ctx).queues_ok(Set::empty()),
            self.next(h, need_ctx) < self.threads.len(),
            self.best_level(h, need_ctx) is Some ==> {
                let id = self.next(h, need_ctx);
                &&& self.queued(id)
                &&& self.threads[id as int].hart == h
                &&& self.threads[id as int].state == ThreadState::Ready
                &&& self.eligible(id, need_ctx)
                &&& self.picked(h, need_ctx).threads == self.threads.update(
                    id as int,
                    ThreadView { state: ThreadState::Running, ..self.threads[id as int] },
                )
            },
            self.best_level(h, need_ctx) is None ==> self.picked(h, need_ctx) == self,
    {
        match self.best_level(h, need_ctx) {
            Some(l) => {
                let q0 = Self::qi(h, l);
                let q = self.ready[q0];
                self.lemma_first(q, need_ctx, 0);
                let k = self.first(h, l, need_ctx);
                let id = q[k];
                let v = self.picked(h, need_ctx);
                reveal(SchedView::queues_ok);
                assert(self.ready[q0][k] == id);
                assert(self.entry_ok(q0, id));
                assert(self.queued(id));
                let w = v.ready[q0];
                assert forall|i: int| 0 <= i < v.threads.len() implies (#[trigger] v.threads[i]).ok() by {
                    assert(self.threads[i].ok());
                }
                // Where an entry of the new queue was before.
                assert forall|i: int| 0 <= i < w.len() implies #[trigger] w[i] == (if i < q.len() - k
                    - 1 {
                    q[i + k + 1]
                } else {
                    q[i - (q.len() - k - 1)]
                }) by {}
                assert forall|r: int, i: int|
                    #![trigger v.ready[r][i]]
                    0 <= r < QUEUES && 0 <= i < v.ready[r].len() implies v.entry_ok(
                    r,
                    v.ready[r][i],
                ) && v.ready[r][i] != id by {
                    if r == q0 {
                        let i2 = if i < q.len() - k - 1 {
                            i + k + 1
                        } else {
                            i - (q.len() - k - 1)
                        };
                        assert(w[i] == self.ready[q0][i2]);
                        assert(self.entry_ok(q0, self.ready[q0][i2]));
                    } else {
                        assert(self.entry_ok(r, self.ready[r][i]));
                    }
                }
                assert forall|r: int, i: int, s: int, j: int|
                    #![trigger v.ready[r][i], v.ready[s][j]]
                    0 <= r < QUEUES && 0 <= i < v.ready[r].len() && 0 <= s < QUEUES && 0 <= j
                        < v.ready[s].len() && v.ready[r][i] == v.ready[s][j] implies r == s && i
                    == j by {
                    let i2 = if r != q0 {
                        i
                    } else if i < q.len() - k - 1 {
                        i + k + 1
                    } else {
                        i - (q.len() - k - 1)
                    };
                    let j2 = if s != q0 {
                        j
                    } else if j < q.len() - k - 1 {
                        j + k + 1
                    } else {
                        j - (q.len() - k - 1)
                    };
                    assert(v.ready[r][i] == self.ready[r][i2]);
                    assert(v.ready[s][j] == self.ready[s][j2]);
                }
                assert forall|x: usize|
                    x < v.threads.len() && (#[trigger] v.threads[x as int]).state
                        == ThreadState::Ready implies v.queued(x) by {
                    let t = self.threads[x as int];
                    assert(self.queued(x));
                    let (r, i) = choose|r: int, i: int|
                        #![trigger self.ready[r][i]]
                        0 <= r < QUEUES && 0 <= i < self.ready[r].len() && self.ready[r][i] == x;
                    if r == q0 {
                        if i > k {
                            assert(v.ready[q0][i - k - 1] == x);
                        } else {
                            assert(i < k);
                            assert(v.ready[q0][i + (q.len() - k - 1)] == x);
                        }
                    } else {
                        assert(v.ready[r][i] == x);
                    }
                }
            },
            None => {},
        }
    }

    /// Changing what a core runs, when the thread that it ran gave way: it is ready again, or it
    /// is blocked or gone.
    pub proof fn lemma_switched(self, h: int)
        requires
            0 <= h < MAX_HARTS,
            self.wf_at(h),
            self.threads[self.current[h] as int].hart == h,
            self.threads[self.current[h] as int].state != ThreadState::Running || self.current[h]
                < MAX_HARTS,
        ensures
            self.switched(h, true).wf(),
    {
        let v = SchedView { ticks_run: self.ticks_run.update(h, 0), ..self };
        assert(v.queues_ok(Set::empty())) by {
            reveal(SchedView::queues_ok);
            assert forall|q: int, i: int|
                #![trigger v.ready[q][i]]
                0 <= q < QUEUES && 0 <= i < v.ready[q].len() implies v.entry_ok(q, v.ready[q][i]) by {
                assert(self.entry_ok(q, self.ready[q][i]));
            }
            assert forall|x: usize|
                x < v.threads.len() && (#[trigger] v.threads[x as int]).state
                    == ThreadState::Ready implies v.queued(x) by {
                let t = self.threads[x as int];
                let (r, i) = choose|r: int, i: int|
                    #![trigger self.ready[r][i]]
                    0 <= r < QUEUES && 0 <= i < self.ready[r].len() && self.ready[r][i] == x;
                assert(v.ready[r][i] == x);
            }
        }
        v.lemma_picked(h, true);
        let w = v.picked(h, true);
        let n = v.next(h, true);
        let z = self.switched(h, true);
        if v.best_level(h, true) is None {
            v.lemma_nothing_eligible(h, true);
            if v.threads[v.current[h] as int].state != ThreadState::Running {
                // The idle thread of the core is not in a queue, so it runs.
                let t = v.threads[h];
                assert(v.idle[h] == h);
                if t.state == ThreadState::Ready {
                    reveal(SchedView::queues_ok);
                    assert(v.queued(h as usize));
                    let (r, i) = choose|r: int, i: int|
                        #![trigger v.ready[r][i]]
                        0 <= r < QUEUES && 0 <= i < v.ready[r].len() && v.ready[r][i] == h as usize;
                    assert(v.entry_ok(r, v.ready[r][i]));
                    assert(false);
                }
            }
        }
        assert(w.threads[n as int].state == ThreadState::Running && w.threads[n as int].hart == h);
        assert(z.queues_ok(Set::empty())) by {
            reveal(SchedView::queues_ok);
            assert forall|q: int, i: int|
                #![trigger z.ready[q][i]]
                0 <= q < QUEUES && 0 <= i < z.ready[q].len() implies z.entry_ok(q, z.ready[q][i]) by {
                assert(w.entry_ok(q, w.ready[q][i]));
            }
            assert forall|x: usize|
                x < z.threads.len() && (#[trigger] z.threads[x as int]).state
                    == ThreadState::Ready implies z.queued(x) by {
                let t = w.threads[x as int];
                let (r, i) = choose|r: int, i: int|
                    #![trigger w.ready[r][i]]
                    0 <= r < QUEUES && 0 <= i < w.ready[r].len() && w.ready[r][i] == x;
                assert(z.ready[r][i] == x);
            }
        }
        assert forall|g: int| 0 <= g < MAX_HARTS implies (#[trigger] z.current[g]) < z.threads.len()
            && z.threads[z.current[g] as int].state == ThreadState::Running
            && z.threads[z.current[g] as int].hart == g by {
            if g != h {
                let c = self.current[g];
            }
        }
        assert forall|i: int| 0 <= i < z.threads.len() implies match (#[trigger] z.threads[i]).state {
            ThreadState::Ready => true,
            ThreadState::Running => i < MAX_HARTS || i == z.current[z.threads[i].hart as int],
            ThreadState::Blocked => z.threads[i].resumable() && i >= MAX_HARTS,
            ThreadState::Exited => z.free_slots.contains(i as usize) && i >= MAX_HARTS,
        } by {
            let t = self.threads[i];
            assert(t.ok());
            if i != n && t.state == ThreadState::Running && i >= MAX_HARTS && t.hart == h {
                // It was what the core ran, and nothing else was to be run.
                assert(i == self.current[h]);
            }
        }
        assert forall|i: int| 0 <= i < MAX_HARTS implies (#[trigger] z.threads[i]).hart == i
            && z.threads[i].proc_id is None by {
            let t = self.threads[i];
        }
        assert forall|k: int| 0 <= k < z.free_slots.len() implies (#[trigger] z.free_slots[k])
            < z.threads.len() && z.threads[z.free_slots[k] as int].state == ThreadState::Exited by {
            let x = self.free_slots[k];
        }
    }

    /// No thread of a core can be switched to.
    pub proof fn lemma_nothing_eligible(self, h: int, need_ctx: bool)
        requires
            0 <= h < MAX_HARTS,
            self.best_level(h, need_ctx) is None,
        ensures
            forall|l: int, i: int|
                #![trigger self.ready[Self::qi(h, l)][i]]
                0 <= l < PRIO_LEVELS && 0 <= i < self.ready[Self::qi(h, l)].len()
                    ==> !self.eligible(self.ready[Self::qi(h, l)][i], need_ctx),
            forall|q: int, i: int|
                #![trigger self.ready[q][i]]
                3 * h <= q < 3 * h + 3 && 0 <= i < self.ready[q].len() ==> !self.eligible(
                    self.ready[q][i],
                    need_ctx,
                ),
    {
        self.lemma_first(self.ready[Self::qi(h, 0)], need_ctx, 0);
        self.lemma_first(self.ready[Self::qi(h, 1)], need_ctx, 0);
        self.lemma_first(self.ready[Self::qi(h, 2)], need_ctx, 0);
        assert forall|q: int, i: int|
            #![trigger self.ready[q][i]]
            3 * h <= q < 3 * h + 3 && 0 <= i < self.ready[q].len() implies !self.eligible(
            self.ready[q][i],
            need_ctx,
        ) by {
            if q == Self::qi(h, 0) {
            } else if q == Self::qi(h, 1) {
            } else {
                assert(q == Self::qi(h, 2));
            }
        }
    }
}

/// What a filter keeps.
pub proof fn lemma_filter(s: Seq<usize>, p: spec_fn(usize) -> bool)
    ensures
        forall|x: usize| #[trigger] s.filter(p).contains(x) <==> s.contains(x) && p(x),
        s.no_duplicates() ==> s.filter(p).no_duplicates(),
        s.filter(p).len() <= s.len(),
    decreases s.len(),
{
    reveal(Seq::filter);
    if s.len() > 0 {
        let t = s.drop_last();
        lemma_filter(t, p);
        let f = t.filter(p);
        let g = s.filter(p);
        assert forall|x: usize| #[trigger] g.contains(x) <==> s.contains(x) && p(x) by {
            if g.contains(x) {
                let i = choose|i: int| 0 <= i < g.len() && g[i] == x;
                if i < f.len() {
                    assert(f[i] == x);
                    assert(f.contains(x));
                    let j = choose|j: int| 0 <= j < t.len() && t[j] == x;
                    assert(s[j] == x);
                } else {
                    assert(s[s.len() - 1] == x);
                }
            }
            if s.contains(x) && p(x) {
                let j = choose|j: int| 0 <= j < s.len() && s[j] == x;
                if j < t.len() {
                    assert(t[j] == x);
                    assert(f.contains(x));
                    let i = choose|i: int| 0 <= i < f.len() && f[i] == x;
                    assert(g[i] == x);
                } else {
                    assert(g[g.len() - 1] == x);
                }
            }
        }
        if s.no_duplicates() {
            assert(t.no_duplicates()) by {
                assert forall|i: int, j: int| 0 <= i < t.len() && 0 <= j < t.len() && i
                    != j implies t[i] != t[j] by {
                    assert(s[i] != s[j]);
                }
            }
            assert forall|i: int, j: int| 0 <= i < g.len() && 0 <= j < g.len() && i != j implies g[i]
                != g[j] by {
                if i < f.len() && j < f.len() {
                    assert(f[i] != f[j]);
                } else {
                    let k = if i < f.len() {
                        i
                    } else {
                        j
                    };
                    assert(f.contains(f[k]));
                    let m = choose|m: int| 0 <= m < t.len() && t[m] == f[k];
                    assert(s[m] != s[s.len() - 1]);
                }
            }
        }
    }
}

impl SchedView {
    /// The thread belongs to the process.
    pub open spec fn owned(self, proc_id: usize, id: usize) -> bool {
        self.threads[id as int].proc_id == Some(proc_id)
    }

    /// Without the threads of a process in the queues.
    pub open spec fn stripped(self, proc_id: usize) -> SchedView {
        SchedView {
            ready: Seq::new(
                QUEUES as nat,
                |q: int| self.ready[q].filter(|id: usize| !self.owned(proc_id, id)),
            ),
            ..self
        }
    }

    /// The threads of a process in the first `n` queues, in order.
    pub open spec fn collected(self, proc_id: usize, n: int) -> Seq<usize>
        decreases n,
    {
        if n <= 0 {
            Seq::empty()
        } else {
            self.collected(proc_id, n - 1) + self.ready[n - 1].filter(
                |id: usize| self.owned(proc_id, id),
            )
        }
    }

    /// Put threads into their queues, one after the other.
    pub open spec fn enqueue_all(self, ids: Seq<usize>) -> SchedView
        decreases ids.len(),
    {
        if ids.len() == 0 {
            self
        } else {
            self.enqueue_all(ids.drop_last()).enqueue(ids.last() as int)
        }
    }

    /// Put the threads of a process that are ready into the queues of their priority as it is
    /// now.
    pub open spec fn requeued(self, proc_id: usize) -> SchedView {
        self.stripped(proc_id).enqueue_all(self.collected(proc_id, QUEUES as int))
    }

    /// The same for several processes, one after the other.
    pub open spec fn requeued_all(self, procs: Seq<usize>) -> SchedView
        decreases procs.len(),
    {
        if procs.len() == 0 {
            self
        } else {
            self.requeued_all(procs.drop_last()).requeued(procs.last())
        }
    }

    /// The queues hold every thread once.
    pub proof fn lemma_once(self, loose: Set<usize>, q: int, r: int, x: usize)
        requires
            self.queues_ok(loose),
            0 <= q < QUEUES,
            0 <= r < QUEUES,
            self.ready[q].contains(x),
            self.ready[r].contains(x),
        ensures
            q == r,
            self.ready[q].no_duplicates(),
            self.entry_ok(q, x),
            self.queued(x),
            !loose.contains(x),
    {
        reveal(SchedView::queues_ok);
        let i = choose|i: int| 0 <= i < self.ready[q].len() && self.ready[q][i] == x;
        let j = choose|j: int| 0 <= j < self.ready[r].len() && self.ready[r][j] == x;
        assert(self.ready[q][i] == self.ready[r][j]);
        assert(self.ready[q].no_duplicates()) by {
            assert forall|a: int, b: int| 0 <= a < self.ready[q].len() && 0 <= b < self.ready[q].len()
                && a != b implies self.ready[q][a] != self.ready[q][b] by {}
        }
    }

    proof fn lemma_no_duplicates(self, loose: Set<usize>, q: int)
        requires
            self.queues_ok(loose),
            0 <= q < QUEUES,
        ensures
            self.ready[q].no_duplicates(),
    {
        reveal(SchedView::queues_ok);
        assert forall|a: int, b: int| 0 <= a < self.ready[q].len() && 0 <= b < self.ready[q].len()
            && a != b implies self.ready[q][a] != self.ready[q][b] by {}
    }

    /// What is collected: every queued thread of the process, once.
    pub proof fn lemma_collected(self, loose: Set<usize>, proc_id: usize, n: int)
        requires
            self.queues_ok(loose),
            0 <= n <= QUEUES,
        ensures
            self.collected(proc_id, n).no_duplicates(),
            forall|x: usize| #[trigger]
                self.collected(proc_id, n).contains(x) <==> self.owned(proc_id, x) && exists|q: int|
                    0 <= q < n && (#[trigger] self.ready[q]).contains(x),
        decreases n,
    {
        if n > 0 {
            self.lemma_collected(loose, proc_id, n - 1);
            let a = self.collected(proc_id, n - 1);
            let p = |id: usize| self.owned(proc_id, id);
            let b = self.ready[n - 1].filter(p);
            lemma_filter(self.ready[n - 1], p);
            self.lemma_no_duplicates(loose, n - 1);
            let c = self.collected(proc_id, n);
            assert(c == a + b);
            assert forall|x: usize| #[trigger] c.contains(x) <==> self.owned(proc_id, x) && exists|
                q: int,
            | 0 <= q < n && (#[trigger] self.ready[q]).contains(x) by {
                if c.contains(x) {
                    let i = choose|i: int| 0 <= i < c.len() && c[i] == x;
                    if i < a.len() {
                        assert(a[i] == x);
                        assert(a.contains(x));
                        let q = choose|q: int| 0 <= q < n - 1 && (#[trigger] self.ready[q]).contains(x);
                        assert(self.ready[q].contains(x));
                    } else {
                        assert(b[i - a.len()] == x);
                        assert(b.contains(x));
                        assert(self.ready[n - 1].contains(x));
                    }
                }
                if self.owned(proc_id, x) && exists|q: int|
                    0 <= q < n && (#[trigger] self.ready[q]).contains(x) {
                    let q = choose|q: int| 0 <= q < n && (#[trigger] self.ready[q]).contains(x);
                    if q < n - 1 {
                        assert(a.contains(x));
                        let i = choose|i: int| 0 <= i < a.len() && a[i] == x;
                        assert(c[i] == x);
                    } else {
                        assert(b.contains(x));
                        let i = choose|i: int| 0 <= i < b.len() && b[i] == x;
                        assert(c[a.len() + i] == x);
                    }
                }
            }
            assert forall|i: int, j: int| 0 <= i < c.len() && 0 <= j < c.len() && i != j implies c[i]
                != c[j] by {
                if c[i] == c[j] {
                    if i < a.len() && j < a.len() {
                        assert(a[i] != a[j]);
                    } else if i >= a.len() && j >= a.len() {
                        assert(b[i - a.len()] != b[j - a.len()]);
                    } else {
                        let x = c[i];
                        assert(a.contains(x)) by {
                            if i < a.len() {
                                assert(a[i] == x);
                            } else {
                                assert(a[j] == x);
                            }
                        }
                        assert(b.contains(x)) by {
                            if i < a.len() {
                                assert(b[j - a.len()] == x);
                            } else {
                                assert(b[i - a.len()] == x);
                            }
                        }
                        let q = choose|q: int| 0 <= q < n - 1 && (#[trigger] self.ready[q]).contains(x);
                        assert(self.ready[n - 1].contains(x));
                        self.lemma_once(loose, q, n - 1, x);
                    }
                }
            }
        }
    }

    /// The threads that are taken out of the queues stand in none.
    pub proof fn lemma_stripped(self, proc_id: usize)
        requires
            self.shape_ok(),
            self.queues_ok(Set::empty()),
        ensures
            self.stripped(proc_id).shape_ok(),
            self.stripped(proc_id).queues_ok(
                self.collected(proc_id, QUEUES as int).to_set(),
            ),
    {
        let v = self.stripped(proc_id);
        let p = |id: usize| !self.owned(proc_id, id);
        let c = self.collected(proc_id, QUEUES as int);
        let loose = c.to_set();
        self.lemma_collected(Set::empty(), proc_id, QUEUES as int);
        assert forall|q: int| 0 <= q < QUEUES implies #[trigger] v.ready[q] == self.ready[q].filter(p) by {}
        assert forall|q: int, x: usize| 0 <= q < QUEUES implies (#[trigger] v.ready[q].contains(x)
            <==> self.ready[q].contains(x) && !self.owned(proc_id, x)) by {
            lemma_filter(self.ready[q], p);
            assert(v.ready[q] == self.ready[q].filter(p));
        }
        assert(v.queues_ok(loose)) by {
            assert forall|q: int, i: int|
                #![trigger v.ready[q][i]]
                0 <= q < QUEUES && 0 <= i < v.ready[q].len() implies v.entry_ok(q, v.ready[q][i])
                && !loose.contains(v.ready[q][i]) by {
                let x = v.ready[q][i];
                assert(v.ready[q].contains(x));
                assert(self.ready[q].contains(x));
                self.lemma_once(Set::empty(), q, q, x);
                assert(!c.contains(x));
            }
            assert forall|q: int, i: int, r: int, j: int|
                #![trigger v.ready[q][i], v.ready[r][j]]
                0 <= q < QUEUES && 0 <= i < v.ready[q].len() && 0 <= r < QUEUES && 0 <= j
                    < v.ready[r].len() && v.ready[q][i] == v.ready[r][j] implies q == r && i == j by {
                let x = v.ready[q][i];
                assert(v.ready[q].contains(x) && v.ready[r].contains(x));
                self.lemma_once(Set::empty(), q, r, x);
                lemma_filter(self.ready[q], p);
                assert(v.ready[q] == self.ready[q].filter(p));
            }
            assert forall|id: usize|
                id < v.threads.len() && (#[trigger] v.threads[id as int]).state
                    == ThreadState::Ready implies v.queued(id) || loose.contains(id) by {
                assert(self.queued(id)) by {
                    reveal(SchedView::queues_ok);
                    let t = self.threads[id as int];
                }
                let (q, i) = choose|q: int, i: int|
                    #![trigger self.ready[q][i]]
                    0 <= q < QUEUES && 0 <= i < self.ready[q].len() && self.ready[q][i] == id;
                assert(self.ready[q].contains(id));
                if self.owned(proc_id, id) {
                    assert(c.contains(id));
                } else {
                    assert(v.ready[q].contains(id));
                    let j = choose|j: int| 0 <= j < v.ready[q].len() && v.ready[q][j] == id;
                    assert(v.ready[q][j] == id);
                }
            }
            reveal(SchedView::queues_ok);
        }
        assert forall|i: int| 0 <= i < v.threads.len() implies (#[trigger] v.threads[i]).ok() by {
            assert(self.threads[i].ok());
        }
    }

    /// Putting loose threads back.
    proof fn lemma_enqueue_all(self, loose: Set<usize>, ids: Seq<usize>)
        requires
            self.shape_ok(),
            self.queues_ok(loose),
            ids.no_duplicates(),
            forall|k: int|
                0 <= k < ids.len() ==> loose.contains(#[trigger] ids[k]) && ids[k]
                    < self.threads.len() && self.threads[ids[k] as int].state == ThreadState::Ready
                    && self.threads[ids[k] as int].resumable() && !self.queued(ids[k]),
        ensures
            self.enqueue_all(ids).shape_ok(),
            self.enqueue_all(ids).queues_ok(loose.difference(ids.to_set())),
            self.enqueue_all(ids) == (SchedView {
                ready: self.enqueue_all(ids).ready,
                ..self
            }),
            forall|x: usize| #[trigger]
                self.enqueue_all(ids).queued(x) <==> self.queued(x) || ids.contains(x),
        decreases ids.len(),
    {
        if ids.len() == 0 {
            assert(loose.difference(ids.to_set()) =~= loose);
        } else {
            let a = ids.drop_last();
            let y = ids.last();
            assert(a.no_duplicates()) by {
                assert forall|i: int, j: int| 0 <= i < a.len() && 0 <= j < a.len() && i
                    != j implies a[i] != a[j] by {
                    assert(ids[i] != ids[j]);
                }
            }
            assert forall|k: int| 0 <= k < a.len() implies loose.contains(#[trigger] a[k]) && a[k]
                < self.threads.len() && self.threads[a[k] as int].state == ThreadState::Ready
                && self.threads[a[k] as int].resumable() && !self.queued(a[k]) by {
                assert(a[k] == ids[k]);
            }
            self.lemma_enqueue_all(loose, a);
            let v = self.enqueue_all(a);
            assert(ids[ids.len() - 1] == y);
            assert(!a.contains(y)) by {
                if a.contains(y) {
                    let i = choose|i: int| 0 <= i < a.len() && a[i] == y;
                    assert(ids[i] != ids[ids.len() - 1]);
                }
            }
            assert(!v.queued(y));
            v.lemma_enqueue(loose.difference(a.to_set()), y);
            let w = v.enqueue(y as int);
            assert(w == self.enqueue_all(ids));
            assert(w.threads =~= self.threads);
            assert(loose.difference(a.to_set()).remove(y) =~= loose.difference(ids.to_set())) by {
                assert forall|x: usize| #[trigger] ids.contains(x) <==> a.contains(x) || x == y by {
                    if ids.contains(x) {
                        let i = choose|i: int| 0 <= i < ids.len() && ids[i] == x;
                        if i < a.len() {
                            assert(a[i] == x);
                        }
                    }
                    if a.contains(x) {
                        let i = choose|i: int| 0 <= i < a.len() && a[i] == x;
                        assert(ids[i] == x);
                    }
                }
            }
            assert forall|x: usize| #[trigger] w.queued(x) <==> self.queued(x) || ids.contains(x) by {
                assert(v.queued(x) <==> self.queued(x) || a.contains(x));
                if ids.contains(x) {
                    let i = choose|i: int| 0 <= i < ids.len() && ids[i] == x;
                    if i < a.len() {
                        assert(a[i] == x);
                    }
                }
                if a.contains(x) {
                    let i = choose|i: int| 0 <= i < a.len() && a[i] == x;
                    assert(ids[i] == x);
                }
            }
        }
    }

    /// Sorting the threads of a process anew changes the queues alone, and keeps them in order.
    pub proof fn lemma_requeued(self, proc_id: usize)
        requires
            self.shape_ok(),
            self.queues_ok(Set::empty()),
        ensures
            self.requeued(proc_id).shape_ok(),
            self.requeued(proc_id).queues_ok(Set::empty()),
            self.requeued(proc_id) == (SchedView { ready: self.requeued(proc_id).ready, ..self }),
            forall|x: usize| #[trigger] self.requeued(proc_id).queued(x) <==> self.queued(x),
    {
        let v = self.stripped(proc_id);
        let c = self.collected(proc_id, QUEUES as int);
        self.lemma_stripped(proc_id);
        self.lemma_collected(Set::empty(), proc_id, QUEUES as int);
        let p = |id: usize| !self.owned(proc_id, id);
        assert forall|q: int, x: usize| 0 <= q < QUEUES implies (#[trigger] v.ready[q].contains(x)
            <==> self.ready[q].contains(x) && !self.owned(proc_id, x)) by {
            lemma_filter(self.ready[q], p);
            assert(v.ready[q] == self.ready[q].filter(p));
        }
        assert forall|x: usize| #[trigger] v.queued(x) <==> self.queued(x) && !self.owned(
            proc_id,
            x,
        ) by {
            if v.queued(x) {
                let (q, i) = choose|q: int, i: int|
                    #![trigger v.ready[q][i]]
                    0 <= q < QUEUES && 0 <= i < v.ready[q].len() && v.ready[q][i] == x;
                assert(v.ready[q].contains(x));
                let j = choose|j: int| 0 <= j < self.ready[q].len() && self.ready[q][j] == x;
                assert(self.ready[q][j] == x);
            }
            if self.queued(x) && !self.owned(proc_id, x) {
                let (q, i) = choose|q: int, i: int|
                    #![trigger self.ready[q][i]]
                    0 <= q < QUEUES && 0 <= i < self.ready[q].len() && self.ready[q][i] == x;
                assert(self.ready[q].contains(x));
                assert(v.ready[q].contains(x));
                let j = choose|j: int| 0 <= j < v.ready[q].len() && v.ready[q][j] == x;
                assert(v.ready[q][j] == x);
            }
        }
        assert forall|k: int| 0 <= k < c.len() implies c.to_set().contains(#[trigger] c[k]) && c[k]
            < v.threads.len() && v.threads[c[k] as int].state == ThreadState::Ready
            && v.threads[c[k] as int].resumable() && !v.queued(c[k]) by {
            assert(c.contains(c[k]));
            let q = choose|q: int| 0 <= q < QUEUES && (#[trigger] self.ready[q]).contains(c[k]);
            self.lemma_once(Set::empty(), q, q, c[k]);
        }
        v.lemma_enqueue_all(c.to_set(), c);
        assert(c.to_set().difference(c.to_set()) =~= Set::<usize>::empty());
        assert forall|x: usize| #[trigger] self.requeued(proc_id).queued(x) <==> self.queued(x) by {
            assert(v.queued(x) <==> self.queued(x) && !self.owned(proc_id, x));
            if c.contains(x) {
                let q = choose|q: int| 0 <= q < QUEUES && (#[trigger] self.ready[q]).contains(x);
                self.lemma_once(Set::empty(), q, q, x);
            }
            if self.queued(x) && self.owned(proc_id, x) {
                let (q, i) = choose|q: int, i: int|
                    #![trigger self.ready[q][i]]
                    0 <= q < QUEUES && 0 <= i < self.ready[q].len() && self.ready[q][i] == x;
                assert(self.ready[q].contains(x));
            }
        }
    }

    pub proof fn lemma_requeued_all(self, procs: Seq<usize>)
        requires
            self.shape_ok(),
            self.queues_ok(Set::empty()),
        ensures
            self.requeued_all(procs).shape_ok(),
            self.requeued_all(procs).queues_ok(Set::empty()),
            self.requeued_all(procs) == (SchedView {
                ready: self.requeued_all(procs).ready,
                ..self
            }),
            forall|x: usize| #[trigger] self.requeued_all(procs).queued(x) <==> self.queued(x),
        decreases procs.len(),
    {
        if procs.len() > 0 {
            self.lemma_requeued_all(procs.drop_last());
            let v = self.requeued_all(procs.drop_last());
            v.lemma_requeued(procs.last());
            assert forall|x: usize| #[trigger] self.requeued_all(procs).queued(x) <==> self.queued(
                x,
            ) by {
                assert(v.queued(x) <==> self.queued(x));
            }
        }
    }
}

/// Position of the donation of a thread; the length when there is none.
pub open spec fn donor_at(d: Seq<Donation>, tid: usize, i: int) -> int
    decreases d.len() - i,
{
    if i >= d.len() {
        d.len() as int
    } else if d[i].donor_tid == tid {
        i
    } else {
        donor_at(d, tid, i + 1)
    }
}

pub proof fn lemma_donor_at(d: Seq<Donation>, tid: usize, i: int)
    requires
        0 <= i <= d.len(),
    ensures
        i <= donor_at(d, tid, i) <= d.len(),
        donor_at(d, tid, i) < d.len() ==> d[donor_at(d, tid, i)].donor_tid == tid,
        forall|k: int| i <= k < donor_at(d, tid, i) ==> (#[trigger] d[k]).donor_tid != tid,
    decreases d.len() - i,
{
    if i < d.len() && d[i].donor_tid != tid {
        lemma_donor_at(d, tid, i + 1);
    }
}

/// The processes that threads donate to, each once, in order.
pub open spec fn peers_of(d: Seq<Donation>, tids: Seq<usize>) -> Seq<usize>
    decreases d.len(),
{
    if d.len() == 0 {
        Seq::empty()
    } else {
        let r = peers_of(d.drop_last(), tids);
        if tids.contains(d.last().donor_tid) && !r.contains(d.last().peer_proc) {
            r.push(d.last().peer_proc)
        } else {
            r
        }
    }
}

/// The threads that donate to a process, in order.
pub open spec fn donors_to(d: Seq<Donation>, proc_id: usize) -> Seq<usize>
    decreases d.len(),
{
    if d.len() == 0 {
        Seq::empty()
    } else {
        let r = donors_to(d.drop_last(), proc_id);
        if d.last().peer_proc == proc_id {
            r.push(d.last().donor_tid)
        } else {
            r
        }
    }
}

/// Donations of other threads.
pub open spec fn not_from(d: Seq<Donation>, tids: Seq<usize>) -> Seq<Donation> {
    d.filter(|x: Donation| !tids.contains(x.donor_tid))
}

/// Donations to other processes.
pub open spec fn not_to(d: Seq<Donation>, proc_id: usize) -> Seq<Donation> {
    d.filter(|x: Donation| x.peer_proc != proc_id)
}

impl SchedView {
    /// A thread lends its priority to a process; what it lent before is forgotten.
    pub open spec fn donated(self, tid: usize, peer: usize) -> SchedView {
        let d = Donation { donor_tid: tid, peer_proc: peer, prio: self.eff_prio(tid as int) };
        let k = donor_at(self.donations, tid, 0);
        let all = if k < self.donations.len() {
            self.donations.update(k, d)
        } else {
            self.donations.push(d)
        };
        (SchedView { donations: all, ..self }).requeued(peer)
    }

    /// Threads take back what they lent; the processes that had it, but for `skip`, fall back.
    pub open spec fn undonated(self, tids: Seq<usize>, skip: Option<usize>) -> SchedView {
        (SchedView { donations: not_from(self.donations, tids), ..self }).requeued_all(
            peers_of(self.donations, tids).filter(|p: usize| Some(p) != skip),
        )
    }

    /// The processes of threads, but for `skip`.
    pub open spec fn procs_of(self, tids: Seq<usize>, skip: usize) -> Seq<usize>
        decreases tids.len(),
    {
        if tids.len() == 0 {
            Seq::empty()
        } else {
            let r = self.procs_of(tids.drop_last(), skip);
            match self.threads[tids.last() as int].proc_id {
                Some(p) => if p != skip {
                    r.push(p)
                } else {
                    r
                },
                None => r,
            }
        }
    }

    /// Nothing is lent to the process any more; the processes of those who lent are sorted anew.
    pub open spec fn undonated_to(self, proc_id: usize) -> SchedView {
        (SchedView { donations: not_to(self.donations, proc_id), ..self }).requeued_all(
            self.procs_of(donors_to(self.donations, proc_id), proc_id),
        )
    }
}

/// A filter takes one element after the other.
pub proof fn lemma_filter_step<T>(s: Seq<T>, p: spec_fn(T) -> bool, j: int)
    requires
        0 <= j < s.len(),
    ensures
        s.subrange(0, j + 1).filter(p) == (if p(s[j]) {
            s.subrange(0, j).filter(p).push(s[j])
        } else {
            s.subrange(0, j).filter(p)
        }),
        s.subrange(0, 0).filter(p) == Seq::<T>::empty(),
        s.subrange(0, s.len() as int) == s,
{
    reveal(Seq::filter);
    assert(s.subrange(0, j + 1).drop_last() =~= s.subrange(0, j));
    assert(s.subrange(0, s.len() as int) =~= s);
}

impl SchedView {
    pub proof fn lemma_enqueue_shape(self, id: int)
        requires
            self.shape_ok(),
            0 <= id < self.threads.len(),
        ensures
            self.enqueue(id).shape_ok(),
            self.enqueue(id).threads.len() == self.threads.len(),
    {
        let v = self.enqueue(id);
        self.lemma_eff_prio(id);
        assert forall|i: int| 0 <= i < v.threads.len() implies (#[trigger] v.threads[i]).ok() by {
            assert(self.threads[i].ok());
        }
    }
}

impl SchedView {
    /// Donations do not matter to the order of the queues.
    pub proof fn lemma_donations_only(self, v: SchedView)
        requires
            self.wf(),
            v == (SchedView { donations: v.donations, ..self }),
        ensures
            v.shape_ok(),
            v.queues_ok(Set::empty()),
            v.donations_ok() ==> v.wf(),
    {
        reveal(SchedView::queues_ok);
        assert forall|i: int| 0 <= i < v.threads.len() implies (#[trigger] v.threads[i]).ok() by {
            assert(self.threads[i].ok());
        }
        assert forall|q: int, i: int|
            #![trigger v.ready[q][i]]
            0 <= q < QUEUES && 0 <= i < v.ready[q].len() implies v.entry_ok(q, v.ready[q][i]) by {
            assert(self.entry_ok(q, self.ready[q][i]));
        }
        assert forall|id: usize|
            id < v.threads.len() && (#[trigger] v.threads[id as int]).state
                == ThreadState::Ready implies v.queued(id) by {
            let t = self.threads[id as int];
            let (q, i) = choose|q: int, i: int|
                #![trigger self.ready[q][i]]
                0 <= q < QUEUES && 0 <= i < self.ready[q].len() && self.ready[q][i] == id;
            assert(v.ready[q][i] == id);
        }
        if v.donations_ok() {
            self.lemma_rest(v);
        }
    }

    /// Only the queues changed, and they are in order.
    pub proof fn lemma_ready_only(self, v: SchedView)
        requires
            self.shape_ok(),
            self.current_ok(-1),
            self.states_ok(),
            self.free_ok(),
            self.donations_ok(),
            v == (SchedView { ready: v.ready, ..self }),
            v.shape_ok(),
            v.queues_ok(Set::empty()),
        ensures
            v.wf(),
    {
        self.lemma_rest(v);
        assert(v.donations_ok()) by {
            assert forall|k: int| 0 <= k < v.donations.len() implies (#[trigger] v.donations[k]).donor_tid
                < v.threads.len() && v.donations[k].prio < PRIO_LEVELS by {
                let x = self.donations[k];
            }
        }
    }

    /// The threads and what the cores run did not change.
    pub proof fn lemma_rest(self, v: SchedView)
        requires
            self.current_ok(-1),
            self.states_ok(),
            self.free_ok(),
            v.threads == self.threads,
            v.current == self.current,
            v.free_slots == self.free_slots,
        ensures
            v.current_ok(-1),
            v.states_ok(),
            v.free_ok(),
    {
        assert forall|h: int| 0 <= h < MAX_HARTS implies (#[trigger] v.current[h]) < v.threads.len()
            && v.threads[v.current[h] as int].state == ThreadState::Running
            && v.threads[v.current[h] as int].hart == h by {
            let x = self.current[h];
        }
        assert forall|i: int| 0 <= i < v.threads.len() implies match (#[trigger] v.threads[i]).state {
            ThreadState::Ready => true,
            ThreadState::Running => i < MAX_HARTS || i == v.current[v.threads[i].hart as int],
            ThreadState::Blocked => v.threads[i].resumable() && i >= MAX_HARTS,
            ThreadState::Exited => v.free_slots.contains(i as usize) && i >= MAX_HARTS,
        } by {
            let x = self.threads[i];
        }
        assert forall|k: int| 0 <= k < v.free_slots.len() implies (#[trigger] v.free_slots[k])
            < v.threads.len() && v.threads[v.free_slots[k] as int].state == ThreadState::Exited by {
            let x = self.free_slots[k];
        }
    }

    /// Taking donations away.
    pub proof fn lemma_fewer_donations(self, v: SchedView, keep: spec_fn(Donation) -> bool)
        requires
            self.wf(),
            v == (SchedView { donations: self.donations.filter(keep), ..self }),
        ensures
            v.wf(),
    {
        lemma_filter_donations(self.donations, keep);
        let d = v.donations;
        assert(v.donations_ok()) by {
            assert forall|k: int| 0 <= k < d.len() implies (#[trigger] d[k]).donor_tid
                < v.threads.len() && d[k].prio < PRIO_LEVELS by {
                assert(d.contains(d[k]));
                let j = choose|j: int| 0 <= j < self.donations.len() && self.donations[j] == d[k];
                let x = self.donations[j];
            }
        }
        self.lemma_donations_only(v);
    }
}

/// What a filter keeps of donations.
proof fn lemma_filter_donations(s: Seq<Donation>, p: spec_fn(Donation) -> bool)
    ensures
        forall|x: Donation| #[trigger] s.filter(p).contains(x) ==> s.contains(x),
        (forall|k: int, j: int|
            #![trigger s[k], s[j]]
            0 <= k < j < s.len() ==> s[k].donor_tid != s[j].donor_tid) ==> (forall|k: int, j: int|
            #![trigger s.filter(p)[k], s.filter(p)[j]]
            0 <= k < j < s.filter(p).len() ==> s.filter(p)[k].donor_tid != s.filter(
                p,
            )[j].donor_tid),
    decreases s.len(),
{
    reveal(Seq::filter);
    if s.len() > 0 {
        let t = s.drop_last();
        lemma_filter_donations(t, p);
        let f = t.filter(p);
        let g = s.filter(p);
        assert forall|x: Donation| #[trigger] g.contains(x) implies s.contains(x) by {
            let i = choose|i: int| 0 <= i < g.len() && g[i] == x;
            if i < f.len() {
                assert(f[i] == x);
                assert(f.contains(x));
                let j = choose|j: int| 0 <= j < t.len() && t[j] == x;
                assert(s[j] == x);
            } else {
                assert(s[s.len() - 1] == x);
            }
        }
        if forall|k: int, j: int|
            #![trigger s[k], s[j]]
            0 <= k < j < s.len() ==> s[k].donor_tid != s[j].donor_tid {
            assert forall|k: int, j: int|
                #![trigger t[k], t[j]]
                0 <= k < j < t.len() implies t[k].donor_tid != t[j].donor_tid by {
                assert(s[k].donor_tid != s[j].donor_tid);
            }
            assert forall|k: int, j: int|
                #![trigger g[k], g[j]]
                0 <= k < j < g.len() implies g[k].donor_tid != g[j].donor_tid by {
                if j < f.len() {
                    assert(f[k].donor_tid != f[j].donor_tid);
                } else {
                    assert(f[k] == g[k]);
                    assert(f.contains(f[k]));
                    let m = choose|m: int| 0 <= m < t.len() && t[m] == f[k];
                    assert(s[m].donor_tid != s[s.len() - 1].donor_tid);
                }
            }
        }
    }
}

/// Frame from which a thread that gave way can be resumed as if it had been interrupted.
pub open spec fn expanded(t: ThreadView, gp: u64) -> ThreadView {
    ThreadView {
        frame: Seq::new(
            TRAP_FRAME_WORDS as nat,
            |i: int|
                if i == FRAME_SEPC {
                    t.ctx.ra
                } else if i == FRAME_SSTATUS {
                    SSTATUS_KERNEL
                } else if i == X_SP {
                    t.ctx.sp
                } else if i == X_GP {
                    gp
                } else if i == X_S0 {
                    t.ctx.s[0]
                } else if i == X_S1 {
                    t.ctx.s[1]
                } else if X_S2 <= i < X_S2 + 10 {
                    t.ctx.s[i - X_S2 + 2]
                } else {
                    0
                },
        ),
        frame_valid: true,
        ctx_valid: false,
        woken: false,
        ..t
    }
}

impl SchedView {
    /// A thread of better priority than what the core runs can be switched to.
    pub open spec fn better_waits(self, h: int) -> bool {
        let p = self.eff_prio(self.current[h] as int);
        ||| p > 0 && self.has(h, 0, false)
        ||| p > 1 && self.has(h, 1, false)
    }

    /// The thread that the core runs is interrupted, and stands at the end of its queue.
    pub open spec fn interrupted(self, h: int, frame: Seq<u64>) -> SchedView {
        let c = self.current[h] as int;
        self.with_thread(
            c,
            ThreadView { frame, frame_valid: true, ctx_valid: false, ..self.threads[c] },
        ).enqueue(c)
    }

    /// A tick of the timer: the scheduler after it, and the thread that takes over, if one does.
    pub open spec fn ticked(self, h: int, frame: Seq<u64>, gp: u64) -> (SchedView, Option<usize>) {
        let n: u64 = if self.ticks_run[h] == u64::MAX {
            0
        } else {
            (self.ticks_run[h] + 1) as u64
        };
        let fresh = SchedView { ticks_run: self.ticks_run.update(h, 0), ..self };
        if n < SLICE_TICKS && !self.better_waits(h) {
            (SchedView { ticks_run: self.ticks_run.update(h, n), ..self }, None)
        } else if self.best_level(h, false) is None {
            (fresh, None)
        } else {
            let v = fresh.interrupted(h, frame);
            let id = v.next(h, false);
            let w = v.picked(h, false);
            if id == self.current[h] {
                (w, None)
            } else {
                let t = w.threads[id as int];
                let u = if t.frame_valid {
                    t
                } else {
                    expanded(t, gp)
                };
                (
                    SchedView {
                        current: w.current.update(h, id),
                        threads: w.threads.update(id as int, u),
                        ..w
                    },
                    Some(id),
                )
            }
        }
    }

    /// The number of ticks does not matter to the order of things.
    pub proof fn lemma_ticks_only(self, v: SchedView)
        requires
            self.wf(),
            v == (SchedView { ticks_run: v.ticks_run, ..self }),
            v.ticks_run.len() == MAX_HARTS,
        ensures
            v.wf(),
    {
        assert(v.shape_ok()) by {
            assert forall|i: int| 0 <= i < v.threads.len() implies (#[trigger] v.threads[i]).ok() by {
                assert(self.threads[i].ok());
            }
        }
        assert(v.queues_ok(Set::empty())) by {
            self.lemma_same_queues(v);
        }
        self.lemma_rest(v);
        assert(v.donations_ok()) by {
            assert forall|k: int| 0 <= k < v.donations.len() implies (#[trigger] v.donations[k]).donor_tid
                < v.threads.len() && v.donations[k].prio < PRIO_LEVELS by {
                let x = self.donations[k];
            }
        }
    }

    /// Same threads in the same queues.
    pub proof fn lemma_same_queues(self, v: SchedView)
        requires
            self.queues_ok(Set::empty()),
            v.threads == self.threads,
            v.ready == self.ready,
        ensures
            v.queues_ok(Set::empty()),
            forall|x: usize| #[trigger] v.queued(x) <==> self.queued(x),
    {
        reveal(SchedView::queues_ok);
        assert forall|x: usize| #[trigger] v.queued(x) <==> self.queued(x) by {
            if v.queued(x) {
                let (q, i) = choose|q: int, i: int|
                    #![trigger v.ready[q][i]]
                    0 <= q < QUEUES && 0 <= i < v.ready[q].len() && v.ready[q][i] == x;
                assert(self.ready[q][i] == x);
            }
            if self.queued(x) {
                let (q, i) = choose|q: int, i: int|
                    #![trigger self.ready[q][i]]
                    0 <= q < QUEUES && 0 <= i < self.ready[q].len() && self.ready[q][i] == x;
                assert(v.ready[q][i] == x);
            }
        }
        assert forall|q: int, i: int|
            #![trigger v.ready[q][i]]
            0 <= q < QUEUES && 0 <= i < v.ready[q].len() implies v.entry_ok(q, v.ready[q][i]) by {
            assert(self.entry_ok(q, self.ready[q][i]));
        }
        assert forall|id: usize|
            id < v.threads.len() && (#[trigger] v.threads[id as int]).state
                == ThreadState::Ready implies v.queued(id) by {
            let t = self.threads[id as int];
        }
    }

    /// A thread that is in no queue changed, and is still not ready.
    pub proof fn lemma_thread_changed(self, id: usize, t: ThreadView)
        requires
            self.shape_ok(),
            self.queues_ok(Set::empty()),
            id < self.threads.len(),
            self.threads[id as int].state != ThreadState::Ready,
            t.ok(),
            t.state != ThreadState::Ready,
        ensures
            self.with_thread(id as int, t).shape_ok(),
            self.with_thread(id as int, t).queues_ok(Set::empty()),
            !self.with_thread(id as int, t).queued(id),
            forall|x: usize| #[trigger]
                self.with_thread(id as int, t).queued(x) <==> self.queued(x),
    {
        reveal(SchedView::queues_ok);
        let v = self.with_thread(id as int, t);
        assert forall|i: int| 0 <= i < v.threads.len() implies (#[trigger] v.threads[i]).ok() by {
            assert(self.threads[i].ok());
        }
        assert forall|x: usize| #[trigger] v.queued(x) <==> self.queued(x) by {
            if v.queued(x) {
                let (q, i) = choose|q: int, i: int|
                    #![trigger v.ready[q][i]]
                    0 <= q < QUEUES && 0 <= i < v.ready[q].len() && v.ready[q][i] == x;
                assert(self.ready[q][i] == x);
            }
            if self.queued(x) {
                let (q, i) = choose|q: int, i: int|
                    #![trigger self.ready[q][i]]
                    0 <= q < QUEUES && 0 <= i < self.ready[q].len() && self.ready[q][i] == x;
                assert(v.ready[q][i] == x);
            }
        }
        assert forall|q: int, i: int|
            #![trigger v.ready[q][i]]
            0 <= q < QUEUES && 0 <= i < v.ready[q].len() implies v.entry_ok(q, v.ready[q][i])
            && v.ready[q][i] != id by {
            assert(self.entry_ok(q, self.ready[q][i]));
        }
        if self.queued(id) {
            self.lemma_queued(Set::empty(), id);
        }
        assert forall|x: usize|
            x < v.threads.len() && (#[trigger] v.threads[x as int]).state
                == ThreadState::Ready implies v.queued(x) by {
            let y = self.threads[x as int];
        }
    }

    /// What the core runs is interrupted.
    pub proof fn lemma_interrupted(self, h: int, frame: Seq<u64>)
        requires
            0 <= h < MAX_HARTS,
            self.wf(),
            frame.len() == TRAP_FRAME_WORDS,
        ensures
            self.interrupted(h, frame).wf_at(h),
            self.interrupted(h, frame).current == self.current,
            self.interrupted(h, frame).queued(self.current[h]),
            self.interrupted(h, frame).threads[self.current[h] as int] == (ThreadView {
                frame,
                frame_valid: true,
                ctx_valid: false,
                state: ThreadState::Ready,
                ..self.threads[self.current[h] as int]
            }),
    {
        let c = self.current[h];
        let t0 = self.threads[c as int];
        assert(t0.ok() && t0.state == ThreadState::Running && t0.hart == h);
        let t = ThreadView { frame, frame_valid: true, ctx_valid: false, ..t0 };
        let v = self.with_thread(c as int, t);
        self.lemma_thread_changed(c, t);
        v.lemma_enqueue(Set::empty(), c);
        let w = v.enqueue(c as int);
        assert(Set::<usize>::empty().remove(c) =~= Set::empty());
        self.lemma_given_way(w, h);
    }

    /// The thread that a core runs changed its state and, if it is ready, stands in a queue.
    pub proof fn lemma_given_way(self, w: SchedView, h: int)
        requires
            0 <= h < MAX_HARTS,
            self.wf(),
            w.shape_ok(),
            w.queues_ok(Set::empty()),
            w.current == self.current,
            w.donations == self.donations,
            w.threads.len() == self.threads.len(),
            forall|i: int|
                0 <= i < self.threads.len() && i != self.current[h] ==> #[trigger] w.threads[i]
                    == self.threads[i],
            ({
                let t = w.threads[self.current[h] as int];
                &&& t.hart == self.threads[self.current[h] as int].hart
                &&& t.proc_id == self.threads[self.current[h] as int].proc_id
                &&& match t.state {
                    ThreadState::Ready => w.free_slots == self.free_slots,
                    ThreadState::Running => w.free_slots == self.free_slots,
                    ThreadState::Blocked => w.free_slots == self.free_slots && t.resumable()
                        && self.current[h] >= MAX_HARTS,
                    ThreadState::Exited => w.free_slots == self.free_slots.push(self.current[h])
                        && self.current[h] >= MAX_HARTS,
                }
            }),
        ensures
            w.wf_at(h),
    {
        let c = self.current[h];
        assert(self.threads[c as int].state == ThreadState::Running && self.threads[c as int].hart
            == h);
        assert forall|g: int| 0 <= g < MAX_HARTS && g != h implies (#[trigger] w.current[g])
            < w.threads.len() && w.threads[w.current[g] as int].state == ThreadState::Running
            && w.threads[w.current[g] as int].hart == g by {
            let x = self.current[g];
            assert(x != c);
        }
        assert forall|i: int| 0 <= i < w.threads.len() implies match (#[trigger] w.threads[i]).state {
            ThreadState::Ready => true,
            ThreadState::Running => i < MAX_HARTS || i == w.current[w.threads[i].hart as int],
            ThreadState::Blocked => w.threads[i].resumable() && i >= MAX_HARTS,
            ThreadState::Exited => w.free_slots.contains(i as usize) && i >= MAX_HARTS,
        } by {
            let x = self.threads[i];
            if i == c {
                if w.threads[i].state == ThreadState::Exited {
                    assert(w.free_slots[self.free_slots.len() as int] == c);
                }
            } else if x.state == ThreadState::Exited {
                let k = choose|k: int|
                    0 <= k < self.free_slots.len() && self.free_slots[k] == i as usize;
                assert(w.free_slots[k] == i as usize);
            }
        }
        assert forall|i: int| 0 <= i < MAX_HARTS implies (#[trigger] w.threads[i]).hart == i
            && w.threads[i].proc_id is None by {
            let x = self.threads[i];
        }
        assert forall|k: int| 0 <= k < w.free_slots.len() implies (#[trigger] w.free_slots[k])
            < w.threads.len() && w.threads[w.free_slots[k] as int].state == ThreadState::Exited by {
            if k < self.free_slots.len() {
                let x = self.free_slots[k];
                assert(self.threads[x as int].state == ThreadState::Exited);
                assert(x != c);
            }
        }
        assert forall|k: int, j: int| 0 <= k < j < w.free_slots.len() implies #[trigger] w.free_slots[k]
            != #[trigger] w.free_slots[j] by {
            let x = self.free_slots[k];
            if j < self.free_slots.len() {
                let y = self.free_slots[j];
            } else {
                assert(self.threads[x as int].state == ThreadState::Exited);
            }
        }
        assert(w.donations_ok()) by {
            assert forall|k: int| 0 <= k < w.donations.len() implies (#[trigger] w.donations[k]).donor_tid
                < w.threads.len() && w.donations[k].prio < PRIO_LEVELS by {
                let x = self.donations[k];
            }
        }
    }

    /// A tick of the timer keeps everything in order.
    pub proof fn lemma_ticked(self, h: int, frame: Seq<u64>, gp: u64)
        requires
            0 <= h < MAX_HARTS,
            self.wf(),
            frame.len() == TRAP_FRAME_WORDS,
        ensures
            self.ticked(h, frame, gp).0.wf(),
            self.ticked(h, frame, gp).1 matches Some(id) ==> id < self.threads.len()
                && self.ticked(h, frame, gp).0.threads[id as int].frame_valid
                && self.ticked(h, frame, gp).0.current[h] == id,
    {
        let r = self.ticked(h, frame, gp);
        let n: u64 = if self.ticks_run[h] == u64::MAX {
            0
        } else {
            (self.ticks_run[h] + 1) as u64
        };
        let fresh = SchedView { ticks_run: self.ticks_run.update(h, 0), ..self };
        self.lemma_ticks_only(fresh);
        self.lemma_ticks_only(SchedView { ticks_run: self.ticks_run.update(h, n), ..self });
        if !(n < SLICE_TICKS && !self.better_waits(h)) && self.best_level(h, false) is Some {
            let c = self.current[h];
            fresh.lemma_interrupted(h, frame);
            let v = fresh.interrupted(h, frame);
            v.lemma_picked(h, false);
            let id = v.next(h, false);
            let w = v.picked(h, false);
            // What was interrupted can be switched to, so something is found.
            if v.best_level(h, false) is None {
                v.lemma_nothing_eligible(h, false);
                reveal(SchedView::queues_ok);
                let (q, i) = choose|q: int, i: int|
                    #![trigger v.ready[q][i]]
                    0 <= q < QUEUES && 0 <= i < v.ready[q].len() && v.ready[q][i] == c;
                assert(v.entry_ok(q, v.ready[q][i]));
                assert(false);
            }
            let z = r.0;
            if id != c {
                let t = w.threads[id as int];
                assert(v.threads[id as int].ok());
                let u = if t.frame_valid {
                    t
                } else {
                    expanded(t, gp)
                };
                assert(z == (SchedView { current: w.current.update(h, id), ..w.with_thread(
                    id as int,
                    u,
                ) }));
                w.lemma_thread_changed(id, u);
                w.with_thread(id as int, u).lemma_same_queues(z);
            }
            assert(z.shape_ok()) by {
                assert forall|i: int| 0 <= i < z.threads.len() implies (#[trigger] z.threads[i]).ok() by {
                    assert(w.threads[i].ok());
                }
            }
            assert(z.threads[id as int].hart == h && z.threads[id as int].state
                == ThreadState::Running);
            assert forall|g: int| 0 <= g < MAX_HARTS implies (#[trigger] z.current[g])
                < z.threads.len() && z.threads[z.current[g] as int].state == ThreadState::Running
                && z.threads[z.current[g] as int].hart == g by {
                if g != h {
                    let x = v.current[g];
                    assert(v.threads[x as int].state == ThreadState::Running);
                    assert(x != id);
                }
            }
            assert forall|i: int| 0 <= i < z.threads.len() implies match (
            #[trigger] z.threads[i]).state {
                ThreadState::Ready => true,
                ThreadState::Running => i < MAX_HARTS || i == z.current[z.threads[i].hart as int],
                ThreadState::Blocked => z.threads[i].resumable() && i >= MAX_HARTS,
                ThreadState::Exited => z.free_slots.contains(i as usize) && i >= MAX_HARTS,
            } by {
                let x = v.threads[i];
                assert(v.threads[c as int].state == ThreadState::Ready);
            }
            assert forall|i: int| 0 <= i < MAX_HARTS implies (#[trigger] z.threads[i]).hart == i
                && z.threads[i].proc_id is None by {
                let x = v.threads[i];
            }
            assert forall|k: int| 0 <= k < z.free_slots.len() implies (#[trigger] z.free_slots[k])
                < z.threads.len() && z.threads[z.free_slots[k] as int].state
                == ThreadState::Exited by {
                let x = v.free_slots[k];
                assert(v.threads[x as int].state == ThreadState::Exited);
            }
            assert(z.donations_ok()) by {
                assert forall|k: int| 0 <= k < z.donations.len() implies (
                #[trigger] z.donations[k]).donor_tid < z.threads.len() && z.donations[k].prio
                    < PRIO_LEVELS by {
                    let x = self.donations[k];
                }
            }
        }
    }
}

impl SchedView {
    /// What the core runs gives way to others.
    pub open spec fn yielded(self, h: int) -> SchedView {
        let c = self.current[h] as int;
        let v = SchedView { reaper: Seq::empty(), ..self };
        v.with_thread(
            c,
            ThreadView { frame_valid: false, ctx_valid: true, ..self.threads[c] },
        ).enqueue(c).switched(h, true)
    }

    /// What the core runs blocks; it was woken before, and goes on at once, or another thread
    /// takes over.
    pub open spec fn blocked(self, h: int) -> SchedView {
        let c = self.current[h] as int;
        let t = self.threads[c];
        if t.woken {
            self.with_thread(c, ThreadView { woken: false, ..t })
        } else {
            self.with_thread(
                c,
                ThreadView {
                    state: ThreadState::Blocked,
                    frame_valid: false,
                    ctx_valid: true,
                    ..t
                },
            ).switched(h, true)
        }
    }

    /// What the core runs, a user thread, blocks in a system call.
    pub open spec fn user_blocked(self, h: int, frame: Seq<u64>) -> SchedView {
        let c = self.current[h] as int;
        self.with_thread(
            c,
            ThreadView {
                state: ThreadState::Blocked,
                frame,
                frame_valid: true,
                ctx_valid: false,
                woken: false,
                ..self.threads[c]
            },
        ).switched(h, true)
    }

    /// What the core runs ends. Its stack is freed later, from another stack.
    pub open spec fn exited(self, h: int) -> SchedView {
        let c = self.current[h];
        let t = self.threads[c as int];
        let v = SchedView {
            reaper: match t.stack {
                Some(s) => self.reaper.push(s),
                None => self.reaper,
            },
            free_slots: self.free_slots.push(c),
            ..self
        };
        v.with_thread(
            c as int,
            ThreadView {
                state: ThreadState::Exited,
                frame_valid: false,
                ctx_valid: true,
                stack: None,
                ..t
            },
        ).switched(h, true)
    }

    /// A thread is woken; if it is blocked it becomes ready.
    pub open spec fn awoken(self, id: usize) -> SchedView {
        if id < self.threads.len() {
            let t = self.threads[id as int];
            let v = self.with_thread(id as int, ThreadView { woken: true, ..t });
            if t.state == ThreadState::Blocked {
                v.enqueue(id as int)
            } else {
                v
            }
        } else {
            self
        }
    }

    /// The core to interrupt after a thread was woken: that of the thread, when it idles.
    pub open spec fn awoken_ipi(self, id: usize, my_hart: int) -> Option<usize> {
        if id < self.threads.len() && self.threads[id as int].state == ThreadState::Blocked {
            let g = self.threads[id as int].hart;
            if g != my_hart && self.current[g as int] == self.idle[g as int] {
                Some(g)
            } else {
                None
            }
        } else {
            None
        }
    }

    /// A thread that waits for a message is resumed, with its system call done: `a0` in its
    /// frame, the message, if any, in the registers after it.
    pub open spec fn delivered(self, tid: usize, a0: u64, regs: Option<Seq<u64>>, msg: Option<
        Seq<u64>,
    >) -> SchedView {
        let t = self.threads[tid as int];
        self.with_thread(
            tid as int,
            ThreadView { frame: returned(t.frame, a0, regs), ipc_msg: msg, ..t },
        ).enqueue(tid as int).undonated(seq![tid], None)
    }

    /// Sizes after a thread was put back.
    pub proof fn lemma_resumed(self, w: SchedView, id: usize)
        requires
            self.wf(),
            id < self.threads.len(),
            self.threads[id as int].state == ThreadState::Blocked,
            w.shape_ok(),
            w.queues_ok(Set::empty()),
            w.current == self.current,
            w.free_slots == self.free_slots,
            w.donations == self.donations,
            w.threads.len() == self.threads.len(),
            forall|i: int|
                0 <= i < self.threads.len() && i != id ==> #[trigger] w.threads[i]
                    == self.threads[i],
            w.threads[id as int].state == ThreadState::Ready,
        ensures
            w.wf(),
    {
        assert(self.threads[id as int].resumable());
        assert forall|h: int| 0 <= h < MAX_HARTS implies (#[trigger] w.current[h]) < w.threads.len()
            && w.threads[w.current[h] as int].state == ThreadState::Running
            && w.threads[w.current[h] as int].hart == h by {
            let x = self.current[h];
            assert(x != id);
        }
        assert forall|i: int| 0 <= i < w.threads.len() implies match (#[trigger] w.threads[i]).state {
            ThreadState::Ready => true,
            ThreadState::Running => i < MAX_HARTS || i == w.current[w.threads[i].hart as int],
            ThreadState::Blocked => w.threads[i].resumable() && i >= MAX_HARTS,
            ThreadState::Exited => w.free_slots.contains(i as usize) && i >= MAX_HARTS,
        } by {
            let x = self.threads[i];
        }
        assert forall|i: int| 0 <= i < MAX_HARTS implies (#[trigger] w.threads[i]).hart == i
            && w.threads[i].proc_id is None by {
            let x = self.threads[i];
            assert(i != id);
        }
        assert forall|k: int| 0 <= k < w.free_slots.len() implies (#[trigger] w.free_slots[k])
            < w.threads.len() && w.threads[w.free_slots[k] as int].state == ThreadState::Exited by {
            let x = self.free_slots[k];
            assert(self.threads[x as int].state == ThreadState::Exited);
        }
        assert(w.donations_ok()) by {
            assert forall|k: int| 0 <= k < w.donations.len() implies (#[trigger] w.donations[k]).donor_tid
                < w.threads.len() && w.donations[k].prio < PRIO_LEVELS by {
                let x = self.donations[k];
            }
        }
    }

    /// Fields of a thread changed that say nothing of where it stands.
    pub proof fn lemma_detail_changed(self, id: usize, t: ThreadView)
        requires
            self.wf(),
            id < self.threads.len(),
            t.ok(),
            t.state == self.threads[id as int].state,
            t.hart == self.threads[id as int].hart,
            t.proc_id == self.threads[id as int].proc_id,
            self.threads[id as int].resumable() && t.state != ThreadState::Running
                ==> t.resumable(),
        ensures
            self.with_thread(id as int, t).wf(),
            forall|x: usize| #[trigger]
                self.with_thread(id as int, t).queued(x) <==> self.queued(x),
    {
        let v = self.with_thread(id as int, t);
        assert(v.shape_ok()) by {
            assert forall|i: int| 0 <= i < v.threads.len() implies (#[trigger] v.threads[i]).ok() by {
                assert(self.threads[i].ok());
            }
        }
        reveal(SchedView::queues_ok);
        assert forall|x: usize| #[trigger] v.queued(x) <==> self.queued(x) by {
            if v.queued(x) {
                let (q, i) = choose|q: int, i: int|
                    #![trigger v.ready[q][i]]
                    0 <= q < QUEUES && 0 <= i < v.ready[q].len() && v.ready[q][i] == x;
                assert(self.ready[q][i] == x);
            }
            if self.queued(x) {
                let (q, i) = choose|q: int, i: int|
                    #![trigger self.ready[q][i]]
                    0 <= q < QUEUES && 0 <= i < self.ready[q].len() && self.ready[q][i] == x;
                assert(v.ready[q][i] == x);
            }
        }
        assert(v.queues_ok(Set::empty())) by {
            assert forall|q: int, i: int|
                #![trigger v.ready[q][i]]
                0 <= q < QUEUES && 0 <= i < v.ready[q].len() implies v.entry_ok(q, v.ready[q][i]) by {
                assert(self.entry_ok(q, self.ready[q][i]));
            }
            assert forall|x: usize|
                x < v.threads.len() && (#[trigger] v.threads[x as int]).state
                    == ThreadState::Ready implies v.queued(x) by {
                let y = self.threads[x as int];
            }
        }
        assert forall|h: int| 0 <= h < MAX_HARTS implies (#[trigger] v.current[h]) < v.threads.len()
            && v.threads[v.current[h] as int].state == ThreadState::Running
            && v.threads[v.current[h] as int].hart == h by {
            let x = self.current[h];
        }
        assert forall|i: int| 0 <= i < v.threads.len() implies match (#[trigger] v.threads[i]).state {
            ThreadState::Ready => true,
            ThreadState::Running => i < MAX_HARTS || i == v.current[v.threads[i].hart as int],
            ThreadState::Blocked => v.threads[i].resumable() && i >= MAX_HARTS,
            ThreadState::Exited => v.free_slots.contains(i as usize) && i >= MAX_HARTS,
        } by {
            let x = self.threads[i];
        }
        assert forall|i: int| 0 <= i < MAX_HARTS implies (#[trigger] v.threads[i]).hart == i
            && v.threads[i].proc_id is None by {
            let x = self.threads[i];
        }
        assert forall|k: int| 0 <= k < v.free_slots.len() implies (#[trigger] v.free_slots[k])
            < v.threads.len() && v.threads[v.free_slots[k] as int].state == ThreadState::Exited by {
            let x = self.free_slots[k];
        }
        assert(v.donations_ok()) by {
            assert forall|k: int| 0 <= k < v.donations.len() implies (#[trigger] v.donations[k]).donor_tid
                < v.threads.len() && v.donations[k].prio < PRIO_LEVELS by {
                let x = self.donations[k];
            }
        }
    }
}

/// Frame of a system call that has returned: `a0`, and a message in the registers after it; the
/// program goes on behind the call instruction.
pub open spec fn returned(frame: Seq<u64>, a0: u64, regs: Option<Seq<u64>>) -> Seq<u64> {
    Seq::new(
        frame.len(),
        |i: int|
            if i == X_A0 {
                a0
            } else if i == FRAME_SEPC {
                frame[i].wrapping_add(4)
            } else if regs is Some && X_A1 <= i < X_A1 + 5 {
                regs->0[i - X_A1]
            } else {
                frame[i]
            },
    )
}

impl SchedView {
    /// Whether a level has a thread to switch to depends on the threads and queues alone.
    pub proof fn lemma_same_has(self, v: SchedView, h: int)
        requires
            v.threads == self.threads,
            v.ready == self.ready,
        ensures
            forall|l: int, n: bool| #[trigger] v.has(h, l, n) == self.has(h, l, n),
    {
        assert forall|l: int, n: bool| #[trigger] v.has(h, l, n) == self.has(h, l, n) by {
            self.lemma_same_first(v, self.ready[Self::qi(h, l)], n, 0);
        }
    }

    proof fn lemma_same_first(self, v: SchedView, q: Seq<usize>, n: bool, i: int)
        requires
            v.threads == self.threads,
            0 <= i,
        ensures
            v.first_from(q, n, i) == self.first_from(q, n, i),
        decreases q.len() - i,
    {
        if i < q.len() {
            self.lemma_same_first(v, q, n, i + 1);
        }
    }
}

impl SchedView {
    /// What the core runs gives way.
    pub open spec fn gave_way(self, h: int) -> SchedView {
        let c = self.current[h] as int;
        (SchedView { reaper: Seq::empty(), ..self }).with_thread(
            c,
            ThreadView { frame_valid: false, ctx_valid: true, ..self.threads[c] },
        )
    }

    /// Giving way keeps everything in order.
    pub proof fn lemma_yielded(self, h: int)
        requires
            0 <= h < MAX_HARTS,
            self.wf(),
        ensures
            self.gave_way(h).shape_ok(),
            self.gave_way(h).enqueue(self.current[h] as int).wf_at(h),
            self.gave_way(h).enqueue(self.current[h] as int).current == self.current,
            self.gave_way(h).enqueue(self.current[h] as int).threads[self.current[h] as int].hart
                == h,
            self.gave_way(h).enqueue(self.current[h] as int).threads[self.current[h] as int].state
                == ThreadState::Ready,
            self.yielded(h) == self.gave_way(h).enqueue(self.current[h] as int).switched(h, true),
            self.yielded(h).wf(),
    {
        let c = self.current[h];
        let t0 = self.threads[c as int];
        assert(t0.ok() && t0.state == ThreadState::Running && t0.hart == h);
        let t = ThreadView { frame_valid: false, ctx_valid: true, ..t0 };
        let r = SchedView { reaper: Seq::empty(), ..self };
        self.lemma_same_queues(r);
        r.lemma_thread_changed(c, t);
        let v = self.gave_way(h);
        assert(v == r.with_thread(c as int, t));
        v.lemma_enqueue(Set::empty(), c);
        let w = v.enqueue(c as int);
        assert(Set::<usize>::empty().remove(c) =~= Set::empty());
        self.lemma_given_way(w, h);
        w.lemma_switched(h);
    }

    /// What the core runs stops, and is not ready.
    pub proof fn lemma_stopped(self, v: SchedView, h: int, t: ThreadView)
        requires
            0 <= h < MAX_HARTS,
            self.wf(),
            self.current[h] >= MAX_HARTS,
            v == (SchedView { reaper: v.reaper, free_slots: v.free_slots, ..self }).with_thread(
                self.current[h] as int,
                t,
            ),
            t.ok(),
            t.hart == h,
            t.proc_id == self.threads[self.current[h] as int].proc_id,
            t.resumable(),
            t.state == ThreadState::Blocked && v.free_slots == self.free_slots || t.state
                == ThreadState::Exited && v.free_slots == self.free_slots.push(self.current[h]),
        ensures
            v.wf_at(h),
            v.switched(h, true).wf(),
    {
        let c = self.current[h];
        let t0 = self.threads[c as int];
        assert(t0.ok() && t0.state == ThreadState::Running && t0.hart == h);
        let r = SchedView { reaper: v.reaper, free_slots: v.free_slots, ..self };
        self.lemma_same_queues(r);
        r.lemma_thread_changed(c, t);
        self.lemma_given_way(v, h);
        v.lemma_switched(h);
    }

    /// Waking keeps everything in order.
    pub proof fn lemma_awoken(self, id: usize)
        requires
            self.wf(),
            id < self.threads.len(),
        ensures
            self.with_thread(
                id as int,
                ThreadView { woken: true, ..self.threads[id as int] },
            ).shape_ok(),
            self.awoken(id).wf(),
    {
        let t0 = self.threads[id as int];
        assert(t0.ok());
        let t = ThreadView { woken: true, ..t0 };
        self.lemma_detail_changed(id, t);
        if t0.state == ThreadState::Blocked {
            self.with_thread(id as int, t).lemma_ready_again(id);
        }
    }

    /// A blocked thread becomes ready.
    pub proof fn lemma_ready_again(self, id: usize)
        requires
            self.wf(),
            id < self.threads.len(),
            self.threads[id as int].state == ThreadState::Blocked,
        ensures
            self.enqueue(id as int).wf(),
    {
        if self.queued(id) {
            self.lemma_queued(Set::empty(), id);
        }
        assert(self.threads[id as int].resumable());
        self.lemma_enqueue(Set::empty(), id);
        assert(Set::<usize>::empty().remove(id) =~= Set::empty());
        self.lemma_resumed(self.enqueue(id as int), id);
    }
}

impl SchedView {
    /// There is room for another thread.
    pub open spec fn has_slot(self) -> bool {
        self.free_slots.len() > 0 || self.threads.len() < MAX_THREADS
    }

    /// Entry of the next thread: one to use again, oldest first, or a new one.
    pub open spec fn next_slot(self) -> usize {
        if self.free_slots.len() > 0 {
            self.free_slots[0]
        } else {
            self.threads.len() as usize
        }
    }

    /// A thread is put into that entry.
    pub open spec fn placed(self, t: ThreadView) -> SchedView {
        if self.free_slots.len() > 0 {
            SchedView {
                threads: self.threads.update(self.free_slots[0] as int, t),
                free_slots: self.free_slots.subrange(1, self.free_slots.len() as int),
                ..self
            }
        } else {
            SchedView { threads: self.threads.push(t), ..self }
        }
    }

    /// A new thread is ready.
    pub open spec fn started(self, t: ThreadView) -> SchedView {
        self.placed(t).enqueue(self.next_slot() as int)
    }

    /// A new thread that belongs to a process.
    pub open spec fn started_owned(self, t: ThreadView, proc_id: usize) -> SchedView {
        let id = self.next_slot() as int;
        let v = self.started(t).with_thread(
            id,
            ThreadView { proc_id: Some(proc_id), state: ThreadState::Ready, ..t },
        );
        if exists|k: int| 0 <= k < v.donations.len() && (#[trigger] v.donations[k]).peer_proc == proc_id {
            v.requeued(proc_id)
        } else {
            v
        }
    }

    /// Starting a thread keeps everything in order.
    pub proof fn lemma_started(self, t: ThreadView)
        requires
            self.wf(),
            self.has_slot(),
            t.ok(),
            t.state == ThreadState::Ready,
            t.resumable(),
        ensures
            MAX_HARTS <= self.next_slot() < MAX_THREADS,
            self.next_slot() <= self.threads.len(),
            self.next_slot() < self.threads.len() ==> self.threads[self.next_slot() as int].state
                == ThreadState::Exited,
            self.placed(t).shape_ok(),
            self.next_slot() < self.placed(t).threads.len(),
            self.started(t).wf(),
            self.started(t).threads[self.next_slot() as int] == t,
            self.started(t).queued(self.next_slot()),
    {
        let id = self.next_slot();
        let v = self.placed(t);
        if self.free_slots.len() > 0 {
            let x = self.free_slots[0];
            assert(self.threads[x as int].state == ThreadState::Exited);
        }
        assert(v.shape_ok()) by {
            assert forall|i: int| 0 <= i < v.threads.len() implies (#[trigger] v.threads[i]).ok() by {
                if i < self.threads.len() {
                    assert(self.threads[i].ok());
                }
            }
        }
        let loose = Set::<usize>::empty().insert(id);
        assert(v.queues_ok(loose)) by {
            reveal(SchedView::queues_ok);
            assert forall|q: int, i: int|
                #![trigger v.ready[q][i]]
                0 <= q < QUEUES && 0 <= i < v.ready[q].len() implies v.entry_ok(q, v.ready[q][i])
                && !loose.contains(v.ready[q][i]) by {
                assert(self.entry_ok(q, self.ready[q][i]));
            }
            assert forall|x: usize|
                x < v.threads.len() && (#[trigger] v.threads[x as int]).state
                    == ThreadState::Ready implies v.queued(x) || loose.contains(x) by {
                if x != id {
                    let y = self.threads[x as int];
                    assert(self.queued(x));
                    let (q, i) = choose|q: int, i: int|
                        #![trigger self.ready[q][i]]
                        0 <= q < QUEUES && 0 <= i < self.ready[q].len() && self.ready[q][i] == x;
                    assert(v.ready[q][i] == x);
                }
            }
        }
        if v.queued(id) {
            v.lemma_queued(loose, id);
        }
        v.lemma_enqueue(loose, id);
        assert(loose.remove(id) =~= Set::empty());
        let w = self.started(t);
        assert forall|h: int| 0 <= h < MAX_HARTS implies (#[trigger] w.current[h]) < w.threads.len()
            && w.threads[w.current[h] as int].state == ThreadState::Running
            && w.threads[w.current[h] as int].hart == h by {
            let x = self.current[h];
        }
        assert forall|i: int| 0 <= i < w.threads.len() implies match (#[trigger] w.threads[i]).state {
            ThreadState::Ready => true,
            ThreadState::Running => i < MAX_HARTS || i == w.current[w.threads[i].hart as int],
            ThreadState::Blocked => w.threads[i].resumable() && i >= MAX_HARTS,
            ThreadState::Exited => w.free_slots.contains(i as usize) && i >= MAX_HARTS,
        } by {
            if i != id {
                let x = self.threads[i];
                if x.state == ThreadState::Exited {
                    let k = choose|k: int|
                        0 <= k < self.free_slots.len() && self.free_slots[k] == i as usize;
                    assert(k > 0);
                    assert(w.free_slots[k - 1] == i as usize);
                }
            }
        }
        assert forall|i: int| 0 <= i < MAX_HARTS implies (#[trigger] w.threads[i]).hart == i
            && w.threads[i].proc_id is None by {
            let x = self.threads[i];
        }
        assert forall|k: int| 0 <= k < w.free_slots.len() implies (#[trigger] w.free_slots[k])
            < w.threads.len() && w.threads[w.free_slots[k] as int].state == ThreadState::Exited by {
            let x = self.free_slots[k + 1];
            assert(self.free_slots[0] != x);
        }
        assert forall|k: int, j: int| 0 <= k < j < w.free_slots.len() implies #[trigger] w.free_slots[k]
            != #[trigger] w.free_slots[j] by {
            let x = self.free_slots[k + 1];
            let y = self.free_slots[j + 1];
        }
        assert(w.donations_ok()) by {
            assert forall|k: int| 0 <= k < w.donations.len() implies (#[trigger] w.donations[k]).donor_tid
                < w.threads.len() && w.donations[k].prio < PRIO_LEVELS by {
                let x = self.donations[k];
            }
        }
    }

    /// A thread that is not an idle thread comes to belong to a process.
    pub proof fn lemma_owner_changed(self, id: usize, t: ThreadView)
        requires
            self.wf(),
            MAX_HARTS <= id < self.threads.len(),
            t == (ThreadView { proc_id: t.proc_id, ..self.threads[id as int] }),
        ensures
            self.with_thread(id as int, t).wf(),
    {
        let v = self.with_thread(id as int, t);
        assert(v.shape_ok()) by {
            assert forall|i: int| 0 <= i < v.threads.len() implies (#[trigger] v.threads[i]).ok() by {
                assert(self.threads[i].ok());
            }
        }
        assert(v.queues_ok(Set::empty())) by {
            reveal(SchedView::queues_ok);
            assert forall|q: int, i: int|
                #![trigger v.ready[q][i]]
                0 <= q < QUEUES && 0 <= i < v.ready[q].len() implies v.entry_ok(q, v.ready[q][i]) by {
                assert(self.entry_ok(q, self.ready[q][i]));
            }
            assert forall|x: usize|
                x < v.threads.len() && (#[trigger] v.threads[x as int]).state
                    == ThreadState::Ready implies v.queued(x) by {
                let y = self.threads[x as int];
                assert(self.queued(x));
                let (q, i) = choose|q: int, i: int|
                    #![trigger self.ready[q][i]]
                    0 <= q < QUEUES && 0 <= i < self.ready[q].len() && self.ready[q][i] == x;
                assert(v.ready[q][i] == x);
            }
        }
        assert forall|h: int| 0 <= h < MAX_HARTS implies (#[trigger] v.current[h]) < v.threads.len()
            && v.threads[v.current[h] as int].state == ThreadState::Running
            && v.threads[v.current[h] as int].hart == h by {
            let x = self.current[h];
        }
        assert forall|i: int| 0 <= i < v.threads.len() implies match (#[trigger] v.threads[i]).state {
            ThreadState::Ready => true,
            ThreadState::Running => i < MAX_HARTS || i == v.current[v.threads[i].hart as int],
            ThreadState::Blocked => v.threads[i].resumable() && i >= MAX_HARTS,
            ThreadState::Exited => v.free_slots.contains(i as usize) && i >= MAX_HARTS,
        } by {
            let x = self.threads[i];
        }
        assert forall|i: int| 0 <= i < MAX_HARTS implies (#[trigger] v.threads[i]).hart == i
            && v.threads[i].proc_id is None by {
            let x = self.threads[i];
        }
        assert forall|k: int| 0 <= k < v.free_slots.len() implies (#[trigger] v.free_slots[k])
            < v.threads.len() && v.threads[v.free_slots[k] as int].state == ThreadState::Exited by {
            let x = self.free_slots[k];
        }
        assert(v.donations_ok()) by {
            assert forall|k: int| 0 <= k < v.donations.len() implies (#[trigger] v.donations[k]).donor_tid
                < v.threads.len() && v.donations[k].prio < PRIO_LEVELS by {
                let x = self.donations[k];
            }
        }
    }
}

/// Every thread but one.
pub open spec fn but_for(id: usize) -> spec_fn(usize) -> bool {
    |x: usize| x != id
}

impl SchedView {
    /// Without a thread in the queues.
    pub open spec fn unqueued(self, id: usize) -> SchedView {
        SchedView {
            ready: Seq::new(QUEUES as nat, |q: int| self.ready[q].filter(but_for(id))),
            ..self
        }
    }

    /// A thread that does not run comes to belong to another core.
    pub open spec fn moved(self, id: usize, h: usize) -> SchedView {
        let t = self.threads[id as int];
        let u = ThreadView { hart: h, ..t };
        if t.state == ThreadState::Ready {
            if t.hart == h {
                self
            } else {
                self.unqueued(id).with_thread(id as int, u).enqueue(id as int)
            }
        } else {
            self.with_thread(id as int, u)
        }
    }

    pub proof fn lemma_unqueued(self, id: usize)
        requires
            self.shape_ok(),
            self.queues_ok(Set::empty()),
        ensures
            self.unqueued(id).shape_ok(),
            self.unqueued(id).queues_ok(Set::<usize>::empty().insert(id)),
            !self.unqueued(id).queued(id),
    {
        let v = self.unqueued(id);
        let loose = Set::<usize>::empty().insert(id);
        let p = but_for(id);
        assert forall|i: int| 0 <= i < v.threads.len() implies (#[trigger] v.threads[i]).ok() by {
            assert(self.threads[i].ok());
        }
        assert forall|q: int| 0 <= q < QUEUES implies #[trigger] v.ready[q] == self.ready[q].filter(p) by {}
        assert forall|q: int, x: usize| 0 <= q < QUEUES implies (#[trigger] v.ready[q].contains(x)
            <==> self.ready[q].contains(x) && x != id) by {
            lemma_filter(self.ready[q], p);
            assert(v.ready[q] == self.ready[q].filter(p));
        }
        reveal(SchedView::queues_ok);
        assert forall|q: int, i: int|
            #![trigger v.ready[q][i]]
            0 <= q < QUEUES && 0 <= i < v.ready[q].len() implies v.entry_ok(q, v.ready[q][i])
            && !loose.contains(v.ready[q][i]) by {
            let x = v.ready[q][i];
            assert(v.ready[q].contains(x));
            let j = choose|j: int| 0 <= j < self.ready[q].len() && self.ready[q][j] == x;
            assert(self.entry_ok(q, self.ready[q][j]));
        }
        assert forall|q: int, i: int, r: int, j: int|
            #![trigger v.ready[q][i], v.ready[r][j]]
            0 <= q < QUEUES && 0 <= i < v.ready[q].len() && 0 <= r < QUEUES && 0 <= j
                < v.ready[r].len() && v.ready[q][i] == v.ready[r][j] implies q == r && i == j by {
            let x = v.ready[q][i];
            assert(v.ready[q].contains(x));
            assert(v.ready[r].contains(x));
            self.lemma_once(Set::empty(), q, r, x);
            self.lemma_no_duplicates(Set::empty(), q);
            lemma_filter(self.ready[q], p);
            assert(v.ready[q].no_duplicates());
        }
        assert forall|x: usize|
            x < v.threads.len() && (#[trigger] v.threads[x as int]).state
                == ThreadState::Ready implies v.queued(x) || loose.contains(x) by {
            if x != id {
                let y = self.threads[x as int];
                assert(self.queued(x));
                let (q, i) = choose|q: int, i: int|
                    #![trigger self.ready[q][i]]
                    0 <= q < QUEUES && 0 <= i < self.ready[q].len() && self.ready[q][i] == x;
                assert(self.ready[q].contains(x));
                assert(v.ready[q].contains(x));
                let j = choose|j: int| 0 <= j < v.ready[q].len() && v.ready[q][j] == x;
                assert(v.ready[q][j] == x);
            }
        }
        if v.queued(id) {
            v.lemma_queued(loose, id);
        }
    }

    /// Moving a thread to another core keeps everything in order.
    pub proof fn lemma_moved(self, id: usize, h: usize)
        requires
            self.wf(),
            MAX_HARTS <= id < self.threads.len(),
            h < MAX_HARTS,
            self.threads[id as int].state == ThreadState::Ready || self.threads[id as int].state
                == ThreadState::Blocked,
        ensures
            self.unqueued(id).with_thread(
                id as int,
                ThreadView { hart: h, ..self.threads[id as int] },
            ).shape_ok(),
            self.moved(id, h).wf(),
    {
        let t = self.threads[id as int];
        let u = ThreadView { hart: h, ..t };
        assert(t.ok());
        self.lemma_unqueued(id);
        let a = self.unqueued(id);
        let v = a.with_thread(id as int, u);
        let loose = Set::<usize>::empty().insert(id);
        assert forall|i: int| 0 <= i < v.threads.len() implies (#[trigger] v.threads[i]).ok() by {
            assert(self.threads[i].ok());
        }
        let w = self.moved(id, h);
        if t.state == ThreadState::Ready && t.hart != h {
            assert(v.queues_ok(loose) && u.resumable() && !v.queued(id)) by {
                reveal(SchedView::queues_ok);
                assert forall|q: int, i: int|
                    #![trigger v.ready[q][i]]
                    0 <= q < QUEUES && 0 <= i < v.ready[q].len() implies v.entry_ok(
                    q,
                    v.ready[q][i],
                ) && !loose.contains(v.ready[q][i]) by {
                    assert(a.entry_ok(q, a.ready[q][i]));
                    assert(!loose.contains(a.ready[q][i]));
                }
                assert forall|x: usize|
                    x < v.threads.len() && (#[trigger] v.threads[x as int]).state
                        == ThreadState::Ready implies v.queued(x) || loose.contains(x) by {
                    if x != id {
                        let y = a.threads[x as int];
                        assert(a.queued(x));
                        let (q, i) = choose|q: int, i: int|
                            #![trigger a.ready[q][i]]
                            0 <= q < QUEUES && 0 <= i < a.ready[q].len() && a.ready[q][i] == x;
                        assert(v.ready[q][i] == x);
                    }
                }
                if v.queued(id) {
                    v.lemma_queued(loose, id);
                }
                assert(self.queued(id));
                self.lemma_queued(Set::empty(), id);
            }
            v.lemma_enqueue(loose, id);
            assert(loose.remove(id) =~= Set::empty());
        } else if t.state == ThreadState::Blocked {
            self.lemma_thread_changed(id, u);
        }
        if !(t.state == ThreadState::Ready && t.hart == h) {
            assert forall|g: int| 0 <= g < MAX_HARTS implies (#[trigger] w.current[g])
                < w.threads.len() && w.threads[w.current[g] as int].state == ThreadState::Running
                && w.threads[w.current[g] as int].hart == g by {
                let x = self.current[g];
                assert(x != id);
            }
            assert forall|i: int| 0 <= i < w.threads.len() implies match (
            #[trigger] w.threads[i]).state {
                ThreadState::Ready => true,
                ThreadState::Running => i < MAX_HARTS || i == w.current[w.threads[i].hart as int],
                ThreadState::Blocked => w.threads[i].resumable() && i >= MAX_HARTS,
                ThreadState::Exited => w.free_slots.contains(i as usize) && i >= MAX_HARTS,
            } by {
                let x = self.threads[i];
            }
            assert forall|i: int| 0 <= i < MAX_HARTS implies (#[trigger] w.threads[i]).hart == i
                && w.threads[i].proc_id is None by {
                let x = self.threads[i];
            }
            assert forall|k: int| 0 <= k < w.free_slots.len() implies (#[trigger] w.free_slots[k])
                < w.threads.len() && w.threads[w.free_slots[k] as int].state
                == ThreadState::Exited by {
                let x = self.free_slots[k];
                assert(self.threads[x as int].state == ThreadState::Exited);
                assert(x != id);
            }
            assert(w.donations_ok()) by {
                assert forall|k: int| 0 <= k < w.donations.len() implies (
                #[trigger] w.donations[k]).donor_tid < w.threads.len() && w.donations[k].prio
                    < PRIO_LEVELS by {
                    let x = self.donations[k];
                }
            }
        }
    }
}

impl SchedView {
    /// The threads of a process among the first `n`, but for `cur`.
    pub open spec fn victims(self, proc_id: usize, cur: usize, n: int) -> Seq<usize>
        decreases n,
    {
        if n <= 0 {
            Seq::empty()
        } else {
            let r = self.victims(proc_id, cur, n - 1);
            if self.owned(proc_id, (n - 1) as usize) && n - 1 != cur {
                r.push((n - 1) as usize)
            } else {
                r
            }
        }
    }

    /// A thread is ended from outside, and there is nothing left to resume it from. One that
    /// another core runs is left alone. The entry of one that is gone already waits to be used
    /// again, and is not put up a second time: two threads would come to share it.
    pub open spec fn buried_one(self, id: usize) -> SchedView {
        let t = self.threads[id as int];
        if t.state == ThreadState::Running {
            self
        } else {
            (SchedView {
                reaper: match t.stack {
                    Some(s) => self.reaper.push(s),
                    None => self.reaper,
                },
                free_slots: if t.state == ThreadState::Exited {
                    self.free_slots
                } else {
                    self.free_slots.push(id)
                },
                ..self
            }).with_thread(
                id as int,
                ThreadView {
                    state: ThreadState::Exited,
                    frame_valid: false,
                    ctx_valid: false,
                    stack: None,
                    ..t
                },
            )
        }
    }

    pub open spec fn buried(self, ids: Seq<usize>) -> SchedView
        decreases ids.len(),
    {
        if ids.len() == 0 {
            self
        } else {
            self.buried(ids.drop_last()).buried_one(ids.last())
        }
    }

    /// The threads of a process end, but for the one that runs on core `h`; nothing is lent to the
    /// process or by its threads any more.
    pub open spec fn killed(self, proc_id: usize, h: int) -> SchedView {
        let c = self.current[h];
        let ids = self.victims(proc_id, c, self.threads.len() as int);
        self.stripped(proc_id).buried(ids).undonated_to(proc_id).undonated(
            ids.push(c),
            Some(proc_id),
        )
    }

    pub proof fn lemma_victims(self, proc_id: usize, cur: usize, n: int)
        requires
            0 <= n <= self.threads.len() <= MAX_THREADS,
        ensures
            self.victims(proc_id, cur, n).len() <= n,
            forall|x: usize| #[trigger]
                self.victims(proc_id, cur, n).contains(x) <==> x < n && self.owned(proc_id, x) && x
                    != cur,
        decreases n,
    {
        let v = self.victims(proc_id, cur, n);
        if n > 0 {
            self.lemma_victims(proc_id, cur, n - 1);
            let r = self.victims(proc_id, cur, n - 1);
            let l = (n - 1) as usize;
            assert forall|x: usize| #[trigger] v.contains(x) <==> x < n && self.owned(proc_id, x) && x
                != cur by {
                assert(r.contains(x) <==> x < n - 1 && self.owned(proc_id, x) && x != cur);
                if v.contains(x) {
                    let k = choose|k: int| 0 <= k < v.len() && v[k] == x;
                    if k < r.len() {
                        assert(r[k] == x);
                    }
                }
                if r.contains(x) {
                    let k = choose|k: int| 0 <= k < r.len() && r[k] == x;
                    assert(v[k] == x);
                }
                if x == l && self.owned(proc_id, l) && l != cur {
                    assert(v[r.len() as int] == l);
                }
            }
        }
    }

    /// What holds while the threads of a process are ended: those that are left stand in no
    /// queue.
    pub open spec fn burying(self, loose: Set<usize>) -> bool {
        &&& self.shape_ok()
        &&& self.queues_ok(loose)
        &&& self.current_ok(-1)
        &&& self.states_ok()
        &&& self.free_ok()
        &&& self.donations_ok()
    }

    pub proof fn lemma_buried_one(self, loose: Set<usize>, id: usize)
        requires
            self.burying(loose),
            MAX_HARTS <= id < self.threads.len(),
            !self.queued(id),
        ensures
            self.buried_one(id).burying(loose.remove(id)),
            self.buried_one(id).threads.len() == self.threads.len(),
            self.buried_one(id).current == self.current,
            self.buried_one(id).ready == self.ready,
            forall|i: int|
                0 <= i < self.threads.len() && i != id ==> #[trigger] self.buried_one(id).threads[i]
                    == self.threads[i],
    {
        let w = self.buried_one(id);
        let t0 = self.threads[id as int];
        assert(t0.ok());
        let gone = t0.state == ThreadState::Exited;
        assert(w.queues_ok(loose.remove(id))) by {
            reveal(SchedView::queues_ok);
            assert forall|q: int, i: int|
                #![trigger w.ready[q][i]]
                0 <= q < QUEUES && 0 <= i < w.ready[q].len() implies w.entry_ok(q, w.ready[q][i])
                && !loose.remove(id).contains(w.ready[q][i]) by {
                assert(self.entry_ok(q, self.ready[q][i]));
                if self.ready[q][i] == id {
                    assert(self.queued(id));
                }
            }
            assert forall|x: usize|
                x < w.threads.len() && (#[trigger] w.threads[x as int]).state
                    == ThreadState::Ready implies w.queued(x) || loose.remove(id).contains(x) by {
                let y = self.threads[x as int];
                assert(x != id);
                if self.queued(x) {
                    let (q, i) = choose|q: int, i: int|
                        #![trigger self.ready[q][i]]
                        0 <= q < QUEUES && 0 <= i < self.ready[q].len() && self.ready[q][i] == x;
                    assert(w.ready[q][i] == x);
                }
            }
        }
        if t0.state != ThreadState::Running {
            assert forall|i: int| 0 <= i < w.threads.len() implies (#[trigger] w.threads[i]).ok() by {
                assert(self.threads[i].ok());
            }
            assert forall|g: int| 0 <= g < MAX_HARTS implies (#[trigger] w.current[g])
                < w.threads.len() && w.threads[w.current[g] as int].state == ThreadState::Running
                && w.threads[w.current[g] as int].hart == g by {
                let x = self.current[g];
                assert(x != id);
            }
            assert forall|i: int| 0 <= i < w.threads.len() implies match (
            #[trigger] w.threads[i]).state {
                ThreadState::Ready => true,
                ThreadState::Running => i < MAX_HARTS || i == w.current[w.threads[i].hart as int],
                ThreadState::Blocked => w.threads[i].resumable() && i >= MAX_HARTS,
                ThreadState::Exited => w.free_slots.contains(i as usize) && i >= MAX_HARTS,
            } by {
                let x = self.threads[i];
                if i == id && !gone {
                    assert(w.free_slots[self.free_slots.len() as int] == id);
                } else if x.state == ThreadState::Exited {
                    let k = choose|k: int|
                        0 <= k < self.free_slots.len() && self.free_slots[k] == i as usize;
                    assert(w.free_slots[k] == i as usize);
                }
            }
            assert forall|i: int| 0 <= i < MAX_HARTS implies (#[trigger] w.threads[i]).hart == i
                && w.threads[i].proc_id is None by {
                let x = self.threads[i];
            }
            assert forall|k: int| 0 <= k < w.free_slots.len() implies (#[trigger] w.free_slots[k])
                < w.threads.len() && w.threads[w.free_slots[k] as int].state
                == ThreadState::Exited by {
                if k < self.free_slots.len() {
                    let x = self.free_slots[k];
                    assert(self.threads[x as int].state == ThreadState::Exited);
                }
            }
            assert forall|k: int, j: int| 0 <= k < j < w.free_slots.len() implies #[trigger] w.free_slots[k]
                != #[trigger] w.free_slots[j] by {
                let x = self.free_slots[k];
                assert(self.threads[x as int].state == ThreadState::Exited);
                if j < self.free_slots.len() {
                    let y = self.free_slots[j];
                }
            }
            assert(w.donations_ok()) by {
                assert forall|k: int| 0 <= k < w.donations.len() implies (
                #[trigger] w.donations[k]).donor_tid < w.threads.len() && w.donations[k].prio
                    < PRIO_LEVELS by {
                    let x = self.donations[k];
                }
            }
        }
    }

    /// Taking the threads of a process out of the queues, when their process ends.
    pub proof fn lemma_to_bury(self, proc_id: usize)
        requires
            self.wf(),
        ensures
            self.stripped(proc_id).burying(self.collected(proc_id, QUEUES as int).to_set()),
            forall|x: usize|
                x < self.threads.len() && self.owned(proc_id, x) ==> !#[trigger] self.stripped(
                    proc_id,
                ).queued(x),
            forall|x: usize|
                self.collected(proc_id, QUEUES as int).to_set().contains(x) ==> x
                    < self.threads.len() && #[trigger] self.owned(proc_id, x)
                    && self.threads[x as int].state == ThreadState::Ready,
    {
        let v = self.stripped(proc_id);
        let p = |id: usize| !self.owned(proc_id, id);
        self.lemma_stripped(proc_id);
        self.lemma_rest(v);
        self.lemma_collected(Set::empty(), proc_id, QUEUES as int);
        assert(v.donations_ok()) by {
            assert forall|k: int| 0 <= k < v.donations.len() implies (#[trigger] v.donations[k]).donor_tid
                < v.threads.len() && v.donations[k].prio < PRIO_LEVELS by {
                let x = self.donations[k];
            }
        }
        assert forall|x: usize| x < self.threads.len() && self.owned(proc_id, x) implies !#[trigger] v.queued(
            x,
        ) by {
            if v.queued(x) {
                let (q, i) = choose|q: int, i: int|
                    #![trigger v.ready[q][i]]
                    0 <= q < QUEUES && 0 <= i < v.ready[q].len() && v.ready[q][i] == x;
                assert(v.ready[q] == self.ready[q].filter(p));
                lemma_filter(self.ready[q], p);
                assert(v.ready[q].contains(x));
            }
        }
        let c = self.collected(proc_id, QUEUES as int);
        assert forall|x: usize| c.to_set().contains(x) implies x < self.threads.len()
            && #[trigger] self.owned(proc_id, x) && self.threads[x as int].state
            == ThreadState::Ready by {
            assert(c.contains(x));
            let q = choose|q: int| 0 <= q < QUEUES && (#[trigger] self.ready[q]).contains(x);
            self.lemma_once(Set::empty(), q, q, x);
            let i = choose|i: int| 0 <= i < self.ready[q].len() && self.ready[q][i] == x;
            assert(self.ready[q][i] == x);
            assert(self.queued(x));
            self.lemma_queued(Set::empty(), x);
        }
    }
}

impl SchedView {
    /// Lending changes the queues and the donations alone.
    pub proof fn lemma_donated(self, tid: usize, peer: usize)
        requires
            self.wf(),
            tid < self.threads.len(),
        ensures
            self.donated(tid, peer).threads == self.threads,
            self.donated(tid, peer).current == self.current,
    {
        let v = self.donated(tid, peer);
        let d = Donation { donor_tid: tid, peer_proc: peer, prio: self.eff_prio(tid as int) };
        let k = donor_at(self.donations, tid, 0);
        let all = if k < self.donations.len() {
            self.donations.update(k, d)
        } else {
            self.donations.push(d)
        };
        let u = SchedView { donations: all, ..self };
        self.lemma_donations_only(u);
        u.lemma_requeued(peer);
    }

    /// A message changes the thread that gets it, and nothing else about threads.
    pub proof fn lemma_delivered(
        self,
        tid: usize,
        a0: u64,
        regs: Option<Seq<u64>>,
        msg: Option<Seq<u64>>,
    )
        requires
            self.wf(),
            tid < self.threads.len(),
            self.threads[tid as int].state == ThreadState::Blocked,
            msg matches Some(m) ==> m.len() == 5,
        ensures
            self.delivered(tid, a0, regs, msg).threads == self.threads.update(
                tid as int,
                ThreadView {
                    frame: returned(self.threads[tid as int].frame, a0, regs),
                    ipc_msg: msg,
                    state: ThreadState::Ready,
                    ..self.threads[tid as int]
                },
            ),
            self.delivered(tid, a0, regs, msg).current == self.current,
            self.delivered(tid, a0, regs, msg).wf(),
    {
        let t0 = self.threads[tid as int];
        assert(t0.ok());
        let t = ThreadView { frame: returned(t0.frame, a0, regs), ipc_msg: msg, ..t0 };
        self.lemma_detail_changed(tid, t);
        let a = self.with_thread(tid as int, t);
        a.lemma_ready_again(tid);
        let b = a.enqueue(tid as int);
        let keep = |x: Donation| !seq![tid].contains(x.donor_tid);
        let u = SchedView { donations: not_from(b.donations, seq![tid]), ..b };
        b.lemma_fewer_donations(u, keep);
        let ps = peers_of(b.donations, seq![tid]).filter(|p: usize| Some(p) != None::<usize>);
        u.lemma_requeued_all(ps);
        u.lemma_ready_only(u.requeued_all(ps));
        assert(b.threads =~= self.threads.update(
            tid as int,
            ThreadView { state: ThreadState::Ready, ..t },
        ));
    }
}

impl SchedView {
    /// When a core takes its next thread, threads that are not ready stay as they are.
    pub proof fn lemma_switched_threads(self, h: int)
        requires
            0 <= h < MAX_HARTS,
            self.wf_at(h),
        ensures
            self.switched(h, true).threads.len() == self.threads.len(),
            forall|i: int|
                0 <= i < self.threads.len() && self.threads[i].state != ThreadState::Ready
                    ==> #[trigger] self.switched(h, true).threads[i] == self.threads[i],
    {
        let v = SchedView { ticks_run: self.ticks_run.update(h, 0), ..self };
        self.lemma_same_queues(v);
        v.lemma_picked(h, true);
    }

    /// A thread that blocks in a system call is blocked, and so is every thread that was.
    pub proof fn lemma_user_blocked(self, h: int, f: Seq<u64>)
        requires
            self.wf(),
            0 <= h < MAX_HARTS,
            self.current[h] >= MAX_HARTS,
            f.len() == TRAP_FRAME_WORDS,
        ensures
            self.user_blocked(h, f).wf(),
            self.user_blocked(h, f).threads.len() == self.threads.len(),
            self.user_blocked(h, f).threads[self.current[h] as int].state == ThreadState::Blocked,
            forall|i: int|
                0 <= i < self.threads.len() && self.threads[i].state == ThreadState::Blocked ==> (
                #[trigger] self.user_blocked(h, f).threads[i]).state == ThreadState::Blocked
                    && self.user_blocked(h, f).threads[i].proc_id == self.threads[i].proc_id,
            self.user_blocked(h, f).threads[self.current[h] as int].proc_id
                == self.threads[self.current[h] as int].proc_id,
    {
        let c = self.current[h];
        let t0 = self.threads[c as int];
        assert(t0.ok() && t0.state == ThreadState::Running && t0.hart == h);
        let t = ThreadView {
            state: ThreadState::Blocked,
            frame: f,
            frame_valid: true,
            ctx_valid: false,
            woken: false,
            ..t0
        };
        let v = self.with_thread(c as int, t);
        self.lemma_stopped(v, h, t);
        v.lemma_switched_threads(h);
        let w = v.switched(h, true);
        let x = w.threads[c as int];
        assert forall|i: int|
            0 <= i < self.threads.len() && self.threads[i].state == ThreadState::Blocked implies (
        #[trigger] w.threads[i]).state == ThreadState::Blocked && w.threads[i].proc_id
            == self.threads[i].proc_id by {
            assert(i != c);
        }
    }
}

impl SchedView {
    /// A tick of the timer leaves blocked threads alone, and the processes of all.
    pub proof fn lemma_ticked_threads(self, h: int, frame: Seq<u64>, gp: u64)
        requires
            0 <= h < MAX_HARTS,
            self.wf(),
            frame.len() == TRAP_FRAME_WORDS,
        ensures
            self.ticked(h, frame, gp).0.threads.len() == self.threads.len(),
            forall|i: int|
                0 <= i < self.threads.len() ==> (#[trigger] self.ticked(h, frame, gp).0.threads[i]).proc_id
                    == self.threads[i].proc_id,
            forall|i: int|
                0 <= i < self.threads.len() && self.threads[i].state == ThreadState::Blocked ==> (
                #[trigger] self.ticked(h, frame, gp).0.threads[i]).state == ThreadState::Blocked,
    {
        let c = self.current[h];
        assert(self.threads[c as int].state == ThreadState::Running);
        let fresh = SchedView { ticks_run: self.ticks_run.update(h, 0), ..self };
        self.lemma_ticks_only(fresh);
        fresh.lemma_interrupted(h, frame);
        let v = fresh.interrupted(h, frame);
        v.lemma_picked(h, false);
        let w = v.picked(h, false);
        let z = self.ticked(h, frame, gp).0;
        assert forall|i: int| 0 <= i < self.threads.len() implies (#[trigger] z.threads[i]).proc_id
            == self.threads[i].proc_id && (self.threads[i].state == ThreadState::Blocked
            ==> z.threads[i].state == ThreadState::Blocked) by {
            let a = v.threads[i];
            let b = w.threads[i];
        }
    }

    /// What the core runs ends; blocked threads and the processes of all stay.
    pub proof fn lemma_exited_threads(self, h: int)
        requires
            self.wf(),
            0 <= h < MAX_HARTS,
            self.current[h] >= MAX_HARTS,
        ensures
            self.exited(h).wf(),
            self.exited(h).threads.len() == self.threads.len(),
            self.exited(h).threads[self.current[h] as int].state == ThreadState::Exited,
            forall|i: int|
                0 <= i < self.threads.len() && self.threads[i].state == ThreadState::Blocked ==> (
                #[trigger] self.exited(h).threads[i]).state == ThreadState::Blocked
                    && self.exited(h).threads[i].proc_id == self.threads[i].proc_id,
    {
        let c = self.current[h];
        let t0 = self.threads[c as int];
        assert(t0.ok() && t0.state == ThreadState::Running && t0.hart == h);
        let t = ThreadView {
            state: ThreadState::Exited,
            frame_valid: false,
            ctx_valid: true,
            stack: None,
            ..t0
        };
        let e = SchedView {
            reaper: match t0.stack {
                Some(s) => self.reaper.push(s),
                None => self.reaper,
            },
            free_slots: self.free_slots.push(c),
            ..self
        };
        let v = e.with_thread(c as int, t);
        self.lemma_stopped(v, h, t);
        v.lemma_switched_threads(h);
        let w = v.switched(h, true);
        let x = w.threads[c as int];
        assert forall|i: int|
            0 <= i < self.threads.len() && self.threads[i].state == ThreadState::Blocked implies (
        #[trigger] w.threads[i]).state == ThreadState::Blocked && w.threads[i].proc_id
            == self.threads[i].proc_id by {
            assert(i != c);
        }
    }
}

} // verus!
