//! What the scheduler promises: the best priority first, in turn within a priority, nothing
//! forgotten, and no thread held up by one of worse priority that it does not wait for.

use vstd::prelude::*;
use crate::arch::{MAX_HARTS, TRAP_FRAME_WORDS};
use crate::runqueue::{
    boosted, but_for, donor_at, expanded, law_boosted_is_best, lemma_donor_at, lemma_filter,
    not_from, not_to, peers_of, Donation, SchedView, ThreadState, ThreadView, MAX_THREADS,
    QUEUES,
};
use crate::sched::SLICE_TICKS;

verus! {

impl SchedView {
    /// Every thread in a queue stands in the one of its core and of the priority that counts for
    /// it.
    pub open spec fn levels_ok(self) -> bool {
        forall|q: int, i: int|
            #![trigger self.ready[q][i]]
            0 <= q < QUEUES && 0 <= i < self.ready[q].len() ==> self.at_level(q, self.ready[q][i])
    }

    /// Queue `q` is the one for the thread.
    pub open spec fn at_level(self, q: int, x: usize) -> bool {
        &&& x < self.threads.len()
        &&& q == Self::qi(self.threads[x as int].hart as int, self.eff_prio(x as int) as int)
    }

    /// A thread lends its priority only while it is blocked: what a core runs has lent nothing.
    pub open spec fn lent_ok(self) -> bool {
        forall|k: int|
            0 <= k < self.donations.len() ==> (#[trigger] self.donations[k]).donor_tid
                < self.threads.len() && self.threads[self.donations[k].donor_tid as int].state
                == ThreadState::Blocked
    }

    /// Priorities are in order: every thread in a queue stands where its priority puts it, and a
    /// thread lends only while it is blocked.
    pub open spec fn prios_ok(self) -> bool {
        self.levels_ok() && self.lent_ok()
    }

    /// The two agree on what decides the queue of a thread.
    pub open spec fn agrees(self, v: SchedView, x: usize) -> bool {
        &&& v.threads[x as int].prio == self.threads[x as int].prio
        &&& v.threads[x as int].proc_id == self.threads[x as int].proc_id
        &&& v.threads[x as int].hart == self.threads[x as int].hart
    }

    pub proof fn lemma_levels_same(self, v: SchedView)
        requires
            self.levels_ok(),
            v.donations == self.donations,
            v.ready == self.ready,
            v.threads.len() >= self.threads.len(),
            forall|q: int, i: int|
                #![trigger self.ready[q][i]]
                0 <= q < QUEUES && 0 <= i < self.ready[q].len() ==> self.agrees(v, self.ready[q][i]),
        ensures
            v.levels_ok(),
    {
        assert forall|q: int, i: int|
            #![trigger v.ready[q][i]]
            0 <= q < QUEUES && 0 <= i < v.ready[q].len() implies v.at_level(q, v.ready[q][i]) by {
            assert(self.at_level(q, self.ready[q][i]));
            assert(self.agrees(v, self.ready[q][i]));
        }
    }

    proof fn lemma_levels_enqueue(self, id: int)
        requires
            self.levels_ok(),
            self.shape_ok(),
            0 <= id < self.threads.len(),
        ensures
            self.enqueue(id).levels_ok(),
    {
        let v = self.enqueue(id);
        self.lemma_eff_prio(id);
        assert(self.threads.len() <= MAX_THREADS);
        assert forall|q: int, i: int|
            #![trigger v.ready[q][i]]
            0 <= q < QUEUES && 0 <= i < v.ready[q].len() implies v.at_level(q, v.ready[q][i]) by {
            if i < self.ready[q].len() {
                assert(v.ready[q][i] == self.ready[q][i]);
                assert(self.at_level(q, self.ready[q][i]));
            }
        }
    }

    proof fn lemma_levels_picked(self, h: int, need_ctx: bool)
        requires
            self.levels_ok(),
            0 <= h < MAX_HARTS,
            self.ready.len() == QUEUES,
        ensures
            self.picked(h, need_ctx).levels_ok(),
    {
        let v = self.picked(h, need_ctx);
        match self.best_level(h, need_ctx) {
            Some(l) => {
                let s = self.ready[Self::qi(h, l)];
                self.lemma_first(s, need_ctx, 0);
                let k = self.first(h, l, need_ctx);
                assert forall|q: int, i: int|
                    #![trigger v.ready[q][i]]
                    0 <= q < QUEUES && 0 <= i < v.ready[q].len() implies v.at_level(
                    q,
                    v.ready[q][i],
                ) by {
                    if q == Self::qi(h, l) {
                        let j = if i < s.len() - k - 1 {
                            i + k + 1
                        } else {
                            i - (s.len() - k - 1)
                        };
                        assert(v.ready[q][i] == s[j]);
                        assert(self.at_level(q, self.ready[q][j]));
                    } else {
                        assert(self.at_level(q, self.ready[q][i]));
                    }
                }
            },
            None => {},
        }
    }

    pub proof fn lemma_levels_switched(self, h: int)
        requires
            self.levels_ok(),
            0 <= h < MAX_HARTS,
            self.ready.len() == QUEUES,
        ensures
            self.switched(h, true).levels_ok(),
    {
        let v = SchedView { ticks_run: self.ticks_run.update(h, 0), ..self };
        self.lemma_levels_same(v);
        v.lemma_levels_picked(h, true);
        v.picked(h, true).lemma_levels_same(self.switched(h, true));
    }
}

impl SchedView {
    /// Where threads stand after the ready threads of a process were put back one by one.
    proof fn lemma_enqueue_all_levels(self, ids: Seq<usize>, q: int, i: int)
        requires
            self.shape_ok(),
            forall|k: int| 0 <= k < ids.len() ==> (#[trigger] ids[k]) < self.threads.len(),
            0 <= q < QUEUES,
            0 <= i < self.enqueue_all(ids).ready[q].len(),
        ensures
            self.enqueue_all(ids).shape_ok(),
            self.enqueue_all(ids).donations == self.donations,
            self.enqueue_all(ids).threads.len() == self.threads.len(),
            forall|x: usize| x < self.threads.len() ==> #[trigger] self.agrees(self.enqueue_all(ids), x),
            ({
                let x = self.enqueue_all(ids).ready[q][i];
                ||| self.ready[q].contains(x)
                ||| ids.contains(x) && self.at_level(q, x)
            }),
        decreases ids.len(),
    {
        if ids.len() == 0 {
            assert(self.ready[q].contains(self.ready[q][i]));
        } else {
            let a = ids.drop_last();
            let v = self.enqueue_all(a);
            let w = self.enqueue_all(ids);
            let y = ids.last();
            self.lemma_enqueue_all_frame(a);
            assert(ids[ids.len() - 1] == y);
            v.lemma_enqueue_shape(y as int);
            v.lemma_eff_prio(y as int);
            if i < v.ready[q].len() {
                self.lemma_enqueue_all_levels(a, q, i);
                let x = v.ready[q][i];
                assert(w.ready[q][i] == x);
                if a.contains(x) {
                    let k = choose|k: int| 0 <= k < a.len() && a[k] == x;
                    assert(ids[k] == x);
                }
            } else {
                assert(w.ready[q][i] == y);
                assert(v.at_level(q, y));
                assert(self.agrees(v, y));
            }
            assert forall|x: usize| x < self.threads.len() implies #[trigger] self.agrees(w, x) by {
                assert(self.agrees(v, x));
            }
        }
    }

    proof fn lemma_enqueue_all_frame(self, ids: Seq<usize>)
        requires
            self.shape_ok(),
            forall|k: int| 0 <= k < ids.len() ==> (#[trigger] ids[k]) < self.threads.len(),
        ensures
            self.enqueue_all(ids).shape_ok(),
            self.enqueue_all(ids).donations == self.donations,
            self.enqueue_all(ids).threads.len() == self.threads.len(),
            forall|x: usize| x < self.threads.len() ==> #[trigger] self.agrees(self.enqueue_all(ids), x),
        decreases ids.len(),
    {
        if ids.len() > 0 {
            let a = ids.drop_last();
            let v = self.enqueue_all(a);
            let y = ids.last();
            self.lemma_enqueue_all_frame(a);
            assert(ids[ids.len() - 1] == y);
            v.lemma_enqueue_shape(y as int);
            assert forall|x: usize| x < self.threads.len() implies #[trigger] self.agrees(
                self.enqueue_all(ids),
                x,
            ) by {
                assert(self.agrees(v, x));
            }
        }
    }

    /// Where threads stand after those of a process were sorted anew.
    proof fn lemma_requeued_levels(self, p: usize)
        requires
            self.shape_ok(),
            self.queues_ok(Set::empty()),
        ensures
            forall|q: int, i: int|
                #![trigger self.requeued(p).ready[q][i]]
                0 <= q < QUEUES && 0 <= i < self.requeued(p).ready[q].len() ==> {
                    let x = self.requeued(p).ready[q][i];
                    &&& x < self.threads.len()
                    &&& self.owned(p, x) ==> self.at_level(q, x)
                    &&& !self.owned(p, x) ==> self.ready[q].contains(x)
                },
    {
        let v = self.stripped(p);
        let c = self.collected(p, QUEUES as int);
        let keep = |id: usize| !self.owned(p, id);
        let w = self.requeued(p);
        self.lemma_stripped(p);
        self.lemma_collected(Set::empty(), p, QUEUES as int);
        assert forall|k: int| 0 <= k < c.len() implies (#[trigger] c[k]) < v.threads.len() by {
            assert(c.contains(c[k]));
            let q = choose|q: int| 0 <= q < QUEUES && (#[trigger] self.ready[q]).contains(c[k]);
            self.lemma_once(Set::empty(), q, q, c[k]);
        }
        assert forall|q: int, i: int|
            #![trigger w.ready[q][i]]
            0 <= q < QUEUES && 0 <= i < w.ready[q].len() implies {
            let x = w.ready[q][i];
            &&& x < self.threads.len()
            &&& self.owned(p, x) ==> self.at_level(q, x)
            &&& !self.owned(p, x) ==> self.ready[q].contains(x)
        } by {
            let x = w.ready[q][i];
            v.lemma_enqueue_all_levels(c, q, i);
            if v.ready[q].contains(x) {
                assert(v.ready[q] == self.ready[q].filter(keep));
                lemma_filter(self.ready[q], keep);
                self.lemma_once(Set::empty(), q, q, x);
            } else {
                assert(c.contains(x));
                let k = choose|k: int| 0 <= k < c.len() && c[k] == x;
                assert(c[k] < v.threads.len());
            }
        }
    }

    proof fn lemma_requeued_all_levels(self, procs: Seq<usize>)
        requires
            self.shape_ok(),
            self.queues_ok(Set::empty()),
        ensures
            forall|q: int, i: int|
                #![trigger self.requeued_all(procs).ready[q][i]]
                0 <= q < QUEUES && 0 <= i < self.requeued_all(procs).ready[q].len() ==> {
                    let x = self.requeued_all(procs).ready[q][i];
                    &&& x < self.threads.len()
                    &&& self.at_level(q, x) || self.ready[q].contains(x)
                    &&& (self.threads[x as int].proc_id matches Some(p) && procs.contains(p))
                        ==> self.at_level(q, x)
                },
        decreases procs.len(),
    {
        let w = self.requeued_all(procs);
        if procs.len() == 0 {
            assert forall|q: int, i: int|
                #![trigger w.ready[q][i]]
                0 <= q < QUEUES && 0 <= i < w.ready[q].len() implies w.ready[q][i]
                < self.threads.len() && self.ready[q].contains(w.ready[q][i]) by {
                assert(self.ready[q].contains(self.ready[q][i]));
                self.lemma_once(Set::empty(), q, q, self.ready[q][i]);
            }
        } else {
            let a = procs.drop_last();
            let l = procs.last();
            let v = self.requeued_all(a);
            self.lemma_requeued_all_levels(a);
            self.lemma_requeued_all(a);
            v.lemma_requeued_levels(l);
            assert forall|q: int, i: int|
                #![trigger w.ready[q][i]]
                0 <= q < QUEUES && 0 <= i < w.ready[q].len() implies {
                let x = w.ready[q][i];
                &&& x < self.threads.len()
                &&& self.at_level(q, x) || self.ready[q].contains(x)
                &&& (self.threads[x as int].proc_id matches Some(p) && procs.contains(p))
                    ==> self.at_level(q, x)
            } by {
                let x = w.ready[q][i];
                assert(w == v.requeued(l));
                assert(v.requeued(l).ready[q][i] == x);
                if v.owned(l, x) {
                    assert(v.at_level(q, x));
                } else {
                    let j = choose|j: int| 0 <= j < v.ready[q].len() && v.ready[q][j] == x;
                    assert(v.ready[q][j] == x);
                    if let Some(p) = self.threads[x as int].proc_id {
                        if procs.contains(p) {
                            let k = choose|k: int| 0 <= k < procs.len() && procs[k] == p;
                            assert(a[k] == p);
                        }
                    }
                }
            }
        }
    }
}

/// Donations to other processes do not count.
proof fn lemma_boosted_push(d: Seq<Donation>, x: Donation, p: usize, prio: u8)
    requires
        x.peer_proc != p,
    ensures
        boosted(d.push(x), p, prio) == boosted(d, p, prio),
{
    assert(d.push(x).drop_last() =~= d);
}

proof fn lemma_boosted_update(d: Seq<Donation>, k: int, x: Donation, p: usize, prio: u8)
    requires
        0 <= k < d.len(),
        x.peer_proc != p,
        d[k].peer_proc != p,
    ensures
        boosted(d.update(k, x), p, prio) == boosted(d, p, prio),
    decreases d.len(),
{
    let e = d.update(k, x);
    if k == d.len() - 1 {
        assert(e.drop_last() =~= d.drop_last());
    } else {
        assert(e.drop_last() =~= d.drop_last().update(k, x));
        lemma_boosted_update(d.drop_last(), k, x, p, prio);
    }
}

proof fn lemma_boosted_filter(d: Seq<Donation>, keep: spec_fn(Donation) -> bool, p: usize, prio: u8)
    requires
        forall|k: int| 0 <= k < d.len() && !keep(#[trigger] d[k]) ==> d[k].peer_proc != p,
    ensures
        boosted(d.filter(keep), p, prio) == boosted(d, p, prio),
    decreases d.len(),
{
    reveal(Seq::filter);
    if d.len() > 0 {
        let e = d.drop_last();
        assert forall|k: int| 0 <= k < e.len() && !keep(#[trigger] e[k]) implies e[k].peer_proc != p by {
            assert(d[k] == e[k]);
        }
        lemma_boosted_filter(e, keep, p, prio);
        let l = d[d.len() - 1];
        if keep(l) {
            assert(d.filter(keep) =~= e.filter(keep).push(l));
            assert(e.filter(keep).push(l).drop_last() =~= e.filter(keep));
        } else {
            assert(d.filter(keep) =~= e.filter(keep));
        }
    }
}

proof fn lemma_peers_of(d: Seq<Donation>, tids: Seq<usize>)
    ensures
        forall|k: int|
            0 <= k < d.len() && tids.contains((#[trigger] d[k]).donor_tid) ==> peers_of(
                d,
                tids,
            ).contains(d[k].peer_proc),
    decreases d.len(),
{
    if d.len() > 0 {
        let e = d.drop_last();
        let r = peers_of(e, tids);
        let s = peers_of(d, tids);
        lemma_peers_of(e, tids);
        assert forall|k: int| 0 <= k < d.len() && tids.contains((#[trigger] d[k]).donor_tid) implies s.contains(
            d[k].peer_proc,
        ) by {
            if k < e.len() {
                assert(e[k] == d[k]);
                assert(r.contains(d[k].peer_proc));
                let j = choose|j: int| 0 <= j < r.len() && r[j] == d[k].peer_proc;
                assert(s[j] == d[k].peer_proc);
            } else if r.contains(d.last().peer_proc) {
                let j = choose|j: int| 0 <= j < r.len() && r[j] == d.last().peer_proc;
                assert(s[j] == d.last().peer_proc);
            } else {
                assert(s[r.len() as int] == d.last().peer_proc);
            }
        }
    }
}

/// Law: the thread that a core takes next has the best priority of those that it can take, and of
/// those with that priority it has waited longest. It belongs to the core.
pub proof fn law_best_first(v: SchedView, h: int, need_ctx: bool, q: int, i: int)
    requires
        v.wf(),
        v.levels_ok(),
        0 <= h < MAX_HARTS,
        0 <= q < QUEUES,
        0 <= i < v.ready[q].len(),
        v.threads[v.ready[q][i] as int].hart == h,
        v.eligible(v.ready[q][i], need_ctx),
    ensures
        ({
            let x = v.next(h, need_ctx);
            &&& v.eligible(x, need_ctx)
            &&& v.threads[x as int].hart == h
            &&& v.eff_prio(x as int) <= v.eff_prio(v.ready[q][i] as int)
            &&& v.eff_prio(x as int) == v.eff_prio(v.ready[q][i] as int) ==> exists|j: int|
                0 <= j <= i && #[trigger] v.ready[q][j] == x
        }),
{
    let y = v.ready[q][i];
    assert(v.at_level(q, v.ready[q][i]));
    assert(y < v.threads.len()) by {
        reveal(SchedView::queues_ok);
        assert(v.entry_ok(q, v.ready[q][i]));
    }
    v.lemma_eff_prio(y as int);
    let l = v.eff_prio(y as int) as int;
    assert(q == SchedView::qi(h, l));
    v.lemma_first(v.ready[SchedView::qi(h, 0)], need_ctx, 0);
    v.lemma_first(v.ready[SchedView::qi(h, 1)], need_ctx, 0);
    v.lemma_first(v.ready[SchedView::qi(h, 2)], need_ctx, 0);
    assert(v.first(h, l, need_ctx) <= i) by {
        if v.first(h, l, need_ctx) > i {
            assert(!v.eligible(v.ready[q][i], need_ctx));
        }
    }
    assert(v.has(h, l, need_ctx));
    let b = v.best_level(h, need_ctx)->0;
    assert(v.best_level(h, need_ctx) is Some && b <= l);
    let k = v.first(h, b, need_ctx);
    let x = v.next(h, need_ctx);
    assert(v.ready[SchedView::qi(h, b)][k] == x);
    assert(v.at_level(SchedView::qi(h, b), v.ready[SchedView::qi(h, b)][k]));
    assert(x < v.threads.len() && v.threads[x as int].hart == h) by {
        reveal(SchedView::queues_ok);
        assert(v.entry_ok(SchedView::qi(h, b), v.ready[SchedView::qi(h, b)][k]));
    }
    assert(v.eff_prio(x as int) == b);
    if b == l {
        assert(v.ready[q][k] == x);
    }
}

/// Law: a thread that is ready stands in exactly one queue, once, and that queue is one of its own
/// core; no other thread stands in a queue.
pub proof fn law_ready_is_queued_once(v: SchedView, id: usize)
    requires
        v.wf(),
        id < v.threads.len(),
    ensures
        v.queued(id) <==> v.threads[id as int].state == ThreadState::Ready,
        forall|q: int, i: int, r: int, j: int|
            #![trigger v.ready[q][i], v.ready[r][j]]
            0 <= q < QUEUES && 0 <= i < v.ready[q].len() && v.ready[q][i] == id && 0 <= r < QUEUES
                && 0 <= j < v.ready[r].len() && v.ready[r][j] == id ==> q == r && i == j,
        forall|q: int, i: int|
            #![trigger v.ready[q][i]]
            0 <= q < QUEUES && 0 <= i < v.ready[q].len() && v.ready[q][i] == id ==> 3
                * v.threads[id as int].hart <= q < 3 * v.threads[id as int].hart + 3,
{
    reveal(SchedView::queues_ok);
    if v.queued(id) {
        v.lemma_queued(Set::empty(), id);
    }
    let t = v.threads[id as int];
    assert forall|q: int, i: int|
        #![trigger v.ready[q][i]]
        0 <= q < QUEUES && 0 <= i < v.ready[q].len() && v.ready[q][i] == id implies 3
        * v.threads[id as int].hart <= q < 3 * v.threads[id as int].hart + 3 by {
        assert(v.entry_ok(q, v.ready[q][i]));
    }
}

/// Law: no two cores run the same thread, and each core runs one of its own.
pub proof fn law_cores_run_their_own(v: SchedView, g: int, h: int)
    requires
        v.wf(),
        0 <= g < MAX_HARTS,
        0 <= h < MAX_HARTS,
    ensures
        v.threads[v.current[h] as int].hart == h,
        v.threads[v.current[h] as int].state == ThreadState::Running,
        g != h ==> v.current[g] != v.current[h],
{
    let x = v.current[g];
    let y = v.current[h];
}

/// Law: a thread that gives way goes behind all others of its priority.
pub proof fn law_yield_goes_last(v: SchedView, h: int)
    requires
        v.wf(),
        0 <= h < MAX_HARTS,
    ensures
        ({
            let c = v.current[h];
            let w = v.gave_way(h).enqueue(c as int);
            let q = SchedView::qi(h, v.eff_prio(c as int) as int);
            &&& v.yielded(h) == w.switched(h, true)
            &&& w.ready[q] == v.ready[q].push(c)
            &&& w.threads[c as int].ctx_valid
            &&& !w.threads[c as int].frame_valid
        }),
{
    v.lemma_yielded(h);
    let c = v.current[h];
    assert(v.threads[c as int].hart == h);
    v.lemma_eff_prio(c as int);
}

/// Law: a thread that is woken before it blocks does not block.
pub proof fn law_wake_is_not_lost(v: SchedView, h: int)
    requires
        v.wf(),
        0 <= h < MAX_HARTS,
    ensures
        ({
            let c = v.current[h];
            let w = v.awoken(c).blocked(h);
            &&& w.current == v.current
            &&& w.threads[c as int].state == ThreadState::Running
            &&& !w.threads[c as int].woken
            &&& w.ready == v.ready
        }),
{
    let c = v.current[h];
    assert(v.threads[c as int].state == ThreadState::Running);
}

/// Law: a blocked thread that is woken is ready, and the timer may switch to it.
pub proof fn law_woken_is_ready(v: SchedView, id: usize)
    requires
        v.wf(),
        id < v.threads.len(),
        v.threads[id as int].state == ThreadState::Blocked,
    ensures
        v.awoken(id).threads[id as int].state == ThreadState::Ready,
        v.awoken(id).threads[id as int].preemptable(),
        v.awoken(id).queued(id),
{
    v.lemma_awoken(id);
    assert(v.threads[id as int].resumable());
    law_ready_is_queued_once(v.awoken(id), id);
}

/// Law: when a thread of better priority can be switched to, the next tick of the timer switches
/// to it, however little of the time slice is used. The thread that was interrupted can be
/// resumed from its frame only.
pub proof fn law_better_priority_preempts(v: SchedView, h: int, frame: Seq<u64>, gp: u64)
    requires
        v.wf(),
        v.levels_ok(),
        0 <= h < MAX_HARTS,
        frame.len() == TRAP_FRAME_WORDS,
        v.better_waits(h),
    ensures
        ({
            let (w, r) = v.ticked(h, frame, gp);
            let c = v.current[h] as int;
            &&& r is Some
            &&& w.current[h] == r->0
            &&& v.eff_prio(r->0 as int) < v.eff_prio(c)
            &&& w.threads[r->0 as int].frame_valid
            &&& w.threads[c].state == ThreadState::Ready
            &&& w.threads[c].frame == frame
            &&& w.threads[c].frame_valid && !w.threads[c].ctx_valid
        }),
{
    let c = v.current[h];
    let p = v.eff_prio(c as int);
    let fresh = SchedView { ticks_run: v.ticks_run.update(h, 0), ..v };
    v.lemma_ticks_only(fresh);
    v.lemma_same_has(fresh, h);
    assert(v.threads[c as int].state == ThreadState::Running && v.threads[c as int].hart == h);
    v.lemma_eff_prio(c as int);
    fresh.lemma_interrupted(h, frame);
    let w = fresh.interrupted(h, frame);
    // Better levels are not touched.
    let l: int = if p > 0 && v.has(h, 0, false) {
        0
    } else {
        1
    };
    assert(v.has(h, l, false) && l < p);
    assert forall|m: int| 0 <= m < p implies #[trigger] w.has(h, m, false) == v.has(h, m, false)
        && w.ready[SchedView::qi(h, m)] == v.ready[SchedView::qi(h, m)] && w.first(h, m, false)
        == v.first(h, m, false) by {
        let s = v.ready[SchedView::qi(h, m)];
        assert(w.ready[SchedView::qi(h, m)] == s);
        assert(!s.contains(c)) by {
            if s.contains(c) {
                v.lemma_once(Set::empty(), SchedView::qi(h, m), SchedView::qi(h, m), c);
            }
        }
        assert forall|k: int| 0 <= k < s.len() implies #[trigger] s[k] < v.threads.len() by {
            assert(v.at_level(SchedView::qi(h, m), v.ready[SchedView::qi(h, m)][k]));
        }
        lemma_first_same(v, w, s, c, 0);
    }
    assert(w.has(h, l, false));
    assert(w.best_level(h, false) == v.best_level(h, false)) by {
        assert(w.has(h, 0, false) == v.has(h, 0, false));
        if l == 1 {
            assert(w.has(h, 1, false) == v.has(h, 1, false));
        }
    }
    let b = v.best_level(h, false)->0;
    assert(b == l);
    let s = v.ready[SchedView::qi(h, b)];
    let k = v.first(h, b, false);
    v.lemma_first(s, false, 0);
    let n = w.next(h, false);
    assert(n == s[k]);
    assert(v.at_level(SchedView::qi(h, b), v.ready[SchedView::qi(h, b)][k]));
    assert(n != c && n < v.threads.len() && v.threads[n as int].hart == h) by {
        reveal(SchedView::queues_ok);
        assert(v.entry_ok(SchedView::qi(h, b), v.ready[SchedView::qi(h, b)][k]));
    }
    assert(v.eff_prio(n as int) == b);
}

/// The first thread that the timer can switch to is the same, when only a thread that is not in
/// the queue changed.
proof fn lemma_first_same(v: SchedView, w: SchedView, s: Seq<usize>, c: usize, i: int)
    requires
        0 <= i <= s.len(),
        !s.contains(c),
        forall|k: int| 0 <= k < s.len() ==> #[trigger] s[k] < v.threads.len(),
        w.threads.len() == v.threads.len(),
        forall|x: int| 0 <= x < v.threads.len() && x != c ==> #[trigger] w.threads[x] == v.threads[x],
    ensures
        w.first_from(s, false, i) == v.first_from(s, false, i),
    decreases s.len() - i,
{
    if i < s.len() {
        assert(s.contains(s[i]));
        assert(s[i] < v.threads.len());
        assert(w.threads[s[i] as int] == v.threads[s[i] as int]);
        lemma_first_same(v, w, s, c, i + 1);
    }
}

/// Law: while a thread has time left and nothing better waits, a tick changes only the count.
pub proof fn law_slice_is_kept(v: SchedView, h: int, frame: Seq<u64>, gp: u64)
    requires
        v.wf(),
        0 <= h < MAX_HARTS,
        v.ticks_run[h] + 1 < SLICE_TICKS,
        !v.better_waits(h),
    ensures
        v.ticked(h, frame, gp) == (
            SchedView {
                ticks_run: v.ticks_run.update(h, (v.ticks_run[h] + 1) as u64),
                ..v
            },
            None::<usize>,
        ),
{
}

/// Law: while a thread lends its priority to a process, the threads of that process count at least
/// as much; those that are ready stand in the queue of that priority at once.
pub proof fn law_donation_lifts(v: SchedView, tid: usize, peer: usize, x: usize)
    requires
        v.wf(),
        tid < v.threads.len(),
        x < v.threads.len(),
        v.owned(peer, x),
    ensures
        v.donated(tid, peer).eff_prio(x as int) <= v.eff_prio(tid as int),
        forall|q: int, i: int|
            #![trigger v.donated(tid, peer).ready[q][i]]
            0 <= q < QUEUES && 0 <= i < v.donated(tid, peer).ready[q].len() && v.donated(
                tid,
                peer,
            ).ready[q][i] == x ==> v.donated(tid, peer).at_level(q, x),
{
    let d = Donation { donor_tid: tid, peer_proc: peer, prio: v.eff_prio(tid as int) };
    let k = donor_at(v.donations, tid, 0);
    lemma_donor_at(v.donations, tid, 0);
    let all = if k < v.donations.len() {
        v.donations.update(k, d)
    } else {
        v.donations.push(d)
    };
    let u = SchedView { donations: all, ..v };
    let w = v.donated(tid, peer);
    assert(w == u.requeued(peer));
    v.lemma_donations_only(u);
    u.lemma_requeued(peer);
    u.lemma_requeued_levels(peer);
    law_boosted_is_best(all, peer, v.threads[x as int].prio);
    assert(all[k] == d);
    assert forall|q: int, i: int|
        #![trigger w.ready[q][i]]
        0 <= q < QUEUES && 0 <= i < w.ready[q].len() && w.ready[q][i] == x implies w.at_level(q, x) by {
        assert(u.requeued(peer).ready[q][i] == x);
        assert(u.owned(peer, x));
        assert(u.at_level(q, x));
    }
}

/// Law: lending keeps every thread in the queue of its priority, when the thread that lends did
/// not lend to another process before.
pub proof fn law_levels_donated(v: SchedView, tid: usize, peer: usize)
    requires
        v.wf(),
        v.levels_ok(),
        tid < v.threads.len(),
        forall|k: int|
            0 <= k < v.donations.len() && (#[trigger] v.donations[k]).donor_tid == tid
                ==> v.donations[k].peer_proc == peer,
    ensures
        v.donated(tid, peer).levels_ok(),
{
    let d = Donation { donor_tid: tid, peer_proc: peer, prio: v.eff_prio(tid as int) };
    let k = donor_at(v.donations, tid, 0);
    lemma_donor_at(v.donations, tid, 0);
    let all = if k < v.donations.len() {
        v.donations.update(k, d)
    } else {
        v.donations.push(d)
    };
    let u = SchedView { donations: all, ..v };
    let w = v.donated(tid, peer);
    v.lemma_donations_only(u);
    u.lemma_requeued(peer);
    u.lemma_requeued_levels(peer);
    assert forall|q: int, i: int|
        #![trigger w.ready[q][i]]
        0 <= q < QUEUES && 0 <= i < w.ready[q].len() implies w.at_level(q, w.ready[q][i]) by {
        let x = w.ready[q][i];
        assert(u.requeued(peer).ready[q][i] == x);
        if !u.owned(peer, x) {
            assert(v.ready[q].contains(x));
            let j = choose|j: int| 0 <= j < v.ready[q].len() && v.ready[q][j] == x;
            assert(v.at_level(q, v.ready[q][j]));
            if let Some(p) = v.threads[x as int].proc_id {
                if k < v.donations.len() {
                    lemma_boosted_update(v.donations, k, d, p, v.threads[x as int].prio);
                } else {
                    lemma_boosted_push(v.donations, d, p, v.threads[x as int].prio);
                }
            }
        }
    }
}

/// Law: when threads take back what they lent, every thread stands in the queue of the priority
/// that is left to it.
pub proof fn law_levels_undonated(v: SchedView, tids: Seq<usize>)
    requires
        v.wf(),
        v.levels_ok(),
    ensures
        v.undonated(tids, None).levels_ok(),
        forall|k: int|
            0 <= k < v.undonated(tids, None).donations.len() ==> !tids.contains(
                (#[trigger] v.undonated(tids, None).donations[k]).donor_tid,
            ),
{
    lemma_undonated_levels(v, tids, None);
}

/// The same, where a process of which no thread is queued is not sorted anew.
proof fn lemma_undonated_levels(v: SchedView, tids: Seq<usize>, skip: Option<usize>)
    requires
        v.wf(),
        v.levels_ok(),
        forall|q: int, i: int|
            #![trigger v.ready[q][i]]
            0 <= q < QUEUES && 0 <= i < v.ready[q].len() && skip is Some ==> v.threads[v.ready[q][i] as int].proc_id
                != skip,
    ensures
        v.undonated(tids, skip).levels_ok(),
        v.undonated(tids, skip).wf(),
        v.undonated(tids, skip) == (SchedView {
            ready: v.undonated(tids, skip).ready,
            donations: not_from(v.donations, tids),
            ..v
        }),
        forall|k: int|
            0 <= k < v.undonated(tids, skip).donations.len() ==> !tids.contains(
                (#[trigger] v.undonated(tids, skip).donations[k]).donor_tid,
            ),
{
    let keep = |x: Donation| !tids.contains(x.donor_tid);
    let u = SchedView { donations: not_from(v.donations, tids), ..v };
    let want = |p: usize| Some(p) != skip;
    let procs = peers_of(v.donations, tids).filter(want);
    let w = v.undonated(tids, skip);
    v.lemma_fewer_donations(u, keep);
    u.lemma_requeued_all(procs);
    u.lemma_requeued_all_levels(procs);
    u.lemma_ready_only(u.requeued_all(procs));
    lemma_peers_of(v.donations, tids);
    lemma_filter(peers_of(v.donations, tids), want);
    assert(w == u.requeued_all(procs));
    assert forall|k: int| 0 <= k < w.donations.len() implies !tids.contains(
        (#[trigger] w.donations[k]).donor_tid,
    ) by {
        lemma_kept(v.donations, keep);
        assert(keep(u.donations[k]));
    }
    assert forall|q: int, i: int|
        #![trigger w.ready[q][i]]
        0 <= q < QUEUES && 0 <= i < w.ready[q].len() implies w.at_level(q, w.ready[q][i]) by {
        let x = w.ready[q][i];
        assert(u.requeued_all(procs).ready[q][i] == x);
        if !u.at_level(q, x) {
            assert(v.ready[q].contains(x));
            let j = choose|j: int| 0 <= j < v.ready[q].len() && v.ready[q][j] == x;
            assert(v.at_level(q, v.ready[q][j]));
            if let Some(p) = v.threads[x as int].proc_id {
                assert(!procs.contains(p));
                assert(want(p));
                assert forall|k: int| 0 <= k < v.donations.len() && !keep(
                    #[trigger] v.donations[k],
                ) implies v.donations[k].peer_proc != p by {}
                lemma_boosted_filter(v.donations, keep, p, v.threads[x as int].prio);
            }
        }
    }
}

proof fn lemma_kept(d: Seq<Donation>, keep: spec_fn(Donation) -> bool)
    ensures
        forall|k: int| 0 <= k < d.filter(keep).len() ==> keep(#[trigger] d.filter(keep)[k]),
    decreases d.len(),
{
    reveal(Seq::filter);
    if d.len() > 0 {
        lemma_kept(d.drop_last(), keep);
    }
}

impl SchedView {
    /// What a thread has to do with its queue stays when its state and its registers change.
    pub proof fn lemma_levels_thread(self, id: int, t: ThreadView)
        requires
            self.levels_ok(),
            0 <= id < self.threads.len(),
            t.prio == self.threads[id].prio,
            t.proc_id == self.threads[id].proc_id,
            t.hart == self.threads[id].hart,
        ensures
            self.with_thread(id, t).levels_ok(),
    {
        let v = self.with_thread(id, t);
        assert forall|q: int, i: int|
            #![trigger self.ready[q][i]]
            0 <= q < QUEUES && 0 <= i < self.ready[q].len() implies self.agrees(v, self.ready[q][i]) by {
            assert(self.at_level(q, self.ready[q][i]));
        }
        self.lemma_levels_same(v);
    }
}

/// Law: giving way, blocking, ending and waking keep every thread in the queue of its priority.
pub proof fn law_levels_switching(v: SchedView, h: int, frame: Seq<u64>, id: usize)
    requires
        v.wf(),
        v.levels_ok(),
        0 <= h < MAX_HARTS,
        frame.len() == TRAP_FRAME_WORDS,
    ensures
        v.yielded(h).levels_ok(),
        v.blocked(h).levels_ok(),
        v.user_blocked(h, frame).levels_ok(),
        v.exited(h).levels_ok(),
        v.awoken(id).levels_ok(),
{
    let c = v.current[h] as int;
    let t = v.threads[c];
    assert(t.ok() && t.state == ThreadState::Running);
    // Giving way.
    let g = SchedView { reaper: Seq::empty(), ..v };
    v.lemma_levels_same(g);
    g.lemma_levels_thread(c, ThreadView { frame_valid: false, ctx_valid: true, ..t });
    v.lemma_yielded(h);
    v.gave_way(h).lemma_levels_enqueue(c);
    v.gave_way(h).enqueue(c).lemma_levels_switched(h);
    // Blocking.
    v.lemma_levels_thread(c, ThreadView { woken: false, ..t });
    let b = ThreadView { state: ThreadState::Blocked, frame_valid: false, ctx_valid: true, ..t };
    v.lemma_levels_thread(c, b);
    v.with_thread(c, b).lemma_levels_switched(h);
    let u = ThreadView {
        state: ThreadState::Blocked,
        frame,
        frame_valid: true,
        ctx_valid: false,
        woken: false,
        ..t
    };
    v.lemma_levels_thread(c, u);
    v.with_thread(c, u).lemma_levels_switched(h);
    // Ending.
    let e = SchedView {
        reaper: match t.stack {
            Some(s) => v.reaper.push(s),
            None => v.reaper,
        },
        free_slots: v.free_slots.push(v.current[h]),
        ..v
    };
    let x = ThreadView {
        state: ThreadState::Exited,
        frame_valid: false,
        ctx_valid: true,
        stack: None,
        ..t
    };
    v.lemma_levels_same(e);
    e.lemma_levels_thread(c, x);
    e.with_thread(c, x).lemma_levels_switched(h);
    // Waking.
    if id < v.threads.len() {
        let y = ThreadView { woken: true, ..v.threads[id as int] };
        v.lemma_awoken(id);
        v.lemma_levels_thread(id as int, y);
        v.with_thread(id as int, y).lemma_levels_enqueue(id as int);
    }
}

/// Law: a tick of the timer keeps every thread in the queue of its priority.
pub proof fn law_levels_ticked(v: SchedView, h: int, frame: Seq<u64>, gp: u64)
    requires
        v.wf(),
        v.levels_ok(),
        0 <= h < MAX_HARTS,
        frame.len() == TRAP_FRAME_WORDS,
    ensures
        v.ticked(h, frame, gp).0.levels_ok(),
{
    let c = v.current[h] as int;
    let t = v.threads[c];
    assert(t.ok() && t.state == ThreadState::Running);
    let n: u64 = if v.ticks_run[h] == u64::MAX {
        0
    } else {
        (v.ticks_run[h] + 1) as u64
    };
    let one = SchedView { ticks_run: v.ticks_run.update(h, n), ..v };
    v.lemma_levels_same(one);
    let fresh = SchedView { ticks_run: v.ticks_run.update(h, 0), ..v };
    v.lemma_levels_same(fresh);
    v.lemma_ticks_only(fresh);
    let f = ThreadView { frame, frame_valid: true, ctx_valid: false, ..t };
    fresh.lemma_levels_thread(c, f);
    fresh.lemma_thread_changed(c as usize, f);
    fresh.with_thread(c, f).lemma_levels_enqueue(c);
    fresh.lemma_interrupted(h, frame);
    let w = fresh.interrupted(h, frame);
    w.lemma_levels_picked(h, false);
    w.lemma_picked(h, false);
    let p = w.picked(h, false);
    let id = w.next(h, false);
    let a = p.threads[id as int];
    let b = if a.frame_valid {
        a
    } else {
        expanded(a, gp)
    };
    p.lemma_levels_thread(id as int, b);
    let m = p.with_thread(id as int, b);
    m.lemma_levels_same(SchedView { current: p.current.update(h, id), ..m });
}

/// Law: a new thread stands in the queue of its priority, and the others stay where they belong.
pub proof fn law_levels_started(v: SchedView, t: ThreadView, p: usize)
    requires
        v.wf(),
        v.levels_ok(),
        v.has_slot(),
        t.ok(),
        t.state == ThreadState::Ready,
        t.resumable(),
    ensures
        v.started(t).levels_ok(),
        t.proc_id is None ==> v.started_owned(t, p).levels_ok(),
{
    v.lemma_started(t);
    let id = v.next_slot();
    let a = v.placed(t);
    assert forall|q: int, i: int|
        #![trigger a.ready[q][i]]
        0 <= q < QUEUES && 0 <= i < a.ready[q].len() implies a.at_level(q, a.ready[q][i]) by {
        let x = v.ready[q][i];
        assert(v.at_level(q, v.ready[q][i]));
        assert(x != id) by {
            reveal(SchedView::queues_ok);
            assert(v.entry_ok(q, v.ready[q][i]));
        }
    }
    a.lemma_levels_enqueue(id as int);
    if t.proc_id is None {
        let s = v.started(t);
        let u = ThreadView { proc_id: Some(p), state: ThreadState::Ready, ..t };
        let b = s.with_thread(id as int, u);
        s.lemma_owner_changed(id, u);
        let w = v.started_owned(t, p);
        b.lemma_requeued(p);
        b.lemma_requeued_levels(p);
        let lent = exists|k: int|
            0 <= k < b.donations.len() && (#[trigger] b.donations[k]).peer_proc == p;
        assert forall|q: int, i: int|
            #![trigger w.ready[q][i]]
            0 <= q < QUEUES && 0 <= i < w.ready[q].len() implies w.at_level(q, w.ready[q][i]) by {
            let x = w.ready[q][i];
            if lent {
                assert(b.requeued(p).ready[q][i] == x);
                if !b.owned(p, x) {
                    let j = choose|j: int| 0 <= j < b.ready[q].len() && b.ready[q][j] == x;
                    assert(s.ready[q][j] == x);
                    assert(s.at_level(q, s.ready[q][j]));
                    assert(x != id);
                }
            } else {
                assert(s.at_level(q, s.ready[q][i]));
                if x == id {
                    law_boosted_is_best(b.donations, p, t.prio);
                }
            }
        }
    }
}

/// Law: moving a thread to another core keeps every thread in the queue of its priority, and the
/// thread stands in a queue of its new core.
pub proof fn law_levels_moved(v: SchedView, id: usize, h: usize)
    requires
        v.wf(),
        v.levels_ok(),
        MAX_HARTS <= id < v.threads.len(),
        h < MAX_HARTS,
        v.threads[id as int].state == ThreadState::Ready || v.threads[id as int].state
            == ThreadState::Blocked,
    ensures
        v.moved(id, h).levels_ok(),
        v.moved(id, h).threads[id as int].hart == h,
{
    let t = v.threads[id as int];
    let u = ThreadView { hart: h, ..t };
    v.lemma_moved(id, h);
    if t.state == ThreadState::Ready && t.hart != h {
        let a = v.unqueued(id);
        let b = a.with_thread(id as int, u);
        assert forall|q: int, i: int|
            #![trigger b.ready[q][i]]
            0 <= q < QUEUES && 0 <= i < b.ready[q].len() implies b.at_level(q, b.ready[q][i]) by {
            let x = b.ready[q][i];
            assert(b.ready[q] == v.ready[q].filter(but_for(id)));
            lemma_filter(v.ready[q], but_for(id));
            assert(b.ready[q].contains(x));
            assert(v.ready[q].contains(x) && x != id);
            let j = choose|j: int| 0 <= j < v.ready[q].len() && v.ready[q][j] == x;
            assert(v.at_level(q, v.ready[q][j]));
        }
        b.lemma_levels_enqueue(id as int);
    } else if t.state == ThreadState::Blocked {
        let b = v.with_thread(id as int, u);
        assert forall|q: int, i: int|
            #![trigger v.ready[q][i]]
            0 <= q < QUEUES && 0 <= i < v.ready[q].len() implies v.agrees(b, v.ready[q][i]) by {
            assert(v.at_level(q, v.ready[q][i]));
            reveal(SchedView::queues_ok);
            assert(v.entry_ok(q, v.ready[q][i]));
        }
        v.lemma_levels_same(b);
    }
}

/// Law: a message wakes the thread that waits for it, takes back what the thread lent, and keeps
/// every thread in the queue of its priority.
pub proof fn law_levels_delivered(
    v: SchedView,
    tid: usize,
    a0: u64,
    regs: Option<Seq<u64>>,
    msg: Option<Seq<u64>>,
)
    requires
        v.wf(),
        v.levels_ok(),
        tid < v.threads.len(),
        v.threads[tid as int].state == ThreadState::Blocked,
        msg matches Some(m) ==> m.len() == 5,
    ensures
        v.delivered(tid, a0, regs, msg).levels_ok(),
        v.delivered(tid, a0, regs, msg).threads[tid as int].state == ThreadState::Ready,
        forall|k: int|
            0 <= k < v.delivered(tid, a0, regs, msg).donations.len() ==> (
            #[trigger] v.delivered(tid, a0, regs, msg).donations[k]).donor_tid != tid,
        v.delivered(tid, a0, regs, msg).donations == not_from(v.donations, seq![tid]),
{
    let t0 = v.threads[tid as int];
    assert(t0.ok());
    let t = ThreadView {
        frame: crate::runqueue::returned(t0.frame, a0, regs),
        ipc_msg: msg,
        ..t0
    };
    v.lemma_levels_thread(tid as int, t);
    v.lemma_detail_changed(tid, t);
    let a = v.with_thread(tid as int, t);
    a.lemma_levels_enqueue(tid as int);
    a.lemma_ready_again(tid);
    let b = a.enqueue(tid as int);
    law_levels_undonated(b, seq![tid]);
    let w = b.undonated(seq![tid], None);
    assert(seq![tid].contains(tid)) by {
        assert(seq![tid][0] == tid);
    }
    let keep = |x: Donation| !seq![tid].contains(x.donor_tid);
    let u = SchedView { donations: not_from(b.donations, seq![tid]), ..b };
    b.lemma_fewer_donations(u, keep);
    u.lemma_requeued_all(
        peers_of(b.donations, seq![tid]).filter(|p: usize| Some(p) != None::<usize>),
    );
    assert(w.threads == b.threads);
}

impl SchedView {
    proof fn lemma_buried(self, ids: Seq<usize>)
        requires
            forall|k: int| 0 <= k < ids.len() ==> (#[trigger] ids[k]) < self.threads.len(),
        ensures
            self.buried(ids).threads.len() == self.threads.len(),
            self.buried(ids).ready == self.ready,
            self.buried(ids).donations == self.donations,
            self.buried(ids).current == self.current,
            forall|x: usize|
                x < self.threads.len() && ids.contains(x) ==> ({
                    let t = (#[trigger] self.buried(ids).threads[x as int]);
                    &&& t.state == ThreadState::Exited || t.state == ThreadState::Running
                    &&& t.state == ThreadState::Exited ==> !t.resumable()
                    &&& self.threads[x as int].state != ThreadState::Running ==> t.state
                        == ThreadState::Exited
                }),
            forall|x: usize|
                x < self.threads.len() && !ids.contains(x) ==> #[trigger] self.buried(
                    ids,
                ).threads[x as int] == self.threads[x as int],
            forall|x: usize|
                x < self.threads.len() ==> (#[trigger] self.buried(ids).threads[x as int]).proc_id
                    == self.threads[x as int].proc_id,
            forall|x: usize|
                x < self.threads.len() && self.threads[x as int].state == ThreadState::Running
                    ==> (#[trigger] self.buried(ids).threads[x as int]).state
                    == ThreadState::Running,
        decreases ids.len(),
    {
        if ids.len() > 0 {
            let a = ids.drop_last();
            let v = self.buried(a);
            let w = self.buried(ids);
            let y = ids.last();
            assert(ids[ids.len() - 1] == y);
            self.lemma_buried(a);
            assert forall|x: usize| x < self.threads.len() implies ids.contains(x) == (a.contains(x)
                || x == y) && #[trigger] w.threads[x as int] == (if x == y {
                v.buried_one(y).threads[y as int]
            } else {
                v.threads[x as int]
            }) by {
                if ids.contains(x) {
                    let k = choose|k: int| 0 <= k < ids.len() && ids[k] == x;
                    if k < a.len() {
                        assert(a[k] == x);
                    }
                }
                if a.contains(x) {
                    let k = choose|k: int| 0 <= k < a.len() && a[k] == x;
                    assert(ids[k] == x);
                }
            }
            assert(v.threads[y as int].proc_id == self.threads[y as int].proc_id);
        }
    }
}

impl SchedView {
    proof fn lemma_burying(self, loose: Set<usize>, ids: Seq<usize>)
        requires
            self.burying(loose),
            forall|k: int|
                0 <= k < ids.len() ==> MAX_HARTS <= (#[trigger] ids[k]) < self.threads.len()
                    && !self.queued(ids[k]),
        ensures
            self.buried(ids).burying(loose.difference(ids.to_set())),
            self.buried(ids).ready == self.ready,
            self.buried(ids).threads.len() == self.threads.len(),
        decreases ids.len(),
    {
        if ids.len() == 0 {
            assert(loose.difference(ids.to_set()) =~= loose);
        } else {
            let a = ids.drop_last();
            let v = self.buried(a);
            let y = ids.last();
            assert(ids[ids.len() - 1] == y);
            assert forall|k: int| 0 <= k < a.len() implies MAX_HARTS <= (#[trigger] a[k])
                < self.threads.len() && !self.queued(a[k]) by {
                assert(a[k] == ids[k]);
            }
            self.lemma_burying(loose, a);
            assert(!v.queued(y)) by {
                if v.queued(y) {
                    let (q, k) = choose|q: int, k: int|
                        #![trigger v.ready[q][k]]
                        0 <= q < QUEUES && 0 <= k < v.ready[q].len() && v.ready[q][k] == y;
                    assert(self.ready[q][k] == y);
                }
            }
            v.lemma_buried_one(loose.difference(a.to_set()), y);
            assert(loose.difference(a.to_set()).remove(y) =~= loose.difference(ids.to_set())) by {
                assert forall|x: usize| ids.contains(x) == (a.contains(x) || x == y) by {
                    if ids.contains(x) {
                        let k = choose|k: int| 0 <= k < ids.len() && ids[k] == x;
                        if k < a.len() {
                            assert(a[k] == x);
                        }
                    }
                    if a.contains(x) {
                        let k = choose|k: int| 0 <= k < a.len() && a[k] == x;
                        assert(ids[k] == x);
                    }
                }
            }
        }
    }

    /// With the threads of a process ended, everything is in order.
    pub proof fn lemma_all_buried(self, p: usize, h: int)
        requires
            self.wf(),
            0 <= h < MAX_HARTS,
        ensures
            self.stripped(p).buried(self.victims(p, self.current[h], self.threads.len() as int)).wf(),
    {
        let c = self.current[h];
        let n = self.threads.len() as int;
        let ids = self.victims(p, c, n);
        let loose = self.collected(p, QUEUES as int).to_set();
        self.lemma_victims(p, c, n);
        self.lemma_to_bury(p);
        let s = self.stripped(p);
        assert forall|k: int| 0 <= k < ids.len() implies MAX_HARTS <= (#[trigger] ids[k])
            < s.threads.len() && !s.queued(ids[k]) by {
            assert(ids.contains(ids[k]));
            let t = self.threads[ids[k] as int];
        }
        s.lemma_burying(loose, ids);
        assert(loose.difference(ids.to_set()) =~= Set::empty()) by {
            assert forall|x: usize| loose.contains(x) implies ids.contains(x) by {
                assert(self.owned(p, x));
                assert(self.threads[c as int].state == ThreadState::Running);
            }
        }
    }
}

/// Law: when a process is killed from core `h`, no thread of it is left that could run again: each
/// is gone, with nothing left to resume it from, but for the one that the core itself runs and
/// those that other cores run. None of them stands in a queue. Nothing is lent to the process, and nothing by its threads.
pub proof fn law_killed_threads_are_gone(v: SchedView, p: usize, h: int, x: usize)
    requires
        v.wf(),
        0 <= h < MAX_HARTS,
        x < v.threads.len(),
        v.owned(p, x),
        x != v.current[h],
    ensures
        v.threads[x as int].state != ThreadState::Running ==> v.killed(p, h).threads[x as int].state
            == ThreadState::Exited && !v.killed(p, h).threads[x as int].resumable(),
        v.threads[x as int].state == ThreadState::Running ==> v.killed(p, h).threads[x as int].state
            == ThreadState::Running,
        v.killed(p, h).wf(),
        !v.killed(p, h).queued(x),
        forall|k: int|
            0 <= k < v.killed(p, h).donations.len() ==> (#[trigger] v.killed(
                p,
                h,
            ).donations[k]).peer_proc != p && v.killed(p, h).donations[k].donor_tid != x,
{
    let c = v.current[h];
    let n = v.threads.len() as int;
    let ids = v.victims(p, c, n);
    v.lemma_victims(p, c, n);
    v.lemma_to_bury(p);
    let s = v.stripped(p);
    assert forall|k: int| 0 <= k < ids.len() implies (#[trigger] ids[k]) < s.threads.len() by {
        assert(ids.contains(ids[k]));
    }
    s.lemma_buried(ids);
    let b = s.buried(ids);
    assert(ids.contains(x));
    let d = b.undonated_to(p);
    let w = d.undonated(ids.push(c), Some(p));
    assert(w == v.killed(p, h));
    // Sorting anew does not touch the threads.
    let keep = |y: Donation| y.peer_proc != p;
    lemma_kept(b.donations, keep);
    let all = ids.push(c);
    let keep2 = |y: Donation| !all.contains(y.donor_tid);
    lemma_kept(d.donations, keep2);
    v.lemma_all_buried(p, h);
    let b1 = SchedView { donations: not_to(b.donations, p), ..b };
    b.lemma_fewer_donations(b1, keep);
    let ps = b.procs_of(crate::runqueue::donors_to(b.donations, p), p);
    b1.lemma_requeued_all(ps);
    b1.lemma_ready_only(b1.requeued_all(ps));
    let d1 = SchedView { donations: not_from(d.donations, all), ..d };
    d.lemma_fewer_donations(d1, keep2);
    let qs = peers_of(d.donations, all).filter(|q: usize| Some(q) != Some(p));
    d1.lemma_requeued_all(qs);
    d1.lemma_ready_only(d1.requeued_all(qs));
    assert(all.contains(x)) by {
        let k = choose|k: int| 0 <= k < ids.len() && ids[k] == x;
        assert(all[k] == x);
    }
    assert forall|k: int| 0 <= k < w.donations.len() implies (#[trigger] w.donations[k]).peer_proc
        != p && w.donations[k].donor_tid != x by {
        assert(w.donations == d.donations.filter(keep2));
        assert(keep2(w.donations[k]));
        lemma_filter_in(d.donations, keep2);
        assert(d.donations.contains(w.donations[k]));
        let j = choose|j: int| 0 <= j < d.donations.len() && d.donations[j] == w.donations[k];
        assert(d.donations == b.donations.filter(keep));
        assert(keep(d.donations[j]));
    }
    let t = s.threads[x as int];
    let bt = b.threads[x as int];
    assert(w.threads == b.threads);
    if w.queued(x) {
        w.lemma_queued(Set::empty(), x);
    }
}

pub proof fn lemma_filter_in(d: Seq<Donation>, keep: spec_fn(Donation) -> bool)
    ensures
        forall|k: int| 0 <= k < d.filter(keep).len() ==> d.contains(#[trigger] d.filter(keep)[k]),
    decreases d.len(),
{
    reveal(Seq::filter);
    if d.len() > 0 {
        let e = d.drop_last();
        lemma_filter_in(e, keep);
        assert forall|k: int| 0 <= k < d.filter(keep).len() implies d.contains(
            #[trigger] d.filter(keep)[k],
        ) by {
            if k < e.filter(keep).len() {
                let x = e.filter(keep)[k];
                assert(e.contains(x));
                let j = choose|j: int| 0 <= j < e.len() && e[j] == x;
                assert(d[j] == x);
            } else {
                assert(d[d.len() - 1] == d.last());
            }
        }
    }
}

/// Threads of other processes stay as they are when a process is killed, and so does what the
/// cores run.
pub proof fn lemma_killed_others(v: SchedView, p: usize, h: int)
    requires
        v.wf(),
        0 <= h < MAX_HARTS,
    ensures
        v.killed(p, h).wf(),
        v.killed(p, h).current == v.current,
        v.killed(p, h).threads.len() == v.threads.len(),
        v.killed(p, h).threads[v.current[h] as int] == v.threads[v.current[h] as int],
        forall|x: usize|
            x < v.threads.len() && !v.owned(p, x) ==> #[trigger] v.killed(p, h).threads[x as int]
                == v.threads[x as int],
{
    let c = v.current[h];
    let n = v.threads.len() as int;
    let ids = v.victims(p, c, n);
    v.lemma_victims(p, c, n);
    v.lemma_to_bury(p);
    let s = v.stripped(p);
    assert forall|k: int| 0 <= k < ids.len() implies (#[trigger] ids[k]) < s.threads.len() by {
        assert(ids.contains(ids[k]));
    }
    s.lemma_buried(ids);
    let b = s.buried(ids);
    let d = b.undonated_to(p);
    let w = d.undonated(ids.push(c), Some(p));
    let keep = |y: Donation| y.peer_proc != p;
    let all = ids.push(c);
    let keep2 = |y: Donation| !all.contains(y.donor_tid);
    v.lemma_all_buried(p, h);
    let b1 = SchedView { donations: not_to(b.donations, p), ..b };
    b.lemma_fewer_donations(b1, keep);
    let ps = b.procs_of(crate::runqueue::donors_to(b.donations, p), p);
    b1.lemma_requeued_all(ps);
    b1.lemma_ready_only(b1.requeued_all(ps));
    let d1 = SchedView { donations: not_from(d.donations, all), ..d };
    d.lemma_fewer_donations(d1, keep2);
    let qs = peers_of(d.donations, all).filter(|q: usize| Some(q) != Some(p));
    d1.lemma_requeued_all(qs);
    d1.lemma_ready_only(d1.requeued_all(qs));
    assert(w.threads == b.threads);
    assert(!ids.contains(c));
}

impl SchedView {
    /// Where blocked threads that lend stay blocked, lending stays in order.
    pub proof fn lemma_lent_same(self, v: SchedView)
        requires
            self.lent_ok(),
            v.threads.len() >= self.threads.len(),
            forall|k: int|
                0 <= k < v.donations.len() ==> self.donations.contains(#[trigger] v.donations[k])
                    && v.threads[v.donations[k].donor_tid as int].state == ThreadState::Blocked,
        ensures
            v.lent_ok(),
    {
        assert forall|k: int| 0 <= k < v.donations.len() implies (#[trigger] v.donations[k]).donor_tid
            < v.threads.len() && v.threads[v.donations[k].donor_tid as int].state
            == ThreadState::Blocked by {
            let j = choose|j: int| 0 <= j < self.donations.len() && self.donations[j] == v.donations[k];
            assert(self.donations[j].donor_tid < self.threads.len());
        }
    }
}

/// Law: killing a process keeps every thread in the queue of its priority, and only blocked threads
/// lend afterwards.
pub proof fn law_levels_killed(v: SchedView, p: usize, h: int)
    requires
        v.wf(),
        v.levels_ok(),
        0 <= h < MAX_HARTS,
    ensures
        v.killed(p, h).levels_ok(),
        v.lent_ok() ==> v.killed(p, h).lent_ok(),
{
    let c = v.current[h];
    let n = v.threads.len() as int;
    let ids = v.victims(p, c, n);
    v.lemma_victims(p, c, n);
    v.lemma_to_bury(p);
    let s = v.stripped(p);
    assert forall|k: int| 0 <= k < ids.len() implies (#[trigger] ids[k]) < s.threads.len() by {
        assert(ids.contains(ids[k]));
    }
    s.lemma_buried(ids);
    v.lemma_all_buried(p, h);
    let b = s.buried(ids);
    let apart = |id: usize| !v.owned(p, id);
    // No thread of the process is queued any more; the others stand where they stood.
    assert forall|q: int, i: int|
        #![trigger b.ready[q][i]]
        0 <= q < QUEUES && 0 <= i < b.ready[q].len() implies b.at_level(q, b.ready[q][i]) && !b.owned(
        p,
        b.ready[q][i],
    ) by {
        let x = b.ready[q][i];
        assert(s.ready[q] == v.ready[q].filter(apart));
        lemma_filter(v.ready[q], apart);
        assert(s.ready[q].contains(x));
        let j = choose|j: int| 0 <= j < v.ready[q].len() && v.ready[q][j] == x;
        assert(v.at_level(q, v.ready[q][j]));
        assert(apart(x));
        assert(!ids.contains(x));
        assert(b.threads[x as int] == v.threads[x as int]);
    }
    // What was lent to the process is forgotten.
    let keep = |y: Donation| y.peer_proc != p;
    let b1 = SchedView { donations: not_to(b.donations, p), ..b };
    b.lemma_fewer_donations(b1, keep);
    assert forall|q: int, i: int|
        #![trigger b1.ready[q][i]]
        0 <= q < QUEUES && 0 <= i < b1.ready[q].len() implies b1.at_level(q, b1.ready[q][i]) by {
        let x = b.ready[q][i];
        assert(b.at_level(q, b.ready[q][i]));
        if let Some(o) = b.threads[x as int].proc_id {
            assert(o != p);
            lemma_boosted_filter(b.donations, keep, o, b.threads[x as int].prio);
        }
    }
    let ps = b.procs_of(crate::runqueue::donors_to(b.donations, p), p);
    b1.lemma_requeued_all(ps);
    b1.lemma_requeued_all_levels(ps);
    b1.lemma_ready_only(b1.requeued_all(ps));
    let d = b.undonated_to(p);
    assert(d == b1.requeued_all(ps));
    assert forall|q: int, i: int|
        #![trigger d.ready[q][i]]
        0 <= q < QUEUES && 0 <= i < d.ready[q].len() implies d.at_level(q, d.ready[q][i])
        && d.threads[d.ready[q][i] as int].proc_id != Some(p) by {
        let x = d.ready[q][i];
        assert(b1.requeued_all(ps).ready[q][i] == x);
        if !b1.at_level(q, x) {
            let j = choose|j: int| 0 <= j < b1.ready[q].len() && b1.ready[q][j] == x;
            assert(b1.at_level(q, b1.ready[q][j]));
        }
        assert(d.queued(x));
        assert(b1.queued(x));
        let (r, j) = choose|r: int, j: int|
            #![trigger b1.ready[r][j]]
            0 <= r < QUEUES && 0 <= j < b1.ready[r].len() && b1.ready[r][j] == x;
        assert(b.ready[r][j] == x);
        assert(!b.owned(p, b.ready[r][j]));
    }
    // What its threads lent is taken back.
    let all = ids.push(c);
    lemma_undonated_levels(d, all, Some(p));
    let w = v.killed(p, h);
    assert(w == d.undonated(all, Some(p)));
    if v.lent_ok() {
        let keep2 = |y: Donation| !all.contains(y.donor_tid);
        assert forall|k: int| 0 <= k < w.donations.len() implies v.donations.contains(
            #[trigger] w.donations[k],
        ) && w.threads[w.donations[k].donor_tid as int].state == ThreadState::Blocked by {
            let y = w.donations[k];
            assert(w.donations == d.donations.filter(keep2));
            lemma_filter_in(d.donations, keep2);
            assert(d.donations.contains(w.donations[k]));
            let j = choose|j: int| 0 <= j < d.donations.len() && d.donations[j] == y;
            assert(d.donations == b.donations.filter(keep));
            lemma_filter_in(b.donations, keep);
            assert(b.donations.contains(d.donations[j]));
            let m = choose|m: int| 0 <= m < v.donations.len() && v.donations[m] == y;
            assert(v.donations[m].donor_tid < v.threads.len());
            let x = y.donor_tid;
            assert(!all.contains(x));
            assert(!ids.contains(x)) by {
                if ids.contains(x) {
                    let z = choose|z: int| 0 <= z < ids.len() && ids[z] == x;
                    assert(all[z] == x);
                }
            }
            assert(b.threads[x as int] == s.threads[x as int]);
        }
        v.lemma_lent_same(w);
    }
}

/// Law: the entry of a thread that has ended is used again once, and entries of threads that are
/// there are not used again.
pub proof fn law_entry_is_used_again_once(v: SchedView, t: ThreadView, x: usize)
    requires
        v.wf(),
        v.has_slot(),
        t.ok(),
        t.state == ThreadState::Ready,
        t.resumable(),
        x < v.threads.len(),
    ensures
        v.free_slots.no_duplicates(),
        v.free_slots.contains(x) <==> v.threads[x as int].state == ThreadState::Exited,
        v.threads[x as int].state != ThreadState::Exited ==> v.started(t).threads[x as int]
            == v.threads[x as int],
        !v.started(t).free_slots.contains(v.next_slot()),
{
    v.lemma_started(t);
    let y = v.threads[x as int];
    assert forall|i: int, j: int|
        0 <= i < v.free_slots.len() && 0 <= j < v.free_slots.len() && i
            != j implies v.free_slots[i] != v.free_slots[j] by {
        if i < j {
            assert(v.free_slots[i] != v.free_slots[j]);
        } else {
            assert(v.free_slots[j] != v.free_slots[i]);
        }
    }
    if v.free_slots.contains(x) {
        let k = choose|k: int| 0 <= k < v.free_slots.len() && v.free_slots[k] == x;
        assert(v.threads[v.free_slots[k] as int].state == ThreadState::Exited);
    }
    let w = v.started(t);
    law_ready_is_queued_once(w, v.next_slot());
    if w.free_slots.contains(v.next_slot()) {
        let k = choose|k: int| 0 <= k < w.free_slots.len() && w.free_slots[k] == v.next_slot();
        assert(w.threads[w.free_slots[k] as int].state == ThreadState::Exited);
    }
}

/// Law: how many threads can be started depends on how many there are, and not on how many there
/// have been: there is room for another unless the table is full of threads that have not ended.
pub proof fn law_room_for_threads(v: SchedView)
    requires
        v.wf(),
    ensures
        v.has_slot() <==> v.threads.len() < MAX_THREADS || exists|i: int|
            0 <= i < v.threads.len() && (#[trigger] v.threads[i]).state == ThreadState::Exited,
{
    if v.free_slots.len() > 0 {
        let x = v.free_slots[0];
        assert(v.threads[x as int].state == ThreadState::Exited);
    }
    if exists|i: int|
        0 <= i < v.threads.len() && (#[trigger] v.threads[i]).state == ThreadState::Exited {
        let i = choose|i: int|
            0 <= i < v.threads.len() && (#[trigger] v.threads[i]).state == ThreadState::Exited;
        assert(v.free_slots.contains(i as usize));
    }
}

} // verus!
