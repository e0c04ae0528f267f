//! Locks and condition variables.
//!
//! A thread that finds a mutex held queues up and blocks; whoever releases the mutex wakes the
//! first thread of the queue, which tries again. A condition variable queues the threads that wait
//! for it. The functions here decide; the caller blocks and wakes, with the interrupts of the core
//! off.

use vstd::prelude::*;
use std::collections::VecDeque;

verus! {

/// A lock that a core waits for by looking again.
pub struct SpinLock<T> {
    locked: bool,
    value: T,
}

impl<T> SpinLock<T> {
    /// Whether the lock is held.
    pub closed spec fn held(&self) -> bool {
        self.locked
    }

    /// What the lock protects.
    pub closed spec fn inner(&self) -> T {
        self.value
    }

    pub fn new(value: T) -> (r: SpinLock<T>)
        ensures
            !r.held(),
            r.inner() == value,
    {
        SpinLock { locked: false, value }
    }

    /// Take the lock, if it is free. The core looks again until it is.
    pub fn lock(&mut self) -> (r: bool)
        ensures
            r == !old(self).held(),
            final(self).held(),
            final(self).inner() == old(self).inner(),
    {
        let got: bool = !self.locked;
        self.locked = true;
        got
    }

    /// Give the lock back. Only the core that holds it does so.
    pub fn unlock(&mut self)
        requires
            old(self).held(),
        ensures
            !final(self).held(),
            final(self).inner() == old(self).inner(),
    {
        self.locked = false;
    }

    /// What the lock protects, to be read while it is held.
    pub fn get(&self) -> (r: &T)
        requires
            self.held(),
        ensures
            *r == self.inner(),
    {
        &self.value
    }

    /// Replace what the lock protects, while it is held.
    pub fn set(&mut self, value: T)
        requires
            old(self).held(),
        ensures
            final(self).held() == old(self).held(),
            final(self).inner() == value,
    {
        self.value = value;
    }
}

/// What came of asking for a mutex.
#[derive(Debug, Clone, Copy, PartialEq, Eq, Structural)]
pub enum LockStep {
    /// The thread holds it.
    Acquired,
    /// The thread is queued; it has to block, and to ask again when it is woken.
    Block,
}

/// A mutex.
pub struct Mutex<T> {
    locked: bool,
    waiters: VecDeque<usize>,
    value: T,
}

/// A mutex: whether it is held, and the threads that wait for it, in order.
#[verifier::ext_equal]
pub struct MutexView<T> {
    pub locked: bool,
    pub waiters: Seq<usize>,
    pub value: T,
}

impl<T> MutexView<T> {
    /// A thread asks for the mutex.
    pub open spec fn asked(self, tid: usize) -> (MutexView<T>, LockStep) {
        if self.locked {
            (MutexView { waiters: self.waiters.push(tid), ..self }, LockStep::Block)
        } else {
            (MutexView { locked: true, ..self }, LockStep::Acquired)
        }
    }

    /// The mutex is given back; the thread to wake.
    pub open spec fn released(self) -> (MutexView<T>, Option<usize>) {
        let v = MutexView { locked: false, ..self };
        if self.waiters.len() > 0 {
            (
                MutexView { waiters: self.waiters.subrange(1, self.waiters.len() as int), ..v },
                Some(self.waiters[0]),
            )
        } else {
            (v, None)
        }
    }
}

impl<T> Mutex<T> {
    pub closed spec fn view(&self) -> MutexView<T> {
        MutexView { locked: self.locked, waiters: self.waiters@, value: self.value }
    }

    /// A mutex that is free.
    pub fn new(value: T) -> (r: Mutex<T>)
        ensures
            !r@.locked,
            r@.waiters.len() == 0,
            r@.value == value,
    {
        Mutex { locked: false, waiters: VecDeque::new(), value }
    }

    /// A thread asks for the mutex.
    pub fn lock(&mut self, tid: usize) -> (r: LockStep)
        ensures
            (final(self)@, r) == old(self)@.asked(tid),
    {
        if !self.locked {
            self.locked = true;
            return LockStep::Acquired;
        }
        self.waiters.push_back(tid);
        LockStep::Block
    }

    /// Give the mutex back, which only the thread that holds it does. The thread to wake, if one
    /// waits.
    pub fn unlock(&mut self) -> (r: Option<usize>)
        requires
            old(self)@.locked,
        ensures
            (final(self)@, r) == old(self)@.released(),
    {
        self.locked = false;
        self.waiters.pop_front()
    }

    /// What the mutex protects, to be read while it is held.
    pub fn get(&self) -> (r: &T)
        requires
            self@.locked,
        ensures
            *r == self@.value,
    {
        &self.value
    }

    /// Replace what the mutex protects, while it is held.
    pub fn set(&mut self, value: T)
        requires
            old(self)@.locked,
        ensures
            final(self)@ == (MutexView { value, ..old(self)@ }),
    {
        self.value = value;
    }
}

/// A condition variable.
pub struct Condvar {
    waiters: VecDeque<usize>,
}

impl Condvar {
    /// The threads that wait, in order.
    pub closed spec fn view(&self) -> Seq<usize> {
        self.waiters@
    }

    /// Nobody waits.
    pub fn new() -> (r: Condvar)
        ensures
            r@.len() == 0,
    {
        Condvar { waiters: VecDeque::new() }
    }

    /// A thread that holds a mutex waits for the condition: it is queued, and gives the mutex
    /// back. It has to block, and to ask for the mutex again when it is woken. The thread to wake
    /// because the mutex is free.
    pub fn wait<T>(&mut self, m: &mut Mutex<T>, tid: usize) -> (r: Option<usize>)
        requires
            old(m)@.locked,
        ensures
            final(self)@ == old(self)@.push(tid),
            (final(m)@, r) == old(m)@.released(),
    {
        self.waiters.push_back(tid);
        m.unlock()
    }

    /// The thread to wake: the one that has waited longest.
    pub fn notify_one(&mut self) -> (r: Option<usize>)
        ensures
            old(self)@.len() == 0 ==> r is None && final(self)@ == old(self)@,
            old(self)@.len() > 0 ==> r == Some(old(self)@[0]) && final(self)@
                == old(self)@.subrange(1, old(self)@.len() as int),
    {
        self.waiters.pop_front()
    }

    /// The threads to wake: all, in order.
    pub fn notify_all(&mut self) -> (r: Vec<usize>)
        ensures
            r@ == old(self)@,
            final(self)@.len() == 0,
    {
        let ghost before = self.waiters@;
        let mut out: Vec<usize> = Vec::new();
        let n: usize = self.waiters.len();
        let mut i: usize = 0;
        while i < n
            invariant
                i <= n,
                n == before.len(),
                out@ == before.subrange(0, i as int),
                self.waiters@ == before.subrange(i as int, n as int),
            decreases n - i,
        {
            let x: usize = match self.waiters.pop_front() {
                Some(x) => x,
                None => {
                    assert(false);
                    0
                },
            };
            out.push(x);
            proof {
                assert(self.waiters@ =~= before.subrange(i + 1, n as int));
                assert(out@ =~= before.subrange(0, i + 1));
            }
            i += 1;
        }
        assert(out@ =~= before);
        out
    }
}

/// Threads ask for a mutex, one after the other.
pub open spec fn asked_by<T>(m: MutexView<T>, tids: Seq<usize>) -> MutexView<T>
    decreases tids.len(),
{
    if tids.len() == 0 {
        m
    } else {
        asked_by(m, tids.drop_last()).asked(tids.last()).0
    }
}

/// A mutex is given back `n` times, and taken in between by somebody who did not wait.
pub open spec fn released_times<T>(m: MutexView<T>, n: nat) -> MutexView<T>
    decreases n,
{
    if n == 0 {
        m
    } else {
        (MutexView { locked: true, ..released_times(m, (n - 1) as nat) }).released().0
    }
}

/// Law: while a mutex is held, nobody else gets it, however many ask, and what it guards stays;
/// those who ask wait in the order in which they asked.
pub proof fn law_mutual_exclusion<T>(m: MutexView<T>, tids: Seq<usize>, b: usize)
    requires
        m.locked,
    ensures
        asked_by(m, tids) == (MutexView { waiters: m.waiters + tids, ..m }),
        asked_by(m, tids).asked(b).1 == LockStep::Block,
    decreases tids.len(),
{
    if tids.len() > 0 {
        law_mutual_exclusion(m, tids.drop_last(), b);
        assert(asked_by(m, tids).waiters =~= m.waiters + tids);
    } else {
        assert(m.waiters + tids =~= m.waiters);
    }
}

/// What is left of the queue after some releases.
proof fn lemma_released_times<T>(m: MutexView<T>, n: nat)
    requires
        n <= m.waiters.len(),
    ensures
        released_times(m, n).waiters == m.waiters.skip(n as int),
        released_times(m, n).value == m.value,
        n > 0 ==> !released_times(m, n).locked,
    decreases n,
{
    if n > 0 {
        lemma_released_times(m, (n - 1) as nat);
        assert(m.waiters.skip(n - 1).subrange(1, m.waiters.len() - n + 1) =~= m.waiters.skip(
            n as int,
        ));
    } else {
        assert(m.waiters.skip(0) =~= m.waiters);
    }
}

/// Law: threads that wait for a mutex are woken in the order in which they came, one for each time
/// that the mutex is given back, and a thread that was woken gets it when nobody else took it.
pub proof fn law_waiters_are_woken_in_turn<T>(m: MutexView<T>, k: nat)
    requires
        k < m.waiters.len(),
    ensures
        (MutexView { locked: true, ..released_times(m, k) }).released().1 == Some(
            m.waiters[k as int],
        ),
        released_times(m, k + 1).asked(m.waiters[k as int]).1 == LockStep::Acquired,
{
    lemma_released_times(m, k);
    lemma_released_times(m, k + 1);
}

/// What a thread does with a mutex.
pub enum LockEvent<T> {
    /// The thread asks for it.
    Ask(usize),
    /// The thread, which holds it, replaces what it protects.
    Write(usize, T),
    /// The thread, which holds it, gives it back.
    Release(usize),
}

/// A mutex in use: the thread that holds it, and what that thread has read or written there last.
#[verifier::ext_equal]
pub struct InUse<T> {
    pub mutex: MutexView<T>,
    pub holder: Option<usize>,
    pub known: T,
}

impl<T> InUse<T> {
    /// Nobody holds the mutex.
    pub open spec fn unused(self) -> bool {
        !self.mutex.locked && self.holder is None
    }

    /// Threads use a mutex as they may: who holds it does not ask for it again, and nobody else
    /// writes or gives it back.
    pub open spec fn allows(self, e: LockEvent<T>) -> bool {
        match e {
            LockEvent::Ask(t) => self.holder != Some(t),
            LockEvent::Write(t, v) => self.holder == Some(t),
            LockEvent::Release(t) => self.holder == Some(t),
        }
    }

    /// After the event. A thread that gets the mutex reads what it protects.
    pub open spec fn then_event(self, e: LockEvent<T>) -> InUse<T> {
        match e {
            LockEvent::Ask(t) => {
                let (m, r) = self.mutex.asked(t);
                if r == LockStep::Acquired {
                    InUse { mutex: m, holder: Some(t), known: m.value }
                } else {
                    InUse { mutex: m, ..self }
                }
            },
            LockEvent::Write(t, v) => InUse {
                mutex: MutexView { value: v, ..self.mutex },
                known: v,
                ..self
            },
            LockEvent::Release(t) => InUse {
                mutex: self.mutex.released().0,
                holder: None,
                ..self
            },
        }
    }

    /// After the events, in order.
    pub open spec fn after(self, events: Seq<LockEvent<T>>) -> InUse<T>
        decreases events.len(),
    {
        if events.len() == 0 {
            self
        } else {
            self.after(events.drop_last()).then_event(events.last())
        }
    }

    /// Every event is one that the state before it allows.
    pub open spec fn lawful(self, events: Seq<LockEvent<T>>) -> bool
        decreases events.len(),
    {
        events.len() > 0 ==> {
            &&& self.lawful(events.drop_last())
            &&& self.after(events.drop_last()).allows(events.last())
        }
    }
}

/// What was written last, `first` where nothing was.
pub open spec fn last_written<T>(events: Seq<LockEvent<T>>, first: T) -> T
    decreases events.len(),
{
    if events.len() == 0 {
        first
    } else {
        match events.last() {
            LockEvent::Write(t, v) => v,
            _ => last_written(events.drop_last(), first),
        }
    }
}

/// How many of the events are writes.
pub open spec fn writes<T>(events: Seq<LockEvent<T>>) -> nat
    decreases events.len(),
{
    if events.len() == 0 {
        0
    } else {
        writes(events.drop_last()) + if events.last() is Write {
            1nat
        } else {
            0
        }
    }
}

/// Every write puts one more than what the writer knows of.
pub open spec fn increments(u: InUse<u32>, events: Seq<LockEvent<u32>>) -> bool
    decreases events.len(),
{
    events.len() > 0 ==> {
        &&& increments(u, events.drop_last())
        &&& match events.last() {
            LockEvent::Write(t, v) => v == u.after(events.drop_last()).known + 1,
            _ => true,
        }
    }
}

/// Law: whatever threads do with a mutex and in whatever order, at most one holds it, what it
/// protects is what was written last under it, and the thread that holds it knows that value. A
/// thread that asks for it gets it exactly where nobody holds it, and then reads what the last
/// holder has left.
pub proof fn law_holder_reads_last_write<T>(u: InUse<T>, events: Seq<LockEvent<T>>, tid: usize)
    requires
        u.unused(),
        u.lawful(events),
    ensures
        u.after(events).mutex.locked <==> u.after(events).holder is Some,
        u.after(events).mutex.value == last_written(events, u.mutex.value),
        u.after(events).holder is Some ==> u.after(events).known == last_written(
            events,
            u.mutex.value,
        ),
        u.after(events).mutex.asked(tid).1 == LockStep::Acquired
            <==> u.after(events).holder is None,
        u.after(events).holder is None ==> {
            let next = u.after(events).then_event(LockEvent::Ask(tid));
            next.holder == Some(tid) && next.known == last_written(events, u.mutex.value)
        },
    decreases events.len(),
{
    if events.len() > 0 {
        law_holder_reads_last_write(u, events.drop_last(), tid);
    }
}

/// Law: no increment under a mutex is lost: where threads only ever add one to the number that the
/// mutex protects, it ends up higher by as many as they made, in whatever order they came.
pub proof fn law_increments_add_up(u: InUse<u32>, events: Seq<LockEvent<u32>>)
    requires
        u.unused(),
        u.lawful(events),
        increments(u, events),
    ensures
        u.after(events).mutex.value == u.mutex.value + writes(events),
    decreases events.len(),
{
    if events.len() > 0 {
        law_increments_add_up(u, events.drop_last());
        law_holder_reads_last_write(u, events.drop_last(), 0);
    }
}

} // verus!
