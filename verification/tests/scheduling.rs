//! Threads and messages. What a thread does is a function here; which one runs, the library says.

use ignium::arch::{FRAME_SSTATUS, MAX_HARTS, TRAP_FRAME_WORDS};
use ignium::ipc::{self, IpcState, RecvBlock, SendBlock};
use ignium::process::{self, ProcessTable};
use ignium::runqueue::{ThreadState, MAX_THREADS};
use ignium::sched::{
    bench, Image, Scheduler, PRIO_HIGH, PRIO_LOW, PRIO_MED, SLICE_TICKS, SSTATUS_KERNEL,
};
use ignium::sync::{Condvar, LockStep, Mutex, SpinLock};
use ignium::syscall::{SYS_ERR_EACCES, SYS_ERR_EINVAL, SYS_ERR_ENOENT};

/// What a thread does at the end of a piece of work.
enum Act {
    Yield,
    Block,
    Spin,
    Exit,
}

type Step = fn(&mut World, usize) -> Act;

struct World {
    s: Scheduler,
    ipc: IpcState,
    procs: ProcessTable,
    steps: Vec<Option<Step>>,
    /// How far each thread is.
    pc: Vec<u64>,
    tick: u64,
    count: u64,
    sum: u64,
    marks: Vec<u64>,
    ids: Vec<usize>,
    freed: Vec<u64>,
    lock: Mutex<u64>,
    cond: Condvar,
}

fn scheduler() -> Scheduler {
    let image = Image {
        thread_entry: 0x8020_1000,
        idle_entry: 0x8020_1100,
        user_stub: 0x8020_1200,
        global_pointer: 0x8022_0800,
        kernel_root: 0x8100_0000,
    };
    Scheduler::new(image, [0x8026_4000, 0x8026_c000, 0x8027_4000, 0x8027_c000])
}

fn frame() -> [u64; TRAP_FRAME_WORDS] {
    let mut f = [0; TRAP_FRAME_WORDS];
    f[FRAME_SSTATUS] = SSTATUS_KERNEL;
    f
}

impl World {
    fn new() -> World {
        World {
            s: scheduler(),
            ipc: IpcState::new(),
            procs: ProcessTable::new(),
            steps: vec![None; MAX_THREADS],
            pc: vec![0; MAX_THREADS],
            tick: 0,
            count: 0,
            sum: 0,
            marks: vec![0; 8],
            ids: vec![0; 8],
            freed: Vec::new(),
            lock: Mutex::new(0),
            cond: Condvar::new(),
        }
    }

    fn spawn(&mut self, f: Step, prio: u8) -> usize {
        assert!(self.s.can_spawn());
        let id = self.s.spawn(0x8020_5000, prio, 0x8150_0000, 0);
        self.steps[id] = Some(f);
        self.pc[id] = 0;
        id
    }

    fn spawn_owned(&mut self, f: Step, prio: u8, pid: usize) -> usize {
        assert!(self.s.can_spawn());
        let id = self.s.spawn_owned(0x8020_5000, prio, pid, 0x8150_0000, 0);
        self.steps[id] = Some(f);
        self.pc[id] = 0;
        id
    }

    /// Lets the current thread of the first core do a piece of work.
    fn work(&mut self) {
        let id = self.s.current_id(0);
        let f = self.steps[id].expect("a thread with work");
        match f(self, id) {
            Act::Yield => {
                let (_, stacks) = self.s.yield_(0);
                self.freed.extend(stacks);
            }
            Act::Block => {
                if self.s.block_current(0).is_none() {
                    self.s.unblocked(0);
                }
            }
            Act::Spin => self.tick(),
            Act::Exit => {
                self.s.exit(0);
            }
        }
    }

    fn tick(&mut self) {
        self.tick += 1;
        self.s.on_tick(&frame(), 0);
    }

    /// The first context gives way until it runs again.
    fn yield_main(&mut self) {
        let (_, stacks) = self.s.yield_(0);
        self.freed.extend(stacks);
        let mut guard = 0;
        while self.s.current_id(0) != 0 {
            self.work();
            guard += 1;
            assert!(guard < 1_000_000);
        }
    }

    /// The first context spins for some ticks; threads run where the ticks take the core away.
    fn spin_main(&mut self, ticks: u64) {
        let end = self.tick + ticks;
        while self.tick < end {
            if self.s.current_id(0) == 0 {
                self.tick();
            } else {
                self.work();
            }
        }
    }

    fn process(&mut self) -> usize {
        assert!(self.procs.has_room());
        self.procs.insert(0x8110_0000)
    }
}

fn inc(w: &mut World, id: usize) -> Act {
    if w.pc[id] == 50 {
        return Act::Exit;
    }
    w.pc[id] += 1;
    w.count += 1;
    Act::Yield
}

#[test]
fn threads_take_turns() {
    let mut w = World::new();
    let a = w.spawn(inc, PRIO_HIGH);
    let b = w.spawn(inc, PRIO_HIGH);
    let mut guard = 0;
    while w.count < 100 && guard < 10_000 {
        w.yield_main();
        guard += 1;
    }
    assert_eq!(w.count, 100);
    w.yield_main();
    assert_eq!(w.s.thread(a).state, ThreadState::Exited);
    assert_eq!(w.s.thread(b).state, ThreadState::Exited);
    // Their stacks are there to be freed, each once.
    w.freed.extend(w.s.drain_reaper());
    assert_eq!(w.freed, vec![0x8150_0000, 0x8150_0000]);
    assert!(w.s.drain_reaper().is_empty());
}

fn done(w: &mut World, _id: usize) -> Act {
    w.marks[0] = 1;
    Act::Exit
}

#[test]
fn thread_that_returns_exits() {
    let mut w = World::new();
    let id = w.spawn(done, PRIO_HIGH);
    w.yield_main();
    assert_eq!(w.marks[0], 1);
    assert_eq!(w.s.thread(id).state, ThreadState::Exited);
    // Its entry is used again.
    assert_eq!(w.spawn(done, PRIO_HIGH), id);
}

fn busy(w: &mut World, id: usize) -> Act {
    w.pc[id] += 1;
    if w.pc[id] > 15 {
        w.marks[0] = w.tick;
        return Act::Exit;
    }
    Act::Spin
}

#[test]
fn busy_thread_comes_to_its_end() {
    let mut w = World::new();
    w.spawn(busy, PRIO_LOW);
    w.yield_main();
    assert_eq!(w.marks[0], 15);
    assert_eq!(w.s.current_id(0), 0);
}

fn prio_high(w: &mut World, _id: usize) -> Act {
    w.marks[2] = w.tick;
    Act::Exit
}

fn prio_low(w: &mut World, id: usize) -> Act {
    if w.pc[id] == 0 {
        w.marks[1] = w.tick;
    }
    w.pc[id] += 1;
    if w.pc[id] == 6 {
        w.spawn(prio_high, PRIO_HIGH);
    }
    if w.pc[id] > 30 {
        w.marks[3] = w.tick;
        return Act::Exit;
    }
    Act::Spin
}

#[test]
fn better_priority_preempts_at_once() {
    let mut w = World::new();
    w.spawn(prio_low, PRIO_LOW);
    let mut guard = 0;
    while w.marks[3] == 0 && guard < 500_000 {
        w.yield_main();
        guard += 1;
    }
    // The better thread started within a tick of its start, and the other went on to its end.
    let delay = w.marks[2] - w.marks[1] - 5;
    assert!(delay <= 3);
    assert!(w.marks[3] > w.marks[2]);
}

fn stress(w: &mut World, id: usize) -> Act {
    if w.pc[id] == 1000 {
        return Act::Exit;
    }
    w.pc[id] += 1;
    w.count += 1;
    Act::Yield
}

#[test]
fn many_threads_take_turns() {
    let mut w = World::new();
    for _ in 0..16 {
        w.spawn(stress, PRIO_HIGH);
    }
    let mut guard = 0;
    while w.count < 16 * 1000 && guard < 500_000 {
        w.yield_main();
        guard += 1;
    }
    assert_eq!(w.count, 16 * 1000);
}

fn woken_high(w: &mut World, id: usize) -> Act {
    w.pc[id] += 1;
    if w.pc[id] == 1 {
        return Act::Block;
    }
    w.marks[0] = w.tick;
    Act::Exit
}

fn waking_low(w: &mut World, id: usize) -> Act {
    w.pc[id] += 1;
    if w.pc[id] == 4 {
        let h = w.ids[0];
        assert_eq!(w.s.wake(h, 0), None);
    }
    if w.pc[id] > 20 {
        w.marks[1] = w.tick;
        return Act::Exit;
    }
    Act::Spin
}

#[test]
fn woken_thread_preempts_a_busy_one() {
    let mut w = World::new();
    w.ids[0] = w.spawn(woken_high, PRIO_HIGH);
    w.yield_main();
    assert!(w.s.is_blocked(w.ids[0]));
    w.spawn(waking_low, PRIO_LOW);
    w.spin_main(100);
    assert_ne!(w.marks[0], 0);
    assert!(w.marks[0] < w.marks[1]);
}

#[test]
fn wake_before_block_is_not_lost() {
    let mut w = World::new();
    let id = w.spawn(woken_high, PRIO_HIGH);
    let (t, _) = w.s.yield_(0);
    assert_eq!(t.new, id);
    assert_eq!(w.s.wake(id, 0), None);
    // It goes on at once.
    assert!(w.s.block_current(0).is_none());
    assert!(!w.s.is_blocked(id));
    w.s.unblocked(0);
    assert!(!w.s.thread(id).woken);
    assert!(w.s.block_current(0).is_some());
    assert!(w.s.is_blocked(id));
}

fn pip_high(w: &mut World, id: usize) -> Act {
    w.pc[id] += 1;
    let pid = w.ids[1];
    if w.pc[id] == 1 {
        let r = ipc::recv(&mut w.ipc, &mut w.s, &w.procs, pid, 0, 0);
        assert!(matches!(r, Ok(RecvBlock::NoPeer)));
        return Act::Block;
    }
    assert_eq!(w.s.take_ipc_msg(0), Some([0xbeef, 1, 2, 3, 4]));
    assert_eq!(w.s.take_ipc_msg(0), None);
    w.marks[0] = w.tick;
    Act::Exit
}

fn pip_low(w: &mut World, id: usize) -> Act {
    w.pc[id] += 1;
    if w.pc[id] <= 3 {
        return Act::Spin;
    }
    let pid = w.ids[2];
    let r = ipc::send(&mut w.ipc, &mut w.s, &w.procs, pid, 0, [0xbeef, 1, 2, 3, 4], 0);
    assert!(matches!(r, Ok(SendBlock::Done)));
    w.marks[1] = w.tick;
    Act::Exit
}

fn pip_med(w: &mut World, id: usize) -> Act {
    w.pc[id] += 1;
    if w.pc[id] > 50 {
        w.marks[2] = w.tick;
        return Act::Exit;
    }
    Act::Spin
}

#[test]
fn priority_is_inherited() {
    let mut w = World::new();
    let h = w.process();
    let l = w.process();
    assert!(process::grant_cap(&mut w.procs, h, 0, l).is_ok());
    assert!(process::grant_cap(&mut w.procs, l, 0, h).is_ok());
    w.ids[1] = h;
    w.ids[2] = l;
    let high = w.spawn_owned(pip_high, PRIO_HIGH, h);
    w.yield_main();
    assert!(w.s.is_blocked(high));
    assert_eq!(w.s.donation_count(), 1);
    let low = w.spawn_owned(pip_low, PRIO_LOW, l);
    assert_eq!(w.s.eff_prio(low), PRIO_HIGH);
    let med = w.spawn(pip_med, PRIO_MED);
    assert_eq!(w.s.eff_prio(med), PRIO_MED);
    w.spin_main(200);
    assert!(w.marks[0] != 0 && w.marks[1] != 0 && w.marks[2] != 0);
    assert!(w.marks[0] < w.marks[2]);
    assert_eq!(w.s.donation_count(), 0);
}

const ROUNDS: u64 = 1000;
const BASE: u64 = 0x1000;

fn stress_sender(w: &mut World, id: usize) -> Act {
    let pid = w.ids[1];
    if w.pc[id] == ROUNDS {
        w.marks[0] = 1;
        return Act::Exit;
    }
    let msg = [BASE + w.pc[id], 0, 0, 0, 0];
    w.pc[id] += 1;
    match ipc::send(&mut w.ipc, &mut w.s, &w.procs, pid, 0, msg, 0) {
        Ok(SendBlock::Done) => Act::Yield,
        Ok(SendBlock::NoPeer) => Act::Block,
        Err(e) => panic!("send: {}", e),
    }
}

fn stress_recver(w: &mut World, id: usize) -> Act {
    let pid = w.ids[2];
    // An odd count says that a message was waited for.
    if w.pc[id] % 2 == 1 {
        let m = w.s.take_ipc_msg(0).expect("message");
        take(w, id, m[0]);
        return Act::Yield;
    }
    if w.pc[id] == 2 * ROUNDS {
        w.marks[1] = 1;
        return Act::Exit;
    }
    match ipc::recv(&mut w.ipc, &mut w.s, &w.procs, pid, 0, 0) {
        Ok(RecvBlock::Done(m)) => {
            w.pc[id] += 1;
            take(w, id, m[0]);
            Act::Yield
        }
        Ok(RecvBlock::NoPeer) => {
            w.pc[id] += 1;
            Act::Block
        }
        Err(e) => panic!("recv: {}", e),
    }
}

fn take(w: &mut World, id: usize, word: u64) {
    w.pc[id] += 1;
    assert_eq!(word, BASE + w.count);
    w.count += 1;
    w.sum += word;
}

#[test]
fn boot_ipc_stress_test() {
    let mut w = World::new();
    let a = w.process();
    let b = w.process();
    assert!(process::grant_cap(&mut w.procs, a, 0, b).is_ok());
    assert!(process::grant_cap(&mut w.procs, b, 0, a).is_ok());
    w.ids[1] = a;
    w.ids[2] = b;
    w.spawn_owned(stress_sender, PRIO_HIGH, a);
    w.spawn_owned(stress_recver, PRIO_HIGH, b);
    let mut guard = 0;
    while (w.marks[0] == 0 || w.marks[1] == 0) && guard < 2_000_000 {
        w.yield_main();
        guard += 1;
    }
    assert_eq!(w.count, ROUNDS);
    assert_eq!(w.sum, ROUNDS * BASE + ROUNDS * (ROUNDS - 1) / 2);
    assert_eq!(w.s.donation_count(), 0);
}

#[test]
fn refused_messages() {
    let mut w = World::new();
    let a = w.process();
    let b = w.process();
    let id = w.spawn_owned(done, PRIO_HIGH, a);
    w.s.yield_(0);
    assert_eq!(w.s.current_id(0), id);
    assert_eq!(w.s.current_proc(0), a);
    let send = |w: &mut World, slot: usize| {
        ipc::send(&mut w.ipc, &mut w.s, &w.procs, a, slot, [0; 5], 0).err()
    };
    assert_eq!(send(&mut w, 0), Some(SYS_ERR_EACCES));
    assert_eq!(send(&mut w, 8), Some(SYS_ERR_EINVAL));
    assert!(process::grant_cap(&mut w.procs, a, 0, b).is_ok());
    assert_eq!(send(&mut w, 0), None);
    // A receive through an empty slot takes what comes from anyone.
    assert!(matches!(
        ipc::recv(&mut w.ipc, &mut w.s, &w.procs, a, 3, 0),
        Ok(RecvBlock::NoPeer)
    ));
}

#[test]
fn purged_waiters_learn_it() {
    let mut w = World::new();
    let a = w.process();
    let b = w.process();
    assert!(process::grant_cap(&mut w.procs, a, 0, b).is_ok());
    let id = w.spawn_owned(done, PRIO_HIGH, a);
    w.s.yield_(0);
    assert!(matches!(
        ipc::send(&mut w.ipc, &mut w.s, &w.procs, a, 0, [9; 5], 0),
        Ok(SendBlock::NoPeer)
    ));
    w.s.block_current(0);
    assert!(w.s.is_blocked(id));
    ipc::purge_process(&mut w.ipc, &mut w.s, b);
    let t = w.s.thread(id);
    assert_eq!(t.state, ThreadState::Ready);
    assert_eq!(t.ipc_msg.map(|m| m[0]), Some(SYS_ERR_ENOENT));
}

#[test]
fn smp_sched_test() {
    let mut s = scheduler();
    let mut ids = [0usize; MAX_HARTS];
    for h in 0..MAX_HARTS {
        ids[h] = s.spawn(0x8020_5000, PRIO_HIGH, 0x8150_0000, 0);
        s.set_affinity(ids[h], h);
        assert_eq!(s.thread(ids[h]).hart, h);
    }
    // Each core picks its own thread.
    let (t, _) = s.yield_(0);
    assert_eq!(t.new, ids[0]);
    for h in 1..MAX_HARTS {
        let t = s.secondary_idle(h).expect("work");
        assert_eq!((t.old, t.new), (h, ids[h]));
        assert_eq!(s.current_id(h), ids[h]);
        assert_eq!(s.thread(ids[h]).state, ThreadState::Running);
    }
    for h in 0..MAX_HARTS {
        assert_eq!(s.exit(h).new, h);
    }
    for h in 1..MAX_HARTS {
        assert!(s.secondary_idle(h).is_none());
    }
    // A thread that blocks on another core is woken by an interrupt to that core.
    let id = s.spawn(0x8020_5000, PRIO_HIGH, 0x8150_0000, 0);
    s.set_affinity(id, 1);
    assert_eq!(s.secondary_idle(1).map(|t| t.new), Some(id));
    assert!(s.block_current(1).is_some());
    assert!(s.is_blocked(id));
    assert_eq!(s.wake(id, 0), Some(1));
    assert_eq!(s.secondary_idle(1).map(|t| t.new), Some(id));
}

#[test]
fn slice_is_kept() {
    let mut w = World::new();
    let a = w.spawn(inc, PRIO_HIGH);
    let b = w.spawn(inc, PRIO_HIGH);
    w.s.yield_(0);
    assert_eq!(w.s.current_id(0), a);
    for _ in 1..SLICE_TICKS {
        assert_eq!(w.s.on_tick(&frame(), 0), None);
    }
    assert_eq!(w.s.on_tick(&frame(), 0), Some(b));
    assert_eq!(w.s.current_id(0), b);
}

#[test]
fn killed_threads_are_gone() {
    let mut w = World::new();
    let a = w.process();
    let b = w.process();
    let x = w.spawn_owned(done, PRIO_HIGH, a);
    let y = w.spawn_owned(done, PRIO_LOW, a);
    let z = w.spawn_owned(done, PRIO_HIGH, b);
    w.s.kill_threads(a, 0);
    assert_eq!(w.s.thread(x).state, ThreadState::Exited);
    assert_eq!(w.s.thread(y).state, ThreadState::Exited);
    assert_eq!(w.s.thread(z).state, ThreadState::Ready);
    let (t, _) = w.s.yield_(0);
    assert_eq!(t.new, z);
}

#[test]
fn entry_is_used_again_once() {
    let mut w = World::new();
    let a = w.process();
    let x = w.spawn_owned(done, PRIO_HIGH, a);
    let (t, _) = w.s.yield_(0);
    assert_eq!(t.new, x);
    assert_eq!(w.s.exit(0).new, 0);
    assert_eq!(w.s.thread(x).state, ThreadState::Exited);
    // The thread is gone already, and its entry waits once.
    w.s.kill_threads(a, 0);
    assert_eq!(w.s.thread(x).state, ThreadState::Exited);
    assert!(!w.s.thread(x).ctx_valid && !w.s.thread(x).frame_valid);
    assert_eq!(w.s.spawn(0x8020_5000, PRIO_LOW, 0x8150_0000, 0), x);
    assert_eq!(w.s.spawn(0x8020_5000, PRIO_LOW, 0x8150_0000, 0), x + 1);
}

/// A kernel thread blocks, is woken as told, and takes its message after others have run.
fn message_after(wake: fn(&mut Scheduler, usize)) -> (Option<[u64; 5]>, Option<[u64; 5]>) {
    let mut s = scheduler();
    let x = s.spawn(0x8020_5000, PRIO_LOW, 0x8150_0000, 0);
    let (t, _) = s.yield_(0);
    assert_eq!(t.new, x);
    assert!(s.block_current(0).is_some());
    wake(&mut s, x);
    let y = s.spawn(0x8020_5000, PRIO_HIGH, 0x8160_0000, 0);
    s.yield_(0);
    assert_eq!(s.current_id(0), y);
    assert_eq!(s.take_ipc_msg(0), None);
    s.on_tick(&frame(), 0);
    s.wake(x, 0);
    s.exit(0);
    let mut rounds = 0;
    while s.current_id(0) != x && rounds < 8 {
        s.yield_(0);
        rounds += 1;
    }
    assert_eq!(s.current_id(0), x);
    s.unblocked(0);
    (s.take_ipc_msg(0), s.take_ipc_msg(0))
}

#[test]
fn message_waits_for_its_thread() {
    let m = [1, 2, 3, 4, 5];
    assert_eq!(message_after(|s, t| s.ipc_wake_with_msg(t, Some([1, 2, 3, 4, 5]))), (Some(m), None));
    assert_eq!(message_after(|s, t| s.ipc_wake_with_msg(t, None)), (None, None));
    assert_eq!(message_after(|s, t| s.ipc_wake_with_err(t, 77)), (Some([77; 5]), None));
}

#[test]
fn table_of_threads_fills_up() {
    let mut s = scheduler();
    for _ in MAX_HARTS..MAX_THREADS {
        assert!(s.can_spawn());
        s.spawn(0x8020_5000, 9, 0x8150_0000, 0);
    }
    assert!(!s.can_spawn());
    assert_eq!(s.thread_count(), MAX_THREADS);
    // A priority that does not exist counts as the lowest.
    assert_eq!(s.thread(MAX_HARTS).prio, PRIO_LOW);
}

#[test]
fn bench_is_time_per_switch() {
    assert_eq!(bench(10_000, 10_000_000, 1000), 500);
    assert_eq!(bench(1, 10_000_000, 1), 50);
}

fn mutex_inc(w: &mut World, id: usize) -> Act {
    // Two pieces of work for each turn: take the lock, then count and release it.
    if w.pc[id] == 2000 {
        w.marks[1] += 1;
        return Act::Exit;
    }
    if w.pc[id] % 2 == 0 {
        match w.lock.lock(id) {
            LockStep::Acquired => {
                w.pc[id] += 1;
                Act::Yield
            }
            LockStep::Block => Act::Block,
        }
    } else {
        let n = *w.lock.get();
        w.lock.set(n + 1);
        w.pc[id] += 1;
        if let Some(t) = w.lock.unlock() {
            w.s.wake(t, 0);
        }
        Act::Yield
    }
}

#[test]
fn mutex_keeps_the_count() {
    let mut w = World::new();
    w.spawn(mutex_inc, PRIO_HIGH);
    w.spawn(mutex_inc, PRIO_HIGH);
    let mut guard = 0;
    while w.marks[1] < 2 && guard < 100_000 {
        w.yield_main();
        guard += 1;
    }
    assert!(matches!(w.lock.lock(0), LockStep::Acquired));
    assert_eq!(*w.lock.get(), 2000);
}

fn consumer(w: &mut World, id: usize) -> Act {
    match w.pc[id] {
        0 | 2 => match w.lock.lock(id) {
            LockStep::Acquired => {
                w.pc[id] = if *w.lock.get() == 42 { 3 } else { 1 };
                Act::Yield
            }
            LockStep::Block => Act::Block,
        },
        1 => {
            w.pc[id] = 2;
            if let Some(t) = w.cond.wait(&mut w.lock, id) {
                w.s.wake(t, 0);
            }
            Act::Block
        }
        _ => {
            if let Some(t) = w.lock.unlock() {
                w.s.wake(t, 0);
            }
            w.marks[2] = 1;
            Act::Exit
        }
    }
}

fn producer(w: &mut World, id: usize) -> Act {
    match w.pc[id] {
        0 => match w.lock.lock(id) {
            LockStep::Acquired => {
                w.lock.set(42);
                w.pc[id] = 1;
                Act::Yield
            }
            LockStep::Block => Act::Block,
        },
        _ => {
            if let Some(t) = w.cond.notify_one() {
                w.s.wake(t, 0);
            }
            if let Some(t) = w.lock.unlock() {
                w.s.wake(t, 0);
            }
            Act::Exit
        }
    }
}

#[test]
fn condition_is_waited_for() {
    let mut w = World::new();
    w.spawn(consumer, PRIO_HIGH);
    w.spawn(producer, PRIO_HIGH);
    let mut guard = 0;
    while w.marks[2] == 0 && guard < 100_000 {
        w.yield_main();
        guard += 1;
    }
    assert_eq!(w.marks[2], 1);
}

#[test]
fn locks_exclude() {
    let mut l = SpinLock::new(5u32);
    assert!(l.lock());
    assert!(!l.lock());
    assert_eq!(*l.get(), 5);
    l.set(6);
    l.unlock();
    assert!(l.lock());
    assert_eq!(*l.get(), 6);
    let mut c = Condvar::new();
    let mut m = Mutex::new(());
    assert!(matches!(m.lock(7), LockStep::Acquired));
    assert_eq!(c.wait(&mut m, 7), None);
    assert!(matches!(m.lock(8), LockStep::Acquired));
    assert_eq!(c.wait(&mut m, 8), None);
    assert_eq!(c.notify_all(), vec![7, 8]);
    assert_eq!(c.notify_one(), None);
}
