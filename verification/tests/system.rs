//! Programs on a machine: instructions are carried out here, the kernel is the library.

use ignium::arch::gpr::{X_A0, X_A1, X_A2, X_A3, X_A4, X_A5, X_A7};
use ignium::arch::{FRAME_SEPC, FRAME_SSTATUS, TRAP_FRAME_WORDS};
use ignium::clients::{Borrower, BorrowNext, FileTrial, TrialNext};
use ignium::elf::{self, ElfError};
use ignium::fdt::BoardParams;
use ignium::kernel::{trap_handler, Kernel, TrapExit, CAUSE_ECALL_FROM_U, CAUSE_SUPERVISOR_TIMER, INTERRUPT};
use ignium::mem;
use ignium::memory_server::{MemoryAt, MemoryServer};
use ignium::mmu::{self, KernelLayout, PhysMemory};
use ignium::pages;
use ignium::process::{self, Cap, CapError};
use ignium::ram::Ram;
use ignium::ramfs::{FileServer, FileState};
use ignium::runqueue::ThreadState;
use ignium::sched::{Image, Scheduler, PRIO_HIGH, SSTATUS_USER};
use ignium::services;
use ignium::shm::{self, SHM_VA};
use ignium::space::Spaces;
use ignium::syscall::{SYS_ERR_EACCES, SYS_ERR_EEXIST, SYS_ERR_EFAULT, SYS_ERR_EINVAL, SYS_ERR_ENOENT, SYS_ERR_ENOSYS};
use ignium::uart;
use ignium::uart_server::{rx_ready, tx_ready, UartEvent, UartNext, UartServer};
use ignium::user::{
    hello, marker, uart_init, uart_sent, uart_write, uart_written, Call, InitNext, InitStage, Words,
    MARKER_VA, RAMFS_VA, SERVER_POOL_START,
};

const UART_BASE: u64 = 0x1000_0000;
const CODE_VA: u64 = 0x4000_0000;
const SHARED_VA: u64 = 0x4000_1000;
const GUARD_VA: u64 = 0x4000_2000;
const STACK_VA: u64 = 0x4000_3000;
const STACK_TOP: u64 = 0x4000_4000;

fn layout() -> KernelLayout {
    KernelLayout {
        ram_start: 0x8000_0000,
        ram_end: 0x8200_0000,
        kernel_start: 0x8020_0000,
        text_start: 0x8020_0000,
        rodata_start: 0x8021_0000,
        data_start: 0x8022_0000,
        kernel_end: 0x8030_0000,
        stack_guard: 0x8022_8000,
        trap_base: 0x8023_0000,
        trap_top: 0x8025_0000,
        idle_base: 0x8026_0000,
        idle_top: 0x8028_0000,
        uart_base: UART_BASE,
    }
}

/// What runs in a user thread, where it is no machine code.
enum Program {
    Memory(MemoryServer),
    Files(FileServer),
    Uart(UartServer),
    Borrow(Borrower),
    Trial(FileTrial),
    Greet(Greeter),
}

/// The greeting program: one line through the UART service, then the mark.
struct Greeter {
    stage: InitStage,
    text: Vec<u8>,
    sent: bool,
    heard: bool,
    written: i64,
}

struct Task {
    thread: usize,
    program: Program,
    next: Call,
}

struct Machine {
    k: Kernel,
    ticks: u64,
    console: Vec<u8>,
    input: Vec<u8>,
    tasks: Vec<Task>,
    x: [u64; 32],
    pc: u64,
    root: u64,
}

impl Machine {
    fn new() -> Machine {
        let ram = Ram::new(0x8100_0000, 4096);
        let params = BoardParams::empty();
        let frames = mem::init(&params, 0x8030_0000, 0x8200_0000);
        let mut m = PhysMemory::new(ram, frames);
        let root = mmu::init(&mut m, &layout());
        let image = Image {
            thread_entry: 0x8020_1000,
            idle_entry: 0x8020_1100,
            user_stub: 0x8020_1200,
            global_pointer: 0x8022_0800,
            kernel_root: root,
        };
        let sched = Scheduler::new(image, [0x8026_4000, 0x8026_c000, 0x8027_4000, 0x8027_c000]);
        let k = Kernel::new(Spaces::new(m), sched, UART_BASE);
        assert!(k.is_device_apart());
        Machine {
            k,
            ticks: 7,
            console: Vec::new(),
            input: Vec::new(),
            tasks: Vec::new(),
            x: [0; 32],
            pc: 0,
            root: 0,
        }
    }

    fn process(&mut self) -> usize {
        process::create(&mut self.k.spaces, &layout()).expect("process")
    }

    fn root_of(&self, pid: usize) -> u64 {
        process::root(&self.k.spaces.procs, pid)
    }

    fn page(&mut self, root: u64, va: u64, flags: u64) -> u64 {
        let pa = self.k.spaces.mem.alloc_page_zeroed().expect("page");
        assert!(mmu::map_user_page(&mut self.k.spaces.mem, root, va, pa, flags).is_ok());
        pa
    }

    /// Pages of a program: code, shared page, a guard page that is not mapped, and a stack.
    fn load(&mut self, pid: usize, prog: &[u32]) -> u64 {
        let root = self.root_of(pid);
        let code = self.page(root, CODE_VA, 0xcb);
        let shared = self.page(root, SHARED_VA, 0xc7);
        self.page(root, STACK_VA, 0xc7);
        for (i, w) in prog.iter().enumerate() {
            self.put32(code + 4 * i as u64, *w);
        }
        shared
    }

    fn get32(&self, pa: u64) -> u32 {
        let w = self.k.spaces.mem.ram.read(pa & !7);
        (w >> (8 * (pa & 4))) as u32
    }

    fn put32(&mut self, pa: u64, v: u32) {
        let w = self.k.spaces.mem.ram.read(pa & !7);
        let s = 8 * (pa & 4);
        let n = (w & !(0xffff_ffffu64 << s)) | ((v as u64) << s);
        self.k.spaces.mem.ram.write(pa & !7, n);
    }

    fn get8(&self, pa: u64) -> u8 {
        self.k.spaces.mem.ram.read_byte(pa)
    }

    fn put8(&mut self, pa: u64, v: u8) {
        let w = self.k.spaces.mem.ram.read(pa & !7);
        let s = 8 * (pa & 7);
        let n = (w & !(0xffu64 << s)) | ((v as u64) << s);
        self.k.spaces.mem.ram.write(pa & !7, n);
    }

    /// Where a user address leads, if the access is allowed.
    fn user(&self, root: u64, va: u64, need: u64) -> Option<u64> {
        let mut table = root;
        for level in [2u64, 1, 0] {
            let i = (va >> (12 + 9 * level)) & 511;
            let e = self.k.spaces.mem.ram.read(table + 8 * i);
            if e & 1 == 0 {
                return None;
            }
            let pa = ((e >> 10) & 0xfff_ffff_ffff) << 12;
            if e & 0xe != 0 {
                if level != 0 || e & 0x10 == 0 || e & need == 0 {
                    return None;
                }
                return Some(pa + (va & 4095));
            }
            table = pa;
        }
        None
    }

    fn spawn(&mut self, pid: usize) -> usize {
        assert!(self.k.sched.can_spawn());
        self.k.sched.spawn_user(&self.k.spaces.procs, pid, CODE_VA, STACK_TOP, PRIO_HIGH, 0)
    }

    /// Gives way on the first core until its own context comes back.
    fn yield_main(&mut self) {
        let (t, _) = self.k.sched.yield_(0);
        if t.new != 0 {
            self.enter(t.new);
            self.run();
        }
    }

    fn enter(&mut self, id: usize) {
        let t = self.k.sched.thread(id);
        self.restore(&t.frame);
        self.root = t.root;
    }

    fn restore(&mut self, f: &[u64; TRAP_FRAME_WORDS]) {
        for i in 1..32 {
            self.x[i] = f[i - 1];
        }
        self.pc = f[FRAME_SEPC];
    }

    fn frame(&self) -> [u64; TRAP_FRAME_WORDS] {
        let mut f = [0u64; TRAP_FRAME_WORDS];
        for i in 1..32 {
            f[i - 1] = self.x[i];
        }
        f[FRAME_SEPC] = self.pc;
        f[FRAME_SSTATUS] = SSTATUS_USER;
        f
    }

    /// Takes a trap; false once the first context runs again.
    fn trap(&mut self, scause: u64) -> bool {
        let mut f = self.frame();
        match trap_handler(&mut self.k, &mut f, scause, 0, self.ticks) {
            TrapExit::Resume | TrapExit::Acknowledge => self.restore(&f),
            TrapExit::Frame(id, root) => {
                self.enter(id);
                assert_eq!(root, self.root);
            }
            TrapExit::Switch(t) => {
                if t.new == 0 {
                    return false;
                }
                assert!(t.use_frame);
                self.enter(t.new);
                assert_eq!(t.next_root, self.root);
            }
            TrapExit::Write(buf, len) => {
                for i in 0..len {
                    let pa = self.user(self.root, buf + i, 2).expect("readable");
                    let b = self.get8(pa);
                    self.console.extend(uart::write_bytes(&[b]));
                }
                self.restore(&f);
            }
            TrapExit::Halt => panic!("halt"),
        }
        self.k.sched.current_id(0) != 0
    }

    /// Runs user threads until the first context runs again.
    fn run(&mut self) {
        for _ in 0..200_000 {
            let id = self.k.sched.current_id(0);
            let going = match self.tasks.iter().position(|t| t.thread == id) {
                Some(i) => self.run_task(i),
                None => self.run_code(),
            };
            if !going {
                return;
            }
        }
        panic!("no end");
    }

    /// One instruction.
    fn run_code(&mut self) -> bool {
        let at = match self.user(self.root, self.pc, 8) {
            Some(pa) => self.get32(pa),
            None => return self.trap(12),
        };
        let rd = ((at >> 7) & 31) as usize;
        let rs1 = ((at >> 15) & 31) as usize;
        let rs2 = ((at >> 20) & 31) as usize;
        match at & 0x7f {
            0x37 => self.x[rd] = (at & 0xffff_f000) as i32 as i64 as u64,
            0x13 => self.x[rd] = self.x[rs1].wrapping_add(((at as i32) >> 20) as i64 as u64),
            0x23 => {
                let imm = (((at >> 25) << 5) | ((at >> 7) & 31)) as u64;
                let va = self.x[rs1].wrapping_add(imm);
                match self.user(self.root, va, 4) {
                    Some(pa) => self.put32(pa, self.x[rs2] as u32),
                    None => return self.trap(15),
                }
            }
            0x03 => {
                let va = self.x[rs1].wrapping_add(((at as i32) >> 20) as i64 as u64);
                match self.user(self.root, va, 2) {
                    Some(pa) => self.x[rd] = self.get32(pa) as i32 as i64 as u64,
                    None => return self.trap(13),
                }
            }
            0x73 => return self.trap(CAUSE_ECALL_FROM_U),
            _ => return self.trap(2),
        }
        self.x[0] = 0;
        self.pc += 4;
        true
    }

    fn words(&self) -> Words {
        Words {
            a0: self.x[X_A0 + 1],
            a1: self.x[X_A1 + 1],
            a2: self.x[X_A2 + 1],
            a3: self.x[X_A3 + 1],
            a4: self.x[X_A4 + 1],
            a5: self.x[X_A5 + 1],
        }
    }

    fn copy(&mut self, root: u64, from: u64, to: u64, len: u64) {
        for i in 0..len {
            let a = self.user(root, from + i, 2).expect("from");
            let b = self.user(root, to + i, 4).expect("to");
            let v = self.get8(a);
            self.put8(b, v);
        }
    }

    fn poke(&mut self, root: u64, va: u64, bytes: &[u8]) {
        for (i, b) in bytes.iter().enumerate() {
            let pa = self.user(root, va + i as u64, 4).expect("poke");
            self.put8(pa, *b);
        }
    }

    fn peek(&self, root: u64, va: u64, n: usize) -> Vec<u8> {
        (0..n)
            .map(|i| self.get8(self.user(root, va + i as u64, 2).expect("peek")))
            .collect()
    }

    fn load_call(&mut self, c: Call) {
        self.x[X_A7 + 1] = c.num;
        self.x[X_A0 + 1] = c.args.a0;
        self.x[X_A1 + 1] = c.args.a1;
        self.x[X_A2 + 1] = c.args.a2;
        self.x[X_A3 + 1] = c.args.a3;
        self.x[X_A4 + 1] = c.args.a4;
        self.x[X_A5 + 1] = c.args.a5;
    }

    /// Lets a program go on. The even address of its code means that its call is to be made, the
    /// next one that the call is back.
    fn run_task(&mut self, i: usize) -> bool {
        if self.pc == CODE_VA {
            let c = self.tasks[i].next;
            self.load_call(c);
            return self.trap(CAUSE_ECALL_FROM_U);
        }
        let b = self.words();
        let next = self.go_on(i, b);
        self.tasks[i].next = next;
        self.pc = CODE_VA;
        true
    }

    fn go_on(&mut self, i: usize, b: Words) -> Call {
        let root = self.root;
        let mut task = std::mem::replace(
            &mut self.tasks[i],
            Task { thread: 0, program: Program::Uart(UartServer::start().0), next: ignium::user::sys_exit() },
        );
        let call = match &mut task.program {
            Program::Memory(s) => s.step(b),
            Program::Files(s) => {
                let n = s.step(b);
                if let Some(c) = n.copy {
                    self.copy(root, c.from, c.to, c.len);
                }
                n.call
            }
            Program::Uart(s) => {
                let mut n = s.step(UartEvent::Back(b));
                loop {
                    n = match n {
                        UartNext::Call(c) => break c,
                        UartNext::Print(len) => {
                            assert!(tx_ready(0x60));
                            let text = self.peek(root, SHM_VA, len as usize);
                            self.console.extend(uart::write_bytes(&text));
                            s.step(UartEvent::Done)
                        }
                        UartNext::Look => {
                            let lsr = if self.input.is_empty() { 0x60 } else { 0x61 };
                            assert_eq!(rx_ready(lsr), !self.input.is_empty());
                            s.step(UartEvent::Status(lsr))
                        }
                        UartNext::Take(at) => {
                            let byte = self.input.remove(0);
                            self.poke(root, SHM_VA + at, &[byte]);
                            s.step(UartEvent::Done)
                        }
                    };
                }
            }
            Program::Borrow(s) => {
                let mut n = s.step(b);
                loop {
                    n = match n {
                        BorrowNext::Call(c) => break c,
                        BorrowNext::Try(va, v) => {
                            self.poke(root, va, &v.to_le_bytes());
                            let back = self.peek(root, va, 8);
                            let w = u64::from_le_bytes(back.try_into().unwrap());
                            s.step(Words { a0: w, a1: 0, a2: 0, a3: 0, a4: 0, a5: 0 })
                        }
                        BorrowNext::Finish(mark) => {
                            self.poke(root, MARKER_VA, &mark.to_le_bytes());
                            break ignium::user::sys_exit();
                        }
                    };
                }
            }
            Program::Trial(s) => {
                let mut n = s.step(b);
                loop {
                    n = match n {
                        TrialNext::Call(c) => break c,
                        TrialNext::Put(c) => {
                            self.poke(root, SHM_VA, b"hello ramfs");
                            break c;
                        }
                        TrialNext::Compare => {
                            let w = self.peek(root, SHM_VA, 11);
                            s.compare(&w)
                        }
                        TrialNext::Finish(mark) => {
                            self.poke(root, MARKER_VA, &mark.to_le_bytes());
                            break ignium::user::sys_exit();
                        }
                    };
                }
            }
            Program::Greet(g) => {
                if g.heard {
                    g.written = uart_written(b);
                    self.poke(root, MARKER_VA, &marker(1).to_le_bytes());
                    ignium::user::sys_exit()
                } else if g.sent {
                    g.heard = true;
                    uart_sent(b.a0).expect("sent")
                } else {
                    match uart_init(g.stage, b.a0) {
                        InitNext::Call(stage, c) => {
                            g.stage = stage;
                            c
                        }
                        InitNext::Done(rc) => {
                            assert_eq!(rc, 0);
                            let (window, c) = uart_write(&g.text);
                            self.poke(root, SHM_VA, &window);
                            g.sent = true;
                            c
                        }
                    }
                }
            }
        };
        self.tasks[i] = task;
        call
    }

    fn start(&mut self, pid: usize, program: Program, next: Call) -> usize {
        let thread = self.spawn(pid);
        self.tasks.push(Task { thread, program, next });
        thread
    }

    fn cap(&self, pid: usize, slot: usize) -> Result<Cap, CapError> {
        process::cap_target(&self.k.spaces.procs, pid, slot)
    }
}

const ADDI_A7: u32 = 0x0000_0893;
const ECALL: u32 = 0x0000_0073;

#[test]
fn boot_user_thread_test() {
    let mut m = Machine::new();
    let pid = m.process();
    let root = m.root_of(pid);
    let shared = m.load(
        pid,
        &[0x0020_0893, ECALL, 0x4000_12b7, 0x00a2_a023, 0x0010_0893, ECALL],
    );
    assert!(!mmu::is_mapped(&m.k.spaces.mem, root, GUARD_VA));
    assert!(mmu::is_mapped(&m.k.spaces.mem, root, STACK_VA));
    let id = m.spawn(pid);
    assert_ne!(id, m.k.sched.current_id(0));
    m.yield_main();
    assert_eq!(m.get32(shared), 7);
    assert_eq!(m.k.sched.thread(id).state, ThreadState::Exited);
    assert_eq!(m.k.sched.current_id(0), 0);
}

#[test]
fn boot_process_addrspace_test() {
    let mut m = Machine::new();
    let a = m.process();
    let b = m.process();
    let (root_a, root_b) = (m.root_of(a), m.root_of(b));
    assert_ne!(root_a, root_b);
    let mut prog = [
        0x0020_0893,
        ECALL,
        0x4000_12b7,
        0x0a50_0313,
        0x0062_a023,
        0x00a2_a223,
        0x0010_0893,
        ECALL,
    ];
    let shared_a = m.load(a, &prog);
    prog[3] = 0x0b50_0313;
    let shared_b = m.load(b, &prog);
    m.spawn(a);
    m.spawn(b);
    m.yield_main();
    assert_eq!(m.get32(shared_a), 0xa5);
    assert_eq!(m.get32(shared_b), 0xb5);
    assert_ne!(m.get32(shared_a + 4), 0);
    assert_ne!(m.get32(shared_b + 4), 0);
    for root in [root_a, root_b] {
        assert!(!mmu::is_mapped(&m.k.spaces.mem, root, GUARD_VA));
        assert!(mmu::is_mapped(&m.k.spaces.mem, root, STACK_VA));
        assert!(mmu::is_mapped(&m.k.spaces.mem, root, UART_BASE));
        assert!(mmu::is_mapped(&m.k.spaces.mem, root, 0x8000_0000));
        assert!(!mmu::is_mapped(&m.k.spaces.mem, root, 0x8023_0000));
        assert!(mmu::is_mapped(&m.k.spaces.mem, root, 0x8023_4000));
    }
    let kernel = m.k.kernel_root();
    assert!(!mmu::is_mapped(&m.k.spaces.mem, kernel, CODE_VA));
}

#[test]
fn boot_ipc_test() {
    let mut m = Machine::new();
    let s = m.process();
    let r = m.process();
    assert!(process::grant_cap(&mut m.k.spaces.procs, s, 0, r).is_ok());
    assert!(process::grant_cap(&mut m.k.spaces.procs, r, 0, s).is_ok());
    let shared_r = m.load(
        r,
        &[
            0x4000_12b7, 0x0510_0313, 0x0062_a023, 0x0000_0513, 0x0040_0893, ECALL, 0x00a2_a223,
            0x00b2_a423, 0x00c2_a623, 0x00d2_a823, 0x00e2_aa23, 0x00f2_ac23, 0x0e50_0313,
            0x0062_ae23, 0x0010_0893, ECALL,
        ],
    );
    let shared_s = m.load(
        s,
        &[
            0x4000_12b7, 0x0020_0513, 0x1110_0593, 0x2220_0613, 0x3330_0693, 0x4440_0713,
            0x5550_0793, 0x0030_0893, ECALL, 0x00a2_a023, 0x0000_0513, 0x1110_0593, 0x2220_0613,
            0x3330_0693, 0x4440_0713, 0x5550_0793, 0x0030_0893, ECALL, 0x00a2_a223, 0x7770_0313,
            0x0062_a423, 0x0010_0893, ECALL,
        ],
    );
    let receiver = m.spawn(r);
    m.yield_main();
    assert_eq!(m.get32(shared_r), 0x51);
    assert!(m.k.sched.is_blocked(receiver));
    assert_eq!(m.k.sched.donation_count(), 1);
    m.spawn(s);
    m.yield_main();
    assert_eq!(m.get32(shared_r + 28), 0xe5);
    assert_eq!(m.get32(shared_s + 8), 0x777);
    assert_eq!(m.get32(shared_s), SYS_ERR_EACCES as u32);
    assert_eq!(m.get32(shared_s + 4), 0);
    assert_eq!(m.get32(shared_r + 4), 0);
    let got: Vec<u32> = (2..7).map(|i| m.get32(shared_r + 4 * i)).collect();
    assert_eq!(got, vec![0x111, 0x222, 0x333, 0x444, 0x555]);
    assert_eq!(m.k.sched.donation_count(), 0);
}

#[test]
fn boot_shm_test() {
    let mut m = Machine::new();
    let a = m.process();
    let b = m.process();
    let (root_a, root_b) = (m.root_of(a), m.root_of(b));
    assert!(process::grant_cap(&mut m.k.spaces.procs, a, 0, b).is_ok());
    let shared_a = m.load(
        a,
        &[
            0x4000_12b7, 0x0000_0513, 0x0010_0593, 0x0000_1637, 0x0050_0893, ECALL, 0x00a2_a023,
            0x5000_0337, 0x0a50_0393, 0x0073_2023, 0x3330_0313, 0x0062_a223, 0x0010_0893, ECALL,
        ],
    );
    let shared_b = m.load(
        b,
        &[
            0x4000_12b7, 0x5000_0337, 0x0003_2e03, 0x01c2_a023, 0x0b50_0393, 0x0073_2223,
            0x0072_a223, 0x0010_0513, 0x0060_0893, ECALL, 0x00a2_a423, 0x7770_0313, 0x0062_a623,
            0x0010_0893, ECALL,
        ],
    );
    m.spawn(a);
    m.yield_main();
    assert_eq!(m.get32(shared_a + 4), 0x333);
    let id = m.get32(shared_a) as usize;
    let paddr = shm::shm_paddr(&m.k.spaces, id).expect("registered");
    assert_eq!(m.get32(paddr), 0xa5);
    assert_eq!(m.cap(a, 0), Ok(Cap::Shm(id)));
    assert_eq!(m.cap(b, 1), Ok(Cap::Shm(id)));
    m.spawn(b);
    m.yield_main();
    assert_eq!(m.get32(shared_b + 12), 0x777);
    assert_eq!(m.get32(shared_b), 0xa5);
    assert_eq!(m.get32(shared_b + 4), 0xb5);
    assert_eq!(m.get32(shared_b + 8), 0);
    assert!(!mmu::is_mapped(&m.k.spaces.mem, root_a, SHM_VA));
    assert!(!mmu::is_mapped(&m.k.spaces.mem, root_b, SHM_VA));
    assert_eq!(m.cap(a, 0), Err(CapError::NotFound));
    assert_eq!(m.cap(b, 1), Err(CapError::NotFound));
    assert!(shm::shm_paddr(&m.k.spaces, id).is_none());
}

#[test]
fn boot_cap_test() {
    let mut m = Machine::new();
    let a = m.process();
    let b = m.process();
    assert!(process::grant_cap(&mut m.k.spaces.procs, a, 0, b).is_ok());
    let shared = m.load(
        a,
        &[
            0x4000_12b7, 0x0000_0513, 0x0020_0593, 0x0070_0893, ECALL, 0x00a2_a023, 0x0000_0513,
            0x0060_0893, ECALL, 0x00a2_a223, 0x7770_0313, 0x0062_a423, 0x0010_0893, ECALL,
        ],
    );
    m.spawn(a);
    m.yield_main();
    assert_eq!(m.get32(shared + 8), 0x777);
    assert_eq!(m.get32(shared), 0);
    assert_eq!(m.get32(shared + 4), 0);
    assert_eq!(m.cap(a, 2), Ok(Cap::Proc(b)));
    assert_eq!(m.cap(a, 0), Err(CapError::NotFound));
}

/// A call that stores what it returns at the start of the shared page, and ends.
fn one_call(num: u32, a0: u32, a1: u32, a2_lui: u32) -> Vec<u32> {
    vec![
        0x4000_12b7,
        0x0000_0513 | (a0 << 20),
        0x0000_0593 | (a1 << 20),
        0x0000_0637 | (a2_lui << 12),
        ADDI_A7 | (num << 20),
        ECALL,
        0x00a2_a023,
        0x0010_0893,
        ECALL,
    ]
}

fn result_of(m: &mut Machine, pid: usize, prog: &[u32]) -> u32 {
    let root = m.root_of(pid);
    let shared = if mmu::is_mapped(&m.k.spaces.mem, root, CODE_VA) {
        let code = m.user(root, CODE_VA, 8).unwrap();
        for (i, w) in prog.iter().enumerate() {
            m.put32(code + 4 * i as u64, *w);
        }
        m.user(root, SHARED_VA, 4).unwrap()
    } else {
        m.load(pid, prog)
    };
    m.spawn(pid);
    m.yield_main();
    m.get32(shared)
}

#[test]
fn errors_of_calls() {
    let mut m = Machine::new();
    let a = m.process();
    // No such call, and none to read from.
    assert_eq!(result_of(&mut m, a, &one_call(99, 0, 0, 0)), SYS_ERR_ENOSYS as u32);
    assert_eq!(result_of(&mut m, a, &one_call(9, 0, 0, 0)), SYS_ERR_ENOSYS as u32);
    // A slot that does not exist, and an empty one.
    assert_eq!(result_of(&mut m, a, &one_call(3, 8, 0, 0)), SYS_ERR_EINVAL as u32);
    assert_eq!(result_of(&mut m, a, &one_call(3, 1, 0, 0)), SYS_ERR_EACCES as u32);
    assert_eq!(result_of(&mut m, a, &one_call(7, 1, 2, 0)), SYS_ERR_EACCES as u32);
    // A service nobody offers; then one of our own, twice.
    assert_eq!(result_of(&mut m, a, &one_call(11, 1, 2, 0)), SYS_ERR_ENOENT as u32);
    assert_eq!(result_of(&mut m, a, &one_call(10, 1, 0, 0)), 0);
    assert_eq!(result_of(&mut m, a, &one_call(10, 1, 0, 0)), SYS_ERR_EEXIST as u32);
    assert_eq!(services::lookup(&m.k.services, 1), Some(a));
    // A length that is not a page.
    assert!(process::grant_cap(&mut m.k.spaces.procs, a, 0, a).is_ok());
    assert_eq!(result_of(&mut m, a, &one_call(5, 0, 1, 2)), SYS_ERR_EINVAL as u32);
}

#[test]
fn written_text_reaches_the_console() {
    let mut m = Machine::new();
    let a = m.process();
    // write(1, SHARED_VA + 0x100, 3)
    let prog = [
        0x4000_12b7, // lui t0, 0x40001
        0x0010_0513, // addi a0, x0, 1
        0x1002_8593, // addi a1, t0, 0x100
        0x0030_0613, // addi a2, x0, 3
        0x0080_0893, // addi a7, x0, 8
        ECALL,
        0x00a2_a023, // sw a0, 0(t0)
        0x0010_0893,
        ECALL,
    ];
    let shared = m.load(a, &prog);
    for (i, b) in b"a\nb".iter().enumerate() {
        m.put8(shared + 0x100 + i as u64, *b);
    }
    m.spawn(a);
    m.yield_main();
    assert_eq!(m.get32(shared), 3);
    assert_eq!(m.console, b"a\r\nb");
}

#[test]
fn unreadable_text_is_refused() {
    let mut m = Machine::new();
    let a = m.process();
    // write(1, the guard page, one page)
    let prog = [
        0x4000_12b7, 0x0010_0513, 0x4000_25b7, 0x0000_1637, 0x0080_0893, ECALL, 0x00a2_a023,
        0x0010_0893, ECALL,
    ];
    assert_eq!(result_of(&mut m, a, &prog), SYS_ERR_EFAULT as u32);
    assert!(m.console.is_empty());
}

#[test]
fn fault_ends_the_process_only() {
    let mut m = Machine::new();
    let a = m.process();
    let b = m.process();
    let free = m.k.spaces.mem.frames.free_page_count();
    assert!(process::grant_cap(&mut m.k.spaces.procs, b, 0, a).is_ok());
    assert!(services::register_locked(&mut m.k.services, a, 3).is_ok());
    // B waits for A.
    let shared_b = m.load(
        b,
        &[
            0x4000_12b7, 0x0000_0513, 0x0040_0893, ECALL, 0x00a2_a223, 0x0510_0313, 0x0062_a023,
            0x0010_0893, ECALL,
        ],
    );
    let waiting = m.spawn(b);
    m.yield_main();
    assert!(m.k.sched.is_blocked(waiting));
    m.put32(shared_b + 64, 0x1234_5678);
    // A touches its guard page.
    m.load(a, &[0x4000_22b7, 0x0002_a023]);
    m.spawn(a);
    m.yield_main();
    assert_eq!(m.k.fault_kill_count(), 1);
    assert!(process::pid_root(&m.k.spaces.procs, a).is_none());
    assert!(process::pid_root(&m.k.spaces.procs, b).is_some());
    assert_eq!(services::lookup(&m.k.services, 3), None);
    // B was told.
    assert_eq!(m.get32(shared_b), 0x51);
    assert_eq!(m.get32(shared_b + 4), SYS_ERR_ENOENT as u32);
    assert_eq!(m.get32(shared_b + 64), 0x1234_5678);
    assert!(m.k.is_device_apart());
    assert!(m.k.spaces.mem.frames.free_page_count() <= free + 16);
}

#[test]
fn better_thread_takes_over_at_the_tick() {
    let mut m = Machine::new();
    let a = m.process();
    let b = m.process();
    m.load(a, &[0x0000_0013]);
    m.load(b, &[0x0000_0013]);
    let low = m.k.sched.spawn_user(&m.k.spaces.procs, a, CODE_VA, STACK_TOP, 2, 0);
    let (t, _) = m.k.sched.yield_(0);
    assert_eq!(t.new, low);
    m.enter(low);
    m.pc += 4;
    let high = m.k.sched.spawn_user(&m.k.spaces.procs, b, CODE_VA, STACK_TOP, 0, 0);
    assert!(m.trap(INTERRUPT + CAUSE_SUPERVISOR_TIMER));
    assert_eq!(m.k.sched.current_id(0), high);
    assert_eq!(m.root, m.root_of(b));
    let t = m.k.sched.thread(low);
    assert_eq!(t.state, ThreadState::Ready);
    assert!(t.frame_valid);
    assert_eq!(t.frame[FRAME_SEPC], CODE_VA + 4);
}

/// The memory server, with its pages.
fn memory_server(m: &mut Machine) -> usize {
    let pid = m.process();
    for i in 0..4 {
        pages::alloc_page(&mut m.k.spaces, pid, SERVER_POOL_START as usize + i).expect("pool");
    }
    let (s, c) = MemoryServer::start();
    m.start(pid, Program::Memory(s), c);
    pid
}

fn marked(m: &mut Machine, pid: usize) -> u64 {
    let root = m.root_of(pid);
    m.page(root, MARKER_VA, 0xc7)
}

#[test]
fn page_is_borrowed_and_returned() {
    let mut m = Machine::new();
    let server = memory_server(&mut m);
    m.yield_main();
    assert_eq!(services::lookup(&m.k.services, 2), Some(server));
    let client = m.process();
    let mark = marked(&mut m, client);
    let (b, c) = Borrower::start(2);
    m.start(client, Program::Borrow(b), c);
    m.yield_main();
    assert_eq!(m.k.spaces.mem.ram.read(mark), 0xc0de_0002);
    for slot in 1..5 {
        assert!(matches!(m.cap(server, slot), Ok(Cap::Page(_))));
    }
    assert_eq!(m.cap(client, 3), Err(CapError::NotFound));
    match &m.tasks[0].program {
        Program::Memory(s) => {
            assert_eq!(s.full, vec![true; 4]);
            assert_eq!(s.at, MemoryAt::Receiving);
        }
        _ => panic!("not the memory server"),
    }
}

#[test]
fn file_goes_through_its_life() {
    let mut m = Machine::new();
    let memory = memory_server(&mut m);
    m.yield_main();
    let files = m.process();
    let (s, c) = FileServer::start();
    m.start(files, Program::Files(s), c);
    m.yield_main();
    assert_eq!(services::lookup(&m.k.services, 3), Some(files));
    let client = m.process();
    let mark = marked(&mut m, client);
    let (t, c) = FileTrial::start(1);
    m.start(client, Program::Trial(t), c);
    m.yield_main();
    assert_eq!(m.k.spaces.mem.ram.read(mark), 0xc0de_0001);
    // The page is back, and the file is gone.
    for slot in 1..5 {
        assert!(matches!(m.cap(memory, slot), Ok(Cap::Page(_))));
    }
    assert!(!mmu::is_mapped(&m.k.spaces.mem, m.root_of(files), RAMFS_VA));
    match &m.tasks[1].program {
        Program::Files(s) => assert!(s.files.iter().all(|f| f.state == FileState::Free)),
        _ => panic!("not the file server"),
    }
}

#[test]
fn greeting_is_printed_by_the_service() {
    let mut m = Machine::new();
    let server = m.process();
    let (s, c) = UartServer::start();
    m.start(server, Program::Uart(s), c);
    m.yield_main();
    assert_eq!(services::lookup(&m.k.services, 1), Some(server));
    let client = m.process();
    let mark = marked(&mut m, client);
    let g = Greeter {
        stage: InitStage::Start,
        text: hello(1, Some(b"hello")),
        sent: false,
        heard: false,
        written: 0,
    };
    let first = match uart_init(InitStage::Start, 0) {
        InitNext::Call(stage, c) => {
            assert_eq!(stage, InitStage::Connecting);
            c
        }
        InitNext::Done(_) => panic!("done"),
    };
    m.start(client, Program::Greet(Greeter { stage: InitStage::Connecting, ..g }), first);
    m.yield_main();
    assert_eq!(m.console, b"hello, ignium!\r\nargc=1\r\nargv[0]=hello\r\n");
    assert_eq!(m.k.spaces.mem.ram.read(mark), 0xc0de_0001);
    match &m.tasks[1].program {
        Program::Greet(g) => assert_eq!(g.written, g.text.len() as i64),
        _ => panic!("not the client"),
    }
}

/// A program whose code is loaded at the start of the user addresses.
fn elf_of(code: &[u32]) -> Vec<u8> {
    let mut e = vec![0u8; 4096];
    let len = 4 * code.len() as u64;
    e[0..7].copy_from_slice(b"\x7fELF\x02\x01\x01");
    e[16..18].copy_from_slice(&2u16.to_le_bytes());
    e[18..20].copy_from_slice(&243u16.to_le_bytes());
    e[24..32].copy_from_slice(&CODE_VA.to_le_bytes());
    e[32..40].copy_from_slice(&64u64.to_le_bytes());
    e[54..56].copy_from_slice(&56u16.to_le_bytes());
    e[56..58].copy_from_slice(&1u16.to_le_bytes());
    e[64..68].copy_from_slice(&1u32.to_le_bytes());
    e[68..72].copy_from_slice(&5u32.to_le_bytes());
    e[72..80].copy_from_slice(&4096u64.to_le_bytes());
    e[80..88].copy_from_slice(&CODE_VA.to_le_bytes());
    e[96..104].copy_from_slice(&len.to_le_bytes());
    e[104..112].copy_from_slice(&len.to_le_bytes());
    for w in code {
        e.extend(w.to_le_bytes());
    }
    e
}

#[test]
fn boot_elf_test() {
    let mut m = Machine::new();
    let pid = m.process();
    let mark = marked(&mut m, pid);
    let file = elf_of(&[
        0x4000_22b7, // lui t0, 0x40002
        0x00a2_a023, // sw a0, 0(t0)
        0x00b2_a223, // sw a1, 4(t0)
        0x0005_a303, // lw t1, 0(a1)
        0x0062_a423, // sw t1, 8(t0)
        0x0010_0893,
        ECALL,
    ]);
    let args: [&[u8]; 2] = [b"hello", b"world"];
    let p = elf::load(&mut m.k.spaces, pid, &file, &args).expect("loaded");
    assert_eq!(p.entry, CODE_VA);
    assert_eq!(p.argc, 2);
    assert_eq!(p.stack_top % 16, 0);
    // The arguments are on the stack.
    let root = m.root_of(pid);
    let first = u64::from_le_bytes(m.peek(root, p.argv, 8).try_into().unwrap());
    assert_eq!(m.peek(root, first, 6), b"hello\0");
    let second = u64::from_le_bytes(m.peek(root, p.argv + 8, 8).try_into().unwrap());
    assert_eq!(m.peek(root, second, 6), b"world\0");
    // The padding above them is zero.
    assert_eq!(m.peek(root, second + 6, 4), vec![0u8; 4]);
    assert_eq!(m.peek(root, p.argv + 16, 8), vec![0u8; 8]);
    let argc = u64::from_le_bytes(m.peek(root, p.stack_top, 8).try_into().unwrap());
    assert_eq!(argc, 2);
    // What may be executed may not be written.
    assert!(m.user(root, CODE_VA, 8).is_some());
    assert!(m.user(root, CODE_VA, 4).is_none());
    m.k.sched.spawn_user_args(
        &m.k.spaces.procs, pid, p.entry, p.stack_top, p.argc as u64, p.argv, PRIO_HIGH, 0,
    );
    m.yield_main();
    assert_eq!(m.get32(mark), 2);
    assert_eq!(m.get32(mark + 4), p.argv as u32);
    assert_eq!(m.get32(mark + 8), first as u32);
    // The pages are taken now.
    assert_eq!(elf::load(&mut m.k.spaces, pid, &file, &args).err(), Some(ElfError::Overlap));
    assert_eq!(elf::load(&mut m.k.spaces, 15, &file, &args).err(), Some(ElfError::BadProcess));
}

#[test]
fn message_of_registers() {
    let mut m = Machine::new();
    m.load_call(ignium::user::sys_ipc_send(2, &[1, 2, 3, 4, 5]));
    assert_eq!(m.x[X_A7 + 1], 3);
    assert_eq!(m.words(), Words { a0: 2, a1: 1, a2: 2, a3: 3, a4: 4, a5: 5 });
    assert_eq!(X_A2, X_A1 + 1);
    assert_eq!(X_A3, X_A1 + 2);
}
