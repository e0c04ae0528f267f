//! What the machine tells of itself, programs on disk, text, and the edges of the kernel.

use ignium::arch::{check_frame, hart_trap_top, hartid, Timer, MAX_HARTS, TRAP_FRAME_BYTES};
use ignium::board;
use ignium::boot::{heartbeat, interval_us, wake_secondaries, Online};
use ignium::bytes::{be32, be64, find, le16, le32, le64, same};
use ignium::cpu;
use ignium::elf::{self, ElfError};
use ignium::fault::{stack_watermark, PanicState, Stacks};
use ignium::fdt::{parse_hex, BoardParams, Fdt};
use ignium::kernel::{classify, Trap, CAUSE_ECALL_FROM_U, CAUSE_SUPERVISOR_TIMER, INTERRUPT};
use ignium::logger::{Level, Logger};
use ignium::sbi;
use ignium::uart::{self, PutStep, Writer};

/// A device tree in the making.
struct Tree {
    body: Vec<u8>,
    names: Vec<u8>,
}

impl Tree {
    fn new() -> Tree {
        Tree { body: Vec::new(), names: Vec::new() }
    }

    fn word(&mut self, w: u32) {
        self.body.extend(w.to_be_bytes());
    }

    fn pad(&mut self) {
        while self.body.len() % 4 != 0 {
            self.body.push(0);
        }
    }

    fn begin(&mut self, name: &str) {
        self.word(1);
        self.body.extend(name.as_bytes());
        self.body.push(0);
        self.pad();
    }

    fn end(&mut self) {
        self.word(2);
    }

    fn prop(&mut self, name: &str, value: &[u8]) {
        let off = self.names.len() as u32;
        self.names.extend(name.as_bytes());
        self.names.push(0);
        self.word(3);
        self.word(value.len() as u32);
        self.word(off);
        self.body.extend(value);
        self.pad();
    }

    fn blob(mut self, reserved: &[(u64, u64)]) -> Vec<u8> {
        self.word(9);
        let mut rsv = Vec::new();
        for (a, n) in reserved {
            rsv.extend(a.to_be_bytes());
            rsv.extend(n.to_be_bytes());
        }
        rsv.extend([0u8; 16]);
        let head = 40u32;
        let at_struct = head + rsv.len() as u32;
        let at_names = at_struct + self.body.len() as u32;
        let total = at_names + self.names.len() as u32;
        let mut out = Vec::new();
        for w in [
            0xd00d_feed,
            total,
            at_struct,
            at_names,
            head,
            17,
            16,
            0,
            self.names.len() as u32,
            self.body.len() as u32,
        ] {
            out.extend(w.to_be_bytes());
        }
        out.extend(rsv);
        out.extend(self.body);
        out.extend(self.names);
        out
    }
}

fn reg64(a: u64, n: u64) -> Vec<u8> {
    let mut v = a.to_be_bytes().to_vec();
    v.extend(n.to_be_bytes());
    v
}

fn machine() -> Vec<u8> {
    let mut t = Tree::new();
    t.begin("");
    t.prop("#address-cells", &2u32.to_be_bytes());
    t.prop("#size-cells", &2u32.to_be_bytes());
    t.begin("memory");
    t.prop("device_type", b"memory\0");
    t.prop("reg", &reg64(0x8000_0000, 0x0800_0000));
    t.end();
    t.begin("cpus");
    t.prop("timebase-frequency", &10_000_000u32.to_be_bytes());
    t.begin("cpu@0");
    t.prop("device_type", b"cpu\0");
    t.prop("riscv,isa", b"rv64imafdc_sstc\0");
    t.end();
    t.end();
    t.begin("soc");
    t.begin("serial@10000000");
    t.prop("compatible", b"ns16550a\0");
    t.prop("reg", &reg64(0x1000_0000, 0x100));
    t.end();
    t.end();
    t.end();
    t.blob(&[(0x8700_0000, 0x2000)])
}

#[test]
fn tree_tells_the_board() {
    let blob = machine();
    let f = Fdt::new(0x8220_0000, &blob).expect("a tree");
    let p = f.parse();
    assert_eq!(p.ram_start, 0x8000_0000);
    assert_eq!(p.ram_size, 0x0800_0000);
    assert_eq!(p.uart_base, 0x1000_0000);
    assert_eq!(p.timebase_freq, 10_000_000);
    assert!(p.reserved_count >= 1);
    let b = board::init_from_fdt(&p, 0x8030_0000);
    assert_eq!(board::ram_start(&b), 0x8000_0000);
    assert_eq!(board::ram_end(&b), 0x8800_0000);
    assert_eq!(board::ram_size(&b), 0x0800_0000);
    assert_eq!(board::uart_base(&b), 0x1000_0000);
    assert_eq!(board::timer_freq(&b), 10_000_000);
    assert_eq!(board::timer_interval(&b), 100_000);
}

#[test]
fn tree_tells_the_cores() {
    let blob = machine();
    let c = Fdt::new(0x8220_0000, &blob).expect("a tree").cores();
    assert_eq!(c.count, 1);
    assert_eq!(c.isa, b"rv64imafdc_sstc");
    assert!(cpu::init_from_fdt(c.isa).1);
    let mut t = Tree::new();
    t.begin("cpus");
    for name in ["cpu@0", "cpu@1", "cpu-map"] {
        t.begin(name);
        t.end();
    }
    t.begin("cpu@2");
    t.prop("riscv,isa", b"rv64gc");
    t.end();
    t.end();
    let blob = t.blob(&[]);
    let c = Fdt::new(0x8220_0000, &blob).expect("a tree").cores();
    assert_eq!((c.count, c.isa), (3, &b"rv64gc"[..]));
}

#[test]
fn names_are_text() {
    let mut t = Tree::new();
    t.prop("reg", b"");
    t.prop("\u{70ac}\u{1f525}\u{e9}", b"");
    let good = t.names.len() as u32;
    // Overlong, a surrogate, too large, cut short, and a lone continuation byte.
    let bad: [&[u8]; 6] = [
        &[0xc0, 0x80],
        &[0xed, 0xa0, 0x80],
        &[0xf4, 0x90, 0x80, 0x80],
        &[0xe7, 0x82],
        &[0x80],
        &[0xf8, 0x88],
    ];
    let mut at = Vec::new();
    for b in bad {
        at.push(t.names.len() as u32);
        t.names.extend(b);
        t.names.push(0);
    }
    let last = t.names.len() as u32;
    let blob = t.blob(&[]);
    let f = Fdt::new(0x8220_0000, &blob).expect("a tree");
    assert_eq!(f.read_string(0), Some(&b"reg"[..]));
    assert_eq!(f.read_string(4), Some("\u{70ac}\u{1f525}\u{e9}".as_bytes()));
    assert_eq!(f.read_string(good - 1), None);
    for a in at {
        assert_eq!(f.read_string(a), None);
    }
    assert_eq!(f.read_string(last), None);
}

#[test]
fn bad_trees_are_refused() {
    let mut blob = machine();
    blob[0] = 0;
    assert!(Fdt::new(0x8220_0000, &blob).is_none());
    assert!(Fdt::new(0x8220_0000, &[0u8; 10]).is_none());
    let p = BoardParams::empty();
    assert_eq!(p.reserved_count, 0);
}

#[test]
fn hexadecimal_numbers() {
    assert_eq!(parse_hex(b"10000000"), Ok(0x1000_0000));
    assert_eq!(parse_hex(b"fF"), Ok(255));
    assert_eq!(parse_hex(b"xyz"), Err(()));
}

#[test]
fn extensions_of_the_core() {
    let (caps, sstc) = cpu::init_from_fdt(b"rv64imafdc_sstc");
    assert_eq!(caps.expect("known").isa_string, b"rv64imafdc_sstc");
    assert!(sstc);
    let (caps, sstc) = cpu::init_from_fdt(b"rv64imafdc");
    assert!(caps.is_some() && !sstc);
    let (caps, sstc) = cpu::init_from_fdt(b"");
    assert!(caps.is_none() && !sstc);
}

/// A program with one segment of code.
fn program() -> Vec<u8> {
    let mut e = vec![0u8; 64 + 56];
    e[0..4].copy_from_slice(b"\x7fELF");
    e[4] = 2;
    e[5] = 1;
    e[6] = 1;
    e[16..18].copy_from_slice(&2u16.to_le_bytes());
    e[18..20].copy_from_slice(&243u16.to_le_bytes());
    e[20..24].copy_from_slice(&1u32.to_le_bytes());
    e[24..32].copy_from_slice(&0x4000_0000u64.to_le_bytes());
    e[32..40].copy_from_slice(&64u64.to_le_bytes());
    e[52..54].copy_from_slice(&64u16.to_le_bytes());
    e[54..56].copy_from_slice(&56u16.to_le_bytes());
    e[56..58].copy_from_slice(&1u16.to_le_bytes());
    let p = 64;
    e[p..p + 4].copy_from_slice(&1u32.to_le_bytes());
    e[p + 4..p + 8].copy_from_slice(&5u32.to_le_bytes());
    e[p + 8..p + 16].copy_from_slice(&120u64.to_le_bytes());
    e[p + 16..p + 24].copy_from_slice(&0x4000_0078u64.to_le_bytes());
    e[p + 24..p + 32].copy_from_slice(&0x4000_0000u64.to_le_bytes());
    e[p + 32..p + 40].copy_from_slice(&8u64.to_le_bytes());
    e[p + 40..p + 48].copy_from_slice(&0x20u64.to_le_bytes());
    e[p + 48..p + 56].copy_from_slice(&0x1000u64.to_le_bytes());
    e.extend([0x13, 0, 0, 0, 0x73, 0, 0, 0]);
    e
}

#[test]
fn program_is_understood() {
    let info = elf::parse(&program()).expect("a program");
    assert_eq!(info.entry, 0x4000_0000);
    assert_eq!(info.segments.len(), 1);
    let s = info.segments[0];
    assert_eq!(s.vaddr, 0x4000_0078);
    assert_eq!(s.filesz, 8);
    assert_eq!(s.memsz, 0x20);
}

fn error_of(change: fn(&mut Vec<u8>)) -> ElfError {
    let mut e = program();
    change(&mut e);
    elf::parse(&e).err().expect("refused")
}

#[test]
fn bad_programs_are_refused() {
    assert_eq!(error_of(|e| e.truncate(10)), ElfError::Truncated);
    assert_eq!(error_of(|e| e[0] = 0), ElfError::BadMagic);
    assert_eq!(error_of(|e| e[4] = 1), ElfError::Not64);
    assert_eq!(error_of(|e| e[16] = 3), ElfError::NotExec);
    assert_eq!(error_of(|e| e[18] = 62), ElfError::NotRiscv);
    assert_eq!(error_of(|e| e[56] = 9), ElfError::Truncated);
    // Beyond the user addresses.
    assert_eq!(error_of(|e| e[64 + 16 + 5] = 1), ElfError::AddressTooHigh);
    // More bytes in the file than in memory.
    assert_eq!(error_of(|e| e[64 + 32] = 0x40), ElfError::BadSegment);
    // The address and the place in the file do not fit one page.
    assert_eq!(error_of(|e| e[64 + 16] = 8), ElfError::BadSegment);
    assert_eq!(error_of(|e| { e.pop(); }), ElfError::Truncated);
}

#[test]
fn numbers_in_bytes() {
    let d = [1u8, 2, 3, 4, 5, 6, 7, 8];
    assert_eq!(be32(&d, 0), 0x0102_0304);
    assert_eq!(be64(&d, 0), 0x0102_0304_0506_0708);
    assert_eq!(le16(&d, 0), 0x0201);
    assert_eq!(le32(&d, 1), 0x0504_0302);
    assert_eq!(le64(&d, 0), 0x0807_0605_0403_0201);
    assert!(same(b"abc", b"abc") && !same(b"abc", b"abd"));
    assert!(find(b"hello", b"ll") && !find(b"hello", b"lo!"));
}

#[test]
fn trap_stacks_and_cores() {
    let base = 0x8023_0000u64;
    for h in 0..MAX_HARTS {
        let top = hart_trap_top(base, h);
        assert_eq!(top, base + (h as u64 + 1) * 0x8000);
        assert_eq!(hartid(top, base), h as u64);
        assert_eq!(hartid(top - TRAP_FRAME_BYTES, base), h as u64);
        assert!(check_frame(base, h, top - TRAP_FRAME_BYTES));
    }
    assert!(!check_frame(base, 0, base + 0x8000));
    assert!(!check_frame(base, 1, base + 0x100));
    assert!(!check_frame(base, 0, base + 0x4008));
}

#[test]
fn ticks_do_not_drift() {
    let mut t = Timer::new();
    assert!(!t.sstc_available());
    t.set_sstc(true);
    assert!(t.sstc_available());
    assert_eq!(t.enable_timer(0, 1000, 100), 1100);
    // A late interrupt does not move the next one.
    assert_eq!(t.rearm(0, 1130, 100), 1200);
}

#[test]
fn why_the_kernel_runs() {
    assert_eq!(classify(INTERRUPT + CAUSE_SUPERVISOR_TIMER, 0), Trap::Timer);
    assert_eq!(classify(INTERRUPT + 1, 0), Trap::Software);
    assert_eq!(classify(INTERRUPT + 9, 0), Trap::Fatal);
    assert_eq!(classify(CAUSE_ECALL_FROM_U, 0x20), Trap::Syscall);
    assert_eq!(classify(13, 0x20), Trap::UserFault);
    assert_eq!(classify(13, 0x120), Trap::Fatal);
}

#[test]
fn log_lines() {
    let mut l = Logger::new();
    assert_eq!(l.level(), Level::Info);
    assert_eq!(l.log(Level::Debug, b"no"), None);
    for _ in 0..42 {
        l.tick_up();
    }
    assert_eq!(l.tick(), 42);
    assert_eq!(l.log(Level::Warn, b"low memory"), Some(b"[000042] [WARN ] low memory\n".to_vec()));
    l.set_level(Level::Trace);
    assert_eq!(l.log(Level::Trace, b"x"), Some(b"[000042] [TRACE] x\n".to_vec()));
    assert_eq!(Level::from_number(77), Level::Trace);
    assert_eq!(Level::Error.number(), 0);
}

#[test]
fn serial_output() {
    assert_eq!(uart::write_str("a\nb"), b"a\r\nb".to_vec());
    assert_eq!(uart::uart_divisor(3_686_400), 2);
    assert_eq!(uart::uart_divisor(0), 0x0c);
    assert!(!uart::init(3_686_400).is_empty());
    let mut w = Writer::new();
    assert!(w.locked_line());
    assert_eq!(w.putc(0x20, 0), PutStep::Send);
    assert_eq!(w.putc(0, 0), PutStep::Wait);
    assert_eq!(w.putc(0, uart::TX_WAIT_LIMIT), PutStep::GiveUp);
    assert_eq!(w.dropped(), 1);
    w.set_panic_output();
    assert!(!w.locked_line());
}

#[test]
fn stack_use_is_measured() {
    let s = Stacks {
        boot_bottom: 0x8022_9000,
        boot_top: 0x8022_d000,
        trap_base: 0x8023_0000,
        idle_base: 0x8026_0000,
    };
    assert_eq!(s.current_stack_bounds(0x8022_a000), Some((0x8022_9000, 0x8022_d000)));
    assert_eq!(s.current_stack_bounds(0x8023_5000), Some((0x8023_4000, 0x8023_8000)));
    assert_eq!(s.current_stack_bounds(0x8023_1000), None);
    assert_eq!(s.current_stack_bounds(0x9000_0000), None);
    assert_eq!(stack_watermark(&[0, 0, 0, 7, 0, 1]), 3);
    assert_eq!(stack_watermark(&[0; 16]), 0);
    let mut p = PanicState::new();
    assert!(p.enter());
    assert!(!p.enter());
}

#[test]
fn cores_come_up() {
    assert_eq!(wake_secondaries(4, 1), vec![0, 2, 3]);
    let mut o = Online::new();
    o.mark_online(2);
    assert_eq!(o.harts_online(), 1);
    assert_eq!(o.harts_online_mask(), 0b0100);
    o.mark_online(0);
    assert_eq!(o.harts_online_mask(), 0b0101);
    assert_eq!(Online::new().harts_online_mask(), 0);
    assert!(o.up[2] && !o.up[1]);
    assert_eq!(heartbeat(0, 99), None);
    assert_eq!(heartbeat(0, 100), Some((100, 1000)));
    assert_eq!(interval_us(100_000, 10_000_000), 10_000);
}

#[test]
fn firmware_calls() {
    let c = sbi::set_timer(5);
    assert_eq!((c.ext, c.fun, c.a0), (0x5449_4d45, 0, 5));
    let c = sbi::send_ipi(0b10, 0);
    assert_eq!((c.ext, c.a0, c.a1), (0x73_5049, 2, 0));
    let c = sbi::hsm_hart_start(1, 0x8020_0000, 0, 1);
    assert_eq!((c.ext, c.a0, c.a1, c.a2, c.a3), (0x48_534d, 1, 0x8020_0000, 0, 1));
}
