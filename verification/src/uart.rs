//! The serial device, an NS16550: how it is set up, and what is sent.

use vstd::prelude::*;
use vstd::string::StringSliceAdditionalSpecFns;

verus! {

/// Symbols per second.
pub const BAUD_RATE: u64 = 115_200;

/// How often to look whether the device takes another byte, before the byte is given up.
pub const TX_WAIT_LIMIT: u32 = 0x1_0000;

/// Divisor when the clock of the device is not known.
pub const DEFAULT_DIVISOR: u64 = 0x0c;

/// Register that takes a byte, or the low half of the divisor.
pub const REG_DATA: u64 = 0;

/// Register that enables interrupts, or the high half of the divisor.
pub const REG_IER: u64 = 1;

pub const REG_FCR: u64 = 2;

pub const REG_LCR: u64 = 3;

pub const REG_MCR: u64 = 4;

/// Status register.
pub const REG_LSR: u64 = 5;

/// Bit of the status register: the device takes another byte.
pub const LSR_EMPTY: u8 = 0x20;

/// Divisor for a clock.
pub open spec fn divisor(clock: u64) -> int {
    let d = clock as int / (16 * BAUD_RATE);
    if clock == 0 {
        DEFAULT_DIVISOR as int
    } else if d < 1 {
        1
    } else if d > 0xffff {
        0xffff
    } else {
        d
    }
}

/// Divisor for a clock: what makes it tick sixteen times a symbol, within what the device holds.
pub fn uart_divisor(clock: u64) -> (r: u64)
    ensures
        r == divisor(clock),
        1 <= r <= 0xffff,
{
    if clock == 0 {
        return DEFAULT_DIVISOR;
    }
    let d: u64 = clock / (16 * BAUD_RATE);
    if d < 1 {
        1
    } else if d > 0xffff {
        0xffff
    } else {
        d
    }
}

/// Register writes that set the device up: eight bits without parity, no interrupts, queues on.
/// The divisor is written while the upper bit of the line register selects it, low half first.
pub open spec fn setup(clock: u64) -> Seq<(u64, u8)> {
    let d = divisor(clock);
    seq![
        (REG_LCR, 0x80u8),
        (REG_DATA, (d % 256) as u8),
        (REG_IER, (d / 256) as u8),
        (REG_LCR, 0x03u8),
        (REG_IER, 0x00u8),
        (REG_FCR, 0x07u8),
        (REG_MCR, 0x03u8),
    ]
}

/// Register writes that set the device up, to be made one after the other: register, value.
pub fn init(clock: u64) -> (r: Vec<(u64, u8)>)
    ensures
        r@ == setup(clock),
{
    let d: u64 = uart_divisor(clock);
    let mut v: Vec<(u64, u8)> = Vec::new();
    v.push((REG_LCR, 0x80));
    v.push((REG_DATA, (d % 256) as u8));
    v.push((REG_IER, (d / 256) as u8));
    v.push((REG_LCR, 0x03));
    v.push((REG_IER, 0x00));
    v.push((REG_FCR, 0x07));
    v.push((REG_MCR, 0x03));
    assert(v@ =~= setup(clock));
    v
}

/// Bytes as the terminal wants them: a return before every line feed.
pub open spec fn terminal(s: Seq<u8>) -> Seq<u8>
    decreases s.len(),
{
    if s.len() == 0 {
        Seq::empty()
    } else if s.last() == 0x0a {
        terminal(s.drop_last()) + seq![0x0du8, 0x0a]
    } else {
        terminal(s.drop_last()).push(s.last())
    }
}

/// The bytes to send for bytes that are to be shown.
pub fn write_bytes(bytes: &[u8]) -> (r: Vec<u8>)
    ensures
        r@ == terminal(bytes@),
{
    let mut out: Vec<u8> = Vec::new();
    let mut i: usize = 0;
    assert(bytes@.subrange(0, 0) =~= Seq::empty());
    while i < bytes.len()
        invariant
            i <= bytes@.len(),
            out@ == terminal(bytes@.subrange(0, i as int)),
        decreases bytes@.len() - i,
    {
        let b: u8 = bytes[i];
        let ghost before = out@;
        proof {
            let e = bytes@.subrange(0, i + 1);
            assert(e.drop_last() =~= bytes@.subrange(0, i as int));
            assert(e.last() == b);
        }
        if b == 0x0a {
            out.push(0x0d);
            out.push(b);
            assert(out@ =~= before + seq![0x0du8, 0x0a]);
        } else {
            out.push(b);
        }
        i += 1;
    }
    assert(bytes@.subrange(0, bytes@.len() as int) =~= bytes@);
    out
}

/// The bytes to send for a text.
pub fn write_str(s: &str) -> (r: Vec<u8>)
    ensures
        r@ == terminal(s.spec_bytes()),
{
    write_bytes(s.as_bytes())
}

/// What to do with a byte that is to be sent.
#[derive(Debug, Clone, Copy, PartialEq, Eq, Structural)]
pub enum PutStep {
    /// Hand it to the device.
    Send,
    /// Look at the device again.
    Wait,
    /// Give it up.
    GiveUp,
}

/// The console: whether the kernel is failing, and how many bytes were given up.
#[derive(Debug, Clone, Copy)]
pub struct Writer {
    pub panic_output: bool,
    pub lost: u64,
}

impl Writer {
    pub fn new() -> (r: Writer)
        ensures
            !r.panic_output,
            r.lost == 0,
    {
        Writer { panic_output: false, lost: 0 }
    }

    /// The kernel is failing: from now on output waits for nobody.
    pub fn set_panic_output(&mut self)
        ensures
            final(self).panic_output,
            final(self).lost == old(self).lost,
    {
        self.panic_output = true;
    }

    /// How many bytes were given up.
    pub fn dropped(&self) -> (r: u64)
        ensures
            r == self.lost,
    {
        self.lost
    }

    /// Whether a line is written under the lock of the console.
    pub fn locked_line(&self) -> (r: bool)
        ensures
            r == !self.panic_output,
    {
        !self.panic_output
    }

    /// What to do with a byte after the device was found busy `spins` times, given its status. A
    /// byte that is given up is counted.
    pub fn putc(&mut self, status: u8, spins: u32) -> (r: PutStep)
        ensures
            r == (if status & LSR_EMPTY != 0 {
                PutStep::Send
            } else if spins >= TX_WAIT_LIMIT {
                PutStep::GiveUp
            } else {
                PutStep::Wait
            }),
            final(self).panic_output == old(self).panic_output,
            final(self).lost == (if r == PutStep::GiveUp {
                old(self).lost.wrapping_add(1)
            } else {
                old(self).lost
            }),
    {
        if status & LSR_EMPTY != 0 {
            PutStep::Send
        } else if spins >= TX_WAIT_LIMIT {
            self.lost = self.lost.wrapping_add(1);
            PutStep::GiveUp
        } else {
            PutStep::Wait
        }
    }
}

/// Law: what is sent for two texts, one after the other, is what is sent for both together.
pub proof fn law_writes_append(a: Seq<u8>, b: Seq<u8>)
    ensures
        terminal(a + b) == terminal(a) + terminal(b),
    decreases b.len(),
{
    if b.len() == 0 {
        assert(a + b =~= a);
        assert(terminal(a) + terminal(b) =~= terminal(a));
    } else {
        let c = b.drop_last();
        assert((a + b).drop_last() =~= a + c);
        assert((a + b).last() == b.last());
        law_writes_append(a, c);
        if b.last() == 0x0a {
            assert(terminal(a) + terminal(c) + seq![0x0du8, 0x0a] =~= terminal(a) + (terminal(c)
                + seq![0x0du8, 0x0a]));
        } else {
            assert((terminal(a) + terminal(c)).push(b.last()) =~= terminal(a) + terminal(c).push(
                b.last(),
            ));
        }
    }
}

/// Law: the terminal never sees a line feed without a return before it.
pub proof fn law_line_feed_follows_return(s: Seq<u8>, i: int)
    requires
        0 <= i < terminal(s).len(),
        terminal(s)[i] == 0x0a,
    ensures
        i > 0,
        terminal(s)[i - 1] == 0x0d,
    decreases s.len(),
{
    let t = terminal(s.drop_last());
    if s.last() == 0x0a {
        if i < t.len() {
            assert(terminal(s)[i] == t[i]);
            law_line_feed_follows_return(s.drop_last(), i);
            assert(terminal(s)[i - 1] == t[i - 1]);
        }
    } else {
        assert(i < t.len());
        assert(terminal(s)[i] == t[i]);
        law_line_feed_follows_return(s.drop_last(), i);
        assert(terminal(s)[i - 1] == t[i - 1]);
    }
}

} // verus!
