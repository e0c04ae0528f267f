//! What the console, the clock, the parameters of the board and the start of the machine are for.

use vstd::prelude::*;
use crate::arch::{frame_ok, next_deadline, trap_top};
use crate::board::ram_of;
use crate::boot::{cores, others};
use crate::bytes::{occurs, occurs_at};
use crate::cpu::sstc_word;
use crate::fault::slot_stack;
use crate::fdt::{absorb, range_end, reserve};
use crate::logger::{digits, law_digits_stand_for_number, line, padded, passes, value_of, Level};
use crate::uart::{divisor, setup, terminal};

verus! {

/// How important a level is, the most important first.
pub open spec fn place_of(l: Level) -> int {
    match l {
        Level::Error => 0,
        Level::Warn => 1,
        Level::Info => 2,
        Level::Debug => 3,
        Level::Trace => 4,
    }
}

/// Law: a message is written exactly when it is at least as important as the level that is set.
pub proof fn law_important_passes(max: Level, lvl: Level)
    ensures
        passes(max, lvl) <==> place_of(lvl) <= place_of(max),
{
}

/// Zeros in front do not change what digits stand for.
proof fn lemma_padded_value(s: Seq<u8>, width: nat)
    requires
        forall|i: int| 0 <= i < s.len() ==> 0x30 <= #[trigger] s[i] <= 0x39,
    ensures
        padded(s, width).len() == if s.len() < width {
            width
        } else {
            s.len()
        },
        forall|i: int|
            0 <= i < padded(s, width).len() ==> 0x30 <= #[trigger] padded(s, width)[i] <= 0x39,
        value_of(padded(s, width)) == value_of(s),
        s.len() >= width ==> padded(s, width) == s,
    decreases width,
{
    if s.len() < width {
        let t = padded(s, (width - 1) as nat);
        lemma_padded_value(s, (width - 1) as nat);
        let p = seq![0x30u8] + t;
        lemma_zero_in_front(t);
        assert forall|i: int| 0 <= i < p.len() implies 0x30 <= #[trigger] p[i] <= 0x39 by {
            if i > 0 {
                assert(p[i] == t[i - 1]);
            }
        }
    }
}

proof fn lemma_zero_in_front(t: Seq<u8>)
    ensures
        value_of(seq![0x30u8] + t) == value_of(t),
    decreases t.len(),
{
    let p = seq![0x30u8] + t;
    if t.len() == 0 {
        assert(p.drop_last() =~= Seq::<u8>::empty());
        assert(p.last() == 0x30);
        assert(value_of(p.drop_last()) == 0);
    } else {
        assert(p.drop_last() =~= seq![0x30u8] + t.drop_last());
        assert(p.last() == t.last());
        lemma_zero_in_front(t.drop_last());
    }
}

/// Law: a line of the log is made of the time, in at least six decimal digits and as few as that
/// allows, between brackets, a blank, the level in five letters between brackets, a blank, the text
/// as it is, and a line feed.
pub proof fn law_line_tells_all(tick: u64, lvl: Level, text: Seq<u8>, n: int)
    requires
        n == line(tick, lvl, text).len() - text.len() - 12,
    ensures
        ({
            let l = line(tick, lvl, text);
            let t = l.subrange(n + 4, n + 9);
            &&& n >= 6
            &&& l[0] == 0x5b
            &&& forall|i: int| 1 <= i <= n ==> 0x30 <= #[trigger] l[i] <= 0x39
            &&& value_of(l.subrange(1, n + 1)) == tick
            &&& n > 6 ==> l[1] != 0x30
            &&& l[n + 1] == 0x5d && l[n + 2] == 0x20 && l[n + 3] == 0x5b
            &&& lvl == Level::Error ==> t == seq![0x45u8, 0x52, 0x52, 0x4f, 0x52]
            &&& lvl == Level::Warn ==> t == seq![0x57u8, 0x41, 0x52, 0x4e, 0x20]
            &&& lvl == Level::Info ==> t == seq![0x49u8, 0x4e, 0x46, 0x4f, 0x20]
            &&& lvl == Level::Debug ==> t == seq![0x44u8, 0x45, 0x42, 0x55, 0x47]
            &&& lvl == Level::Trace ==> t == seq![0x54u8, 0x52, 0x41, 0x43, 0x45]
            &&& l[n + 9] == 0x5d && l[n + 10] == 0x20
            &&& l.subrange(n + 11, n + 11 + text.len()) == text
            &&& l.last() == 0x0a
        }),
{
    let l = line(tick, lvl, text);
    let d = digits(tick as nat);
    let p = padded(d, 6);
    law_digits_stand_for_number(tick as nat);
    lemma_padded_value(d, 6);
    assert(lvl.tag_spec().len() == 5);
    assert(p.len() == n);
    assert(l.subrange(1, n + 1) =~= p);
    assert forall|i: int| 1 <= i <= n implies 0x30 <= #[trigger] l[i] <= 0x39 by {
        assert(l[i] == p[i - 1]);
    }
    assert(l.subrange(n + 4, n + 9) =~= lvl.tag_spec());
    assert(l.subrange(n + 11, n + 11 + text.len()) =~= text);
    if n > 6 {
        assert(p == d);
        assert(l[1] == d[0]);
        if tick == 0 {
            assert(d.len() == 1);
        }
    }
}

/// Law: what is sent for a single byte is the byte; for a line feed, a return goes before it.
pub proof fn law_byte_is_sent(b: u8)
    ensures
        b != 0x0a ==> terminal(seq![b]) == seq![b],
        b == 0x0a ==> terminal(seq![b]) == seq![0x0du8, 0x0au8],
        terminal(Seq::<u8>::empty()).len() == 0,
{
    let s = seq![b];
    let e = s.drop_last();
    assert(e =~= Seq::<u8>::empty());
    assert(terminal(e) =~= Seq::<u8>::empty());
    assert(s.last() == b);
    assert(terminal(e).push(b) =~= s);
    assert(terminal(e) + seq![0x0du8, 0x0au8] =~= seq![0x0du8, 0x0au8]);
}

/// Law: the divisor makes the clock of the device tick sixteen times for a symbol, 115200 symbols a
/// second, as near as a whole number can come from below; it is at least 1 and fits in sixteen bits,
/// and 12 where the clock is not known.
pub proof fn law_divisor_fits_the_clock(clock: u64)
    ensures
        1 <= divisor(clock) <= 0xffff,
        clock == 0 ==> divisor(clock) == 12,
        16 * 115200 <= clock < 0x1_0000 * 16 * 115200 ==> divisor(clock) * 16 * 115200 <= clock
            < (divisor(clock) + 1) * 16 * 115200,
        0 < clock < 16 * 115200 ==> divisor(clock) == 1,
        clock >= 0x1_0000 * 16 * 115200 ==> divisor(clock) == 0xffff,
{
    let d = clock as int / 1843200;
    assert(d * 1843200 <= clock < (d + 1) * 1843200);
}

/// The registers of the device: divisor, line, interrupts, queues, modem.
pub struct Lines {
    pub divisor: int,
    pub lcr: int,
    pub ier: int,
    pub fcr: int,
    pub mcr: int,
}

/// The registers after a write. While the upper bit of the line register is set, registers 0 and 1
/// are the halves of the divisor.
pub open spec fn after_write(d: Lines, w: (u64, u8)) -> Lines {
    let (reg, x) = w;
    if reg == 3 {
        Lines { lcr: x as int, ..d }
    } else if reg == 0 && d.lcr >= 0x80 {
        Lines { divisor: d.divisor / 256 * 256 + x, ..d }
    } else if reg == 1 && d.lcr >= 0x80 {
        Lines { divisor: d.divisor % 256 + 256 * x, ..d }
    } else if reg == 1 {
        Lines { ier: x as int, ..d }
    } else if reg == 2 {
        Lines { fcr: x as int, ..d }
    } else if reg == 4 {
        Lines { mcr: x as int, ..d }
    } else {
        d
    }
}

/// The registers after all writes.
pub open spec fn after_writes(d: Lines, w: Seq<(u64, u8)>) -> Lines
    decreases w.len(),
{
    if w.len() == 0 {
        d
    } else {
        after_writes(after_write(d, w[0]), w.skip(1))
    }
}

/// Law: once the device is set up it has its divisor, eight bits without parity, no interrupts, and
/// its queues on and emptied, whatever it was set to before; and no byte was sent on the way.
pub proof fn law_setup_sets_the_device(clock: u64, d: Lines)
    requires
        0 <= d.divisor < 0x1_0000,
    ensures
        ({
            let e = after_writes(d, setup(clock));
            &&& e.divisor == divisor(clock)
            &&& e.lcr == 0x03
            &&& e.ier == 0
            &&& e.fcr == 0x07
            &&& e.mcr == 0x03
        }),
        setup(clock)[0] == (3u64, 0x80u8),
{
    let w = setup(clock);
    let v = divisor(clock);
    law_divisor_fits_the_clock(clock);
    let d0 = d;
    let d1 = after_write(d0, w[0]);
    let d2 = after_write(d1, w[1]);
    let d3 = after_write(d2, w[2]);
    let d4 = after_write(d3, w[3]);
    let d5 = after_write(d4, w[4]);
    let d6 = after_write(d5, w[5]);
    let d7 = after_write(d6, w[6]);
    assert(d3.divisor == v) by {
        assert(d2.divisor == d.divisor / 256 * 256 + v % 256);
        assert(d2.divisor % 256 == v % 256);
        assert(d3.divisor == v % 256 + 256 * (v / 256));
    }
    lemma_writes(d0, w, 0, d1);
    lemma_writes(d1, w, 1, d2);
    lemma_writes(d2, w, 2, d3);
    lemma_writes(d3, w, 3, d4);
    lemma_writes(d4, w, 4, d5);
    lemma_writes(d5, w, 5, d6);
    lemma_writes(d6, w, 6, d7);
    assert(w.skip(0) =~= w);
    assert(w.skip(7).len() == 0);
}

proof fn lemma_writes(d: Lines, w: Seq<(u64, u8)>, i: int, e: Lines)
    requires
        0 <= i < w.len(),
        e == after_write(d, w[i]),
    ensures
        after_writes(d, w.skip(i)) == after_writes(e, w.skip(i + 1)),
{
    assert(w.skip(i)[0] == w[i]);
    assert(w.skip(i).skip(1) =~= w.skip(i + 1));
}

/// Law: RAM that the tree tells is used where it can be: aligned to 2 MiB, from 1 MiB up to what the
/// allocator can count, below the end of what can be mapped, and with the kernel in it; else 128 MiB
/// from 0x8000_0000 on are.
pub proof fn law_ram_is_plausible(start: u64, size: u64, kernel_end: u64)
    ensures
        ({
            let fine = start != 0 && start % 0x20_0000 == 0 && 0x10_0000 <= size
                <= crate::mem::MAX_PAGES * 4096 && size % 0x20_0000 == 0 && start + size
                <= 0x80_0000_0000 && start <= 0x8020_0000 && start + size > kernel_end;
            fine ==> ram_of(start, size, kernel_end) == (start, size)
        }),
        start == 0 && size == 0 ==> ram_of(start, size, kernel_end) == (
            0x8000_0000u64,
            0x800_0000u64,
        ),
        ({
            let (a, n) = ram_of(start, size, kernel_end);
            &&& a == start || a == 0x8000_0000
            &&& n == size || n == 0x800_0000
            &&& a % 0x20_0000 == 0
            &&& n % 0x20_0000 == 0
            &&& a + n <= 0x80_0000_0000
        }),
{
}

/// Law: the cores that are started are those of the machine, four at most, in ascending order.
pub proof fn law_cores_in_order(n: int, boot: int)
    requires
        0 <= n <= 4,
    ensures
        forall|i: int, j: int|
            0 <= i < j < others(n, boot).len() ==> #[trigger] others(n, boot)[i]
                < #[trigger] others(n, boot)[j],
        forall|i: int| 0 <= i < others(n, boot).len() ==> #[trigger] others(n, boot)[i] < n,
        forall|count: usize| count < 4 ==> #[trigger] cores(count) == count,
        forall|count: usize| count >= 4 ==> #[trigger] cores(count) == 4,
    decreases n,
{
    if n > 0 {
        law_cores_in_order(n - 1, boot);
        let a = others(n - 1, boot);
        let b = others(n, boot);
        assert forall|i: int, j: int| 0 <= i < j < b.len() implies #[trigger] b[i]
            < #[trigger] b[j] by {
            assert(b[i] == a[i]);
            if j < a.len() {
                assert(b[j] == a[j]);
            }
        }
        assert forall|i: int| 0 <= i < b.len() implies #[trigger] b[i] < n by {
            if i < a.len() {
                assert(b[i] == a[i]);
            }
        }
    }
}

/// Law: the next tick is due an interval after the last was, and an interval from now where that has
/// passed: never in the past.
pub proof fn law_next_tick_is_ahead(deadline: u64, interval: u64, now: u64)
    requires
        deadline + interval <= u64::MAX,
        now + interval <= u64::MAX,
    ensures
        next_deadline(deadline, interval, now) >= now,
        deadline + interval >= now ==> next_deadline(deadline, interval, now) == deadline
            + interval,
        deadline + interval < now ==> next_deadline(deadline, interval, now) == now + interval,
{
}

/// Law: the stacks for traps lie one behind the other, 32 KiB each, of which the lower half is not
/// mapped; a frame of 288 bytes has to lie in the part of its core, aligned to 16 bytes.
pub proof fn law_trap_stacks(base: int, h: int, f: int)
    requires
        0 <= h < 4,
    ensures
        trap_top(base, h) == base + 32768 * (h + 1),
        slot_stack(base, h) == (base + 32768 * h + 16384, base + 32768 * h + 32768),
        frame_ok(base, h, f) <==> base + 32768 * h <= f && f + 288 <= base + 32768 * (h + 1) && f
            % 16 == 0,
{
}

/// Law: a word occurs in a text exactly where its bytes stand one after the other; the word that is
/// looked for is `sstc`.
pub proof fn law_word_is_found(hay: Seq<u8>, word: Seq<u8>)
    ensures
        occurs(hay, word) <==> exists|i: int|
            0 <= i <= hay.len() - word.len() && #[trigger] hay.subrange(i, i + word.len()) == word,
        sstc_word() == seq![0x73u8, 0x73, 0x74, 0x63],
{
    if occurs(hay, word) {
        let i = choose|i: int| occurs_at(hay, word, i);
        assert(hay.subrange(i, i + word.len()) == word);
    }
    if exists|i: int|
        0 <= i <= hay.len() - word.len() && #[trigger] hay.subrange(i, i + word.len()) == word {
        let i = choose|i: int|
            0 <= i <= hay.len() - word.len() && #[trigger] hay.subrange(i, i + word.len()) == word;
        assert(occurs_at(hay, word, i));
    }
}

/// End of a range of memory, held at the largest address.
pub open spec fn end_of(addr: u64, size: u64) -> int {
    if addr + size > 0xffff_ffff_ffff_ffff {
        0xffff_ffff_ffff_ffff
    } else {
        addr + size
    }
}

/// Two ranges of memory have an address in common.
pub open spec fn meet(r: (u64, u64), addr: u64, size: u64) -> bool {
    addr < end_of(r.0, r.1) && r.0 < end_of(addr, size)
}

proof fn lemma_meets_none(l: Seq<(u64, u64)>, i: int, addr: u64, size: u64)
    requires
        0 <= i <= l.len(),
        forall|j: int| i <= j < l.len() ==> !meet(#[trigger] l[j], addr, size),
    ensures
        absorb(l, i, addr as int, range_end(addr as int, size as int)) == (
            l,
            addr as int,
            range_end(addr as int, size as int),
        ),
    decreases l.len() - i,
{
    if i < l.len() {
        assert(!meet(l[i], addr, size));
        lemma_meets_none(l, i + 1, addr, size);
    }
}

/// Law: a range that meets no other is kept as it is, behind the others, as long as there are fewer
/// than eight; a ninth, an empty range and one at address zero are not kept. Two ranges that meet
/// become one.
pub proof fn law_ranges_are_kept(l: Seq<(u64, u64)>, addr: u64, size: u64)
    requires
        l.len() <= 8,
    ensures
        addr == 0 || size == 0 ==> reserve(l, addr, size) == l,
        addr != 0 && size != 0 && (forall|j: int|
            0 <= j < l.len() ==> !meet(#[trigger] l[j], addr, size)) ==> reserve(l, addr, size)
            == if l.len() < 8 {
            l.push((addr, size))
        } else {
            l
        },
        addr != 0 && size != 0 && l.len() == 1 && meet(l[0], addr, size) ==> {
            let r = reserve(l, addr, size);
            &&& r.len() == 1
            &&& r[0].0 == if l[0].0 < addr {
                l[0].0
            } else {
                addr
            }
            &&& r[0].0 + r[0].1 == if end_of(l[0].0, l[0].1) > end_of(addr, size) {
                end_of(l[0].0, l[0].1)
            } else {
                end_of(addr, size)
            }
        },
{
    if forall|j: int| 0 <= j < l.len() ==> !meet(#[trigger] l[j], addr, size) {
        lemma_meets_none(l, 0, addr, size);
    }
    if l.len() == 1 {
        reveal_with_fuel(absorb, 3);
        let t = l.update(0, l.last()).drop_last();
        assert(t.len() == 0);
    }
}

} // verus!
