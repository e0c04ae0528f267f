//! Log messages: which are written, and how.

use vstd::prelude::*;

verus! {

/// How important a message is.
#[derive(Debug, Clone, Copy, PartialEq, Eq, Structural)]
pub enum Level {
    Error,
    Warn,
    Info,
    Debug,
    Trace,
}

impl Level {
    /// Position of the level; the most important comes first.
    pub open spec fn rank(self) -> u8 {
        match self {
            Level::Error => 0,
            Level::Warn => 1,
            Level::Info => 2,
            Level::Debug => 3,
            Level::Trace => 4,
        }
    }

    /// Position of the level.
    pub fn number(self) -> (r: u8)
        ensures
            r == self.rank(),
    {
        match self {
            Level::Error => 0,
            Level::Warn => 1,
            Level::Info => 2,
            Level::Debug => 3,
            Level::Trace => 4,
        }
    }

    /// The level at a position. A position that does not exist stands for the level that lets
    /// everything pass.
    pub fn from_number(n: u8) -> (r: Level)
        ensures
            n <= 4 ==> r.rank() == n,
            n > 4 ==> r == Level::Trace,
    {
        match n {
            0 => Level::Error,
            1 => Level::Warn,
            2 => Level::Info,
            3 => Level::Debug,
            _ => Level::Trace,
        }
    }

    /// Name of the level, five characters wide.
    pub open spec fn tag_spec(self) -> Seq<u8> {
        match self {
            Level::Error => seq![0x45u8, 0x52, 0x52, 0x4f, 0x52],
            Level::Warn => seq![0x57u8, 0x41, 0x52, 0x4e, 0x20],
            Level::Info => seq![0x49u8, 0x4e, 0x46, 0x4f, 0x20],
            Level::Debug => seq![0x44u8, 0x45, 0x42, 0x55, 0x47],
            Level::Trace => seq![0x54u8, 0x52, 0x41, 0x43, 0x45],
        }
    }

    /// Name of the level, five characters wide.
    pub fn tag(self) -> (r: [u8; 5])
        ensures
            r@ == self.tag_spec(),
    {
        let r: [u8; 5] = match self {
            Level::Error => [0x45, 0x52, 0x52, 0x4f, 0x52],
            Level::Warn => [0x57, 0x41, 0x52, 0x4e, 0x20],
            Level::Info => [0x49, 0x4e, 0x46, 0x4f, 0x20],
            Level::Debug => [0x44, 0x45, 0x42, 0x55, 0x47],
            Level::Trace => [0x54, 0x52, 0x41, 0x43, 0x45],
        };
        assert(r@ =~= self.tag_spec());
        r
    }
}

/// Decimal digits of a number.
pub open spec fn digits(n: nat) -> Seq<u8>
    decreases n,
{
    if n < 10 {
        seq![(0x30 + n) as u8]
    } else {
        digits(n / 10).push((0x30 + n % 10) as u8)
    }
}

/// Zeros in front of a text that is shorter than `width`.
pub open spec fn padded(s: Seq<u8>, width: nat) -> Seq<u8>
    decreases width,
{
    if s.len() >= width || width == 0 {
        s
    } else {
        seq![0x30u8] + padded(s, (width - 1) as nat)
    }
}

/// Decimal digits of a number.
pub fn decimal(n: u64) -> (r: Vec<u8>)
    ensures
        r@ == digits(n as nat),
    decreases n,
{
    if n < 10 {
        let mut v: Vec<u8> = Vec::new();
        v.push(0x30 + n as u8);
        assert(v@ =~= digits(n as nat));
        v
    } else {
        let mut v: Vec<u8> = decimal(n / 10);
        v.push(0x30 + (n % 10) as u8);
        assert(v@ =~= digits(n as nat));
        v
    }
}

/// A line of the log.
pub open spec fn line(tick: u64, lvl: Level, text: Seq<u8>) -> Seq<u8> {
    seq![0x5bu8] + padded(digits(tick as nat), 6) + seq![0x5du8, 0x20, 0x5b] + lvl.tag_spec()
        + seq![0x5du8, 0x20] + text + seq![0x0au8]
}

/// A message of a level is written where `max` is the least important that is.
pub open spec fn passes(max: Level, lvl: Level) -> bool {
    lvl.rank() <= max.rank()
}

/// The log: what passes, and the time.
#[derive(Debug, Clone, Copy)]
pub struct Logger {
    pub max: Level,
    pub ticks: u64,
}

impl Logger {
    /// Messages of level `Info` and more important ones pass.
    pub fn new() -> (r: Logger)
        ensures
            r.max == Level::Info,
            r.ticks == 0,
    {
        Logger { max: Level::Info, ticks: 0 }
    }

    /// Choose the least important level that passes.
    pub fn set_level(&mut self, level: Level)
        ensures
            final(self).max == level,
            final(self).ticks == old(self).ticks,
    {
        self.max = level;
    }

    /// The least important level that passes.
    pub fn level(&self) -> (r: Level)
        ensures
            r == self.max,
    {
        self.max
    }

    /// Ticks of the timer since the start.
    pub fn tick(&self) -> (r: u64)
        ensures
            r == self.ticks,
    {
        self.ticks
    }

    /// The timer ticked.
    pub fn tick_up(&mut self)
        ensures
            final(self).ticks == old(self).ticks.wrapping_add(1),
            final(self).max == old(self).max,
    {
        self.ticks = self.ticks.wrapping_add(1);
    }

    /// The line to write for a message; `None` when it does not pass.
    pub fn log(&self, lvl: Level, text: &[u8]) -> (r: Option<Vec<u8>>)
        ensures
            r is Some <==> passes(self.max, lvl),
            r matches Some(l) ==> l@ == line(self.ticks, lvl, text@),
    {
        if lvl.number() > self.max.number() {
            return None;
        }
        let mut out: Vec<u8> = Vec::new();
        out.push(0x5b);
        let d: Vec<u8> = decimal(self.ticks);
        pad(&mut out, d.len(), 6);
        proof {
            lemma_padded(d@, 6);
        }
        put(&mut out, d.as_slice());
        let ghost a = out@;
        assert(a =~= seq![0x5bu8] + padded(digits(self.ticks as nat), 6));
        out.push(0x5d);
        out.push(0x20);
        out.push(0x5b);
        let tag: [u8; 5] = lvl.tag();
        put(&mut out, tag.as_slice());
        out.push(0x5d);
        out.push(0x20);
        put(&mut out, text);
        out.push(0x0a);
        assert(out@ =~= line(self.ticks, lvl, text@));
        Some(out)
    }
}

/// Zeros to fill up to a width.
pub open spec fn zeros(have: nat, width: nat) -> Seq<u8> {
    Seq::new(
        if have >= width {
            0
        } else {
            (width - have) as nat
        },
        |i: int| 0x30u8,
    )
}

proof fn lemma_padded(s: Seq<u8>, width: nat)
    ensures
        padded(s, width) == zeros(s.len(), width) + s,
    decreases width,
{
    if s.len() >= width {
        assert(zeros(s.len(), width) + s =~= s);
    } else {
        lemma_padded(s, (width - 1) as nat);
        assert(seq![0x30u8] + (zeros(s.len(), (width - 1) as nat) + s) =~= zeros(s.len(), width) + s);
    }
}

fn pad(out: &mut Vec<u8>, have: usize, width: usize)
    ensures
        final(out)@ == old(out)@ + zeros(have as nat, width as nat),
{
    let ghost before = out@;
    let mut i: usize = have;
    while i < width
        invariant
            have <= i,
            i <= width || i == have,
            out@ == before + zeros(have as nat, i as nat),
            before == old(out)@,
        decreases width - i,
    {
        out.push(0x30);
        assert(out@ =~= before + zeros(have as nat, (i + 1) as nat));
        i += 1;
    }
    assert(out@ =~= before + zeros(have as nat, width as nat));
}

/// Append bytes.
pub fn put(out: &mut Vec<u8>, d: &[u8])
    ensures
        final(out)@ == old(out)@ + d@,
{
    let ghost before = out@;
    let mut i: usize = 0;
    while i < d.len()
        invariant
            i <= d@.len(),
            out@ == before + d@.subrange(0, i as int),
        decreases d@.len() - i,
    {
        out.push(d[i]);
        i += 1;
        assert(out@ =~= before + d@.subrange(0, i as int));
    }
    assert(d@.subrange(0, d@.len() as int) =~= d@);
}

/// Law: what passes at a level passes at every level that lets more through, and what is an error
/// always passes.
pub proof fn law_levels_nest(a: Level, b: Level, lvl: Level)
    requires
        passes(b, a),
        passes(a, lvl),
    ensures
        passes(b, lvl),
        passes(b, Level::Error),
{
}

/// The number that decimal digits stand for.
pub open spec fn value_of(s: Seq<u8>) -> int
    decreases s.len(),
{
    if s.len() == 0 {
        0
    } else {
        value_of(s.drop_last()) * 10 + (s.last() - 0x30)
    }
}

/// Law: the digits of a number stand for it, and there are no others.
pub proof fn law_digits_stand_for_number(n: nat)
    ensures
        value_of(digits(n)) == n,
        forall|i: int| 0 <= i < digits(n).len() ==> 0x30 <= #[trigger] digits(n)[i] <= 0x39,
        digits(n).len() > 0,
        n > 0 ==> digits(n)[0] != 0x30,
    decreases n,
{
    if n < 10 {
        let s = digits(n);
        assert(s.drop_last() =~= Seq::empty());
        assert(value_of(s.drop_last()) == 0);
    } else {
        law_digits_stand_for_number(n / 10);
        let s = digits(n);
        let t = digits(n / 10);
        assert(s.drop_last() =~= t);
        assert forall|i: int| 0 <= i < s.len() implies 0x30 <= #[trigger] s[i] <= 0x39 by {
            if i < t.len() {
                assert(s[i] == t[i]);
            }
        }
    }
}

} // verus!
