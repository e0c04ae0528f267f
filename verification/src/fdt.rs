//! Flattened device tree: reads what the kernel needs to boot.
//!
//! From the tree come the RAM range (`reg` of the `memory` node), the timer frequency
//! (`timebase-frequency` of the `cpus` node), the UART base (unit address of a `serial@` node
//! that is compatible with `ns16550`) and the reserved memory ranges, and also how many cores there
//! are (`cpu@` nodes) and their instruction set (`riscv,isa`). Malformed input is skipped; what was
//! not found stays zero.

use vstd::prelude::*;
use vstd::utf8::valid_utf8;
use crate::bytes::{be32, be32_at, be64, be64_at, find, is_text, occurs, round_up, same};

verus! {

/// First word of a device tree.
pub const FDT_MAGIC: u32 = 0xD00D_FEED;

pub const FDT_BEGIN_NODE: u32 = 1;

pub const FDT_END_NODE: u32 = 2;

pub const FDT_PROP: u32 = 3;

pub const FDT_NOP: u32 = 4;

pub const FDT_END: u32 = 9;

/// Size of the header in bytes.
pub const HEADER_SIZE: usize = 40;

/// Physical addresses end here.
pub const MAX_PHYS: u64 = 0xFF_FFFF_FFFF_FFFF;

/// Most reserved ranges that are kept.
pub const MAX_RESERVED: usize = 8;

/// Longest part of a node name that is kept.
pub const NODE_NAME_MAX: usize = 63;

/// Board parameters found in the tree.
#[derive(Clone, Copy)]
pub struct BoardParams {
    pub ram_start: u64,
    pub ram_size: u64,
    pub timebase_freq: u64,
    pub uart_base: u64,
    /// Reserved ranges (address, size); the first `reserved_count` count.
    pub reserved: [(u64, u64); 8],
    pub reserved_count: usize,
}

/// Board parameters with the reserved ranges as a list.
#[verifier::ext_equal]
pub struct ParamsView {
    pub ram_start: u64,
    pub ram_size: u64,
    pub timebase_freq: u64,
    pub uart_base: u64,
    pub reserved: Seq<(u64, u64)>,
}

impl View for BoardParams {
    type V = ParamsView;

    open spec fn view(&self) -> ParamsView {
        ParamsView {
            ram_start: self.ram_start,
            ram_size: self.ram_size,
            timebase_freq: self.timebase_freq,
            uart_base: self.uart_base,
            reserved: self.reserved@.subrange(0, self.reserved_count as int),
        }
    }
}

/// End of a range, held at the largest address.
pub open spec fn range_end(addr: int, size: int) -> int {
    if addr + size > u64::MAX {
        u64::MAX as int
    } else {
        addr + size
    }
}

/// Address `x` lies in the range.
pub open spec fn range_has(r: (u64, u64), x: int) -> bool {
    r.0 <= x < range_end(r.0 as int, r.1 as int)
}

/// Address `x` lies in one of the ranges.
pub open spec fn ranges_have(l: Seq<(u64, u64)>, x: int) -> bool {
    exists|i: int| 0 <= i < l.len() && #[trigger] range_has(l[i], x)
}

/// Range `[a, e)` and range `r` share an address.
pub open spec fn range_meets(r: (u64, u64), a: int, e: int) -> bool {
    a < range_end(r.0 as int, r.1 as int) && e > r.0
}

/// Scan the list from entry `i` on and take every entry that meets `[a, e)` into it. The last
/// entry moves to the place of one that was taken. Gives the rest and the grown range.
pub open spec fn absorb(l: Seq<(u64, u64)>, i: int, a: int, e: int) -> (Seq<(u64, u64)>, int, int)
    decreases l.len() - i,
{
    if i < 0 || i >= l.len() {
        (l, a, e)
    } else if range_meets(l[i], a, e) {
        let r_end = range_end(l[i].0 as int, l[i].1 as int);
        absorb(
            l.update(i, l.last()).drop_last(),
            i,
            if l[i].0 < a {
                l[i].0 as int
            } else {
                a
            },
            if r_end > e {
                r_end
            } else {
                e
            },
        )
    } else {
        absorb(l, i + 1, a, e)
    }
}

/// The list after a range was added: ranges that overlap become one. An empty range, one at
/// address 0, or one that overlaps none while the list is full, is dropped.
pub open spec fn reserve(l: Seq<(u64, u64)>, addr: u64, size: u64) -> Seq<(u64, u64)> {
    if addr == 0 || size == 0 {
        l
    } else {
        let (rest, a, e) = absorb(l, 0, addr as int, range_end(addr as int, size as int));
        let s = if rest.len() == l.len() {
            size as int
        } else {
            e - a
        };
        if rest.len() < MAX_RESERVED {
            rest.push((a as u64, s as u64))
        } else {
            rest
        }
    }
}

/// The list after every entry of the reservation map at offset `off` was added.
pub open spec fn reserve_map(l: Seq<(u64, u64)>, d: Seq<u8>, off: int, total: int) -> Seq<
    (u64, u64),
>
    decreases total - off,
{
    if off + 16 > total {
        l
    } else {
        let addr = be64_at(d, off);
        let size = be64_at(d, off + 8);
        if addr == 0 && size == 0 {
            l
        } else {
            reserve_map(reserve(l, addr as u64, size as u64), d, off + 16, total)
        }
    }
}

/// Number of bytes before the first zero byte in `[pos, end)`, or up to `end`.
pub open spec fn text_len(d: Seq<u8>, pos: int, end: int) -> int
    decreases end - pos,
{
    if pos >= end || d[pos] == 0 {
        0
    } else {
        1 + text_len(d, pos + 1, end)
    }
}

/// `min(a, b)`.
pub open spec fn least(a: int, b: int) -> int {
    if a < b {
        a
    } else {
        b
    }
}

/// `max(a, b)`.
pub open spec fn most(a: int, b: int) -> int {
    if a < b {
        b
    } else {
        a
    }
}

/// Length and end of the text at `pos`.
pub proof fn lemma_text_len(d: Seq<u8>, pos: int, end: int)
    ensures
        0 <= text_len(d, pos, end),
        pos <= end ==> pos + text_len(d, pos, end) <= end,
        pos + text_len(d, pos, end) < end ==> d[pos + text_len(d, pos, end)] == 0,
        forall|i: int| pos <= i < pos + text_len(d, pos, end) ==> d[i] != 0,
    decreases end - pos,
{
    if pos < end && d[pos] != 0 {
        lemma_text_len(d, pos + 1, end);
    }
}

/// Value of a hexadecimal digit.
pub open spec fn hex_digit(c: u8) -> Option<int> {
    if 0x30 <= c <= 0x39 {
        Some(c - 0x30)
    } else if 0x61 <= c <= 0x66 {
        Some(c - 0x61 + 10)
    } else if 0x41 <= c <= 0x46 {
        Some(c - 0x41 + 10)
    } else {
        None
    }
}

/// Value of a string of hexadecimal digits; `None` when another character occurs.
pub open spec fn hex_value(s: Seq<u8>) -> Option<int>
    decreases s.len(),
{
    if s.len() == 0 {
        Some(0)
    } else {
        match (hex_value(s.drop_last()), hex_digit(s.last())) {
            (Some(v), Some(x)) => Some(v * 16 + x),
            _ => None,
        }
    }
}

/// Number written with 1 to 16 hexadecimal digits.
pub open spec fn hex_number(s: Seq<u8>) -> Option<int> {
    if 1 <= s.len() <= 16 {
        hex_value(s)
    } else {
        None
    }
}

/// `reg`.
pub open spec fn name_reg() -> Seq<u8> {
    seq![0x72, 0x65, 0x67]
}

/// `memory`.
pub open spec fn name_memory() -> Seq<u8> {
    seq![0x6d, 0x65, 0x6d, 0x6f, 0x72, 0x79]
}

/// `cpus`.
pub open spec fn name_cpus() -> Seq<u8> {
    seq![0x63, 0x70, 0x75, 0x73]
}

/// `timebase-frequency`.
pub open spec fn name_timebase() -> Seq<u8> {
    seq![
        0x74, 0x69, 0x6d, 0x65, 0x62, 0x61, 0x73, 0x65, 0x2d, 0x66, 0x72, 0x65, 0x71, 0x75, 0x65,
        0x6e, 0x63, 0x79,
    ]
}

/// `compatible`.
pub open spec fn name_compatible() -> Seq<u8> {
    seq![0x63, 0x6f, 0x6d, 0x70, 0x61, 0x74, 0x69, 0x62, 0x6c, 0x65]
}

/// `serial@`.
pub open spec fn name_serial() -> Seq<u8> {
    seq![0x73, 0x65, 0x72, 0x69, 0x61, 0x6c, 0x40]
}

/// `ns16550`.
pub open spec fn name_ns16550() -> Seq<u8> {
    seq![0x6e, 0x73, 0x31, 0x36, 0x35, 0x35, 0x30]
}

/// Parameters after property `name` of node `node` with the given value was read.
pub open spec fn with_prop(
    p: ParamsView,
    node: Seq<u8>,
    name: Seq<u8>,
    value: Seq<u8>,
) -> ParamsView {
    if name == name_reg() && node == name_memory() && value.len() >= 16 {
        ParamsView { ram_start: be64_at(value, 0) as u64, ram_size: be64_at(value, 8) as u64, ..p }
    } else if name == name_timebase() && node == name_cpus() && value.len() >= 4 {
        ParamsView { timebase_freq: be32_at(value, 0) as u64, ..p }
    } else if name == name_compatible() && name_serial().is_prefix_of(node) && p.uart_base == 0
        && occurs(value, name_ns16550()) && hex_number(node.skip(7)) is Some {
        ParamsView { uart_base: hex_number(node.skip(7))->0 as u64, ..p }
    } else {
        p
    }
}

/// Device tree in memory.
pub struct Fdt<'a> {
    /// Memory from the start of the tree on.
    pub data: &'a [u8],
    pub total_size: usize,
    pub off_struct: usize,
    pub off_strings: usize,
    pub off_rsvmap: usize,
    pub size_struct: usize,
    /// Physical address of the tree.
    pub fdt_addr: u64,
}

/// The bytes at `fdt` start with a usable header, and the whole tree is there.
pub open spec fn header_ok(fdt: int, d: Seq<u8>) -> bool {
    &&& fdt != 0
    &&& fdt % 4 == 0
    &&& fdt + HEADER_SIZE <= MAX_PHYS
    &&& d.len() >= HEADER_SIZE
    &&& be32_at(d, 0) == FDT_MAGIC
    &&& HEADER_SIZE <= be32_at(d, 4) <= d.len()
    &&& be32_at(d, 8) + be32_at(d, 36) <= be32_at(d, 4)
    &&& be32_at(d, 12) + be32_at(d, 32) <= be32_at(d, 4)
    &&& be32_at(d, 16) + 16 <= be32_at(d, 4)
}

impl<'a> Fdt<'a> {
    /// All blocks that the header names lie inside the tree.
    pub open spec fn wf(&self) -> bool {
        &&& HEADER_SIZE <= self.total_size <= self.data@.len()
        &&& self.total_size <= u32::MAX
        &&& self.off_struct + self.size_struct <= self.total_size
        &&& self.off_strings <= self.total_size
        &&& self.off_rsvmap + 16 <= self.total_size
    }

    /// Name at an offset in the strings block; `None` when it is empty, out of bounds or no text in
    /// UTF-8.
    pub open spec fn string_at(&self, offset: int) -> Option<Seq<u8>> {
        let start = self.off_strings + offset;
        let n = text_len(self.data@, start, self.total_size as int);
        let name = self.data@.subrange(start, start + n);
        if start >= self.total_size || n == 0 || !valid_utf8(name) {
            None
        } else {
            Some(name)
        }
    }

    /// Parameters after the structure block was read from `pos` on, inside node `node`.
    pub open spec fn walk(&self, pos: int, node: Seq<u8>, p: ParamsView) -> ParamsView
        decreases most(self.off_struct + self.size_struct - pos, 0),
    {
        let d = self.data@;
        let end = self.off_struct + self.size_struct;
        if pos + 4 > end {
            p
        } else {
            let token = be32_at(d, pos);
            let at = pos + 4;
            if token == FDT_BEGIN_NODE {
                let n = text_len(d, at, end);
                proof {
                    lemma_text_len(d, at, end);
                }
                self.walk(
                    round_up(at + n + 1, 4),
                    d.subrange(at, at + least(n, NODE_NAME_MAX as int)),
                    p,
                )
            } else if token == FDT_END_NODE || token == FDT_NOP {
                self.walk(at, node, p)
            } else if token == FDT_PROP && at + 8 <= end {
                let len = be32_at(d, at);
                let next = at + 8 + round_up(len, 4);
                if next > end {
                    p
                } else {
                    let value = d.subrange(at + 8, at + 8 + len);
                    self.walk(
                        next,
                        node,
                        match self.string_at(be32_at(d, at + 4)) {
                            Some(name) => with_prop(p, node, name, value),
                            None => p,
                        },
                    )
                }
            } else {
                p
            }
        }
    }

    /// What the tree says.
    pub open spec fn params(&self) -> ParamsView {
        let reserved = reserve_map(
            reserve(Seq::empty(), self.fdt_addr, self.total_size as u64),
            self.data@,
            self.off_rsvmap as int,
            self.total_size as int,
        );
        self.walk(
            self.off_struct as int,
            Seq::empty(),
            ParamsView { ram_start: 0, ram_size: 0, timebase_freq: 0, uart_base: 0, reserved },
        )
    }
}

impl BoardParams {
    /// At most eight reserved ranges.
    pub open spec fn wf(&self) -> bool {
        self.reserved_count <= MAX_RESERVED
    }

    /// Parameters of a board of which nothing is known.
    pub fn empty() -> (r: BoardParams)
        ensures
            r.wf(),
            r@ == (ParamsView {
                ram_start: 0,
                ram_size: 0,
                timebase_freq: 0,
                uart_base: 0,
                reserved: Seq::empty(),
            }),
            r.reserved_count == 0,
            forall|i: int| 0 <= i < MAX_RESERVED ==> #[trigger] r.reserved@[i] == (0u64, 0u64),
    {
        let r = BoardParams {
            ram_start: 0,
            ram_size: 0,
            timebase_freq: 0,
            uart_base: 0,
            reserved: [(0, 0); 8],
            reserved_count: 0,
        };
        assert(r@.reserved =~= Seq::empty());
        r
    }

    /// Add a reserved range; ranges that overlap become one.
    pub fn add_reserved(&mut self, addr: u64, size: u64)
        requires
            old(self).wf(),
        ensures
            final(self).wf(),
            final(self)@ == (ParamsView {
                reserved: reserve(old(self)@.reserved, addr, size),
                ..old(self)@
            }),
    {
        if addr == 0 || size == 0 {
            return ;
        }
        let ghost before = self@;
        let mut a: u64 = addr;
        let mut s: u64 = size;
        let mut e: u64 = addr.saturating_add(size);
        let mut i: usize = 0;
        while i < self.reserved_count
            invariant
                self.wf(),
                i <= self.reserved_count,
                self@.reserved.len() <= before.reserved.len(),
                self@ == (ParamsView { reserved: self@.reserved, ..before }),
                absorb(self@.reserved, i as int, a as int, e as int) == absorb(
                    before.reserved,
                    0,
                    addr as int,
                    range_end(addr as int, size as int),
                ),
                a <= e,
                s == if self@.reserved.len() == before.reserved.len() {
                    size as int
                } else {
                    e - a
                },
                self.reserved@.len() == 8,
            decreases self.reserved_count - i,
        {
            let ghost l = self@.reserved;
            let (r_addr, r_size): (u64, u64) = self.reserved[i];
            let r_end: u64 = r_addr.saturating_add(r_size);
            assert(l[i as int] == (r_addr, r_size));
            if a < r_end && e > r_addr {
                if r_addr < a {
                    a = r_addr;
                }
                if r_end > e {
                    e = r_end;
                }
                s = e - a;
                self.reserved[i] = self.reserved[self.reserved_count - 1];
                self.reserved_count = self.reserved_count - 1;
                assert(self@.reserved =~= l.update(i as int, l.last()).drop_last());
            } else {
                i += 1;
            }
        }
        let ghost l = self@.reserved;
        if self.reserved_count < MAX_RESERVED {
            self.reserved[self.reserved_count] = (a, s);
            self.reserved_count = self.reserved_count + 1;
            assert(self@.reserved =~= l.push((a, s)));
        }
    }
}

/// Read 1 to 16 hexadecimal digits.
pub fn parse_hex(s: &[u8]) -> (r: Result<u64, ()>)
    ensures
        match r {
            Ok(v) => hex_number(s@) == Some(v as int),
            Err(_) => hex_number(s@) is None,
        },
{
    if s.len() == 0 || s.len() > 16 {
        return Err(());
    }
    let n: usize = s.len();
    let mut val: u64 = 0;
    let mut i: usize = 0;
    while i < n
        invariant
            n == s@.len(),
            1 <= n <= 16,
            i <= n,
            hex_value(s@.take(i as int)) == Some(val as int),
            val < hex_limit(i as int),
        decreases n - i,
    {
        let c: u8 = s[i];
        proof {
            assert(s@.take(i + 1).drop_last() =~= s@.take(i as int));
            assert(s@.take(i + 1).last() == c);
            lemma_hex_limit(i as int);
        }
        let digit: u8 = if 0x30 <= c && c <= 0x39 {
            c - 0x30
        } else if 0x61 <= c && c <= 0x66 {
            c - 0x61 + 10
        } else if 0x41 <= c && c <= 0x46 {
            c - 0x41 + 10
        } else {
            proof {
                lemma_hex_bad(s@, i as int);
            }
            return Err(());
        };
        val = val * 16 + digit as u64;
        i += 1;
    }
    assert(s@.take(n as int) =~= s@);
    Ok(val)
}

/// `16^i`.
spec fn hex_limit(i: int) -> int
    decreases i,
{
    if i <= 0 {
        1
    } else {
        16 * hex_limit(i - 1)
    }
}

proof fn lemma_hex_limit(i: int)
    requires
        0 <= i < 16,
    ensures
        hex_limit(i + 1) == 16 * hex_limit(i),
        hex_limit(i) <= 0x1000_0000_0000_0000,
        hex_limit(i + 1) <= 0x1_0000_0000_0000_0000,
    decreases 16 - i,
{
    assert(hex_limit(15) == 0x1000_0000_0000_0000) by {
        reveal_with_fuel(hex_limit, 17);
    }
    if i < 15 {
        lemma_hex_limit(i + 1);
        lemma_hex_pos(i);
    }
}

proof fn lemma_hex_pos(i: int)
    ensures
        hex_limit(i) >= 1,
    decreases i,
{
    if i > 0 {
        lemma_hex_pos(i - 1);
    }
}

/// A character that is no digit spoils the number.
proof fn lemma_hex_bad(s: Seq<u8>, i: int)
    requires
        0 <= i < s.len(),
        hex_digit(s[i]) is None,
    ensures
        hex_value(s) is None,
    decreases s.len(),
{
    if i < s.len() - 1 {
        lemma_hex_bad(s.drop_last(), i);
    }
}

impl<'a> Fdt<'a> {
    /// Open the tree at physical address `fdt`; `data` is the memory from there on.
    pub fn new(fdt: u64, data: &'a [u8]) -> (r: Option<Fdt<'a>>)
        ensures
            r is Some <==> header_ok(fdt as int, data@),
            r matches Some(f) ==> {
                &&& f.wf()
                &&& f.data@ == data@
                &&& f.fdt_addr == fdt
                &&& f.total_size == be32_at(data@, 4)
                &&& f.off_struct == be32_at(data@, 8)
                &&& f.off_strings == be32_at(data@, 12)
                &&& f.off_rsvmap == be32_at(data@, 16)
                &&& f.size_struct == be32_at(data@, 36)
            },
    {
        if fdt == 0 || fdt % 4 != 0 {
            return None;
        }
        if fdt > MAX_PHYS - HEADER_SIZE as u64 {
            return None;
        }
        if data.len() < HEADER_SIZE {
            return None;
        }
        if be32(data, 0) != FDT_MAGIC {
            return None;
        }
        let total: u64 = be32(data, 4) as u64;
        let off_struct: u64 = be32(data, 8) as u64;
        let off_strings: u64 = be32(data, 12) as u64;
        let off_rsvmap: u64 = be32(data, 16) as u64;
        let size_strings: u64 = be32(data, 32) as u64;
        let size_struct: u64 = be32(data, 36) as u64;
        if total < HEADER_SIZE as u64 || total > data.len() as u64 {
            return None;
        }
        if off_struct + size_struct > total || off_strings + size_strings > total || off_rsvmap + 16
            > total {
            return None;
        }
        Some(
            Fdt {
                data,
                total_size: total as usize,
                off_struct: off_struct as usize,
                off_strings: off_strings as usize,
                off_rsvmap: off_rsvmap as usize,
                size_struct: size_struct as usize,
                fdt_addr: fdt,
            },
        )
    }

    /// Length of the text at `pos`, up to a zero byte or `end`.
    fn text_run(&self, pos: usize, end: usize) -> (r: usize)
        requires
            self.wf(),
            pos <= end <= self.total_size,
        ensures
            r == text_len(self.data@, pos as int, end as int),
            pos + r <= end,
    {
        let mut n: usize = 0;
        proof {
            lemma_text_len(self.data@, pos as int, end as int);
        }
        while n < end - pos && self.data[pos + n] != 0
            invariant
                self.wf(),
                pos <= end <= self.total_size,
                n <= end - pos,
                text_len(self.data@, pos as int, end as int) == n + text_len(
                    self.data@,
                    pos + n,
                    end as int,
                ),
            decreases end - pos - n,
        {
            n += 1;
        }
        n
    }

    /// Name at an offset in the strings block.
    pub fn read_string(&self, offset: u32) -> (r: Option<&'a [u8]>)
        requires
            self.wf(),
        ensures
            match r {
                Some(s) => self.string_at(offset as int) == Some(s@),
                None => self.string_at(offset as int) is None,
            },
    {
        if offset as u64 >= (self.total_size - self.off_strings) as u64 {
            return None;
        }
        let start: usize = self.off_strings + offset as usize;
        let n: usize = self.text_run(start, self.total_size);
        if n == 0 {
            return None;
        }
        let name: &'a [u8] = vstd::slice::slice_subrange(self.data, start, start + n);
        if is_text(name) {
            Some(name)
        } else {
            None
        }
    }

    /// Take over what one property says.
    fn handle_prop(&self, node: &[u8], name_off: u32, value: &[u8], params: &mut BoardParams)
        requires
            self.wf(),
            old(params).wf(),
        ensures
            final(params).wf(),
            final(params)@ == match self.string_at(name_off as int) {
                Some(name) => with_prop(old(params)@, node@, name, value@),
                None => old(params)@,
            },
    {
        let ghost before = params@;
        let name: &[u8] = match self.read_string(name_off) {
            Some(n) => n,
            None => {
                return ;
            },
        };
        let reg: [u8; 3] = [0x72, 0x65, 0x67];
        let memory: [u8; 6] = [0x6d, 0x65, 0x6d, 0x6f, 0x72, 0x79];
        let cpus: [u8; 4] = [0x63, 0x70, 0x75, 0x73];
        let timebase: [u8; 18] = [
            0x74, 0x69, 0x6d, 0x65, 0x62, 0x61, 0x73, 0x65, 0x2d, 0x66, 0x72, 0x65, 0x71, 0x75,
            0x65, 0x6e, 0x63, 0x79,
        ];
        let compatible: [u8; 10] = [0x63, 0x6f, 0x6d, 0x70, 0x61, 0x74, 0x69, 0x62, 0x6c, 0x65];
        let serial: [u8; 7] = [0x73, 0x65, 0x72, 0x69, 0x61, 0x6c, 0x40];
        let ns16550: [u8; 7] = [0x6e, 0x73, 0x31, 0x36, 0x35, 0x35, 0x30];
        proof {
            assert(reg@ =~= name_reg());
            assert(memory@ =~= name_memory());
            assert(cpus@ =~= name_cpus());
            assert(timebase@ =~= name_timebase());
            assert(compatible@ =~= name_compatible());
            assert(serial@ =~= name_serial());
            assert(ns16550@ =~= name_ns16550());
            assert(name_reg().len() == 3 && name_timebase().len() == 18
                && name_compatible().len() == 10);
        }
        if same(name, &reg) {
            if same(node, &memory) && value.len() >= 16 {
                params.ram_start = be64(value, 0);
                params.ram_size = be64(value, 8);
            }
        } else if same(name, &timebase) {
            if same(node, &cpus) && value.len() >= 4 {
                params.timebase_freq = be32(value, 0) as u64;
            }
        } else if same(name, &compatible) {
            if node.len() >= 7 && params.uart_base == 0 {
                let head: &[u8] = vstd::slice::slice_subrange(node, 0, 7);
                let is_serial: bool = same(head, &serial);
                assert(is_serial == name_serial().is_prefix_of(node@)) by {
                    assert(node@.subrange(0, 7) =~= name_serial() <==> name_serial().is_prefix_of(node@));
                }
                if is_serial && find(value, &ns16550) {
                    let unit: &[u8] = vstd::slice::slice_subrange(node, 7, node.len());
                    assert(unit@ =~= node@.skip(7));
                    if let Ok(addr) = parse_hex(unit) {
                        params.uart_base = addr;
                    }
                }
            }
        }
        assert(params@.reserved =~= before.reserved);
    }

    /// Read the whole tree.
    pub fn parse(&self) -> (r: BoardParams)
        requires
            self.wf(),
        ensures
            r.wf(),
            r@ == self.params(),
    {
        let mut params = BoardParams::empty();
        params.add_reserved(self.fdt_addr, self.total_size as u64);
        let mut off: usize = self.off_rsvmap;
        let mut more: bool = true;
        let ghost goal = reserve_map(
            params@.reserved,
            self.data@,
            self.off_rsvmap as int,
            self.total_size as int,
        );
        let ghost first = params@;
        while more && 16 <= self.total_size - off
            invariant
                self.wf(),
                params.wf(),
                off <= self.total_size,
                params@ == (ParamsView { reserved: params@.reserved, ..first }),
                goal == if more {
                    reserve_map(
                        params@.reserved,
                        self.data@,
                        off as int,
                        self.total_size as int,
                    )
                } else {
                    params@.reserved
                },
            decreases self.total_size - off + (if more { 1int } else { 0int }),
        {
            let addr: u64 = be64(self.data, off);
            let size: u64 = be64(self.data, off + 8);
            if addr == 0 && size == 0 {
                more = false;
            } else {
                params.add_reserved(addr, size);
                off += 16;
            }
        }
        let end: usize = self.off_struct + self.size_struct;
        let mut pos: usize = self.off_struct;
        let mut node_at: usize = 0;
        let mut node_len: usize = 0;
        let mut done: bool = false;
        proof {
            assert(self.data@.subrange(0, 0) =~= Seq::<u8>::empty());
            assert(params@ =~= (ParamsView {
                ram_start: 0,
                ram_size: 0,
                timebase_freq: 0,
                uart_base: 0,
                reserved: goal,
            }));
        }
        while !done && pos <= end && 4 <= end - pos
            invariant
                self.wf(),
                params.wf(),
                end == self.off_struct + self.size_struct,
                node_at + node_len <= self.total_size,
                self.params() == if done {
                    params@
                } else {
                    self.walk(
                        pos as int,
                        self.data@.subrange(node_at as int, node_at + node_len),
                        params@,
                    )
                },
            decreases most(end - pos, 0) + (if done { 0int } else { 1int }),
        {
            let token: u32 = be32(self.data, pos);
            let at: usize = pos + 4;
            if token == FDT_BEGIN_NODE {
                let n: usize = self.text_run(at, end);
                node_at = at;
                node_len = if n < NODE_NAME_MAX {
                    n
                } else {
                    NODE_NAME_MAX
                };
                // The text, its zero byte and the padding; past the end nothing is left to read.
                let used: usize = at + n;
                let pad: usize = 4 - used % 4;
                assert(round_up(at + n + 1, 4) == used + pad);
                if pad <= end - used {
                    pos = used + pad;
                } else {
                    proof {
                        let name = self.data@.subrange(node_at as int, node_at + node_len);
                        assert(self.walk(used + pad, name, params@) == params@);
                    }
                    done = true;
                }
            } else if token == FDT_END_NODE || token == FDT_NOP {
                pos = at;
            } else if token == FDT_PROP {
                if 8 > end - at {
                    done = true;
                } else {
                    let len: u32 = be32(self.data, at);
                    let name_off: u32 = be32(self.data, at + 4);
                    let room: usize = end - at - 8;
                    let padded: u64 = (len as u64 + 3) / 4 * 4;
                    assert(round_up(len as int, 4) == padded);
                    if padded > room as u64 {
                        done = true;
                    } else {
                        let start: usize = at + 8;
                        let value: &[u8] = vstd::slice::slice_subrange(
                            self.data,
                            start,
                            start + len as usize,
                        );
                        let node: &[u8] = vstd::slice::slice_subrange(
                            self.data,
                            node_at,
                            node_at + node_len,
                        );
                        self.handle_prop(node, name_off, value, &mut params);
                        pos = start + padded as usize;
                    }
                }
            } else {
                done = true;
            }
        }
        params
    }
}

/// `cpu@`.
pub open spec fn name_cpu() -> Seq<u8> {
    seq![0x63, 0x70, 0x75, 0x40]
}

/// `riscv,isa`.
pub open spec fn name_isa() -> Seq<u8> {
    seq![0x72, 0x69, 0x73, 0x63, 0x76, 0x2c, 0x69, 0x73, 0x61]
}

/// What the tree says of the cores: how many there are, and the instruction set of the first that
/// names one.
pub struct Cores<'a> {
    pub count: usize,
    pub isa: &'a [u8],
}

/// Text at the start of a value, up to a zero byte.
pub open spec fn text_of(value: Seq<u8>) -> Seq<u8> {
    value.take(text_len(value, 0, value.len() as int))
}

/// The instruction set after property `name` of node `node` with the given value was read.
pub open spec fn with_isa(isa: Seq<u8>, node: Seq<u8>, name: Seq<u8>, value: Seq<u8>) -> Seq<u8> {
    if name == name_isa() && name_cpu().is_prefix_of(node) && isa.len() == 0 {
        text_of(value)
    } else {
        isa
    }
}

impl<'a> Fdt<'a> {
    /// Cores and instruction set after the structure block was read from `pos` on, inside node
    /// `node`.
    pub open spec fn walk_cores(&self, pos: int, node: Seq<u8>, count: int, isa: Seq<u8>) -> (
        int,
        Seq<u8>,
    )
        decreases most(self.off_struct + self.size_struct - pos, 0),
    {
        let d = self.data@;
        let end = self.off_struct + self.size_struct;
        if pos + 4 > end {
            (count, isa)
        } else {
            let token = be32_at(d, pos);
            let at = pos + 4;
            if token == FDT_BEGIN_NODE {
                let n = text_len(d, at, end);
                let name = d.subrange(at, at + least(n, NODE_NAME_MAX as int));
                proof {
                    lemma_text_len(d, at, end);
                }
                self.walk_cores(
                    round_up(at + n + 1, 4),
                    name,
                    if name_cpu().is_prefix_of(name) {
                        count + 1
                    } else {
                        count
                    },
                    isa,
                )
            } else if token == FDT_END_NODE || token == FDT_NOP {
                self.walk_cores(at, node, count, isa)
            } else if token == FDT_PROP && at + 8 <= end {
                let len = be32_at(d, at);
                let next = at + 8 + round_up(len, 4);
                if next > end {
                    (count, isa)
                } else {
                    self.walk_cores(
                        next,
                        node,
                        count,
                        match self.string_at(be32_at(d, at + 4)) {
                            Some(name) => with_isa(
                                isa,
                                node,
                                name,
                                d.subrange(at + 8, at + 8 + len),
                            ),
                            None => isa,
                        },
                    )
                }
            } else {
                (count, isa)
            }
        }
    }

    /// Whether the text of a node's name starts as those of cores do.
    fn is_cpu(&self, at: usize, len: usize) -> (r: bool)
        requires
            at + len <= self.data@.len(),
        ensures
            r == name_cpu().is_prefix_of(self.data@.subrange(at as int, at + len)),
    {
        let ghost node = self.data@.subrange(at as int, at + len);
        let r: bool = len >= 4 && self.data[at] == 0x63 && self.data[at + 1] == 0x70 && self.data[at
            + 2] == 0x75 && self.data[at + 3] == 0x40;
        proof {
            if len >= 4 {
                assert(node[0] == self.data@[at as int] && node[1] == self.data@[at + 1] && node[2]
                    == self.data@[at + 2] && node[3] == self.data@[at + 3]);
                if r {
                    assert(name_cpu() =~= node.subrange(0, 4));
                } else if name_cpu().is_prefix_of(node) {
                    assert(node.subrange(0, 4)[0] == node[0] && node.subrange(0, 4)[1] == node[1]
                        && node.subrange(0, 4)[2] == node[2] && node.subrange(0, 4)[3] == node[3]);
                }
            }
        }
        r
    }

    /// The instruction set that a property names, if it does.
    fn isa_prop(&self, isa: &'a [u8], cpu: bool, name_off: u32, at: usize, len: usize) -> (r: &'a [u8])
        requires
            self.wf(),
            at + len <= self.total_size,
        ensures
            r@ == match self.string_at(name_off as int) {
                Some(name) => if name == name_isa() && cpu && isa@.len() == 0 {
                    text_of(self.data@.subrange(at as int, at + len))
                } else {
                    isa@
                },
                None => isa@,
            },
    {
        if !cpu || isa.len() != 0 {
            return isa;
        }
        let name: &[u8] = match self.read_string(name_off) {
            Some(n) => n,
            None => {
                return isa;
            },
        };
        let riscv_isa: [u8; 9] = [0x72, 0x69, 0x73, 0x63, 0x76, 0x2c, 0x69, 0x73, 0x61];
        assert(riscv_isa@ =~= name_isa());
        if !same(name, &riscv_isa) {
            return isa;
        }
        let n: usize = self.text_run(at, at + len);
        proof {
            let value = self.data@.subrange(at as int, at + len);
            lemma_text_shift(self.data@, at as int, at + len, value, 0);
            assert(text_of(value) =~= self.data@.subrange(at as int, at + n));
        }
        vstd::slice::slice_subrange(self.data, at, at + n)
    }

    /// The cores that the tree tells of.
    pub fn cores(&self) -> (r: Cores<'a>)
        requires
            self.wf(),
        ensures
            (r.count as int, r.isa@) == self.walk_cores(
                self.off_struct as int,
                Seq::empty(),
                0,
                Seq::empty(),
            ),
    {
        let end: usize = self.off_struct + self.size_struct;
        let mut pos: usize = self.off_struct;
        let mut node_at: usize = 0;
        let mut node_len: usize = 0;
        let mut count: usize = 0;
        let mut isa: &'a [u8] = vstd::slice::slice_subrange(self.data, 0, 0);
        let mut done: bool = false;
        let ghost goal = self.walk_cores(self.off_struct as int, Seq::empty(), 0, Seq::empty());
        proof {
            assert(self.data@.subrange(0, 0) =~= Seq::<u8>::empty());
        }
        while !done && pos <= end && 4 <= end - pos
            invariant
                self.wf(),
                end == self.off_struct + self.size_struct,
                node_at + node_len <= self.total_size,
                self.off_struct + 4 * count <= pos + (if done { 4int } else { 0int }),
                pos <= end,
                goal == if done {
                    (count as int, isa@)
                } else {
                    self.walk_cores(
                        pos as int,
                        self.data@.subrange(node_at as int, node_at + node_len),
                        count as int,
                        isa@,
                    )
                },
            decreases most(end - pos, 0) + (if done { 0int } else { 1int }),
        {
            let token: u32 = be32(self.data, pos);
            let at: usize = pos + 4;
            if token == FDT_BEGIN_NODE {
                let n: usize = self.text_run(at, end);
                node_at = at;
                node_len = if n < NODE_NAME_MAX {
                    n
                } else {
                    NODE_NAME_MAX
                };
                if self.is_cpu(node_at, node_len) {
                    count += 1;
                }
                let used: usize = at + n;
                let pad: usize = 4 - used % 4;
                assert(round_up(at + n + 1, 4) == used + pad);
                if pad <= end - used {
                    pos = used + pad;
                } else {
                    proof {
                        let name = self.data@.subrange(node_at as int, node_at + node_len);
                        assert(self.walk_cores(used + pad, name, count as int, isa@) == (
                            count as int,
                            isa@,
                        ));
                    }
                    done = true;
                }
            } else if token == FDT_END_NODE || token == FDT_NOP {
                pos = at;
            } else if token == FDT_PROP {
                if 8 > end - at {
                    done = true;
                } else {
                    let len: u32 = be32(self.data, at);
                    let name_off: u32 = be32(self.data, at + 4);
                    let room: usize = end - at - 8;
                    let padded: u64 = (len as u64 + 3) / 4 * 4;
                    assert(round_up(len as int, 4) == padded);
                    if padded > room as u64 {
                        done = true;
                    } else {
                        let start: usize = at + 8;
                        let cpu: bool = self.is_cpu(node_at, node_len);
                        isa = self.isa_prop(isa, cpu, name_off, start, len as usize);
                        pos = start + padded as usize;
                    }
                }
            } else {
                done = true;
            }
        }
        Cores { count, isa }
    }
}

/// Text in a part of the bytes is text in the bytes.
proof fn lemma_text_shift(d: Seq<u8>, at: int, end: int, value: Seq<u8>, i: int)
    requires
        0 <= at <= end <= d.len(),
        value == d.subrange(at, end),
        0 <= i <= value.len(),
    ensures
        text_len(value, i, value.len() as int) == text_len(d, at + i, end),
    decreases value.len() - i,
{
    if i < value.len() && value[i] != 0 {
        lemma_text_shift(d, at, end, value, i + 1);
    }
}

/// No two ranges of the list share an address.
pub open spec fn ranges_disjoint(l: Seq<(u64, u64)>) -> bool {
    forall|i: int, j: int|
        #![trigger l[i], l[j]]
        0 <= i < l.len() && 0 <= j < l.len() && i != j ==> !range_meets(
            l[i],
            l[j].0 as int,
            range_end(l[j].0 as int, l[j].1 as int),
        )
}

proof fn lemma_absorb(l: Seq<(u64, u64)>, i: int, a: int, e: int)
    requires
        ranges_disjoint(l),
        0 <= i <= l.len(),
        0 <= a <= e <= u64::MAX,
        forall|k: int| 0 <= k < i ==> !range_meets(#[trigger] l[k], a, e),
    ensures
        ({
            let (r, a2, e2) = absorb(l, i, a, e);
            &&& ranges_disjoint(r)
            &&& 0 <= a2 <= a
            &&& e <= e2 <= u64::MAX
            &&& r.len() <= l.len()
            &&& r.len() == l.len() ==> r == l && a2 == a && e2 == e
            &&& forall|k: int| 0 <= k < r.len() ==> !range_meets(#[trigger] r[k], a2, e2)
            &&& forall|x: int|
                (ranges_have(r, x) || a2 <= x < e2) <==> (#[trigger] ranges_have(l, x) || a <= x
                    < e)
            &&& forall|k: int| 0 <= k < r.len() ==> l.contains(#[trigger] r[k])
        }),
    decreases l.len() - i,
{
    if i < l.len() {
        if range_meets(l[i], a, e) {
            let r_end = range_end(l[i].0 as int, l[i].1 as int);
            let m = l.update(i, l.last()).drop_last();
            let a1 = if l[i].0 < a {
                l[i].0 as int
            } else {
                a
            };
            let e1 = if r_end > e {
                r_end
            } else {
                e
            };
            // Where each entry of `m` comes from.
            assert forall|k: int| 0 <= k < m.len() implies #[trigger] m[k] == l[if k == i {
                l.len() - 1
            } else {
                k
            }] by {}
            assert(ranges_disjoint(m));
            assert forall|k: int| 0 <= k < i implies !range_meets(#[trigger] m[k], a1, e1) by {
                assert(m[k] == l[k]);
                assert(!range_meets(l[k], a, e));
                assert(!range_meets(l[k], l[i].0 as int, r_end));
            }
            lemma_absorb(m, i, a1, e1);
            assert forall|x: int| (ranges_have(m, x) || a1 <= x < e1) <==> (#[trigger] ranges_have(
                l,
                x,
            ) || a <= x < e) by {
                if ranges_have(m, x) {
                    let k = choose|k: int| 0 <= k < m.len() && #[trigger] range_has(m[k], x);
                    let j = if k == i {
                        l.len() - 1
                    } else {
                        k
                    };
                    assert(range_has(l[j], x));
                }
                if a1 <= x < e1 && !(a <= x < e) {
                    assert(range_has(l[i], x));
                }
                if ranges_have(l, x) {
                    let k = choose|k: int| 0 <= k < l.len() && #[trigger] range_has(l[k], x);
                    if k == i {
                        assert(a1 <= x < e1);
                    } else if k == l.len() - 1 {
                        assert(range_has(m[i], x));
                    } else {
                        assert(range_has(m[k], x));
                    }
                }
            }
            let (r, a2, e2) = absorb(l, i, a, e);
            assert forall|x: int| (ranges_have(r, x) || a2 <= x < e2) <==> (#[trigger] ranges_have(
                l,
                x,
            ) || a <= x < e) by {
                assert(ranges_have(m, x) || a1 <= x < e1 <==> ranges_have(r, x) || a2 <= x < e2);
            }
            assert forall|k: int| 0 <= k < r.len() implies l.contains(#[trigger] r[k]) by {
                assert(m.contains(r[k]));
                let j = choose|j: int| 0 <= j < m.len() && m[j] == r[k];
                assert(m[j] == l[if j == i {
                    l.len() - 1
                } else {
                    j
                }]);
            }
        } else {
            lemma_absorb(l, i + 1, a, e);
        }
    }
}

/// One more range is at most one more in the list.
pub proof fn lemma_reserve_len(l: Seq<(u64, u64)>, addr: u64, size: u64)
    requires
        ranges_disjoint(l),
    ensures
        reserve(l, addr, size).len() <= l.len() + 1,
{
    if addr != 0 && size != 0 {
        lemma_absorb(l, 0, addr as int, range_end(addr as int, size as int));
    }
}

/// Reading nodes and properties does not change what is reserved.
pub proof fn lemma_walk_reserved(f: Fdt, pos: int, node: Seq<u8>, p: ParamsView)
    ensures
        f.walk(pos, node, p).reserved == p.reserved,
    decreases most(f.off_struct + f.size_struct - pos, 0),
{
    let d = f.data@;
    let end = f.off_struct + f.size_struct;
    if pos + 4 <= end {
        let token = be32_at(d, pos);
        let at = pos + 4;
        if token == FDT_BEGIN_NODE {
            let n = text_len(d, at, end);
            lemma_text_len(d, at, end);
            lemma_walk_reserved(
                f,
                round_up(at + n + 1, 4),
                d.subrange(at, at + least(n, NODE_NAME_MAX as int)),
                p,
            );
        } else if token == FDT_END_NODE || token == FDT_NOP {
            lemma_walk_reserved(f, at, node, p);
        } else if token == FDT_PROP && at + 8 <= end {
            let len = be32_at(d, at);
            let next = at + 8 + round_up(len, 4);
            if next <= end {
                let value = d.subrange(at + 8, at + 8 + len);
                let q = match f.string_at(be32_at(d, at + 4)) {
                    Some(name) => with_prop(p, node, name, value),
                    None => p,
                };
                lemma_walk_reserved(f, next, node, q);
            }
        }
    }
}

/// Law: reserved ranges never overlap one another.
pub proof fn law_reserved_disjoint(l: Seq<(u64, u64)>, addr: u64, size: u64)
    requires
        ranges_disjoint(l),
    ensures
        ranges_disjoint(reserve(l, addr, size)),
{
    if addr != 0 && size != 0 {
        lemma_absorb(l, 0, addr as int, range_end(addr as int, size as int));
    }
}

/// Law: a range that is added is covered from then on, and so is everything that was covered
/// before; nothing else is. Only a range that meets none of eight kept ranges is lost.
pub proof fn law_reserved_cover(l: Seq<(u64, u64)>, addr: u64, size: u64, x: int)
    requires
        ranges_disjoint(l),
        l.len() <= MAX_RESERVED,
        addr != 0,
        l.len() < MAX_RESERVED || exists|i: int|
            0 <= i < l.len() && range_meets(
                #[trigger] l[i],
                addr as int,
                range_end(addr as int, size as int),
            ),
    ensures
        ranges_have(reserve(l, addr, size), x) <==> ranges_have(l, x) || range_has(
            (addr, size),
            x,
        ),
{
    if size != 0 {
        let e = range_end(addr as int, size as int);
        lemma_absorb(l, 0, addr as int, e);
        let (r, a2, e2) = absorb(l, 0, addr as int, e);
        if l.len() == MAX_RESERVED && r.len() == l.len() {
            let i = choose|i: int|
                0 <= i < l.len() && range_meets(#[trigger] l[i], addr as int, e);
            assert(!range_meets(r[i], a2, e2));
        }
        let s = if r.len() == l.len() {
            size as int
        } else {
            e2 - a2
        };
        let n = r.push((a2 as u64, s as u64));
        assert(reserve(l, addr, size) == n);
        assert(ranges_have(n, x) <==> ranges_have(r, x) || a2 <= x < e2) by {
            if ranges_have(n, x) {
                let k = choose|k: int| 0 <= k < n.len() && #[trigger] range_has(n[k], x);
                if k < r.len() {
                    assert(range_has(r[k], x));
                }
            }
            if ranges_have(r, x) {
                let k = choose|k: int| 0 <= k < r.len() && #[trigger] range_has(r[k], x);
                assert(range_has(n[k], x));
            }
            if a2 <= x < e2 {
                assert(range_has(n[r.len() as int], x));
            }
        }
    }
}

} // verus!
