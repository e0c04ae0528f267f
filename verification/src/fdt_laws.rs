//! What the device tree is read for: what its bytes say of memory, clock, console and cores.

use vstd::prelude::*;
use vstd::utf8::valid_utf8;
use crate::bytes::{be32_at, be64_at, occurs, occurs_at};
use crate::fdt::{
    header_ok, hex_digit, hex_number, hex_value, law_reserved_cover, law_reserved_disjoint, lemma_reserve_len,
    lemma_text_len, lemma_walk_reserved, name_compatible, name_cpu, name_isa, name_ns16550, name_reg,
    name_serial, name_timebase, range_has, ranges_disjoint, ranges_have, reserve, reserve_map,
    text_len, text_of, with_isa, with_prop, Fdt, ParamsView,
};

verus! {

/// The 64-bit number whose bytes stand at an offset, the highest first.
pub open spec fn word_at(d: Seq<u8>, i: int) -> int {
    d[i] * 0x100_0000_0000_0000 + d[i + 1] * 0x1_0000_0000_0000 + d[i + 2] * 0x100_0000_0000
        + d[i + 3] * 0x1_0000_0000 + d[i + 4] * 0x100_0000 + d[i + 5] * 0x1_0000 + d[i + 6] * 0x100
        + d[i + 7]
}

/// The 32-bit number whose bytes stand at an offset, the highest first.
pub open spec fn half_at(d: Seq<u8>, i: int) -> int {
    d[i] * 0x100_0000 + d[i + 1] * 0x1_0000 + d[i + 2] * 0x100 + d[i + 3]
}

/// Law: numbers in a tree have their highest byte first.
pub proof fn law_numbers_are_big_endian(d: Seq<u8>, i: int)
    ensures
        be32_at(d, i) == half_at(d, i),
        be64_at(d, i) == word_at(d, i),
        0 <= half_at(d, i) < 0x1_0000_0000,
        0 <= word_at(d, i) < 0x1_0000_0000_0000_0000,
{
}

/// An address lies in one of the ranges.
pub open spec fn covered(l: Seq<(u64, u64)>, x: int) -> bool {
    exists|i: int| 0 <= i < l.len() && (#[trigger] l[i]).0 <= x < l[i].0 + l[i].1
}

/// An address lies in the range of entry `i` of the reservation map, which begins at `off`: its
/// first word is where the range begins, its second how long it is. A range that begins at 0 does
/// not count.
pub open spec fn entry_has(d: Seq<u8>, off: int, i: int, x: int) -> bool {
    let a = word_at(d, off + 16 * i);
    let n = word_at(d, off + 16 * i + 8);
    a != 0 && a <= x < a + n
}

/// The reservation map at `off` has `n` entries: behind them stands an entry of zeros, or the end of
/// the tree.
pub open spec fn map_has(d: Seq<u8>, off: int, total: int, n: int) -> bool {
    &&& n >= 0
    &&& forall|i: int|
        0 <= i < n ==> #[trigger] word_at(d, off + 16 * i) != 0 || word_at(d, off + 16 * i + 8) != 0
    &&& off + 16 * n <= total
    &&& off + 16 * n + 16 > total || (word_at(d, off + 16 * n) == 0 && word_at(d, off + 16 * n + 8)
        == 0)
}

proof fn lemma_map_cover(l: Seq<(u64, u64)>, d: Seq<u8>, off: int, total: int, n: int, x: int)
    requires
        ranges_disjoint(l),
        l.len() + n <= 8,
        map_has(d, off, total, n),
        0 <= x < u64::MAX,
    ensures
        ranges_have(reserve_map(l, d, off, total), x) <==> ranges_have(l, x) || exists|i: int|
            0 <= i < n && #[trigger] entry_has(d, off, i, x),
    decreases n,
{
    law_numbers_are_big_endian(d, off);
    law_numbers_are_big_endian(d, off + 8);
    if n == 0 {
        assert(off + 16 * n == off);
    } else {
        assert(word_at(d, off + 16 * 0) != 0 || word_at(d, off + 16 * 0 + 8) != 0);
        let a = be64_at(d, off) as u64;
        let s = be64_at(d, off + 8) as u64;
        let m = reserve(l, a, s);
        law_reserved_disjoint(l, a, s);
        lemma_reserve_len(l, a, s);
        assert(map_has(d, off + 16, total, n - 1)) by {
            assert forall|i: int| 0 <= i < n - 1 implies #[trigger] word_at(d, off + 16 + 16 * i) != 0
                || word_at(d, off + 16 + 16 * i + 8) != 0 by {
                assert(off + 16 + 16 * i == off + 16 * (i + 1));
                assert(word_at(d, off + 16 * (i + 1)) != 0 || word_at(d, off + 16 * (i + 1) + 8)
                    != 0);
            }
            assert(off + 16 + 16 * (n - 1) == off + 16 * n);
        }
        lemma_map_cover(m, d, off + 16, total, n - 1, x);
        assert(ranges_have(m, x) <==> ranges_have(l, x) || entry_has(d, off, 0, x)) by {
            if a != 0 {
                law_reserved_cover(l, a, s, x);
                assert(range_has((a, s), x) <==> a <= x < a + s);
            }
        }
        assert forall|i: int| 0 <= i < n - 1 implies #[trigger] entry_has(d, off + 16, i, x)
            == entry_has(d, off, i + 1, x) by {
            assert(off + 16 + 16 * i == off + 16 * (i + 1));
        }
        if exists|i: int| 0 <= i < n - 1 && #[trigger] entry_has(d, off + 16, i, x) {
            let i = choose|i: int| 0 <= i < n - 1 && #[trigger] entry_has(d, off + 16, i, x);
            assert(entry_has(d, off, i + 1, x));
        }
        if exists|i: int| 0 <= i < n && #[trigger] entry_has(d, off, i, x) {
            let i = choose|i: int| 0 <= i < n && #[trigger] entry_has(d, off, i, x);
            if i > 0 {
                assert(entry_has(d, off + 16, i - 1, x));
            }
        }
    }
}

/// Law: once the tree was read, an address is reserved exactly when it lies in the tree itself or in
/// the range of an entry of the reservation map: from the entry's first word on, as long as its
/// second says. (Not more than eight ranges are kept.)
pub proof fn law_tree_reserves(f: Fdt, n: int, x: int)
    requires
        f.wf(),
        f.fdt_addr != 0,
        map_has(f.data@, f.off_rsvmap as int, f.total_size as int, n),
        n <= 7,
        0 <= x < u64::MAX,
    ensures
        covered(f.params().reserved, x) <==> (f.fdt_addr <= x < f.fdt_addr + f.total_size || exists|
            i: int,
        |
            0 <= i < n && #[trigger] entry_has(f.data@, f.off_rsvmap as int, i, x)),
{
    let e = Seq::<(u64, u64)>::empty();
    let l = reserve(e, f.fdt_addr, f.total_size as u64);
    let m = reserve_map(l, f.data@, f.off_rsvmap as int, f.total_size as int);
    law_reserved_disjoint(e, f.fdt_addr, f.total_size as u64);
    law_reserved_cover(e, f.fdt_addr, f.total_size as u64, x);
    lemma_reserve_len(e, f.fdt_addr, f.total_size as u64);
    lemma_map_cover(l, f.data@, f.off_rsvmap as int, f.total_size as int, n, x);
    lemma_walk_reserved(
        f,
        f.off_struct as int,
        Seq::empty(),
        ParamsView { ram_start: 0, ram_size: 0, timebase_freq: 0, uart_base: 0, reserved: m },
    );
    assert(f.params().reserved == m);
    assert(covered(m, x) <==> ranges_have(m, x)) by {
        if covered(m, x) {
            let i = choose|i: int| 0 <= i < m.len() && (#[trigger] m[i]).0 <= x < m[i].0 + m[i].1;
            assert(range_has(m[i], x));
        }
        if ranges_have(m, x) {
            let i = choose|i: int| 0 <= i < m.len() && #[trigger] range_has(m[i], x);
            assert(m[i].0 <= x < m[i].0 + m[i].1);
        }
    }
    assert(!ranges_have(e, x));
    assert(range_has((f.fdt_addr, f.total_size as u64), x) <==> f.fdt_addr <= x < f.fdt_addr
        + f.total_size);
}

/// A piece of the structure block.
pub enum Item {
    /// A node begins.
    Begin(Seq<u8>),
    /// A node ends.
    End,
    /// Nothing.
    Nop,
    /// A property of the node: its name and its value.
    Prop(Seq<u8>, Seq<u8>),
}

/// Bytes that a piece takes: a word, and what follows it, filled up to whole words.
pub open spec fn extent(it: Item) -> int {
    match it {
        Item::Begin(name) => 4 + (name.len() as int + 4) / 4 * 4,
        Item::End => 4,
        Item::Nop => 4,
        Item::Prop(name, value) => 12 + (value.len() as int + 3) / 4 * 4,
    }
}

/// The piece stands at an offset of the structure block.
pub open spec fn stands(f: Fdt, pos: int, it: Item) -> bool {
    let d = f.data@;
    &&& pos + extent(it) <= f.off_struct + f.size_struct
    &&& match it {
        Item::Begin(name) => {
            &&& half_at(d, pos) == 1
            &&& d.subrange(pos + 4, pos + 4 + name.len()) == name
            &&& d[pos + 4 + name.len()] == 0
            &&& forall|k: int| 0 <= k < name.len() ==> #[trigger] name[k] != 0
        },
        Item::End => half_at(d, pos) == 2,
        Item::Nop => half_at(d, pos) == 4,
        Item::Prop(name, value) => {
            let s = f.off_strings + half_at(d, pos + 8);
            &&& half_at(d, pos) == 3
            &&& half_at(d, pos + 4) == value.len()
            &&& d.subrange(pos + 12, pos + 12 + value.len()) == value
            &&& name.len() > 0
            &&& valid_utf8(name)
            &&& s + name.len() < f.total_size
            &&& d.subrange(s, s + name.len()) == name
            &&& d[s + name.len()] == 0
            &&& forall|k: int| 0 <= k < name.len() ==> #[trigger] name[k] != 0
        },
    }
}

/// From an offset on, the structure block is made of these pieces, with its end behind them.
pub open spec fn block(f: Fdt, pos: int, items: Seq<Item>) -> bool
    decreases items.len(),
{
    if items.len() == 0 {
        pos + 4 > f.off_struct + f.size_struct || half_at(f.data@, pos) == 9
    } else {
        stands(f, pos, items[0]) && block(f, pos + extent(items[0]), items.skip(1))
    }
}

/// The node that properties belong to from then on: the name of the node that began last, of which
/// 63 bytes count.
pub open spec fn inside(it: Item, node: Seq<u8>) -> Seq<u8> {
    match it {
        Item::Begin(name) => if name.len() <= 63 {
            name
        } else {
            name.take(63)
        },
        _ => node,
    }
}

/// The node that piece `k` belongs to.
pub open spec fn node_at(items: Seq<Item>, k: int, node: Seq<u8>) -> Seq<u8>
    decreases items.len(),
{
    if k <= 0 || items.len() == 0 {
        node
    } else {
        node_at(items.skip(1), k - 1, inside(items[0], node))
    }
}

/// Piece `k` says where the RAM is: `reg` of `memory`.
pub open spec fn says_ram(items: Seq<Item>, k: int, node: Seq<u8>) -> bool {
    items[k] matches Item::Prop(name, value) && name == seq![0x72u8, 0x65, 0x67] && value.len() >= 16
        && node_at(items, k, node) == seq![0x6du8, 0x65, 0x6d, 0x6f, 0x72, 0x79]
}

/// Piece `k` says how fast the clock is: `timebase-frequency` of `cpus`.
pub open spec fn says_clock(items: Seq<Item>, k: int, node: Seq<u8>) -> bool {
    items[k] matches Item::Prop(name, value) && name == seq![
        0x74u8, 0x69, 0x6d, 0x65, 0x62, 0x61, 0x73, 0x65, 0x2d, 0x66, 0x72, 0x65, 0x71, 0x75, 0x65,
        0x6e, 0x63, 0x79,
    ] && value.len() >= 4 && node_at(items, k, node) == seq![0x63u8, 0x70, 0x75, 0x73]
}

/// Piece `k` says where a console is: `compatible` of a node `serial@` with an address, with
/// `ns16550` somewhere in its value.
pub open spec fn says_uart(items: Seq<Item>, k: int, node: Seq<u8>) -> bool {
    let n = node_at(items, k, node);
    items[k] matches Item::Prop(name, value) && name == seq![
        0x63u8, 0x6f, 0x6d, 0x70, 0x61, 0x74, 0x69, 0x62, 0x6c, 0x65,
    ] && (exists|i: int|
        0 <= i <= value.len() - 7 && #[trigger] value.subrange(i, i + 7) == seq![
            0x6eu8, 0x73, 0x31, 0x36, 0x35, 0x35, 0x30,
        ]) && n.len() >= 7 && n.take(7) == seq![0x73u8, 0x65, 0x72, 0x69, 0x61, 0x6c, 0x40]
        && hex_number(n.skip(7)) is Some
}

/// A property is read.
proof fn lemma_prop_read(
    f: Fdt,
    pos: int,
    name: Seq<u8>,
    value: Seq<u8>,
    node: Seq<u8>,
    p: ParamsView,
)
    requires
        f.wf(),
        pos % 4 == 0,
        pos >= 0,
        stands(f, pos, Item::Prop(name, value)),
    ensures
        f.walk(pos, node, p) == f.walk(
            pos + extent(Item::Prop(name, value)),
            node,
            with_prop(p, node, name, value),
        ),
{
    let d = f.data@;
    law_numbers_are_big_endian(d, pos);
    law_numbers_are_big_endian(d, pos + 4);
    law_numbers_are_big_endian(d, pos + 8);
    let off = half_at(d, pos + 8);
    let s = f.off_strings + off;
    let n = text_len(d, s, f.total_size as int);
    lemma_text_len(d, s, f.total_size as int);
    assert(n == name.len()) by {
        if n < name.len() {
            assert(d.subrange(s, s + name.len())[n] == name[n]);
        }
    }
    assert(f.string_at(off) == Some(name));
    assert(crate::bytes::round_up(value.len() as int, 4) == (value.len() as int + 3) / 4 * 4);
}

/// The name of the node begins with `serial@`.
proof fn lemma_serial(node: Seq<u8>)
    ensures
        name_serial().is_prefix_of(node) <==> node.len() >= 7 && node.take(7) == seq![
            0x73u8, 0x65, 0x72, 0x69, 0x61, 0x6c, 0x40,
        ],
{
    let t = seq![0x73u8, 0x65, 0x72, 0x69, 0x61, 0x6c, 0x40];
    assert(name_serial() == t);
    if node.len() >= 7 && node.take(7) == t {
        assert(node.subrange(0, 7) =~= t);
    }
    if name_serial().is_prefix_of(node) {
        assert(node.take(7) =~= t);
    }
}

/// `ns16550` occurs in the value.
proof fn lemma_ns16550(value: Seq<u8>)
    ensures
        occurs(value, name_ns16550()) <==> exists|i: int|
            0 <= i <= value.len() - 7 && #[trigger] value.subrange(i, i + 7) == seq![
                0x6eu8, 0x73, 0x31, 0x36, 0x35, 0x35, 0x30,
            ],
{
    let ns = seq![0x6eu8, 0x73, 0x31, 0x36, 0x35, 0x35, 0x30];
    assert(name_ns16550() == ns);
    if occurs(value, name_ns16550()) {
        let i = choose|i: int| occurs_at(value, name_ns16550(), i);
        assert(value.subrange(i, i + 7) == ns);
    }
    if exists|i: int| 0 <= i <= value.len() - 7 && #[trigger] value.subrange(i, i + 7) == ns {
        let i = choose|i: int|
            0 <= i <= value.len() - 7 && #[trigger] value.subrange(i, i + 7) == ns;
        assert(occurs_at(value, name_ns16550(), i));
    }
}

/// What a property says.
proof fn lemma_prop_said(items: Seq<Item>, node: Seq<u8>, p: ParamsView)
    requires
        items.len() > 0,
        items[0] is Prop,
    ensures
        ({
            let q = with_prop(p, node, items[0]->Prop_0, items[0]->Prop_1);
            &&& q.reserved == p.reserved
            &&& says_ram(items, 0, node) ==> q.ram_start == word_at((items[0]->Prop_1), 0)
                && q.ram_size == word_at((items[0]->Prop_1), 8)
            &&& !says_ram(items, 0, node) ==> q.ram_start == p.ram_start && q.ram_size == p.ram_size
            &&& says_clock(items, 0, node) ==> q.timebase_freq == half_at((items[0]->Prop_1), 0)
            &&& !says_clock(items, 0, node) ==> q.timebase_freq == p.timebase_freq
            &&& says_uart(items, 0, node) && p.uart_base == 0 ==> q.uart_base == hex_number(
                node.skip(7),
            )->0 as u64
            &&& !says_uart(items, 0, node) || p.uart_base != 0 ==> q.uart_base == p.uart_base
        }),
{
    let name = items[0]->Prop_0;
    let value = items[0]->Prop_1;
    law_numbers_are_big_endian(value, 0);
    law_numbers_are_big_endian(value, 8);
    lemma_serial(node);
    lemma_ns16550(value);
    assert(name_reg() == seq![0x72u8, 0x65, 0x67]);
    assert(name_reg().len() == 3 && name_timebase().len() == 18 && name_compatible().len() == 10);
}

/// The first piece.
proof fn lemma_first_piece(f: Fdt, pos: int, items: Seq<Item>, node: Seq<u8>, p: ParamsView) -> (q:
    ParamsView)
    requires
        f.wf(),
        pos % 4 == 0,
        pos >= 0,
        items.len() > 0,
        stands(f, pos, items[0]),
    ensures
        f.walk(pos, node, p) == f.walk(pos + extent(items[0]), inside(items[0], node), q),
        q.reserved == p.reserved,
        says_ram(items, 0, node) ==> q.ram_start == word_at((items[0]->Prop_1), 0) && q.ram_size
            == word_at((items[0]->Prop_1), 8),
        !says_ram(items, 0, node) ==> q.ram_start == p.ram_start && q.ram_size == p.ram_size,
        says_clock(items, 0, node) ==> q.timebase_freq == half_at((items[0]->Prop_1), 0),
        !says_clock(items, 0, node) ==> q.timebase_freq == p.timebase_freq,
        says_uart(items, 0, node) && p.uart_base == 0 ==> q.uart_base == hex_number(
            node.skip(7),
        )->0 as u64,
        !says_uart(items, 0, node) || p.uart_base != 0 ==> q.uart_base == p.uart_base,
{
    let d = f.data@;
    let end = f.off_struct + f.size_struct;
    law_numbers_are_big_endian(d, pos);
    law_numbers_are_big_endian(d, pos + 4);
    law_numbers_are_big_endian(d, pos + 8);
    match items[0] {
        Item::Begin(name) => {
            let n = text_len(d, pos + 4, end);
            lemma_text_len(d, pos + 4, end);
            assert(n == name.len()) by {
                if n < name.len() {
                    assert(d.subrange(pos + 4, pos + 4 + name.len())[n] == name[n]);
                }
            }
            assert(crate::bytes::round_up(pos + 4 + n + 1, 4) == pos + extent(items[0]));
            let m = crate::fdt::least(n, 63);
            assert(d.subrange(pos + 4, pos + 4 + m) =~= inside(items[0], node));
            p
        },
        Item::End => p,
        Item::Nop => p,
        Item::Prop(name, value) => {
            lemma_prop_read(f, pos, name, value, node, p);
            lemma_prop_said(items, node, p);
            with_prop(p, node, name, value)
        },
    }
}

/// What is behind the first piece is read as before.
proof fn lemma_rest(items: Seq<Item>, k: int, node: Seq<u8>)
    requires
        items.len() > 0,
        0 <= k < items.len() - 1,
    ensures
        items.skip(1)[k] == items[k + 1],
        node_at(items.skip(1), k, inside(items[0], node)) == node_at(items, k + 1, node),
        says_ram(items.skip(1), k, inside(items[0], node)) == says_ram(items, k + 1, node),
        says_clock(items.skip(1), k, inside(items[0], node)) == says_clock(items, k + 1, node),
        says_uart(items.skip(1), k, inside(items[0], node)) == says_uart(items, k + 1, node),
{
    assert(items.skip(1)[k] == items[k + 1]);
    assert(k + 1 - 1 == k);
}

/// The end of the structure block.
proof fn lemma_block_end(f: Fdt, pos: int, node: Seq<u8>, p: ParamsView)
    requires
        block(f, pos, Seq::empty()),
    ensures
        f.walk(pos, node, p) == p,
{
    law_numbers_are_big_endian(f.data@, pos);
}

/// Piece `k` is the last of those that say something.
proof fn lemma_ram(f: Fdt, pos: int, items: Seq<Item>, node: Seq<u8>, p: ParamsView, k: int)
    requires
        f.wf(),
        pos % 4 == 0,
        pos >= 0,
        block(f, pos, items),
        -1 <= k < items.len(),
        k >= 0 ==> says_ram(items, k, node),
        forall|i: int| k < i < items.len() ==> !#[trigger] says_ram(items, i, node),
    ensures
        k >= 0 ==> f.walk(pos, node, p).ram_start == word_at((items[k]->Prop_1), 0) && f.walk(
            pos,
            node,
            p,
        ).ram_size == word_at((items[k]->Prop_1), 8),
        k < 0 ==> f.walk(pos, node, p).ram_start == p.ram_start && f.walk(pos, node, p).ram_size
            == p.ram_size,
    decreases items.len(),
{
    if items.len() == 0 {
        assert(items =~= Seq::empty());
        lemma_block_end(f, pos, node, p);
    } else {
        let rest = items.skip(1);
        let q = lemma_first_piece(f, pos, items, node, p);
        let n = inside(items[0], node);
        assert forall|i: int| k - 1 < i < rest.len() && i >= 0 implies !#[trigger] says_ram(
            rest,
            i,
            n,
        ) by {
            lemma_rest(items, i, node);
            assert(!says_ram(items, i + 1, node));
        }
        if k >= 1 {
            lemma_rest(items, k - 1, node);
        }
        lemma_ram(f, pos + extent(items[0]), rest, n, q, if k >= 1 { k - 1 } else { -1 });
        if k < 0 {
            assert(!says_ram(items, 0, node));
        }
    }
}

proof fn lemma_clock(f: Fdt, pos: int, items: Seq<Item>, node: Seq<u8>, p: ParamsView, k: int)
    requires
        f.wf(),
        pos % 4 == 0,
        pos >= 0,
        block(f, pos, items),
        -1 <= k < items.len(),
        k >= 0 ==> says_clock(items, k, node),
        forall|i: int| k < i < items.len() ==> !#[trigger] says_clock(items, i, node),
    ensures
        k >= 0 ==> f.walk(pos, node, p).timebase_freq == half_at((items[k]->Prop_1), 0),
        k < 0 ==> f.walk(pos, node, p).timebase_freq == p.timebase_freq,
    decreases items.len(),
{
    if items.len() == 0 {
        assert(items =~= Seq::empty());
        lemma_block_end(f, pos, node, p);
    } else {
        let rest = items.skip(1);
        let q = lemma_first_piece(f, pos, items, node, p);
        let n = inside(items[0], node);
        assert forall|i: int| k - 1 < i < rest.len() && i >= 0 implies !#[trigger] says_clock(
            rest,
            i,
            n,
        ) by {
            lemma_rest(items, i, node);
            assert(!says_clock(items, i + 1, node));
        }
        if k >= 1 {
            lemma_rest(items, k - 1, node);
        }
        lemma_clock(f, pos + extent(items[0]), rest, n, q, if k >= 1 { k - 1 } else { -1 });
        if k < 0 {
            assert(!says_clock(items, 0, node));
        }
    }
}

/// Piece `k` is the first of those that say something; `items.len()` when there is none.
proof fn lemma_uart(f: Fdt, pos: int, items: Seq<Item>, node: Seq<u8>, p: ParamsView, k: int)
    requires
        f.wf(),
        pos % 4 == 0,
        pos >= 0,
        block(f, pos, items),
        0 <= k <= items.len(),
        k < items.len() ==> says_uart(items, k, node) && hex_number(
            node_at(items, k, node).skip(7),
        )->0 as u64 != 0,
        forall|i: int| 0 <= i < k ==> !#[trigger] says_uart(items, i, node),
    ensures
        p.uart_base != 0 ==> f.walk(pos, node, p).uart_base == p.uart_base,
        p.uart_base == 0 && k < items.len() ==> f.walk(pos, node, p).uart_base == hex_number(
            node_at(items, k, node).skip(7),
        )->0 as u64,
        p.uart_base == 0 && k == items.len() ==> f.walk(pos, node, p).uart_base == 0,
    decreases items.len(),
{
    if items.len() == 0 {
        assert(items =~= Seq::empty());
        lemma_block_end(f, pos, node, p);
    } else {
        let rest = items.skip(1);
        let q = lemma_first_piece(f, pos, items, node, p);
        let n = inside(items[0], node);
        if k == 0 {
            // What comes later does not matter.
            lemma_uart_set(f, pos + extent(items[0]), rest, n, q);
        } else {
            assert(!says_uart(items, 0, node));
            assert forall|i: int| 0 <= i < k - 1 implies !#[trigger] says_uart(rest, i, n) by {
                lemma_rest(items, i, node);
                assert(!says_uart(items, i + 1, node));
            }
            if k < items.len() {
                lemma_rest(items, k - 1, node);
            }
            lemma_uart(f, pos + extent(items[0]), rest, n, q, k - 1);
        }
    }
}

/// An address of the console that is known stays.
proof fn lemma_uart_set(f: Fdt, pos: int, items: Seq<Item>, node: Seq<u8>, p: ParamsView)
    requires
        f.wf(),
        pos % 4 == 0,
        pos >= 0,
        block(f, pos, items),
    ensures
        p.uart_base != 0 ==> f.walk(pos, node, p).uart_base == p.uart_base,
    decreases items.len(),
{
    if items.len() == 0 {
        assert(items =~= Seq::empty());
        lemma_block_end(f, pos, node, p);
    } else {
        let q = lemma_first_piece(f, pos, items, node, p);
        lemma_uart_set(
            f,
            pos + extent(items[0]),
            items.skip(1),
            inside(items[0], node),
            q,
        );
    }
}

/// Law: the RAM is where the last `reg` of a node `memory` says: its first word is the start, its
/// second the size. Without one nothing is known of it.
pub proof fn law_tree_tells_ram(f: Fdt, items: Seq<Item>, k: int)
    requires
        f.wf(),
        f.off_struct % 4 == 0,
        block(f, f.off_struct as int, items),
        -1 <= k < items.len(),
        k >= 0 ==> says_ram(items, k, Seq::empty()),
        forall|i: int| k < i < items.len() ==> !#[trigger] says_ram(items, i, Seq::empty()),
    ensures
        k >= 0 ==> f.params().ram_start == word_at((items[k]->Prop_1), 0) && f.params().ram_size
            == word_at((items[k]->Prop_1), 8),
        k < 0 ==> f.params().ram_start == 0 && f.params().ram_size == 0,
{
    let m = reserve_map(
        reserve(Seq::empty(), f.fdt_addr, f.total_size as u64),
        f.data@,
        f.off_rsvmap as int,
        f.total_size as int,
    );
    let p = ParamsView { ram_start: 0, ram_size: 0, timebase_freq: 0, uart_base: 0, reserved: m };
    lemma_ram(f, f.off_struct as int, items, Seq::empty(), p, k);
}

/// Law: the clock runs as fast as the last `timebase-frequency` of a node `cpus` says. Without one
/// nothing is known of it.
pub proof fn law_tree_tells_clock(f: Fdt, items: Seq<Item>, k: int)
    requires
        f.wf(),
        f.off_struct % 4 == 0,
        block(f, f.off_struct as int, items),
        -1 <= k < items.len(),
        k >= 0 ==> says_clock(items, k, Seq::empty()),
        forall|i: int| k < i < items.len() ==> !#[trigger] says_clock(items, i, Seq::empty()),
    ensures
        k >= 0 ==> f.params().timebase_freq == half_at((items[k]->Prop_1), 0),
        k < 0 ==> f.params().timebase_freq == 0,
{
    let m = reserve_map(
        reserve(Seq::empty(), f.fdt_addr, f.total_size as u64),
        f.data@,
        f.off_rsvmap as int,
        f.total_size as int,
    );
    let p = ParamsView { ram_start: 0, ram_size: 0, timebase_freq: 0, uart_base: 0, reserved: m };
    lemma_clock(f, f.off_struct as int, items, Seq::empty(), p, k);
}

/// Law: the console is at the address in the name of the first node `serial@` that is compatible with
/// `ns16550`. Without one nothing is known of it.
pub proof fn law_tree_tells_uart(f: Fdt, items: Seq<Item>, k: int)
    requires
        f.wf(),
        f.off_struct % 4 == 0,
        block(f, f.off_struct as int, items),
        0 <= k <= items.len(),
        k < items.len() ==> says_uart(items, k, Seq::empty()) && hex_number(
            node_at(items, k, Seq::empty()).skip(7),
        )->0 as u64 != 0,
        forall|i: int| 0 <= i < k ==> !#[trigger] says_uart(items, i, Seq::empty()),
    ensures
        k < items.len() ==> f.params().uart_base == hex_number(
            node_at(items, k, Seq::empty()).skip(7),
        )->0 as u64,
        k == items.len() ==> f.params().uart_base == 0,
{
    let m = reserve_map(
        reserve(Seq::empty(), f.fdt_addr, f.total_size as u64),
        f.data@,
        f.off_rsvmap as int,
        f.total_size as int,
    );
    let p = ParamsView { ram_start: 0, ram_size: 0, timebase_freq: 0, uart_base: 0, reserved: m };
    lemma_uart(f, f.off_struct as int, items, Seq::empty(), p, k);
}

/// Law: a number in hexadecimal is read digit by digit, each worth a sixteenth of the one before it;
/// `0` to `9`, `a` to `f` and `A` to `F` are digits and nothing else is. A number has 1 to 16 of
/// them.
pub proof fn law_hex_is_positional(s: Seq<u8>, c: u8)
    ensures
        hex_value(Seq::<u8>::empty()) == Some(0int),
        hex_value(s) is Some && 48 <= c <= 57 ==> hex_value(s.push(c)) == Some(
            hex_value(s)->0 * 16 + (c - 48),
        ),
        hex_value(s) is Some && 97 <= c <= 102 ==> hex_value(s.push(c)) == Some(
            hex_value(s)->0 * 16 + (c - 87),
        ),
        hex_value(s) is Some && 65 <= c <= 70 ==> hex_value(s.push(c)) == Some(
            hex_value(s)->0 * 16 + (c - 55),
        ),
        hex_value(s) is None || !(48 <= c <= 57 || 97 <= c <= 102 || 65 <= c <= 70) ==> hex_value(
            s.push(c),
        ) is None,
        1 <= s.len() <= 16 ==> hex_number(s) == hex_value(s),
        s.len() == 0 || s.len() > 16 ==> hex_number(s) is None,
{
    assert(s.push(c).drop_last() =~= s);
    assert(s.push(c).last() == c);
    assert(hex_digit(c) is Some <==> 48 <= c <= 57 || 97 <= c <= 102 || 65 <= c <= 70);
}

/// The name of a core: it begins with `cpu@`.
pub open spec fn is_core(name: Seq<u8>) -> bool {
    name.len() >= 4 && name[0] == 0x63 && name[1] == 0x70 && name[2] == 0x75 && name[3] == 0x40
}

/// How many of the pieces begin a core.
pub open spec fn core_count(items: Seq<Item>) -> int
    decreases items.len(),
{
    if items.len() == 0 {
        0
    } else {
        core_count(items.drop_last()) + if items.last() matches Item::Begin(name) && is_core(name) {
            1int
        } else {
            0int
        }
    }
}

/// Piece `k` names the instruction set of a core: `riscv,isa`, with some text.
pub open spec fn says_isa(items: Seq<Item>, k: int, node: Seq<u8>) -> bool {
    items[k] matches Item::Prop(name, value) && name == seq![
        0x72u8, 0x69, 0x73, 0x63, 0x76, 0x2c, 0x69, 0x73, 0x61,
    ] && value.len() > 0 && value[0] != 0 && is_core(node_at(items, k, node))
}

proof fn lemma_core_name(name: Seq<u8>)
    ensures
        name_cpu().is_prefix_of(name) <==> is_core(name),
{
    let t = seq![0x63u8, 0x70, 0x75, 0x40];
    assert(name_cpu() == t);
    if is_core(name) {
        assert(name.subrange(0, 4) =~= t);
    }
    if name_cpu().is_prefix_of(name) {
        let u = name.subrange(0, 4);
        assert(u == t);
        assert(u[0] == name[0] && u[1] == name[1] && u[2] == name[2] && u[3] == name[3]);
    }
}

/// The first piece counts first.
proof fn lemma_core_count(items: Seq<Item>)
    requires
        items.len() > 0,
    ensures
        core_count(items) == core_count(items.skip(1)) + if items[0] matches Item::Begin(name)
            && is_core(name) {
            1int
        } else {
            0int
        },
    decreases items.len(),
{
    if items.len() == 1 {
        assert(items.drop_last() =~= Seq::empty());
        assert(items.skip(1) =~= Seq::empty());
    } else {
        lemma_core_count(items.drop_last());
        assert(items.drop_last().skip(1) =~= items.skip(1).drop_last());
    }
}

/// The first piece, as it is read for the cores.
proof fn lemma_first_core(
    f: Fdt,
    pos: int,
    items: Seq<Item>,
    node: Seq<u8>,
    count: int,
    isa: Seq<u8>,
) -> (q: Seq<u8>)
    requires
        f.wf(),
        pos % 4 == 0,
        pos >= 0,
        items.len() > 0,
        stands(f, pos, items[0]),
    ensures
        f.walk_cores(pos, node, count, isa) == f.walk_cores(
            pos + extent(items[0]),
            inside(items[0], node),
            count + if items[0] matches Item::Begin(name) && is_core(name) {
                1int
            } else {
                0int
            },
            q,
        ),
        isa.len() > 0 || !says_isa(items, 0, node) ==> q == isa,
        isa.len() == 0 && says_isa(items, 0, node) ==> q == text_of(items[0]->Prop_1),
{
    let d = f.data@;
    let end = f.off_struct + f.size_struct;
    law_numbers_are_big_endian(d, pos);
    law_numbers_are_big_endian(d, pos + 4);
    law_numbers_are_big_endian(d, pos + 8);
    match items[0] {
        Item::Begin(name) => {
            let n = text_len(d, pos + 4, end);
            lemma_text_len(d, pos + 4, end);
            assert(n == name.len()) by {
                if n < name.len() {
                    assert(d.subrange(pos + 4, pos + 4 + name.len())[n] == name[n]);
                }
            }
            assert(crate::bytes::round_up(pos + 4 + n + 1, 4) == pos + extent(items[0]));
            let m = crate::fdt::least(n, 63);
            assert(d.subrange(pos + 4, pos + 4 + m) =~= inside(items[0], node));
            lemma_core_name(inside(items[0], node));
            assert(is_core(inside(items[0], node)) <==> is_core(name));
            isa
        },
        Item::End => isa,
        Item::Nop => isa,
        Item::Prop(name, value) => {
            let off = half_at(d, pos + 8);
            let s = f.off_strings + off;
            let n = text_len(d, s, f.total_size as int);
            lemma_text_len(d, s, f.total_size as int);
            assert(n == name.len()) by {
                if n < name.len() {
                    assert(d.subrange(s, s + name.len())[n] == name[n]);
                }
            }
            assert(f.string_at(off) == Some(name));
            assert(crate::bytes::round_up(value.len() as int, 4) == (value.len() as int + 3) / 4
                * 4);
            lemma_core_name(node);
            assert(name_isa() == seq![0x72u8, 0x69, 0x73, 0x63, 0x76, 0x2c, 0x69, 0x73, 0x61]);
            assert(node_at(items, 0, node) == node);
            lemma_text_len(value, 0, value.len() as int);
            if isa.len() == 0 && (value.len() == 0 || value[0] == 0) {
                assert(text_of(value) =~= isa);
            }
            with_isa(isa, node, name, value)
        },
    }
}

/// What the pieces say of the cores; piece `k` is the first that names an instruction set.
proof fn lemma_cores(
    f: Fdt,
    pos: int,
    items: Seq<Item>,
    node: Seq<u8>,
    count: int,
    isa: Seq<u8>,
    k: int,
)
    requires
        f.wf(),
        pos % 4 == 0,
        pos >= 0,
        block(f, pos, items),
        0 <= k <= items.len(),
        isa.len() == 0 && k < items.len() ==> says_isa(items, k, node),
        isa.len() == 0 ==> forall|i: int| 0 <= i < k ==> !#[trigger] says_isa(items, i, node),
    ensures
        f.walk_cores(pos, node, count, isa) == (
            count + core_count(items),
            if isa.len() > 0 || k == items.len() {
                isa
            } else {
                text_of(items[k]->Prop_1)
            },
        ),
    decreases items.len(),
{
    if items.len() == 0 {
        assert(items =~= Seq::empty());
        law_numbers_are_big_endian(f.data@, pos);
    } else {
        let rest = items.skip(1);
        let n = inside(items[0], node);
        let q = lemma_first_core(f, pos, items, node, count, isa);
        let more = if items[0] matches Item::Begin(name) && is_core(name) {
            1int
        } else {
            0int
        };
        lemma_core_count(items);
        if isa.len() == 0 && k == 0 {
            let value = items[0]->Prop_1;
            lemma_text_len(value, 0, value.len() as int);
            assert(q.len() > 0);
            lemma_cores(f, pos + extent(items[0]), rest, n, count + more, q, 0);
        } else if isa.len() == 0 {
            assert(!says_isa(items, 0, node));
            assert forall|i: int| 0 <= i < k - 1 implies !#[trigger] says_isa(rest, i, n) by {
                lemma_rest(items, i, node);
                assert(!says_isa(items, i + 1, node));
            }
            if k < items.len() {
                lemma_rest(items, k - 1, node);
            }
            lemma_cores(f, pos + extent(items[0]), rest, n, count + more, q, k - 1);
        } else {
            lemma_cores(f, pos + extent(items[0]), rest, n, count + more, q, 0);
        }
    }
}

/// Law: there are as many cores as nodes begin whose names begin with `cpu@`; their instruction set
/// is the text of the first `riscv,isa` of a core that has some, up to a zero byte. Without one
/// nothing is known of it.
pub proof fn law_tree_tells_cores(f: Fdt, items: Seq<Item>, k: int)
    requires
        f.wf(),
        f.off_struct % 4 == 0,
        block(f, f.off_struct as int, items),
        0 <= k <= items.len(),
        k < items.len() ==> says_isa(items, k, Seq::empty()),
        forall|i: int| 0 <= i < k ==> !#[trigger] says_isa(items, i, Seq::empty()),
    ensures
        ({
            let (n, t) = f.walk_cores(f.off_struct as int, Seq::empty(), 0, Seq::empty());
            &&& n == core_count(items)
            &&& k == items.len() ==> t.len() == 0
            &&& k < items.len() ==> {
                let value = items[k]->Prop_1;
                &&& t.len() <= value.len()
                &&& forall|i: int| 0 <= i < t.len() ==> #[trigger] t[i] == value[i] && t[i] != 0
                &&& t.len() < value.len() ==> value[t.len() as int] == 0
            }
        }),
{
    lemma_cores(f, f.off_struct as int, items, Seq::empty(), 0, Seq::empty(), k);
    if k < items.len() {
        let value = items[k]->Prop_1;
        lemma_text_len(value, 0, value.len() as int);
    }
}

/// Law: what is taken for a tree is aligned to four bytes and not at address zero, begins with the
/// mark of a tree, is there to its end, and holds its structure block, its strings and the first
/// entry of its map of reserved memory.
pub proof fn law_tree_is_whole(fdt: int, d: Seq<u8>)
    ensures
        header_ok(fdt, d) <==> {
            &&& fdt != 0
            &&& fdt % 4 == 0
            &&& fdt + 40 <= crate::fdt::MAX_PHYS
            &&& d.len() >= 40
            &&& half_at(d, 0) == 0xd00d_feed
            &&& 40 <= half_at(d, 4) <= d.len()
            &&& half_at(d, 8) + half_at(d, 36) <= half_at(d, 4)
            &&& half_at(d, 12) + half_at(d, 32) <= half_at(d, 4)
            &&& half_at(d, 16) + 16 <= half_at(d, 4)
        },
{
    law_numbers_are_big_endian(d, 0);
    law_numbers_are_big_endian(d, 4);
    law_numbers_are_big_endian(d, 8);
    law_numbers_are_big_endian(d, 12);
    law_numbers_are_big_endian(d, 16);
    law_numbers_are_big_endian(d, 32);
    law_numbers_are_big_endian(d, 36);
}

} // verus!
