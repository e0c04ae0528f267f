//! What page tables mean to the machine, bit by bit.

use vstd::prelude::*;
use crate::mmu::{
    blocked, has_path, lookup, missing, satp_of, user_map_refused, KernelLayout, PhysMemory,
};
use crate::ram::Ram;
use crate::sv39::{
    entry_for, grants, is_user, lemma_entry, lemma_vpn, target, user_flags, valid, vpn0, vpn1, vpn2,
};

verus! {

/// Entry `i` of the table at `t`.
pub open spec fn entry(m: Ram, t: int, i: int) -> int {
    m.word(t + 8 * i) as int
}

/// The lowest bit of an entry: it is in use.
pub open spec fn in_use(e: int) -> bool {
    e % 2 == 1
}

/// One of the next three bits is set: the entry maps a page, and does not point to a table.
pub open spec fn opens(e: int) -> bool {
    e / 2 % 2 == 1 || e / 4 % 2 == 1 || e / 8 % 2 == 1
}

/// Where an entry points: bits 10 to 53 are the number of a page.
pub open spec fn points_to(e: int) -> int {
    e / 1024 % 0x1000_0000_0000 * 4096
}

/// Law: an address is looked up in three tables, by nine bits of it in each: from bit 30, from bit
/// 21 and from bit 12 on. The walk ends at an entry that is not in use, or at one that maps a page.
pub proof fn law_address_is_looked_up(m: Ram, root: int, va: int)
    ensures
        ({
            let e2 = entry(m, root, va / 0x4000_0000 % 512);
            let e1 = entry(m, points_to(e2), va / 0x20_0000 % 512);
            let e0 = entry(m, points_to(e1), va / 0x1000 % 512);
            let r = lookup(m, root, va);
            &&& !in_use(e2) ==> r is None
            &&& in_use(e2) && opens(e2) ==> (r matches Some((l, e)) && l == 2 && e == e2)
            &&& in_use(e2) && !opens(e2) && !in_use(e1) ==> r is None
            &&& in_use(e2) && !opens(e2) && in_use(e1) && opens(e1) ==> (r matches Some((l, e)) && l
                == 1 && e == e1)
            &&& in_use(e2) && !opens(e2) && in_use(e1) && !opens(e1) ==> (r is Some <==> in_use(e0))
            &&& in_use(e2) && !opens(e2) && in_use(e1) && !opens(e1) && in_use(e0) ==> (
            r matches Some((l, e)) && l == 0 && e == e0)
        }),
{
    reveal(lookup);
    reveal(valid);
    reveal(grants);
    reveal(target);
    reveal(vpn2);
    reveal(vpn1);
    reveal(vpn0);
}

/// Law: a page is mapped after as many tables were made as the walk to it lacks: two where the first
/// entry is not in use, one where only the second is not, and else none. What is in the way of a
/// small page is a page of a higher table.
pub proof fn law_tables_are_missing(m: Ram, root: int, va: int)
    ensures
        ({
            let e2 = entry(m, root, va / 0x4000_0000 % 512);
            let e1 = entry(m, points_to(e2), va / 0x20_0000 % 512);
            &&& missing(m, root, va) == if !in_use(e2) {
                2int
            } else if !opens(e2) && !in_use(e1) {
                1int
            } else {
                0int
            }
            &&& has_path(m, root, va) <==> in_use(e2) && !opens(e2) && in_use(e1) && !opens(e1)
            &&& blocked(m, root, va) <==> in_use(e2) && (opens(e2) || in_use(e1) && opens(e1))
        }),
{
    reveal(lookup);
    reveal(missing);
    reveal(valid);
    reveal(grants);
    reveal(target);
    reveal(vpn2);
    reveal(vpn1);
    reveal(vpn0);
}

/// The parts of an entry.
#[verifier::spinoff_prover]
pub proof fn lemma_parts(n: int, f: int, e: int)
    requires
        0 <= n < 0x1000_0000_0000,
        0 <= f < 1024,
        e == n * 1024 + f,
    ensures
        points_to(e) == n * 4096,
        e % 2 == f % 2,
        e % 16 == f % 16,
        e / 2 % 2 == f / 2 % 2,
        e / 4 % 2 == f / 4 % 2,
        e / 8 % 2 == f / 8 % 2,
        e / 16 % 2 == f / 16 % 2,
        e / 32 % 32 == f / 32,
        e / 64 % 4 == f / 64 % 4,
{
    lemma_shifted(n, f, e, 1024, 1);
    lemma_shifted(n, f, e, 2, 512);
    lemma_shifted(n, f, e, 4, 256);
    lemma_shifted(n, f, e, 8, 128);
    lemma_shifted(n, f, e, 16, 64);
    lemma_shifted(n, f, e, 32, 32);
    lemma_shifted(n, f, e, 64, 16);
    lemma_low(512 * n, f, 2);
    lemma_low(64 * n, f, 16);
    lemma_low(256 * n, f / 2, 2);
    lemma_low(128 * n, f / 4, 2);
    lemma_low(64 * n, f / 8, 2);
    lemma_low(32 * n, f / 16, 2);
    lemma_low(n, f / 32, 32);
    lemma_low(4 * n, f / 64, 4);
}

/// Dividing takes low bits away.
proof fn lemma_shifted(n: int, f: int, e: int, k: int, m: int)
    requires
        0 <= n,
        0 <= f < 1024,
        e == n * 1024 + f,
        0 < k <= 1024,
        k * m == 1024,
    ensures
        e / k == m * n + f / k,
{
    vstd::arithmetic::div_mod::lemma_fundamental_div_mod(f, k);
    let q = m * n + f / k;
    let r = f % k;
    assert(e == q * k + r) by (nonlinear_arith)
        requires
            e == n * 1024 + f,
            k * m == 1024,
            q == m * n + f / k,
            r == f % k,
            f == k * (f / k) + f % k,
    ;
    vstd::arithmetic::div_mod::lemma_fundamental_div_mod_converse(e, k, q, r);
}

/// A multiple does not change the remainder.
proof fn lemma_low(q: int, r: int, k: int)
    requires
        k > 0,
    ensures
        (q * k + r) % k == r % k,
        (k * q + r) % k == r % k,
{
    vstd::arithmetic::div_mod::lemma_mod_multiples_vanish(q, r, k);
    assert(q * k == k * q) by (nonlinear_arith);
}

/// `flags` with bit 4 set.
proof fn lemma_user_flags(flags: int)
    requires
        0 <= flags < 1024,
    ensures
        0 <= user_flags(flags) < 1024,
        user_flags(flags) % 16 == flags % 16,
        user_flags(flags) / 32 == flags / 32,
        user_flags(flags) / 16 % 2 == 1,
{
    let a = flags / 32;
    let b = flags / 16 % 2;
    let c = flags % 16;
    assert(flags == 32 * a + 16 * b + c);
}

/// Law: the entry of a page that was mapped for the user points to that page, is open to the user,
/// and grants what was asked for.
pub proof fn law_user_entry_grants(pa: int, flags: int)
    requires
        0 <= pa < 0x100_0000_0000_0000,
        pa % 4096 == 0,
        0 <= flags < 1024,
    ensures
        ({
            let e = entry_for(pa, user_flags(flags));
            &&& points_to(e as int) == pa
            &&& e as int / 16 % 2 == 1
            &&& is_user(e)
            &&& e as int % 16 == flags % 16
            &&& e as int / 32 % 32 == flags / 32
            &&& e < 0x40_0000_0000_0000
        }),
{
    let f = user_flags(flags);
    lemma_user_flags(flags);
    lemma_entry(pa, f);
    let e = entry_for(pa, f);
    lemma_parts(pa / 4096, f, e as int);
}

/// Law: a page is not mapped for the user where the address lies in the upper half of the address
/// space or above, where the page does not start on a boundary, and where something is mapped.
pub proof fn law_user_mapping_refused(m: PhysMemory, root: int, va: int, pa: int)
    ensures
        user_map_refused(m, root, va, pa) <==> va >= 0x40_0000_0000 || pa % 4096 != 0 || lookup(
            m.ram,
            root,
            va,
        ) is Some,
{
}

/// Law: where a mapping was changed, no other address of any address space is looked up otherwise.
pub proof fn law_other_pages_stay(
    a: PhysMemory,
    b: PhysMemory,
    root: int,
    va: int,
    r: int,
    v: int,
)
    requires
        b.same_maps_but(&a, root, va),
        a.is_root(r),
        0 <= va < 0x80_0000_0000,
        0 <= v < 0x80_0000_0000,
        r != root || v / 4096 != va / 4096,
    ensures
        lookup(b.ram, r, v) == lookup(a.ram, r, v),
{
    lemma_vpn(v, va);
}

/// Law: in the kernel's part of an address space, the page of the UART can be read and written; no
/// guard page is mapped; of the rest of the RAM all can be read, what is not firmware, code or
/// constants can be written, and only code can be run. Nothing else is mapped.
pub proof fn law_kernel_access(l: KernelLayout, v: int)
    requires
        l.wf(),
        0 <= v < 0x80_0000_0000,
    ensures
        ({
            let uart = v / 4096 == l.uart_base as int / 4096;
            let guard = l.stack_guard <= v < l.stack_guard + 4096 || l.trap_base <= v < l.trap_top
                && (v - l.trap_base) % 32768 < 16384 || l.idle_base <= v < l.idle_top && (v
                - l.idle_base) % 32768 < 16384;
            let ram = l.ram_start <= v < l.ram_end;
            let code = l.text_start <= v < l.rodata_start;
            let fixed = v < l.kernel_start || l.rodata_start <= v < l.data_start;
            let r = l.kernel_map(v);
            &&& r is Some <==> uart || ram && !guard
            &&& r matches Some((level, e)) ==> {
                &&& e as int % 2 == 1
                &&& e as int / 2 % 2 == 1
                &&& e as int / 4 % 2 == 1 <==> uart || !code && !fixed
                &&& e as int / 8 % 2 == 1 <==> !uart && code
                &&& e as int / 16 % 2 == 0
                &&& e as int / 64 % 4 == 3
                &&& level == 0 ==> points_to(e as int) + v % 0x1000 == v
                &&& level == 1 ==> points_to(e as int) + v % 0x20_0000 == v
                &&& level == 0 || level == 1
            }
        }),
{
    let page = v - v % 4096;
    let big = v - v % 0x20_0000;
    crate::bytes::lemma_round_up(l.kernel_end as int, 0x20_0000);
    lemma_kernel_entry(page);
    lemma_kernel_entry(big);
    lemma_image_in_ram(l);
}

proof fn lemma_image_in_ram(l: KernelLayout)
    requires
        l.wf(),
    ensures
        l.kernel_end <= l.image_end() <= l.ram_end,
{
    crate::bytes::lemma_round_up(l.kernel_end as int, 0x20_0000);
}

/// The entries that the kernel uses.
#[verifier::spinoff_prover]
proof fn lemma_kernel_entry(pa: int)
    requires
        0 <= pa < 0x80_0000_0000,
        pa % 4096 == 0,
    ensures
        forall|f: int| f == 0xC7 || f == 0xCB || f == 0xC3 ==> {
            let e = #[trigger] entry_for(pa, f) as int;
            &&& points_to(e) == pa
            &&& e % 2 == 1
            &&& e / 2 % 2 == 1
            &&& e / 4 % 2 == 1 <==> f == 0xC7
            &&& e / 8 % 2 == 1 <==> f == 0xCB
            &&& e / 16 % 2 == 0
            &&& e / 64 % 4 == 3
        },
{
    assert forall|f: int| f == 0xC7 || f == 0xCB || f == 0xC3 implies {
        let e = #[trigger] entry_for(pa, f) as int;
        &&& points_to(e) == pa
        &&& e % 2 == 1
        &&& e / 2 % 2 == 1
        &&& e / 4 % 2 == 1 <==> f == 0xC7
        &&& e / 8 % 2 == 1 <==> f == 0xCB
        &&& e / 16 % 2 == 0
        &&& e / 64 % 4 == 3
    } by {
        lemma_entry(pa, f);
        lemma_parts(pa / 4096, f, entry_for(pa, f) as int);
    }
}

/// Law: what goes into `satp` names the page of the root, in the mode with three levels; it differs
/// for different roots.
pub proof fn law_satp_names_the_root(root: int, other: int)
    requires
        0 <= root < 0x100_0000_0000_0000,
        root % 4096 == 0,
        0 <= other < 0x100_0000_0000_0000,
        other % 4096 == 0,
    ensures
        satp_of(root) / 0x1000_0000_0000_0000 == 8,
        satp_of(root) % 0x1000_0000_0000 * 4096 == root,
        satp_of(root) / 0x1000_0000_0000 % 0x1_0000 == 0,
        satp_of(root) == satp_of(other) <==> root == other,
{
}

} // verus!
