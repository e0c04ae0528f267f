//! Format of Sv39 page table entries and virtual addresses.

use vstd::prelude::*;
use crate::ram::PHYS_LIMIT;

verus! {

pub const PTE_V: u64 = 1;

pub const PTE_R: u64 = 2;

pub const PTE_W: u64 = 4;

pub const PTE_X: u64 = 8;

/// User access.
pub const PTE_U: u64 = 16;

/// Accessed.
pub const PTE_A: u64 = 64;

/// Dirty.
pub const PTE_D: u64 = 128;

/// Kernel or user data: `V | R | W | A | D`.
pub const PTE_LEAF_RW: u64 = 0xC7;

/// Code: `V | R | X | A | D`.
pub const PTE_LEAF_RX: u64 = 0xCB;

/// Constants: `V | R | A | D`.
pub const PTE_LEAF_R: u64 = 0xC3;

/// User addresses lie below this.
pub const USER_VA_LIMIT: u64 = 0x40_0000_0000;

/// Sv39 addresses lie below this.
pub const VA_LIMIT: u64 = 0x80_0000_0000;

/// Page of the middle level: 2 MiB.
pub const SUPER_PAGE: u64 = 0x20_0000;

/// Mode field of `satp` for Sv39.
pub const SATP_MODE_SV39: u64 = 0x8000_0000_0000_0000;

/// Number of page numbers: a physical page number has 44 bits.
pub const PPN_LIMIT: u64 = 0x1000_0000_0000;

/// Flags of an entry.
pub open spec fn flags_of(e: u64) -> int {
    e as int % 1024
}

/// The entry is in use.
#[verifier::opaque]
pub open spec fn valid(e: u64) -> bool {
    e as int % 2 == 1
}

/// The entry maps a page: it is in use and grants some access.
pub open spec fn is_leaf(e: u64) -> bool {
    valid(e) && grants(e)
}

/// The entry grants some access: one of `R`, `W`, `X` is set.
#[verifier::opaque]
pub open spec fn grants(e: u64) -> bool {
    e as int / 2 % 8 != 0
}

/// The entry points to a table.
pub open spec fn is_table(e: u64) -> bool {
    valid(e) && !grants(e)
}

/// The entry grants user access.
#[verifier::opaque]
pub open spec fn is_user(e: u64) -> bool {
    e as int / 16 % 2 == 1
}

/// Physical address that the entry holds.
#[verifier::opaque]
pub open spec fn target(e: u64) -> int {
    e as int / 1024 % (PPN_LIMIT as int) * 4096
}

/// Entry for a physical address with the given flags.
#[verifier::opaque]
pub open spec fn entry_for(pa: int, flags: int) -> u64 {
    (pa / 4096 % (PPN_LIMIT as int) * 1024 + flags) as u64
}

pub broadcast proof fn lemma_zero(e: u64)
    requires
        e == 0,
    ensures
        !#[trigger] valid(e),
{
    reveal(valid);
}

/// Index into the root table for a virtual address.
#[verifier::opaque]
pub open spec fn vpn2(va: int) -> int {
    va / 0x4000_0000 % 512
}

/// Index into the middle table for a virtual address.
#[verifier::opaque]
pub open spec fn vpn1(va: int) -> int {
    va / 0x20_0000 % 512
}

/// Index into the lowest table for a virtual address.
#[verifier::opaque]
pub open spec fn vpn0(va: int) -> int {
    va / 4096 % 512
}

pub broadcast proof fn lemma_vpn2_range(va: int)
    ensures
        0 <= #[trigger] vpn2(va) < 512,
{
    reveal(vpn2);
}

pub broadcast proof fn lemma_vpn1_range(va: int)
    ensures
        0 <= #[trigger] vpn1(va) < 512,
{
    reveal(vpn1);
}

pub broadcast proof fn lemma_vpn0_range(va: int)
    ensures
        0 <= #[trigger] vpn0(va) < 512,
{
    reveal(vpn0);
}

pub proof fn lemma_entry(pa: int, flags: int)
    requires
        0 <= pa < PHYS_LIMIT,
        pa % 4096 == 0,
        0 <= flags < 1024,
    ensures
        entry_for(pa, flags) as int == pa / 4096 * 1024 + flags,
        target(entry_for(pa, flags)) == pa,
        flags_of(entry_for(pa, flags)) == flags,
        valid(entry_for(pa, flags)) <==> flags % 2 == 1,
        is_leaf(entry_for(pa, flags)) <==> flags % 2 == 1 && flags / 2 % 8 != 0,
        is_table(entry_for(pa, flags)) <==> flags % 2 == 1 && flags / 2 % 8 == 0,
        is_user(entry_for(pa, flags)) <==> flags / 16 % 2 == 1,
{
    reveal(valid);
    reveal(grants);
    reveal(is_user);
    reveal(target);
    reveal(entry_for);
}

/// Whether the entry is in use.
pub fn pte_valid(e: u64) -> (r: bool)
    ensures
        r == valid(e),
{
    proof {
        reveal(valid);
    }
    e % 2 == 1
}

/// Whether the entry grants some access.
pub fn pte_leaf(e: u64) -> (r: bool)
    ensures
        r == grants(e),
{
    proof {
        reveal(grants);
    }
    e / 2 % 8 != 0
}

/// Physical address that the entry holds.
pub fn pte_target(e: u64) -> (r: u64)
    ensures
        r == target(e),
        r < PHYS_LIMIT,
        r % 4096 == 0,
{
    proof {
        reveal(target);
    }
    e / 1024 % PPN_LIMIT * 4096
}

/// Whether the entry grants user access.
pub fn pte_user(e: u64) -> (r: bool)
    ensures
        r == is_user(e),
{
    proof {
        reveal(is_user);
    }
    e / 16 % 2 == 1
}

/// Physical page number of an address.
pub fn ppn(paddr: u64) -> (r: u64)
    ensures
        r == paddr as int / 4096 % (PPN_LIMIT as int),
{
    paddr / 4096 % PPN_LIMIT
}

/// Entry for a physical address with the given flags.
pub fn pte(paddr: u64, flags: u64) -> (r: u64)
    requires
        flags < 1024,
    ensures
        r == entry_for(paddr as int, flags as int),
        valid(r) <==> flags % 2 == 1,
{
    proof {
        reveal(entry_for);
        reveal(valid);
    }
    ppn(paddr) * 1024 + flags
}

/// The flags with user access added.
pub fn with_user(flags: u64) -> (r: u64)
    requires
        flags < 1024,
    ensures
        r == user_flags(flags as int),
        r < 1024,
        r % 2 == flags % 2,
{
    if flags / 16 % 2 == 1 {
        flags
    } else {
        flags + PTE_U
    }
}

/// `flags | PTE_U`.
pub open spec fn user_flags(flags: int) -> int {
    if flags / 16 % 2 == 1 {
        flags
    } else {
        flags + 16
    }
}

/// Place of the lowest table for a virtual address: the number of its 2 MiB.
pub open spec fn key1(va: int) -> int {
    vpn2(va) * 512 + vpn1(va)
}

/// The two addresses use the same entries on every level.
pub open spec fn same_vpn(a: int, b: int) -> bool {
    vpn2(a) == vpn2(b) && vpn1(a) == vpn1(b) && vpn0(a) == vpn0(b)
}

/// Index of an address in the tables of the three levels.
pub fn vpns(va: u64) -> (r: (u64, u64, u64))
    ensures
        r.0 == vpn2(va as int),
        r.1 == vpn1(va as int),
        r.2 == vpn0(va as int),
        r.0 < 512,
        r.1 < 512,
        r.2 < 512,
{
    proof {
        reveal(vpn2);
        reveal(vpn1);
        reveal(vpn0);
    }
    (va / 0x4000_0000 % 512, va / 0x20_0000 % 512, va / 4096 % 512)
}

/// Addresses with the same indices lie in the same page.
pub proof fn lemma_vpn(a: int, b: int)
    requires
        0 <= a < VA_LIMIT,
        0 <= b < VA_LIMIT,
    ensures
        vpn2(a) == vpn2(b) && vpn1(a) == vpn1(b) <==> a / 0x20_0000 == b / 0x20_0000,
        same_vpn(a, b) <==> a / 4096 == b / 4096,
        a / 4096 == b / 4096 ==> a / 0x20_0000 == b / 0x20_0000,
        a / 0x20_0000 == b / 0x20_0000 ==> a / 0x4000_0000 == b / 0x4000_0000,
        vpn2(a) == a / 0x4000_0000,
        key1(a) == a / 0x20_0000,
{
    reveal(vpn2);
    reveal(vpn1);
    reveal(vpn0);
    assert(a / 0x20_0000 == (a / 0x4000_0000) * 512 + vpn1(a));
    assert(b / 0x20_0000 == (b / 0x4000_0000) * 512 + vpn1(b));
    assert(a / 4096 == (a / 0x20_0000) * 512 + vpn0(a));
    assert(b / 4096 == (b / 0x20_0000) * 512 + vpn0(b));
}

/// Numbers of the GiB that `[lo, hi)` touches.
#[verifier::opaque]
pub open spec fn gigs(lo: int, hi: int) -> Set<int> {
    if lo < hi {
        vstd::set_lib::set_int_range(lo / 0x4000_0000, (hi - 1) / 0x4000_0000 + 1)
    } else {
        Set::empty()
    }
}

/// Numbers of the 2 MiB that `[lo, hi)` touches.
#[verifier::opaque]
pub open spec fn megs(lo: int, hi: int) -> Set<int> {
    if lo < hi {
        vstd::set_lib::set_int_range(lo / 0x20_0000, (hi - 1) / 0x20_0000 + 1)
    } else {
        Set::empty()
    }
}

/// Growing a range by one page or one 2 MiB adds the numbers of its start.
pub proof fn lemma_grow(lo: int, p: int, step: int)
    requires
        0 <= lo <= p,
        step == 4096 || step == 0x20_0000,
        lo % step == 0,
        p % step == 0,
    ensures
        gigs(lo, p + step) == gigs(lo, p).insert(p / 0x4000_0000),
        megs(lo, p + step) == megs(lo, p).insert(p / 0x20_0000),
{
    reveal(gigs);
    reveal(megs);
    assert((p + step - 1) / 0x4000_0000 == p / 0x4000_0000);
    assert((p + step - 1) / 0x20_0000 == p / 0x20_0000);
    assert(gigs(lo, p + step) =~= gigs(lo, p).insert(p / 0x4000_0000));
    assert(megs(lo, p + step) =~= megs(lo, p).insert(p / 0x20_0000));
}

pub proof fn lemma_ranges_finite(lo: int, hi: int)
    ensures
        gigs(lo, hi).finite(),
        megs(lo, hi).finite(),
{
    reveal(gigs);
    reveal(megs);
    if lo < hi {
        vstd::set_lib::lemma_int_range(lo / 0x4000_0000, (hi - 1) / 0x4000_0000 + 1);
        vstd::set_lib::lemma_int_range(lo / 0x20_0000, (hi - 1) / 0x20_0000 + 1);
    }
}

pub proof fn lemma_range_empty(lo: int)
    ensures
        gigs(lo, lo) == Set::<int>::empty(),
        megs(lo, lo) == Set::<int>::empty(),
{
    reveal(gigs);
    reveal(megs);
}

/// A range in two parts.
pub proof fn lemma_join(a: int, b: int, c: int)
    requires
        0 <= a <= b <= c,
    ensures
        gigs(a, b) + gigs(b, c) == gigs(a, c),
        megs(a, b) + megs(b, c) == megs(a, c),
{
    reveal(gigs);
    reveal(megs);
    assert(gigs(a, b) + gigs(b, c) =~= gigs(a, c));
    assert(megs(a, b) + megs(b, c) =~= megs(a, c));
}

} // verus!
