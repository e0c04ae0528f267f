//! Sv39 page tables.
//!
//! A table is a page of 512 entries; three levels translate a virtual address. The kernel maps
//! its own region one to one and without user access. User pages are leaves of the lowest level
//! that carry the user bit; entries that point to tables carry the valid bit alone.
//!
//! Every table belongs to exactly one root, and to one place in it. So a change in one address
//! space never shows in another.

use vstd::prelude::*;
use crate::arch::{TRAP_GUARD, TRAP_STRIDE};
use crate::bytes::{le64_at, round_up};
use crate::mem::{
    first_fit, law_alloc_is_new, law_block_placement, law_page_available, BuddyAllocator,
    BuddyState, PAGE_SIZE,
};
use crate::ram::{Ram, PHYS_LIMIT};
use crate::sv39::{
    megs,
    entry_for, flags_of, gigs, is_leaf, is_table, is_user, key1, lemma_entry, lemma_grow, lemma_join,
    lemma_ranges_finite, lemma_vpn, lemma_vpn0_range,
    lemma_vpn1_range, lemma_vpn2_range, lemma_zero, pte, pte_leaf, pte_target, pte_user, pte_valid, same_vpn, target,
    user_flags, valid, vpn0, vpn1, vpn2, vpns, with_user, PTE_LEAF_R, PTE_LEAF_RW, PTE_LEAF_RX,
    PTE_V, SATP_MODE_SV39, SUPER_PAGE, USER_VA_LIMIT, VA_LIMIT,
};

verus! {

broadcast use {lemma_vpn2_range, lemma_vpn1_range, lemma_vpn0_range, lemma_zero};

/// Entry `i` of the table at `t`.
pub open spec fn slot(m: Ram, t: int, i: int) -> u64 {
    m.word(t + 8 * i)
}

/// The leaf that translates an address, and its level; `None` when the address is not mapped.
#[verifier::opaque]
pub open spec fn lookup(m: Ram, root: int, va: int) -> Option<(int, u64)> {
    let e2 = slot(m, root, vpn2(va));
    if !valid(e2) {
        None
    } else if is_leaf(e2) {
        Some((2, e2))
    } else {
        let e1 = slot(m, target(e2), vpn1(va));
        if !valid(e1) {
            None
        } else if is_leaf(e1) {
            Some((1, e1))
        } else {
            let e0 = slot(m, target(e1), vpn0(va));
            if valid(e0) {
                Some((0, e0))
            } else {
                None
            }
        }
    }
}

/// The place of a table.
pub enum Owner {
    /// The table of an address space itself.
    Root,
    /// Entry `idx` of the root points to it.
    Mid { root: int, idx: int },
    /// Entry `idx` of the middle table points to it.
    Low { mid: int, idx: int },
}

/// Memory, its allocator, and the place of every page that is a table.
pub struct PhysMemory {
    pub ram: Ram,
    pub frames: BuddyAllocator,
    pub owner: Ghost<Map<int, Owner>>,
}

impl PhysMemory {
    /// The page at `p` is a table.
    #[verifier::inline]
    pub open spec fn is_pt(&self, p: int) -> bool {
        self.owner@.dom().contains(p)
    }

    /// The page at `p` is the root of an address space.
    pub open spec fn is_root(&self, p: int) -> bool {
        self.is_pt(p) && self.owner@[p] is Root
    }

    /// The root of the address space that a table belongs to.
    pub open spec fn root_of(&self, p: int) -> int {
        match self.owner@[p] {
            Owner::Root => p,
            Owner::Mid { root, idx } => root,
            Owner::Low { mid, idx } => self.owner@[mid]->root,
        }
    }

    /// The entry of a table agrees with the places of the tables.
    pub open spec fn slot_ok(&self, p: int, i: int) -> bool {
        let e = slot(self.ram, p, i);
        is_table(e) ==> match self.owner@[p] {
            Owner::Root => self.is_pt(target(e)) && self.owner@[target(e)] == (Owner::Mid {
                root: p,
                idx: i,
            }),
            Owner::Mid { .. } => self.is_pt(target(e)) && self.owner@[target(e)] == (Owner::Low {
                mid: p,
                idx: i,
            }),
            Owner::Low { .. } => true,
        }
    }

    /// The table above a table points to it.
    pub open spec fn place_ok(&self, p: int) -> bool {
        match self.owner@[p] {
            Owner::Root => true,
            Owner::Mid { root, idx } => {
                &&& self.is_root(root)
                &&& 0 <= idx < 512
                &&& is_table(slot(self.ram, root, idx))
                &&& target(slot(self.ram, root, idx)) == p
            },
            Owner::Low { mid, idx } => {
                &&& self.is_pt(mid)
                &&& self.owner@[mid] is Mid
                &&& 0 <= idx < 512
                &&& is_table(slot(self.ram, mid, idx))
                &&& target(slot(self.ram, mid, idx)) == p
            },
        }
    }

    /// Memory, allocator and tables are consistent: tables are allocated pages, and each stands
    /// in exactly one place of one address space.
    pub open spec fn inv(&self) -> bool {
        self.basic() && self.tables_ok()
    }

    /// Tables are allocated pages, and each stands in exactly one place.
    #[verifier::opaque]
    pub closed spec fn tables_ok(&self) -> bool {
        &&& forall|p: int| #[trigger] self.is_pt(p) ==> self.frames@.allocated(p, 0)
        &&& forall|p: int| #[trigger] self.is_pt(p) ==> self.place_ok(p)
        &&& forall|p: int, i: int| #![trigger slot(self.ram, p, i)] self.is_pt(p) && 0 <= i < 512 ==> self.slot_ok(p, i)
    }

    /// Same translation of every address in every address space.
    pub open spec fn same_maps(&self, other: &PhysMemory) -> bool {
        &&& forall|r: int| #[trigger] self.is_root(r) <==> other.is_root(r)
        &&& forall|r: int, va: int|
            self.is_root(r) ==> #[trigger] lookup(self.ram, r, va) == lookup(other.ram, r, va)
    }

    /// The memory, and the pages that are handed out, lie where they lie in `other`.
    pub open spec fn same_region(&self, other: &PhysMemory) -> bool {
        &&& self.ram.base == other.ram.base
        &&& self.ram.end() == other.ram.end()
        &&& self.frames@.base == other.frames@.base
        &&& self.frames@.pages == other.frames@.pages
        &&& self.frames@.reserved == other.frames@.reserved
    }

    /// Same contents of every word outside the tables.
    pub open spec fn same_data(&self, other: &PhysMemory) -> bool {
        &&& self.ram.base == other.ram.base
        &&& self.ram.end() == other.ram.end()
        &&& forall|a: int|
            self.ram.has(a) && !self.is_pt(a - a % 4096) ==> #[trigger] self.ram.word(a)
                == other.ram.word(a)
    }
}

impl PhysMemory {
    /// A page of the allocator lies in the memory.
    pub proof fn lemma_page(&self, p: int, o: int)
        requires
            self.inv(),
            self.frames@.allocated(p, o),
        ensures
            self.ram.has_page(p),
            0 <= p < PHYS_LIMIT,
            forall|i: int| 0 <= i < 512 ==> #[trigger] self.ram.has(p + 8 * i),
    {
        self.frames.lemma_wf();
        law_block_placement(self.frames@, p, o);
        crate::tiling::lemma_block_pages_pos(o);
    }

    /// What consistency promises of a table.
    pub proof fn lemma_pt(&self, p: int)
        requires
            self.inv(),
            self.is_pt(p),
        ensures
            self.frames@.allocated(p, 0),
            self.ram.has_page(p),
            0 <= p < PHYS_LIMIT,
            forall|i: int| 0 <= i < 512 ==> #[trigger] self.ram.has(p + 8 * i),
            self.is_root(self.root_of(p)),
    {
        self.lemma_place(p);
        self.lemma_page(p, 0);
        if let Owner::Low { mid, idx } = self.owner@[p] {
            self.lemma_place(mid);
        }
    }

    /// What consistency promises of an entry of a table.
    pub proof fn lemma_slot(&self, p: int, i: int)
        requires
            self.inv(),
            self.is_pt(p),
            0 <= i < 512,
        ensures
            self.slot_ok(p, i),
    {
        reveal(PhysMemory::tables_ok);
        let e = slot(self.ram, p, i);
    }

    /// What consistency promises of the place of a table.
    pub proof fn lemma_place(&self, p: int)
        requires
            self.inv(),
            self.is_pt(p),
        ensures
            self.place_ok(p),
            self.frames@.allocated(p, 0),
    {
        reveal(PhysMemory::tables_ok);
    }

    /// The pages of the allocator lie in the memory.
    pub open spec fn basic(&self) -> bool {
        &&& self.ram.wf()
        &&& self.frames.wf()
        &&& self.ram.base <= self.frames@.base
        &&& self.frames@.addr(self.frames@.pages) <= self.ram.end()
    }

    proof fn lemma_consistent(&self)
        requires
            self.basic(),
            forall|p: int| #[trigger] self.is_pt(p) ==> self.frames@.allocated(p, 0),
            forall|p: int| #[trigger] self.is_pt(p) ==> self.place_ok(p),
            forall|p: int, i: int|
                #![trigger slot(self.ram, p, i)]
                self.is_pt(p) && 0 <= i < 512 ==> self.slot_ok(p, i),
        ensures
            self.inv(),
    {
        reveal(PhysMemory::tables_ok);
    }
}

impl PhysMemory {
    /// Take memory and allocator over; nothing is mapped yet.
    pub fn new(ram: Ram, frames: BuddyAllocator) -> (r: PhysMemory)
        requires
            ram.wf(),
            frames.wf(),
            ram.base <= frames@.base,
            frames@.addr(frames@.pages) <= ram.end(),
        ensures
            r.inv(),
            r.ram == ram,
            r.frames == frames,
            forall|p: int| !#[trigger] r.is_pt(p),
    {
        let r = PhysMemory { ram, frames, owner: Ghost(Map::empty()) };
        proof {
            r.lemma_consistent();
        }
        r
    }

    /// Same memory, allocator state and tables.
    pub open spec fn same(&self, other: &PhysMemory) -> bool {
        &&& self.ram == other.ram
        &&& self.frames@ == other.frames@
        &&& self.owner@ == other.owner@
    }

    /// The tables of `self` and `other` are the same pages with the same entries.
    pub open spec fn same_tables(&self, other: &PhysMemory) -> bool {
        &&& self.owner@ == other.owner@
        &&& forall|p: int, i: int|
            #![trigger slot(self.ram, p, i)]
            self.is_pt(p) && 0 <= i < 512 ==> slot(self.ram, p, i) == slot(other.ram, p, i)
    }

    /// Tables that did not change keep their places and translate as before.
    proof fn lemma_tables_kept(a: PhysMemory, b: PhysMemory)
        requires
            a.inv(),
            b.same_tables(&a),
        ensures
            b.same_maps(&a),
            forall|p: int| #[trigger] b.is_pt(p) ==> b.place_ok(p),
            forall|p: int, i: int|
                #![trigger slot(b.ram, p, i)]
                b.is_pt(p) && 0 <= i < 512 ==> b.slot_ok(p, i),
    {
        assert forall|p: int| #[trigger] b.is_pt(p) implies b.place_ok(p) by {
            assert(a.is_pt(p));
            a.lemma_place(p);
            match a.owner@[p] {
                Owner::Root => {},
                Owner::Mid { root, idx } => {
                    assert(b.is_pt(root));
                    assert(slot(b.ram, root, idx) == slot(a.ram, root, idx));
                },
                Owner::Low { mid, idx } => {
                    assert(b.is_pt(mid));
                    assert(slot(b.ram, mid, idx) == slot(a.ram, mid, idx));
                },
            }
        }
        assert forall|p: int, i: int|
            #![trigger slot(b.ram, p, i)]
            b.is_pt(p) && 0 <= i < 512 implies b.slot_ok(p, i) by {
            assert(a.is_pt(p));
            assert(slot(b.ram, p, i) == slot(a.ram, p, i));
            a.lemma_slot(p, i);
        }
        assert forall|r: int, va: int| b.is_root(r) implies #[trigger] lookup(b.ram, r, va)
            == lookup(a.ram, r, va) by {
            Self::lemma_lookup_kept(a, b, r, va);
        }
    }

    proof fn lemma_lookup_kept(a: PhysMemory, b: PhysMemory, r: int, va: int)
        requires
            a.inv(),
            b.same_tables(&a),
            b.is_root(r),
        ensures
            lookup(b.ram, r, va) == lookup(a.ram, r, va),
    {
        reveal(lookup);
        assert(a.is_pt(r) && b.is_pt(r));
        let e2 = slot(a.ram, r, vpn2(va));
        assert(slot(b.ram, r, vpn2(va)) == e2);
        if is_table(e2) {
            a.lemma_slot(r, vpn2(va));
            let t1 = target(e2);
            assert(a.is_pt(t1) && b.is_pt(t1));
            let e1 = slot(a.ram, t1, vpn1(va));
            assert(slot(b.ram, t1, vpn1(va)) == e1);
            if is_table(e1) {
                a.lemma_slot(t1, vpn1(va));
                let t0 = target(e1);
                assert(a.is_pt(t0) && b.is_pt(t0));
                assert(slot(b.ram, t0, vpn0(va)) == slot(a.ram, t0, vpn0(va)));
            }
        }
    }

    /// Hand out one page filled with zero.
    pub fn alloc_page_zeroed(&mut self) -> (r: Option<u64>)
        requires
            old(self).inv(),
        ensures
            final(self).inv(),
            final(self).owner@ == old(self).owner@,
            r is Some <==> old(self).frames@.free_pages() > 0,
            r is None ==> final(self).same(old(self)),
            r matches Some(page) ==> {
                &&& page == old(self).frames@.next_page()
                &&& final(self).frames@ == old(self).frames@.after_alloc(0)
                &&& final(self).frames@.drawn_from(old(self).frames@)
                &&& final(self).frames@.allocated(page as int, 0)
                &&& old(self).frames@.free_page(page as int)
                &&& !old(self).is_pt(page as int)
                &&& final(self).ram.has_page(page as int)
                &&& forall|p: int, o: int| #[trigger]
                    final(self).frames@.allocated(p, o) <==> old(self).frames@.allocated(p, o) || (p
                        == page && o == 0)
                &&& final(self).ram.same_but_page(&old(self).ram, page as int)
                &&& forall|a: int|
                    page <= a < page + 4096 && a % 8 == 0 ==> #[trigger] final(self).ram.word(a)
                        == 0
            },
            final(self).same_tables(old(self)),
            final(self).same_maps(old(self)),
    {
        let ghost before = *self;
        proof {
            self.frames.lemma_wf();
            law_page_available(self.frames@);
        }
        let r = crate::mem::alloc_pages(&mut self.frames, 0);
        if r.is_none() {
            proof {
                Self::lemma_tables_kept(before, *self);
                assert forall|p: int| #[trigger] self.is_pt(p) implies self.frames@.allocated(
                    p,
                    0,
                ) by {
                    before.lemma_place(p);
                }
                self.lemma_consistent();
            }
            return None;
        }
        let page: u64 = r.unwrap();
        proof {
            let s = before.frames@;
            let h = s.lists[first_fit(s.lists, 0)].last() as int;
            assert(s.index(s.addr(h)) == h);
            self.frames.lemma_wf();
            crate::mem::law_alloc_was_free(s);
            s.lemma_drawn_one();
            assert forall|p: int| #[trigger] self.is_pt(p) implies p != page
                && self.frames@.allocated(p, 0) by {
                before.lemma_place(p);
                law_alloc_is_new(s, 0, p, 0);
            }
            assert(self.same_tables(&before));
            Self::lemma_tables_kept(before, *self);
            self.lemma_consistent();
            self.lemma_page(page as int, 0);
        }
        self.ram.zero_page(page);
        proof {
            assert forall|p: int, i: int|
                #![trigger slot(self.ram, p, i)]
                self.is_pt(p) && 0 <= i < 512 implies slot(self.ram, p, i) == slot(
                before.ram,
                p,
                i,
            ) by {
                before.lemma_pt(p);
                assert(before.ram.has(p + 8 * i));
                assert(self.ram.has(p + 8 * i));
                lemma_apart(p, page as int, i);
            }
            Self::lemma_tables_kept(before, *self);
            self.lemma_consistent();
            let s = before.frames@;
            assert forall|p: int, o: int| #[trigger] self.frames@.allocated(p, o) <==> s.allocated(
                p,
                o,
            ) || (p == page && o == 0) by {
                assert(self.frames@.index(p) == s.index(p));
                if s.allocated(p, o) {
                    law_alloc_is_new(s, 0, p, o);
                }
            }
        }
        Some(page)
    }

    /// Give back a block that holds no table.
    pub fn free_block(&mut self, addr: u64) -> (r: Result<(), ()>)
        requires
            old(self).inv(),
            !old(self).is_pt(addr as int),
        ensures
            final(self).inv(),
            final(self).ram == old(self).ram,
            final(self).owner@ == old(self).owner@,
            r is Ok <==> old(self).frames@.can_free(addr as int),
            r is Ok ==> final(self).frames@ == old(self).frames@.after_free(
                old(self).frames@.index(addr as int),
            ),
            r is Err ==> final(self).frames@ == old(self).frames@,
            final(self).same_maps(old(self)),
    {
        let ghost before = *self;
        proof {
            self.frames.lemma_wf();
        }
        let r = crate::mem::free_pages(&mut self.frames, addr);
        proof {
            let s = before.frames@;
            assert forall|p: int| #[trigger] self.is_pt(p) implies self.frames@.allocated(p, 0) by {
                before.lemma_place(p);
                assert(s.allocated(p, 0));
                if r is Ok {
                    assert(s.index(p) != s.index(addr as int));
                }
            }
            assert(self.same_tables(&before));
            Self::lemma_tables_kept(before, *self);
            self.lemma_consistent();
        }
        r
    }
}

/// Entries of one page lie outside another page.
proof fn lemma_apart(p: int, q: int, i: int)
    requires
        p % 4096 == 0,
        q % 4096 == 0,
        p != q,
        0 <= i < 512,
    ensures
        !(q <= p + 8 * i < q + 4096),
{
}

impl PhysMemory {
    /// The place of the table that entry `i` of table `p` points to.
    pub open spec fn child_owner(&self, p: int, i: int) -> Owner {
        if self.owner@[p] is Root {
            Owner::Mid { root: p, idx: i }
        } else {
            Owner::Low { mid: p, idx: i }
        }
    }

    /// Same translation as in `other` but for the page of `va` under `root`.
    pub open spec fn same_maps_but(&self, other: &PhysMemory, root: int, va: int) -> bool {
        &&& forall|r: int| #[trigger] self.is_root(r) <==> other.is_root(r)
        &&& forall|r: int, v: int|
            self.is_root(r) && !(r == root && same_vpn(v, va)) ==> #[trigger] lookup(
                self.ram,
                r,
                v,
            ) == lookup(other.ram, r, v)
    }

    /// An empty table was hung into entry `i` of table `p`.
    spec fn hung(&self, a: &PhysMemory, p: int, i: int, t: int) -> bool {
        &&& self.ram.wf()
        &&& self.frames == a.frames
        &&& self.owner@ == a.owner@.insert(t, a.child_owner(p, i))
        &&& self.ram.same_but_word(&a.ram, p + 8 * i)
        &&& slot(self.ram, p, i) == entry_for(t, 1)
    }

    /// Slots of tables other than the one written are as before.
    proof fn lemma_hung_slots(a: PhysMemory, b: PhysMemory, p: int, i: int, t: int, q: int, j: int)
        requires
            a.inv(),
            b.hung(&a, p, i, t),
            a.is_pt(p),
            a.is_pt(q) || a.frames@.allocated(q, 0),
            0 <= i < 512,
            0 <= j < 512,
            q != p || j != i,
        ensures
            slot(b.ram, q, j) == slot(a.ram, q, j),
    {
        if a.is_pt(q) {
            a.lemma_place(q);
        }
        a.lemma_page(q, 0);
        a.lemma_pt(p);
        assert(a.ram.has(q + 8 * j));
        if q != p {
            lemma_apart(q, p, j);
        }
        assert(q + 8 * j != p + 8 * i);
        assert(b.ram.has(q + 8 * j));
        assert(b.ram.word(q + 8 * j) == a.ram.word(q + 8 * j));
    }

    proof fn lemma_hang(a: PhysMemory, b: PhysMemory, p: int, i: int, t: int)
        requires
            a.inv(),
            b.hung(&a, p, i, t),
            a.is_pt(p),
            !(a.owner@[p] is Low),
            0 <= i < 512,
            !valid(slot(a.ram, p, i)),
            a.frames@.allocated(t, 0),
            !a.is_pt(t),
            forall|w: int| t <= w < t + 4096 && w % 8 == 0 ==> #[trigger] a.ram.word(w) == 0,
        ensures
            b.inv(),
            b.same_maps(&a),
    {
        a.lemma_page(t, 0);
        a.lemma_pt(p);
        lemma_entry(t, 1);
        let e = entry_for(t, 1);
        assert(is_table(e) && target(e) == t);
        assert forall|q: int| #[trigger] b.is_pt(q) implies b.place_ok(q) by {
            if q == t {
                assert(b.is_pt(p));
                assert(b.owner@[p] == a.owner@[p]);
            } else {
                assert(a.is_pt(q));
                a.lemma_place(q);
                match a.owner@[q] {
                    Owner::Root => {},
                    Owner::Mid { root, idx } => {
                        assert(b.is_pt(root));
                        if root == p && idx == i {
                            assert(false);
                        }
                        Self::lemma_hung_slots(a, b, p, i, t, root, idx);
                    },
                    Owner::Low { mid, idx } => {
                        assert(b.is_pt(mid));
                        if mid == p && idx == i {
                            assert(false);
                        }
                        Self::lemma_hung_slots(a, b, p, i, t, mid, idx);
                    },
                }
            }
        }
        assert forall|q: int, j: int|
            #![trigger slot(b.ram, q, j)]
            b.is_pt(q) && 0 <= j < 512 implies b.slot_ok(q, j) by {
            if q == p && j == i {
                assert(b.is_pt(t));
            } else if q == t {
                Self::lemma_hung_slots(a, b, p, i, t, t, j);
                assert(a.ram.word(t + 8 * j) == 0);
            } else {
                Self::lemma_hung_slots(a, b, p, i, t, q, j);
                a.lemma_slot(q, j);
            }
        }
        assert forall|q: int| #[trigger] b.is_pt(q) implies b.frames@.allocated(q, 0) by {
            if q != t {
                a.lemma_place(q);
            }
        }
        b.lemma_consistent();
        assert forall|r: int| #[trigger] b.is_root(r) <==> a.is_root(r) by {}
        assert forall|r: int, va: int| b.is_root(r) implies #[trigger] lookup(b.ram, r, va)
            == lookup(a.ram, r, va) by {
            Self::lemma_hang_lookup(a, b, p, i, t, r, va);
        }
    }

    proof fn lemma_hang_lookup(
        a: PhysMemory,
        b: PhysMemory,
        p: int,
        i: int,
        t: int,
        r: int,
        va: int,
    )
        requires
            a.inv(),
            b.hung(&a, p, i, t),
            a.is_pt(p),
            !(a.owner@[p] is Low),
            0 <= i < 512,
            !valid(slot(a.ram, p, i)),
            a.frames@.allocated(t, 0),
            !a.is_pt(t),
            forall|w: int| t <= w < t + 4096 && w % 8 == 0 ==> #[trigger] a.ram.word(w) == 0,
            a.is_root(r),
        ensures
            lookup(b.ram, r, va) == lookup(a.ram, r, va),
    {
        reveal(lookup);
        a.lemma_page(t, 0);
        lemma_entry(t, 1);
        assert(a.is_pt(r));
        let i2 = vpn2(va);
        let i1 = vpn1(va);
        let i0 = vpn0(va);
        let e2 = slot(a.ram, r, i2);
        if r == p && i2 == i {
            Self::lemma_hung_slots(a, b, p, i, t, t, i1);
            assert(a.ram.word(t + 8 * i1) == 0);
        } else {
            Self::lemma_hung_slots(a, b, p, i, t, r, i2);
            if is_table(e2) {
                a.lemma_slot(r, i2);
                let t1 = target(e2);
                let e1 = slot(a.ram, t1, i1);
                if t1 == p && i1 == i {
                    Self::lemma_hung_slots(a, b, p, i, t, t, i0);
                    assert(a.ram.word(t + 8 * i0) == 0);
                } else {
                    Self::lemma_hung_slots(a, b, p, i, t, t1, i1);
                    if is_table(e1) {
                        a.lemma_slot(t1, i1);
                        let t0 = target(e1);
                        assert(t0 != p);
                        Self::lemma_hung_slots(a, b, p, i, t, t0, i0);
                    }
                }
            }
        }
    }

    /// The table that entry `idx` of table `parent` points to. An entry that is not in use gets
    /// a new, empty table; a leaf is refused.
    fn ensure_table(&mut self, parent: u64, idx: u64) -> (r: Result<u64, ()>)
        requires
            old(self).inv(),
            old(self).is_pt(parent as int),
            !(old(self).owner@[parent as int] is Low),
            idx < 512,
        ensures
            final(self).inv(),
            final(self).same_maps(old(self)),
            final(self).same_data(old(self)),
            final(self).frames_grown(old(self)),
            old(self).owner@.submap_of(final(self).owner@),
            ({
                let e = slot(old(self).ram, parent as int, idx as int);
                let free = old(self).frames@.free_pages();
                &&& r is Err <==> is_leaf(e) || (!valid(e) && free == 0)
                &&& r is Err ==> final(self).same(old(self))
                &&& r matches Ok(t) ==> {
                    &&& final(self).is_pt(t as int)
                    &&& is_table(slot(final(self).ram, parent as int, idx as int))
                    &&& target(slot(final(self).ram, parent as int, idx as int)) == t
                    &&& final(self).owner@[t as int] == old(self).child_owner(
                        parent as int,
                        idx as int,
                    )
                    &&& is_table(e) ==> final(self).same(old(self))
                    &&& !valid(e) ==> {
                        &&& final(self).frames@ == old(self).frames@.after_alloc(0)
                        &&& final(self).frames@.free_pages() == free - 1
                        &&& final(self).owner@ == old(self).owner@.insert(
                            t as int,
                            old(self).child_owner(parent as int, idx as int),
                        )
                        &&& !old(self).is_pt(t as int)
                    }
                }
            }),
            final(self).slots_kept(old(self), parent as int, idx as int),
    {
        let ghost before = *self;
        proof {
            self.lemma_pt(parent as int);
            assert(self.ram.has(parent + 8 * idx));
            self.lemma_slot(parent as int, idx as int);
            self.frames.lemma_wf();
            self.frames@.lemma_drawn_none();
        }
        let e: u64 = self.ram.read(parent + 8 * idx);
        assert(e == slot(self.ram, parent as int, idx as int));
        if pte_valid(e) {
            if pte_leaf(e) {
                return Err(());
            }
            return Ok(pte_target(e));
        }
        self.new_table(parent, idx)
    }

    /// Hang a new, empty table into an entry that is not in use.
    fn new_table(&mut self, parent: u64, idx: u64) -> (r: Result<u64, ()>)
        requires
            old(self).inv(),
            old(self).is_pt(parent as int),
            !(old(self).owner@[parent as int] is Low),
            idx < 512,
            !valid(slot(old(self).ram, parent as int, idx as int)),
        ensures
            final(self).inv(),
            final(self).same_maps(old(self)),
            final(self).same_data(old(self)),
            final(self).frames_grown(old(self)),
            r is Err <==> old(self).frames@.free_pages() == 0,
            r is Err ==> final(self).same(old(self)),
            r matches Ok(t) ==> {
                &&& is_table(slot(final(self).ram, parent as int, idx as int))
                &&& target(slot(final(self).ram, parent as int, idx as int)) == t
                &&& final(self).frames@ == old(self).frames@.after_alloc(0)
                &&& final(self).frames@.free_pages() == old(self).frames@.free_pages() - 1
                &&& final(self).owner@ == old(self).owner@.insert(
                    t as int,
                    old(self).child_owner(parent as int, idx as int),
                )
                &&& !old(self).is_pt(t as int)
                &&& final(self).slots_kept(old(self), parent as int, idx as int)
            },
    {
        let ghost before = *self;
        proof {
            self.lemma_pt(parent as int);
            assert(self.ram.has(parent + 8 * idx));
            self.frames.lemma_wf();
            law_page_available(before.frames@);
            before.frames@.lemma_drawn_none();
        }
        let page: u64 = match self.alloc_page_zeroed() {
            Some(p) => p,
            None => {
                return Err(());
            },
        };
        let ghost a = *self;
        proof {
            self.lemma_pt(parent as int);
            assert(self.ram.has(parent + 8 * idx));
            lemma_apart(parent as int, page as int, idx as int);
            assert(slot(self.ram, parent as int, idx as int) == slot(
                before.ram,
                parent as int,
                idx as int,
            ));
            crate::mem::law_alloc_takes_pages(before.frames@, 0);
            crate::tiling::lemma_block_pages_values();
        }
        let v: u64 = pte(page, PTE_V);
        self.ram.write(parent + 8 * idx, v);
        proof {
            self.owner@ = a.owner@.insert(page as int, a.child_owner(parent as int, idx as int));
            let b = *self;
            assert(b.hung(&a, parent as int, idx as int, page as int));
            Self::lemma_hang(a, b, parent as int, idx as int, page as int);
            lemma_entry(page as int, 1);
            Self::lemma_hang_frame(before, a, b, parent as int, idx as int, page as int);
            assert(b.frames_grown(&before));
        }
        Ok(page)
    }

    /// Entries of the tables of `other` are as before, but for entry `i` of table `p`; those of
    /// new tables are not in use.
    spec fn slots_kept(&self, other: &PhysMemory, p: int, i: int) -> bool {
        &&& forall|q: int, j: int|
            #![trigger slot(self.ram, q, j)]
            other.is_pt(q) && 0 <= j < 512 && !(q == p && j == i) ==> slot(self.ram, q, j) == slot(
                other.ram,
                q,
                j,
            )
        &&& forall|q: int, j: int|
            #![trigger slot(self.ram, q, j)]
            self.is_pt(q) && !other.is_pt(q) && 0 <= j < 512 ==> slot(self.ram, q, j) == 0
    }

    proof fn lemma_hang_frame(
        before: PhysMemory,
        a: PhysMemory,
        b: PhysMemory,
        p: int,
        i: int,
        t: int,
    )
        requires
            before.inv(),
            a.inv(),
            a.owner@ == before.owner@,
            b.hung(&a, p, i, t),
            a.is_pt(p),
            0 <= i < 512,
            a.frames@.allocated(t, 0),
            !a.is_pt(t),
            a.ram.same_but_page(&before.ram, t),
            forall|w: int| t <= w < t + 4096 && w % 8 == 0 ==> #[trigger] a.ram.word(w) == 0,
        ensures
            b.slots_kept(&before, p, i),
            b.same_data(&before),
    {
        a.lemma_page(t, 0);
        a.lemma_pt(p);
        assert forall|q: int, j: int|
            #![trigger slot(b.ram, q, j)]
            before.is_pt(q) && 0 <= j < 512 && !(q == p && j == i) implies slot(b.ram, q, j)
            == slot(before.ram, q, j) by {
            Self::lemma_hung_slots(a, b, p, i, t, q, j);
            before.lemma_pt(q);
            assert(before.ram.has(q + 8 * j));
            lemma_apart(q, t, j);
            assert(a.ram.has(q + 8 * j));
            assert(a.ram.word(q + 8 * j) == before.ram.word(q + 8 * j));
        }
        assert forall|q: int, j: int|
            #![trigger slot(b.ram, q, j)]
            b.is_pt(q) && !before.is_pt(q) && 0 <= j < 512 implies slot(b.ram, q, j) == 0 by {
            assert(q == t);
            Self::lemma_hung_slots(a, b, p, i, t, q, j);
            assert(a.ram.word(t + 8 * j) == 0);
        }
        assert forall|w: int|
            b.ram.has(w) && !b.is_pt(w - w % 4096) implies #[trigger] b.ram.word(w)
            == before.ram.word(w) by {
            assert(w - w % 4096 != t);
            assert(w - w % 4096 != p);
            assert(a.ram.has(w));
            assert(b.ram.word(w) == a.ram.word(w));
            assert(a.ram.word(w) == before.ram.word(w));
        }
    }
}

/// Tables that have to be made before the page of `va` can be mapped.
#[verifier::opaque]
pub open spec fn missing(m: Ram, root: int, va: int) -> int {
    let e2 = slot(m, root, vpn2(va));
    if !valid(e2) {
        2
    } else if is_table(e2) && !valid(slot(m, target(e2), vpn1(va))) {
        1
    } else {
        0
    }
}

/// A larger page covers `va`.
pub open spec fn blocked(m: Ram, root: int, va: int) -> bool {
    lookup(m, root, va) matches Some((level, e)) && level > 0
}

/// The lowest table on the path of `va`.
pub open spec fn low_table(m: Ram, root: int, va: int) -> int {
    target(slot(m, target(slot(m, root, vpn2(va))), vpn1(va)))
}

/// All tables on the path of `va` are there.
pub open spec fn has_path(m: Ram, root: int, va: int) -> bool {
    is_table(slot(m, root, vpn2(va))) && is_table(
        slot(m, target(slot(m, root, vpn2(va))), vpn1(va)),
    )
}

/// Entries of the root that are in use.
#[verifier::opaque]
pub open spec fn mids(m: Ram, root: int) -> Set<int> {
    Set::new(|i: int| 0 <= i < 512 && valid(slot(m, root, i)))
}

/// Lowest tables under the root, each by the number of the 2 MiB that it covers.
#[verifier::opaque]
pub open spec fn lows(m: Ram, root: int) -> Set<int> {
    Set::new(
        |k: int|
            0 <= k < 0x4_0000 && is_table(slot(m, root, k / 512)) && is_table(
                slot(m, target(slot(m, root, k / 512)), k % 512),
            ),
    )
}

impl PhysMemory {
    /// The path of `va` leads to the table `t`, whose place says so.
    pub proof fn lemma_path(&self, root: int, va: int)
        requires
            self.inv(),
            self.is_root(root),
            has_path(self.ram, root, va),
        ensures
            ({
                let mid = target(slot(self.ram, root, vpn2(va)));
                let t = low_table(self.ram, root, va);
                &&& self.is_pt(mid)
                &&& self.is_pt(t)
                &&& self.owner@[mid] == (Owner::Mid { root, idx: vpn2(va) })
                &&& self.owner@[t] == (Owner::Low { mid, idx: vpn1(va) })
            }),
            lookup(self.ram, root, va) == ({
                let e = slot(self.ram, low_table(self.ram, root, va), vpn0(va));
                if valid(e) {
                    Some((0int, e))
                } else {
                    None
                }
            }),
    {
        reveal(lookup);
        self.lemma_slot(root, vpn2(va));
        let mid = target(slot(self.ram, root, vpn2(va)));
        self.lemma_slot(mid, vpn1(va));
    }

    /// In the address spaces other than that of `root`, the same tables are missing.
    #[verifier::opaque]
    pub open spec fn others_same(&self, other: &PhysMemory, root: int) -> bool {
        forall|r: int, v: int|
            other.is_root(r) && r != root ==> #[trigger] missing(self.ram, r, v) == missing(
                other.ram,
                r,
                v,
            )
    }

    /// A change of one entry of a table of `root` leaves the other address spaces alone.
    proof fn lemma_others(a: PhysMemory, b: PhysMemory, root: int, p: int, i: int)
        requires
            a.inv(),
            a.is_pt(p),
            a.root_of(p) == root,
            forall|q: int, j: int|
                #![trigger slot(b.ram, q, j)]
                a.is_pt(q) && 0 <= j < 512 && !(q == p && j == i) ==> slot(b.ram, q, j) == slot(
                    a.ram,
                    q,
                    j,
                ),
        ensures
            b.others_same(&a, root),
    {
        reveal(PhysMemory::others_same);
        reveal(missing);
        assert forall|r: int, v: int| a.is_root(r) && r != root implies #[trigger] missing(
            b.ram,
            r,
            v,
        ) == missing(a.ram, r, v) by {
            let e2 = slot(a.ram, r, vpn2(v));
            assert(r != p);
            assert(slot(b.ram, r, vpn2(v)) == e2);
            if is_table(e2) {
                a.lemma_slot(r, vpn2(v));
                assert(slot(b.ram, target(e2), vpn1(v)) == slot(a.ram, target(e2), vpn1(v)));
            }
        }
    }

    /// Two steps that leave the other address spaces alone.
    pub proof fn lemma_others_steps(a: PhysMemory, b: PhysMemory, c: PhysMemory, root: int)
        requires
            b.others_same(&a, root),
            c.others_same(&b, root),
            forall|r: int| #[trigger] b.is_root(r) <==> a.is_root(r),
        ensures
            c.others_same(&a, root),
    {
        reveal(PhysMemory::others_same);
        assert forall|r: int, v: int| a.is_root(r) && r != root implies #[trigger] missing(
            c.ram,
            r,
            v,
        ) == missing(a.ram, r, v) by {
            assert(b.is_root(r));
            assert(missing(b.ram, r, v) == missing(a.ram, r, v));
        }
    }

    /// The lowest table on the path of `va`, with the tables above it. Missing tables are made.
    fn ensure_path(&mut self, root: u64, va: u64) -> (r: Result<u64, ()>)
        requires
            old(self).inv(),
            old(self).is_root(root as int),
        ensures
            final(self).inv(),
            final(self).same_maps(old(self)),
            final(self).same_data(old(self)),
            final(self).is_root(root as int),
            old(self).owner@.submap_of(final(self).owner@),
            ({
                let need = missing(old(self).ram, root as int, va as int);
                let free = old(self).frames@.free_pages();
                let stop = blocked(old(self).ram, root as int, va as int);
                &&& r is Err <==> stop || free < need
                &&& stop ==> final(self).same(old(self))
                &&& r is Err && !stop ==> final(self).frames@.free_pages() == 0
                &&& r matches Ok(t) ==> {
                    &&& final(self).frames@.free_pages() == free - need
                    &&& need == 0 ==> final(self).same(old(self))
                    &&& has_path(final(self).ram, root as int, va as int)
                    &&& low_table(final(self).ram, root as int, va as int) == t
                    &&& mids(final(self).ram, root as int) == mids(
                        old(self).ram,
                        root as int,
                    ).insert(vpn2(va as int))
                    &&& lows(final(self).ram, root as int) == lows(
                        old(self).ram,
                        root as int,
                    ).insert(key1(va as int))
                }
            }),
            final(self).frames_grown(old(self)),
            final(self).others_same(old(self), root as int),
    {
        let ghost before = *self;
        let (i2, i1, i0): (u64, u64, u64) = vpns(va);
        proof {
            reveal(lookup);
            reveal(missing);
            self.frames.lemma_wf();
            law_page_available(self.frames@);
        }
        let mid: u64 = match self.ensure_table(root, i2) {
            Ok(t) => t,
            Err(_) => {
                proof {
                    Self::lemma_others(before, *self, root as int, root as int, i2 as int);
                }
                return Err(());
            },
        };
        let ghost a = *self;
        proof {
            Self::lemma_others(before, a, root as int, root as int, i2 as int);
            a.frames.lemma_wf();
            law_page_available(a.frames@);
            let e2 = slot(before.ram, root as int, i2 as int);
            before.lemma_slot(root as int, i2 as int);
            if !valid(e2) {
                assert(slot(a.ram, mid as int, i1 as int) == 0);
            } else {
                assert(target(e2) == mid);
            }
        }
        let low: u64 = match self.ensure_table(mid, i1) {
            Ok(t) => t,
            Err(_) => {
                proof {
                    Self::lemma_steps(before, a, *self);
                    Self::lemma_others(a, *self, root as int, mid as int, i1 as int);
                    Self::lemma_others_steps(before, a, *self, root as int);
                }
                return Err(());
            },
        };
        proof {
            let b = *self;
            Self::lemma_others(a, b, root as int, mid as int, i1 as int);
            Self::lemma_others_steps(before, a, b, root as int);
            assert(slot(b.ram, root as int, i2 as int) == slot(a.ram, root as int, i2 as int));
            Self::lemma_one_table_sets(before, a, root as int, i2 as int, mid as int);
            Self::lemma_low_table_sets(a, b, root as int, i2 as int, i1 as int, low as int);
            Self::lemma_steps(before, a, b);
        }
        Ok(low)
    }

    /// Two steps that keep data, maps and allocated pages, taken together.
    proof fn lemma_steps(a: PhysMemory, b: PhysMemory, c: PhysMemory)
        requires
            b.same_data(&a),
            c.same_data(&b),
            b.frames_grown(&a),
            c.frames_grown(&b),
            a.owner@.submap_of(b.owner@),
            b.owner@.submap_of(c.owner@),
        ensures
            c.same_data(&a),
            c.frames_grown(&a),
            a.owner@.submap_of(c.owner@),
            b.same_maps(&a) && c.same_maps(&b) ==> c.same_maps(&a),
    {
        assert forall|w: int|
            c.ram.has(w) && !c.is_pt(w - w % 4096) implies #[trigger] c.ram.word(w) == a.ram.word(
            w,
        ) by {
            assert(b.ram.has(w));
            assert(!b.is_pt(w - w % 4096));
            assert(c.ram.word(w) == b.ram.word(w));
        }
        b.frames@.lemma_drawn_more(a.frames@, c.frames@);
        assert forall|p: int, o: int| #[trigger] c.frames@.allocated(p, o) <==> a.frames@.allocated(
            p,
            o,
        ) || (o == 0 && c.is_pt(p) && !a.is_pt(p)) by {
            assert(b.frames@.allocated(p, o) <==> a.frames@.allocated(p, o) || (o == 0 && b.is_pt(
                p,
            ) && !a.is_pt(p)));
        }
        assert forall|p: int| #[trigger]
            c.is_pt(p) && !a.is_pt(p) implies a.frames@.free_page(p) by {
            if !b.is_pt(p) {
                crate::mem::law_free_shrinks(a.frames@, b.frames@, p);
            } else {
                assert(b.is_pt(p));
            }
        }
        assert forall|p: int| a.owner@.dom().contains(p) implies #[trigger] c.owner@.dom().contains(p)
            && a.owner@[p] == c.owner@[p] by {
            assert(b.owner@.dom().contains(p));
        }
        assert(a.owner@.submap_of(c.owner@));
        if b.same_maps(&a) && c.same_maps(&b) {
            assert forall|r: int| #[trigger] c.is_root(r) <==> a.is_root(r) by {
                assert(b.is_root(r) <==> a.is_root(r));
            }
            assert forall|r: int, v: int| c.is_root(r) implies #[trigger] lookup(c.ram, r, v)
                == lookup(a.ram, r, v) by {
                assert(b.is_root(r));
                assert(lookup(b.ram, r, v) == lookup(a.ram, r, v));
            }
        }
    }

    /// Making sure of one lowest table adds at most that table.
    proof fn lemma_low_table_sets(
        a: PhysMemory,
        b: PhysMemory,
        root: int,
        i2: int,
        i1: int,
        low: int,
    )
        requires
            a.inv(),
            a.is_root(root),
            0 <= i2 < 512,
            0 <= i1 < 512,
            is_table(slot(a.ram, root, i2)),
            b.slots_kept(&a, target(slot(a.ram, root, i2)), i1),
            is_table(slot(b.ram, target(slot(a.ram, root, i2)), i1)),
        ensures
            mids(b.ram, root) == mids(a.ram, root),
            lows(b.ram, root) == lows(a.ram, root).insert(i2 * 512 + i1),
    {
        reveal(mids);
        reveal(lows);
        let mid = target(slot(a.ram, root, i2));
        a.lemma_slot(root, i2);
        assert forall|i: int| #[trigger] mids(b.ram, root).contains(i) <==> mids(
            a.ram,
            root,
        ).contains(i) by {
            if 0 <= i < 512 {
                assert(slot(b.ram, root, i) == slot(a.ram, root, i));
            }
        }
        assert(mids(b.ram, root) =~= mids(a.ram, root));
        assert forall|x: int| #[trigger] lows(b.ram, root).contains(x) <==> lows(
            a.ram,
            root,
        ).contains(x) || x == i2 * 512 + i1 by {
            let i = x / 512;
            let j = x % 512;
            if 0 <= x < 0x4_0000 {
                assert(slot(b.ram, root, i) == slot(a.ram, root, i));
                if is_table(slot(a.ram, root, i)) {
                    a.lemma_slot(root, i);
                    let t = target(slot(a.ram, root, i));
                    if !(t == mid && j == i1) {
                        assert(slot(b.ram, t, j) == slot(a.ram, t, j));
                    } else {
                        assert(a.owner@[mid] == (Owner::Mid { root, idx: i }));
                    }
                }
            }
        }
        assert(lows(b.ram, root) =~= lows(a.ram, root).insert(i2 * 512 + i1));
    }

    /// Pages that were allocated in `other` are allocated, with the same order; what was
    /// allocated since was free and are tables, handed out one after the other.
    pub open spec fn frames_grown(&self, other: &PhysMemory) -> bool {
        &&& self.frames@.base == other.frames@.base
        &&& self.frames@.pages == other.frames@.pages
        &&& self.frames@.reserved == other.frames@.reserved
        &&& self.frames@.drawn_from(other.frames@)
        &&& forall|p: int, o: int| #[trigger]
            self.frames@.allocated(p, o) <==> other.frames@.allocated(p, o) || (o == 0
                && self.is_pt(p) && !other.is_pt(p))
        &&& forall|p: int| #[trigger]
            self.is_pt(p) && !other.is_pt(p) ==> other.frames@.free_page(p)
    }
}

impl PhysMemory {
    /// What every change of an address space keeps: consistency, the data outside the tables,
    /// the allocated pages and the tables that were there.
    #[verifier::opaque]
    pub open spec fn kept(&self, other: &PhysMemory, root: int) -> bool {
        &&& self.inv()
        &&& self.is_root(root)
        &&& self.same_data(other)
        &&& self.frames_grown(other)
        &&& other.owner@.submap_of(self.owner@)
    }

    proof fn lemma_kept(a: PhysMemory, b: PhysMemory, c: PhysMemory, root: int)
        requires
            b.kept(&a, root),
            c.kept(&b, root),
        ensures
            c.kept(&a, root),
    {
        reveal(PhysMemory::kept);
        Self::lemma_steps(a, b, c);
    }

    proof fn lemma_kept_same(a: PhysMemory, root: int)
        requires
            a.inv(),
            a.is_root(root),
        ensures
            a.kept(&a, root),
    {
        reveal(PhysMemory::kept);
        lemma_same_maps(a);
    }
}

impl PhysMemory {
    /// The entry of the page of `va` was written.
    spec fn wrote_low(&self, a: &PhysMemory, root: int, va: int) -> bool {
        &&& a.inv()
        &&& a.is_root(root)
        &&& has_path(a.ram, root, va)
        &&& self.ram.wf()
        &&& self.frames == a.frames
        &&& self.owner@ == a.owner@
        &&& self.ram.same_but_word(&a.ram, low_table(a.ram, root, va) + 8 * vpn0(va))
    }

    /// Other entries are as before.
    proof fn lemma_low_slots(a: PhysMemory, b: PhysMemory, root: int, va: int, q: int, j: int)
        requires
            b.wrote_low(&a, root, va),
            a.is_pt(q),
            0 <= j < 512,
            !(q == low_table(a.ram, root, va) && j == vpn0(va)),
        ensures
            slot(b.ram, q, j) == slot(a.ram, q, j),
    {
        let t = low_table(a.ram, root, va);
        a.lemma_path(root, va);
        a.lemma_pt(t);
        a.lemma_pt(q);
        assert(a.ram.has(q + 8 * j));
        if q != t {
            lemma_apart(q, t, j);
        }
        assert(b.ram.has(q + 8 * j));
        assert(b.ram.word(q + 8 * j) == a.ram.word(q + 8 * j));
    }

    #[verifier::rlimit(40)]
    proof fn lemma_low_inv(a: PhysMemory, b: PhysMemory, root: int, va: int)
        requires
            b.wrote_low(&a, root, va),
        ensures
            b.inv(),
            has_path(b.ram, root, va),
            low_table(b.ram, root, va) == low_table(a.ram, root, va),
    {
        let t = low_table(a.ram, root, va);
        a.lemma_path(root, va);
        let mid = target(slot(a.ram, root, vpn2(va)));
        assert forall|q: int| #[trigger] b.is_pt(q) implies b.place_ok(q) by {
            a.lemma_place(q);
            match a.owner@[q] {
                Owner::Root => {},
                Owner::Mid { root: r, idx } => {
                    assert(r != t);
                    Self::lemma_low_slots(a, b, root, va, r, idx);
                },
                Owner::Low { mid: m, idx } => {
                    assert(m != t);
                    Self::lemma_low_slots(a, b, root, va, m, idx);
                },
            }
        }
        assert forall|q: int, j: int|
            #![trigger slot(b.ram, q, j)]
            b.is_pt(q) && 0 <= j < 512 implies b.slot_ok(q, j) by {
            if q != t {
                Self::lemma_low_slots(a, b, root, va, q, j);
                a.lemma_slot(q, j);
            }
        }
        Self::lemma_low_slots(a, b, root, va, root, vpn2(va));
        Self::lemma_low_slots(a, b, root, va, mid, vpn1(va));
        assert forall|q: int| #[trigger] b.is_pt(q) implies b.frames@.allocated(q, 0) by {
            a.lemma_place(q);
        }
        b.lemma_consistent();
    }

    proof fn lemma_low_data(a: PhysMemory, b: PhysMemory, root: int, va: int)
        requires
            b.wrote_low(&a, root, va),
        ensures
            b.same_data(&a),
    {
        let t = low_table(a.ram, root, va);
        a.lemma_path(root, va);
        a.lemma_pt(t);
        assert forall|w: int|
            b.ram.has(w) && !b.is_pt(w - w % 4096) implies #[trigger] b.ram.word(w) == a.ram.word(
            w,
        ) by {
            assert(w - w % 4096 != t);
            assert(a.ram.has(w));
        }
    }

    proof fn lemma_low_lookup(a: PhysMemory, b: PhysMemory, root: int, va: int, r: int, v: int)
        requires
            b.wrote_low(&a, root, va),
            a.is_root(r),
            !(r == root && same_vpn(v, va)),
        ensures
            lookup(b.ram, r, v) == lookup(a.ram, r, v),
    {
        reveal(lookup);
        let t = low_table(a.ram, root, va);
        a.lemma_path(root, va);
        let e2 = slot(a.ram, r, vpn2(v));
        a.lemma_slot(r, vpn2(v));
        assert(r != t);
        Self::lemma_low_slots(a, b, root, va, r, vpn2(v));
        if is_table(e2) {
            let t1 = target(e2);
            a.lemma_slot(t1, vpn1(v));
            let e1 = slot(a.ram, t1, vpn1(v));
            assert(t1 != t);
            Self::lemma_low_slots(a, b, root, va, t1, vpn1(v));
            if is_table(e1) {
                let t0 = target(e1);
                // The place of the lowest table gives the path away.
                if t0 == t && vpn0(v) == vpn0(va) {
                    assert(a.owner@[t] == (Owner::Low { mid: t1, idx: vpn1(v) }));
                    assert(a.owner@[t1] == (Owner::Mid { root: r, idx: vpn2(v) }));
                    assert(false);
                }
                Self::lemma_low_slots(a, b, root, va, t0, vpn0(v));
            }
        }
    }

    proof fn lemma_low_sets(a: PhysMemory, b: PhysMemory, root: int, va: int)
        requires
            b.wrote_low(&a, root, va),
        ensures
            mids(b.ram, root) == mids(a.ram, root),
            lows(b.ram, root) == lows(a.ram, root),
    {
        reveal(mids);
        reveal(lows);
        let t = low_table(a.ram, root, va);
        a.lemma_path(root, va);
        assert forall|i: int| #[trigger] mids(b.ram, root).contains(i) <==> mids(
            a.ram,
            root,
        ).contains(i) by {
            if 0 <= i < 512 {
                Self::lemma_low_slots(a, b, root, va, root, i);
            }
        }
        assert(mids(b.ram, root) =~= mids(a.ram, root));
        assert forall|x: int| #[trigger] lows(b.ram, root).contains(x) <==> lows(
            a.ram,
            root,
        ).contains(x) by {
            let i = x / 512;
            let j = x % 512;
            if 0 <= x < 0x4_0000 {
                Self::lemma_low_slots(a, b, root, va, root, i);
                if is_table(slot(a.ram, root, i)) {
                    a.lemma_slot(root, i);
                    Self::lemma_low_slots(a, b, root, va, target(slot(a.ram, root, i)), j);
                }
            }
        }
        assert(lows(b.ram, root) =~= lows(a.ram, root));
    }

    /// Writing an entry of a lowest table changes the translation of its page alone.
    proof fn lemma_set_low(a: PhysMemory, b: PhysMemory, root: int, va: int)
        requires
            b.wrote_low(&a, root, va),
        ensures
            b.inv(),
            b.same_maps_but(&a, root, va),
            b.same_data(&a),
            has_path(b.ram, root, va),
            low_table(b.ram, root, va) == low_table(a.ram, root, va),
    {
        Self::lemma_low_inv(a, b, root, va);
        Self::lemma_low_data(a, b, root, va);
        assert forall|r: int, v: int|
            b.is_root(r) && !(r == root && same_vpn(v, va)) implies #[trigger] lookup(b.ram, r, v)
            == lookup(a.ram, r, v) by {
            Self::lemma_low_lookup(a, b, root, va, r, v);
        }
    }

    /// Set the entry of the page of `va`, making the tables above it.
    fn set_entry(&mut self, root: u64, va: u64, value: u64) -> (r: Result<(), ()>)
        requires
            old(self).inv(),
            old(self).is_root(root as int),
        ensures
            final(self).inv(),
            final(self).is_root(root as int),
            final(self).kept(old(self), root as int),
            final(self).others_same(old(self), root as int),
            r is Err <==> blocked(old(self).ram, root as int, va as int)
                || old(self).frames@.free_pages() < missing(old(self).ram, root as int, va as int),
            r is Err ==> final(self).same_maps(old(self)),
            blocked(old(self).ram, root as int, va as int) ==> final(self).same(old(self)),
            r is Err && !blocked(old(self).ram, root as int, va as int) ==> final(self).frames@.free_pages() == 0,
            r is Ok ==> {
                &&& lookup(final(self).ram, root as int, va as int) == (if valid(value) {
                    Some((0int, value))
                } else {
                    None
                })
                &&& final(self).same_maps_but(old(self), root as int, va as int)
                &&& final(self).frames@.free_pages() == old(self).frames@.free_pages() - missing(
                    old(self).ram,
                    root as int,
                    va as int,
                )
                &&& has_path(final(self).ram, root as int, va as int)
                &&& missing(old(self).ram, root as int, va as int) == 0 ==> final(self).owner@
                    == old(self).owner@ && final(self).frames@ == old(self).frames@
                &&& mids(final(self).ram, root as int) == mids(old(self).ram, root as int).insert(
                    vpn2(va as int),
                )
                &&& lows(final(self).ram, root as int) == lows(old(self).ram, root as int).insert(
                    key1(va as int),
                )
            },
    {
        let ghost before = *self;
        let (i2, i1, i0): (u64, u64, u64) = vpns(va);
        let t: u64 = match self.ensure_path(root, va) {
            Ok(t) => t,
            Err(_) => {
                proof {
                    reveal(PhysMemory::kept);
                }
                return Err(());
            },
        };
        let ghost a = *self;
        proof {
            a.lemma_path(root as int, va as int);
            a.lemma_pt(t as int);
            assert(a.ram.has(t + 8 * i0));
        }
        self.ram.write(t + 8 * i0, value);
        proof {
            Self::lemma_set_low(a, *self, root as int, va as int);
            Self::lemma_low_sets(a, *self, root as int, va as int);
            assert(self.others_same(&a, root as int)) by {
                let b = *self;
                assert forall|q: int, j: int|
                    #![trigger slot(b.ram, q, j)]
                    a.is_pt(q) && 0 <= j < 512 && !(q == t && j == i0) implies slot(b.ram, q, j)
                    == slot(a.ram, q, j) by {
                    Self::lemma_low_slots(a, b, root as int, va as int, q, j);
                }
                Self::lemma_others(a, b, root as int, t as int, i0 as int);
            }
            Self::lemma_others_steps(before, a, *self, root as int);
            self.lemma_path(root as int, va as int);
            assert(self.same_maps_but(&before, root as int, va as int)) by {
                assert forall|r: int, v: int|
                    self.is_root(r) && !(r == root && same_vpn(v, va as int)) implies #[trigger] lookup(
                    self.ram,
                    r,
                    v,
                ) == lookup(before.ram, r, v) by {
                    assert(lookup(self.ram, r, v) == lookup(a.ram, r, v));
                    assert(lookup(a.ram, r, v) == lookup(before.ram, r, v));
                }
            }
            reveal(PhysMemory::kept);
            lemma_same_maps(*self);
            assert(self.frames_grown(&a));
            Self::lemma_steps(before, a, *self);
        }
        Ok(())
    }
}

/// Reasons for which a user page cannot be mapped, other than a lack of memory.
pub open spec fn user_map_refused(m: PhysMemory, root: int, va: int, pa: int) -> bool {
    ||| va >= USER_VA_LIMIT
    ||| pa % 4096 != 0
    ||| lookup(m.ram, root, va) is Some
}

/// Map a page of the allocator for user access.
///
/// Refused, with every mapping as before: an address that is no user address, a physical address
/// that is not the start of a page of the allocator, a page that is mapped already, and a lack of
/// memory for the tables. `flags` are the ten low bits of a valid entry: what lies above them is the
/// number of the page, and an entry without its lowest bit maps nothing.
pub fn map_user_page(m: &mut PhysMemory, root: u64, va: u64, pa: u64, flags: u64) -> (r: Result<
    (),
    (),
>)
    requires
        old(m).inv(),
        old(m).is_root(root as int),
        flags < 1024,
        flags % 2 == 1,
    ensures
        final(m).inv(),
        final(m).is_root(root as int),
        final(m).kept(old(m), root as int),
        final(m).others_same(old(m), root as int),
        r is Err <==> user_map_refused(*old(m), root as int, va as int, pa as int) || !(
        old(m).frames@.base <= pa < old(m).frames@.addr(old(m).frames@.pages))
            || old(m).frames@.free_pages() < missing(old(m).ram, root as int, va as int),
        r is Err ==> final(m).same_maps(old(m)),
        r is Ok ==> {
            &&& lookup(final(m).ram, root as int, va as int) == Some(
                (0int, entry_for(pa as int, user_flags(flags as int))),
            )
            &&& final(m).same_maps_but(old(m), root as int, va as int)
            &&& final(m).frames@.free_pages() == old(m).frames@.free_pages() - missing(
                old(m).ram,
                root as int,
                va as int,
            )
            &&& final(m).frames@ == old(m).frames@.after_pages(
                missing(old(m).ram, root as int, va as int),
            )
            &&& has_path(final(m).ram, root as int, va as int)
            &&& mids(final(m).ram, root as int) == mids(old(m).ram, root as int).insert(
                vpn2(va as int),
            )
            &&& lows(final(m).ram, root as int) == lows(old(m).ram, root as int).insert(
                key1(va as int),
            )
        },
{
    if !crate::mem::page_in_range(&m.frames, pa) {
        proof {
            lemma_same_maps(*m);
            PhysMemory::lemma_kept_same(*m, root as int);
        }
        return Err(());
    }
    map_device_page(m, root, va, pa, flags)
}

/// Map a page for user access that need not belong to the allocator, such as the registers of a
/// device. `flags` are as for `map_user_page`.
pub fn map_device_page(m: &mut PhysMemory, root: u64, va: u64, pa: u64, flags: u64) -> (r: Result<
    (),
    (),
>)
    requires
        old(m).inv(),
        old(m).is_root(root as int),
        flags < 1024,
        flags % 2 == 1,
    ensures
        final(m).inv(),
        final(m).is_root(root as int),
        final(m).kept(old(m), root as int),
        final(m).others_same(old(m), root as int),
        r is Err <==> user_map_refused(*old(m), root as int, va as int, pa as int)
            || old(m).frames@.free_pages() < missing(old(m).ram, root as int, va as int),
        r is Err ==> final(m).same_maps(old(m)),
        r is Ok ==> {
            &&& lookup(final(m).ram, root as int, va as int) == Some(
                (0int, entry_for(pa as int, user_flags(flags as int))),
            )
            &&& final(m).same_maps_but(old(m), root as int, va as int)
            &&& final(m).frames@.free_pages() == old(m).frames@.free_pages() - missing(
                old(m).ram,
                root as int,
                va as int,
            )
            &&& final(m).frames@ == old(m).frames@.after_pages(
                missing(old(m).ram, root as int, va as int),
            )
            &&& has_path(final(m).ram, root as int, va as int)
            &&& mids(final(m).ram, root as int) == mids(old(m).ram, root as int).insert(
                vpn2(va as int),
            )
            &&& lows(final(m).ram, root as int) == lows(old(m).ram, root as int).insert(
                key1(va as int),
            )
        },
{
    proof {
        lemma_same_maps(*m);
        PhysMemory::lemma_kept_same(*m, root as int);
    }
    if va >= USER_VA_LIMIT || pa % 4096 != 0 {
        return Err(());
    }
    let ghost before = *m;
    if is_mapped(m, root, va) {
        return Err(());
    }
    let ghost before = *m;
    let r = m.set_entry(root, va, pte(pa, with_user(flags)));
    proof {
        assert(m.frames@.drawn_from(before.frames@)) by {
            reveal(PhysMemory::kept);
        }
        crate::mem::law_drawn_pages(before.frames@, m.frames@);
    }
    r
}

proof fn lemma_same_maps(m: PhysMemory)
    ensures
        m.same_maps(&m),
        m.same_data(&m),
        m.frames_grown(&m),
        forall|r: int| #[trigger] m.others_same(&m, r),
{
    reveal(PhysMemory::others_same);
    m.frames@.lemma_drawn_none();
}

/// Whether `va` is mapped, by a page of any size. Changes nothing.
pub fn is_mapped(m: &PhysMemory, root: u64, va: u64) -> (r: bool)
    requires
        m.inv(),
        m.is_root(root as int),
    ensures
        r == lookup(m.ram, root as int, va as int) is Some,
{
    walk(m, root, va).is_some()
}

/// Whether `va` is mapped with user access, by a page of any size. In the address space of a
/// process only small pages are.
pub fn is_user_mapped(m: &PhysMemory, root: u64, va: u64) -> (r: bool)
    requires
        m.inv(),
        m.is_root(root as int),
    ensures
        r == (lookup(m.ram, root as int, va as int) matches Some((level, e)) && is_user(e)),
{
    match walk(m, root, va) {
        Some((_, e)) => pte_user(e),
        None => false,
    }
}

/// The leaf that translates `va`, and its level.
fn walk(m: &PhysMemory, root: u64, va: u64) -> (r: Option<(u64, u64)>)
    requires
        m.inv(),
        m.is_root(root as int),
    ensures
        match r {
            Some((level, e)) => lookup(m.ram, root as int, va as int) == Some((level as int, e)),
            None => lookup(m.ram, root as int, va as int) is None,
        },
{
    let (i2, i1, i0): (u64, u64, u64) = vpns(va);
    proof {
        reveal(lookup);
        m.lemma_pt(root as int);
        assert(m.ram.has(root + 8 * i2));
        m.lemma_slot(root as int, i2 as int);
    }
    let e2: u64 = m.ram.read(root + 8 * i2);
    assert(e2 == slot(m.ram, root as int, i2 as int));
    if !pte_valid(e2) {
        return None;
    }
    if pte_leaf(e2) {
        return Some((2, e2));
    }
    let t1: u64 = pte_target(e2);
    proof {
        m.lemma_pt(t1 as int);
        assert(m.ram.has(t1 + 8 * i1));
        m.lemma_slot(t1 as int, i1 as int);
    }
    let e1: u64 = m.ram.read(t1 + 8 * i1);
    assert(e1 == slot(m.ram, t1 as int, i1 as int));
    if !pte_valid(e1) {
        return None;
    }
    if pte_leaf(e1) {
        return Some((1, e1));
    }
    let t0: u64 = pte_target(e1);
    proof {
        m.lemma_pt(t0 as int);
        assert(m.ram.has(t0 + 8 * i0));
    }
    let e0: u64 = m.ram.read(t0 + 8 * i0);
    assert(e0 == slot(m.ram, t0 as int, i0 as int));
    if pte_valid(e0) {
        Some((0, e0))
    } else {
        None
    }
}

/// Remove the mapping of the small page at `va`. Tables on its path that are missing are made.
pub fn unmap_4k(m: &mut PhysMemory, root: u64, va: u64) -> (r: Result<(), ()>)
    requires
        old(m).inv(),
        old(m).is_root(root as int),
    ensures
        final(m).inv(),
        final(m).is_root(root as int),
        final(m).kept(old(m), root as int),
        final(m).others_same(old(m), root as int),
        r is Err <==> blocked(old(m).ram, root as int, va as int) || old(m).frames@.free_pages()
            < missing(old(m).ram, root as int, va as int),
        r is Err ==> final(m).same_maps(old(m)),
        r is Ok ==> {
            &&& lookup(final(m).ram, root as int, va as int) is None
            &&& final(m).same_maps_but(old(m), root as int, va as int)
            &&& final(m).frames@.free_pages() == old(m).frames@.free_pages() - missing(
                old(m).ram,
                root as int,
                va as int,
            )
            &&& final(m).frames@ == old(m).frames@.after_pages(
                missing(old(m).ram, root as int, va as int),
            )
            &&& has_path(final(m).ram, root as int, va as int)
            &&& missing(old(m).ram, root as int, va as int) == 0 ==> final(m).owner@
                == old(m).owner@ && final(m).frames@ == old(m).frames@
            &&& mids(final(m).ram, root as int) == mids(old(m).ram, root as int).insert(
                vpn2(va as int),
            )
            &&& lows(final(m).ram, root as int) == lows(old(m).ram, root as int).insert(
                key1(va as int),
            )
        },
{
    let ghost before = *m;
    let r = m.set_entry(root, va, 0);
    proof {
        assert(m.frames@.drawn_from(before.frames@)) by {
            reveal(PhysMemory::kept);
        }
        crate::mem::law_drawn_pages(before.frames@, m.frames@);
    }
    r
}

impl PhysMemory {
    /// An entry of a middle table, which pointed to no table, was overwritten with a leaf.
    spec fn wrote_mid(&self, a: &PhysMemory, root: int, i2: int, i1: int) -> bool {
        let mid = target(slot(a.ram, root, i2));
        &&& a.inv()
        &&& a.is_root(root)
        &&& 0 <= i2 < 512
        &&& 0 <= i1 < 512
        &&& is_table(slot(a.ram, root, i2))
        &&& !is_table(slot(a.ram, mid, i1))
        &&& self.ram.wf()
        &&& self.frames == a.frames
        &&& self.owner@ == a.owner@
        &&& self.ram.same_but_word(&a.ram, mid + 8 * i1)
        &&& is_leaf(slot(self.ram, mid, i1))
    }

    proof fn lemma_mid_slots(
        a: PhysMemory,
        b: PhysMemory,
        root: int,
        i2: int,
        i1: int,
        q: int,
        j: int,
    )
        requires
            b.wrote_mid(&a, root, i2, i1),
            a.is_pt(q),
            0 <= j < 512,
            !(q == target(slot(a.ram, root, i2)) && j == i1),
        ensures
            slot(b.ram, q, j) == slot(a.ram, q, j),
    {
        let t = target(slot(a.ram, root, i2));
        a.lemma_slot(root, i2);
        a.lemma_pt(t);
        a.lemma_pt(q);
        assert(a.ram.has(q + 8 * j));
        if q != t {
            lemma_apart(q, t, j);
        }
        assert(b.ram.has(q + 8 * j));
        assert(b.ram.word(q + 8 * j) == a.ram.word(q + 8 * j));
    }

    #[verifier::rlimit(40)]
    proof fn lemma_mid_inv(a: PhysMemory, b: PhysMemory, root: int, i2: int, i1: int)
        requires
            b.wrote_mid(&a, root, i2, i1),
        ensures
            b.inv(),
    {
        let t = target(slot(a.ram, root, i2));
        a.lemma_slot(root, i2);
        assert forall|q: int| #[trigger] b.is_pt(q) implies b.place_ok(q) by {
            a.lemma_place(q);
            match a.owner@[q] {
                Owner::Root => {},
                Owner::Mid { root: r, idx } => {
                    assert(r != t);
                    Self::lemma_mid_slots(a, b, root, i2, i1, r, idx);
                },
                Owner::Low { mid: m, idx } => {
                    assert(!(m == t && idx == i1));
                    Self::lemma_mid_slots(a, b, root, i2, i1, m, idx);
                },
            }
        }
        assert forall|q: int, j: int|
            #![trigger slot(b.ram, q, j)]
            b.is_pt(q) && 0 <= j < 512 implies b.slot_ok(q, j) by {
            if !(q == t && j == i1) {
                Self::lemma_mid_slots(a, b, root, i2, i1, q, j);
                a.lemma_slot(q, j);
            }
        }
        assert forall|q: int| #[trigger] b.is_pt(q) implies b.frames@.allocated(q, 0) by {
            a.lemma_place(q);
        }
        b.lemma_consistent();
    }

    proof fn lemma_mid_data(a: PhysMemory, b: PhysMemory, root: int, i2: int, i1: int)
        requires
            b.wrote_mid(&a, root, i2, i1),
        ensures
            b.same_data(&a),
            mids(b.ram, root) == mids(a.ram, root),
            lows(b.ram, root) == lows(a.ram, root),
    {
        reveal(mids);
        reveal(lows);
        let t = target(slot(a.ram, root, i2));
        a.lemma_slot(root, i2);
        a.lemma_pt(t);
        assert forall|w: int|
            b.ram.has(w) && !b.is_pt(w - w % 4096) implies #[trigger] b.ram.word(w) == a.ram.word(
            w,
        ) by {
            assert(w - w % 4096 != t);
            assert(a.ram.has(w));
        }
        assert forall|i: int| #[trigger] mids(b.ram, root).contains(i) <==> mids(
            a.ram,
            root,
        ).contains(i) by {
            if 0 <= i < 512 {
                Self::lemma_mid_slots(a, b, root, i2, i1, root, i);
            }
        }
        assert(mids(b.ram, root) =~= mids(a.ram, root));
        assert forall|x: int| #[trigger] lows(b.ram, root).contains(x) <==> lows(
            a.ram,
            root,
        ).contains(x) by {
            let i = x / 512;
            let j = x % 512;
            if 0 <= x < 0x4_0000 {
                Self::lemma_mid_slots(a, b, root, i2, i1, root, i);
                if is_table(slot(a.ram, root, i)) {
                    a.lemma_slot(root, i);
                    let u = target(slot(a.ram, root, i));
                    if !(u == t && j == i1) {
                        Self::lemma_mid_slots(a, b, root, i2, i1, u, j);
                    }
                }
            }
        }
        assert(lows(b.ram, root) =~= lows(a.ram, root));
    }

    proof fn lemma_mid_lookup(
        a: PhysMemory,
        b: PhysMemory,
        root: int,
        i2: int,
        i1: int,
        r: int,
        v: int,
    )
        requires
            b.wrote_mid(&a, root, i2, i1),
            a.is_root(r),
        ensures
            lookup(b.ram, r, v) == if r == root && vpn2(v) == i2 && vpn1(v) == i1 {
                Some((1int, slot(b.ram, target(slot(a.ram, root, i2)), i1)))
            } else {
                lookup(a.ram, r, v)
            },
    {
        reveal(lookup);
        let t = target(slot(a.ram, root, i2));
        a.lemma_slot(root, i2);
        let e2 = slot(a.ram, r, vpn2(v));
        a.lemma_slot(r, vpn2(v));
        Self::lemma_mid_slots(a, b, root, i2, i1, r, vpn2(v));
        if is_table(e2) {
            let t1 = target(e2);
            a.lemma_slot(t1, vpn1(v));
            if !(t1 == t && vpn1(v) == i1) {
                Self::lemma_mid_slots(a, b, root, i2, i1, t1, vpn1(v));
                let e1 = slot(a.ram, t1, vpn1(v));
                if is_table(e1) {
                    Self::lemma_mid_slots(a, b, root, i2, i1, target(e1), vpn0(v));
                }
            } else {
                assert(a.owner@[t] == (Owner::Mid { root: r, idx: vpn2(v) }));
            }
        }
    }

    /// Same translation as in `other` but for the addresses `[lo, hi)` under `root`.
    pub open spec fn same_maps_out(
        &self,
        other: &PhysMemory,
        root: int,
        lo: int,
        hi: int,
    ) -> bool {
        &&& forall|r: int| #[trigger] self.is_root(r) <==> other.is_root(r)
        &&& forall|r: int, v: int|
            self.is_root(r) && 0 <= v < VA_LIMIT && !(r == root && lo <= v < hi) ==> #[trigger] lookup(
                self.ram,
                r,
                v,
            ) == lookup(other.ram, r, v)
    }
}

/// Map the 2 MiB from `va` on to `pa`. No small page may be mapped there.
fn map_super(m: &mut PhysMemory, root: u64, va: u64, pa: u64, flags: u64) -> (r: Result<(), ()>)
    requires
        old(m).inv(),
        old(m).is_root(root as int),
        flags < 1024,
        flags % 2 == 1,
        flags as int / 2 % 8 != 0,
        va < VA_LIMIT,
        va % SUPER_PAGE == 0,
        pa < PHYS_LIMIT,
        pa % SUPER_PAGE == 0,
        !is_leaf(slot(old(m).ram, root as int, vpn2(va as int))),
        !has_path(old(m).ram, root as int, va as int),
    ensures
        final(m).inv(),
        final(m).is_root(root as int),
        final(m).kept(old(m), root as int),
        ({
            let need: int = if mids(old(m).ram, root as int).contains(vpn2(va as int)) {
                0
            } else {
                1
            };
            &&& r is Err <==> old(m).frames@.free_pages() < need
            &&& r is Err ==> final(m).same_maps(old(m))
            &&& r is Ok ==> {
                &&& final(m).frames@.free_pages() == old(m).frames@.free_pages() - need
                &&& mids(final(m).ram, root as int) == mids(old(m).ram, root as int).insert(
                    vpn2(va as int),
                )
                &&& lows(final(m).ram, root as int) == lows(old(m).ram, root as int)
                &&& forall|v: int|
                    va <= v < va + SUPER_PAGE ==> #[trigger] lookup(final(m).ram, root as int, v)
                        == Some((1int, entry_for(pa as int, flags as int)))
                &&& final(m).same_maps_out(old(m), root as int, va as int, va + SUPER_PAGE)
            }
        }),
{
    let ghost before = *m;
    let (i2, i1, i0): (u64, u64, u64) = vpns(va);
    proof {
        reveal(mids);
        m.frames.lemma_wf();
        law_page_available(m.frames@);
    }
    let mid: u64 = match m.ensure_table(root, i2) {
        Ok(t) => t,
        Err(_) => {
            proof {
                reveal(PhysMemory::kept);
            }
            return Err(());
        },
    };
    let ghost a = *m;
    proof {
        a.lemma_pt(mid as int);
        assert(a.ram.has(mid + 8 * i1));
        lemma_entry(pa as int, flags as int);
        before.lemma_slot(root as int, i2 as int);
        if !valid(slot(before.ram, root as int, i2 as int)) {
            assert(slot(a.ram, mid as int, i1 as int) == 0);
        }
        assert(!is_table(slot(a.ram, mid as int, i1 as int)));
    }
    let v: u64 = pte(pa, flags);
    m.ram.write(mid + 8 * i1, v);
    proof {
        let b = *m;
        let r0 = root as int;
        assert(b.wrote_mid(&a, r0, i2 as int, i1 as int));
        PhysMemory::lemma_mid_inv(a, b, r0, i2 as int, i1 as int);
        PhysMemory::lemma_mid_data(a, b, r0, i2 as int, i1 as int);
        PhysMemory::lemma_super_maps(before, a, b, r0, va as int);
        PhysMemory::lemma_one_table_sets(before, a, r0, i2 as int, mid as int);
        reveal(PhysMemory::kept);
        a.frames@.lemma_drawn_none();
        assert(b.frames_grown(&a));
        PhysMemory::lemma_steps(before, a, b);
    }
    Ok(())
}

impl PhysMemory {
    proof fn lemma_super_maps(before: PhysMemory, a: PhysMemory, b: PhysMemory, root: int, va: int)
        requires
            0 <= va < VA_LIMIT,
            va % (SUPER_PAGE as int) == 0,
            a.same_maps(&before),
            b.wrote_mid(&a, root, vpn2(va), vpn1(va)),
        ensures
            forall|v: int|
                va <= v < va + SUPER_PAGE ==> #[trigger] lookup(b.ram, root, v) == Some(
                    (1int, slot(b.ram, target(slot(a.ram, root, vpn2(va))), vpn1(va))),
                ),
            b.same_maps_out(&before, root, va, va + SUPER_PAGE),
    {
        assert forall|v: int| va <= v < va + SUPER_PAGE implies #[trigger] lookup(b.ram, root, v)
            == Some((1int, slot(b.ram, target(slot(a.ram, root, vpn2(va))), vpn1(va)))) by {
            lemma_vpn(v, va);
            Self::lemma_mid_lookup(a, b, root, vpn2(va), vpn1(va), root, v);
        }
        assert forall|r: int| #[trigger] b.is_root(r) <==> before.is_root(r) by {
            assert(a.is_root(r) <==> before.is_root(r));
        }
        assert forall|r: int, v: int|
            b.is_root(r) && 0 <= v < VA_LIMIT && !(r == root && va <= v < va
                + SUPER_PAGE) implies #[trigger] lookup(b.ram, r, v) == lookup(before.ram, r, v) by {
            lemma_vpn(v, va);
            Self::lemma_mid_lookup(a, b, root, vpn2(va), vpn1(va), r, v);
            assert(lookup(a.ram, r, v) == lookup(before.ram, r, v));
        }
    }

    /// Making sure of one middle table adds at most that table.
    proof fn lemma_one_table_sets(a: PhysMemory, b: PhysMemory, root: int, i2: int, mid: int)
        requires
            a.inv(),
            a.is_root(root),
            0 <= i2 < 512,
            b.slots_kept(&a, root, i2),
            is_table(slot(b.ram, root, i2)),
            target(slot(b.ram, root, i2)) == mid,
            is_table(slot(a.ram, root, i2)) ==> b.same(&a),
            !is_table(slot(a.ram, root, i2)) ==> !a.is_pt(mid) && b.is_pt(mid),
            !is_leaf(slot(a.ram, root, i2)),
        ensures
            mids(b.ram, root) == mids(a.ram, root).insert(i2),
            lows(b.ram, root) == lows(a.ram, root),
    {
        reveal(mids);
        reveal(lows);
        assert forall|i: int| #[trigger] mids(b.ram, root).contains(i) <==> mids(
            a.ram,
            root,
        ).contains(i) || i == i2 by {
            if 0 <= i < 512 && i != i2 {
                assert(slot(b.ram, root, i) == slot(a.ram, root, i));
            }
        }
        assert(mids(b.ram, root) =~= mids(a.ram, root).insert(i2));
        assert forall|x: int| #[trigger] lows(b.ram, root).contains(x) <==> lows(
            a.ram,
            root,
        ).contains(x) by {
            let i = x / 512;
            let j = x % 512;
            if 0 <= x < 0x4_0000 {
                if i != i2 {
                    assert(slot(b.ram, root, i) == slot(a.ram, root, i));
                    if is_table(slot(a.ram, root, i)) {
                        a.lemma_slot(root, i);
                        let t = target(slot(a.ram, root, i));
                        assert(slot(b.ram, t, j) == slot(a.ram, t, j));
                    }
                } else if !is_table(slot(a.ram, root, i)) {
                    assert(slot(b.ram, mid, j) == 0);
                }
            }
        }
        assert(lows(b.ram, root) =~= lows(a.ram, root));
    }
}

/// Number of tables under the root.
pub open spec fn table_count(m: Ram, root: int) -> int {
    (mids(m, root).len() + lows(m, root).len()) as int
}

pub proof fn lemma_sets_finite(m: Ram, root: int)
    ensures
        mids(m, root).finite(),
        lows(m, root).finite(),
{
    reveal(mids);
    reveal(lows);
    vstd::set_lib::lemma_int_range(0, 512);
    vstd::set_lib::lemma_int_range(0, 0x4_0000);
    vstd::set_lib::lemma_len_subset(mids(m, root), vstd::set_lib::set_int_range(0, 512));
    vstd::set_lib::lemma_len_subset(lows(m, root), vstd::set_lib::set_int_range(0, 0x4_0000));
}

/// The tables that are missing for an address, by the sets of those that are there.
pub proof fn lemma_missing(m: Ram, root: int, va: int)
    ensures
        !blocked(m, root, va) ==> missing(m, root, va) == (if mids(m, root).contains(vpn2(va)) {
            0int
        } else {
            1
        }) + (if lows(m, root).contains(key1(va)) {
            0int
        } else {
            1
        }),
        has_path(m, root, va) <==> lows(m, root).contains(key1(va)),
{
    reveal(mids);
    reveal(lows);
    reveal(lookup);
    reveal(missing);
    assert(key1(va) / 512 == vpn2(va));
    assert(key1(va) % 512 == vpn1(va));
}

/// Tables that mapping `[lo, hi)` in small pages makes.
pub open spec fn small_need(m: Ram, root: int, lo: int, hi: int) -> int {
    (mids(m, root) + gigs(lo, hi)).len() + (lows(m, root) + megs(lo, hi)).len() - table_count(
        m,
        root,
    )
}

/// Map `[start, end)` one to one in small pages.
fn map_region_4k(m: &mut PhysMemory, root: u64, start: u64, end: u64, flags: u64) -> (r: Result<
    (),
    (),
>)
    requires
        old(m).inv(),
        old(m).is_root(root as int),
        start % 4096 == 0,
        end % 4096 == 0,
        start <= end <= VA_LIMIT,
        flags < 1024,
        flags % 2 == 1,
        forall|v: int| start <= v < end ==> !#[trigger] blocked(old(m).ram, root as int, v),
    ensures
        final(m).inv(),
        final(m).is_root(root as int),
        final(m).kept(old(m), root as int),
        r is Err <==> old(m).frames@.free_pages() < small_need(
            old(m).ram,
            root as int,
            start as int,
            end as int,
        ),
        r is Ok ==> {
            &&& final(m).same_maps_out(old(m), root as int, start as int, end as int)
            &&& forall|v: int|
                start <= v < end ==> #[trigger] lookup(final(m).ram, root as int, v) == Some(
                    (0int, entry_for(v - v % 4096, flags as int)),
                )
            &&& mids(final(m).ram, root as int) == mids(old(m).ram, root as int) + gigs(
                start as int,
                end as int,
            )
            &&& lows(final(m).ram, root as int) == lows(old(m).ram, root as int) + megs(
                start as int,
                end as int,
            )
            &&& final(m).frames@.free_pages() == old(m).frames@.free_pages() - small_need(
                old(m).ram,
                root as int,
                start as int,
                end as int,
            )
        },
{
    let ghost before = *m;
    let ghost r0 = root as int;
    let mut va: u64 = start;
    proof {
        lemma_same_maps(before);
        PhysMemory::lemma_kept_same(before, r0);
        crate::sv39::lemma_range_empty(start as int);
        assert(mids(before.ram, r0) + gigs(start as int, start as int) =~= mids(before.ram, r0));
        assert(lows(before.ram, r0) + megs(start as int, start as int) =~= lows(before.ram, r0));
    }
    while va < end
        invariant
            before == *old(m),
            before.inv(),
            r0 == root,
            m.inv(),
            m.is_root(r0),
            m.kept(&before, r0),
            start % 4096 == 0,
            end % 4096 == 0,
            va % 4096 == 0,
            start <= va <= end <= VA_LIMIT,
            flags < 1024,
            flags % 2 == 1,
            forall|v: int| start <= v < end ==> !#[trigger] blocked(before.ram, r0, v),
            m.same_maps_out(&before, r0, start as int, va as int),
            forall|v: int|
                start <= v < va ==> #[trigger] lookup(m.ram, r0, v) == Some(
                    (0int, entry_for(v - v % 4096, flags as int)),
                ),
            mids(m.ram, r0) == mids(before.ram, r0) + gigs(start as int, va as int),
            lows(m.ram, r0) == lows(before.ram, r0) + megs(start as int, va as int),
            m.frames@.free_pages() == before.frames@.free_pages() + table_count(before.ram, r0)
                - table_count(m.ram, r0),
        decreases end - va,
    {
        let ghost a = *m;
        proof {
            assert(lookup(a.ram, r0, va as int) == lookup(before.ram, r0, va as int));
            assert(!blocked(before.ram, r0, va as int));
            lemma_small_step(before, a, start as int, va as int, end as int, r0);
        }
        let v: u64 = pte(va, flags);
        let r = m.set_entry(root, va, v);
        proof {
            PhysMemory::lemma_kept(before, a, *m, r0);
        }
        if r.is_err() {
            return Err(());
        }
        proof {
            lemma_small_sets(before, a, *m, r0, start as int, va as int);
            lemma_small_maps(before, a, *m, r0, start as int, va as int, v);
        }
        va = va + 4096;
    }
    proof {
        m.frames.lemma_wf();
        law_page_available(m.frames@);
    }
    Ok(())
}

proof fn lemma_small_sets(
    before: PhysMemory,
    a: PhysMemory,
    b: PhysMemory,
    root: int,
    lo: int,
    p: int,
)
    requires
        0 <= lo <= p < VA_LIMIT,
        lo % 4096 == 0,
        p % 4096 == 0,
        !blocked(a.ram, root, p),
        mids(a.ram, root) == mids(before.ram, root) + gigs(lo, p),
        lows(a.ram, root) == lows(before.ram, root) + megs(lo, p),
        mids(b.ram, root) == mids(a.ram, root).insert(vpn2(p)),
        lows(b.ram, root) == lows(a.ram, root).insert(key1(p)),
        b.frames@.free_pages() == a.frames@.free_pages() - missing(a.ram, root, p),
    ensures
        mids(b.ram, root) == mids(before.ram, root) + gigs(lo, p + 4096),
        lows(b.ram, root) == lows(before.ram, root) + megs(lo, p + 4096),
        b.frames@.free_pages() == a.frames@.free_pages() + table_count(a.ram, root) - table_count(
            b.ram,
            root,
        ),
{
    lemma_vpn(p, p);
    lemma_grow(lo, p, 4096);
    lemma_missing(a.ram, root, p);
    lemma_sets_finite(a.ram, root);
    assert(mids(b.ram, root) =~= mids(before.ram, root) + gigs(lo, p + 4096));
    assert(lows(b.ram, root) =~= lows(before.ram, root) + megs(lo, p + 4096));
}

/// A lack of memory at one page of a region is a lack of memory for the region.
proof fn lemma_small_step(
    before: PhysMemory,
    a: PhysMemory,
    lo: int,
    p: int,
    hi: int,
    root: int,
)
    requires
        0 <= lo <= p < hi <= VA_LIMIT,
        lo % 4096 == 0,
        p % 4096 == 0,
        hi % 4096 == 0,
        !blocked(a.ram, root, p),
        mids(a.ram, root) == mids(before.ram, root) + gigs(lo, p),
        lows(a.ram, root) == lows(before.ram, root) + megs(lo, p),
        a.frames@.free_pages() == before.frames@.free_pages() + table_count(before.ram, root)
            - table_count(a.ram, root),
    ensures
        a.frames@.free_pages() < missing(a.ram, root, p) ==> before.frames@.free_pages()
            < small_need(before.ram, root, lo, hi),
{
    lemma_vpn(p, p);
    lemma_grow(lo, p, 4096);
    lemma_missing(a.ram, root, p);
    lemma_sets_finite(a.ram, root);
    lemma_sets_finite(before.ram, root);
    lemma_ranges_finite(lo, hi);
    let m1 = mids(a.ram, root).insert(vpn2(p));
    let l1 = lows(a.ram, root).insert(key1(p));
    let m2 = mids(before.ram, root) + gigs(lo, hi);
    let l2 = lows(before.ram, root) + megs(lo, hi);
    lemma_join(lo, p + 4096, hi);
    assert(m1.subset_of(m2));
    assert(l1.subset_of(l2));
    vstd::set_lib::lemma_len_subset(m1, m2);
    vstd::set_lib::lemma_len_subset(l1, l2);
}

/// Addresses of one page are translated alike.
pub proof fn lemma_lookup_page(m: Ram, root: int, a: int, b: int)
    requires
        same_vpn(a, b),
    ensures
        lookup(m, root, a) == lookup(m, root, b),
{
    reveal(lookup);
}

/// One more page of a region is mapped.
proof fn lemma_small_maps(
    before: PhysMemory,
    a: PhysMemory,
    b: PhysMemory,
    root: int,
    lo: int,
    p: int,
    e: u64,
)
    requires
        0 <= lo <= p < VA_LIMIT,
        p % 4096 == 0,
        valid(e),
        a.same_maps_out(&before, root, lo, p),
        b.same_maps_but(&a, root, p),
        lookup(b.ram, root, p) == Some((0int, e)),
        b.is_root(root),
    ensures
        b.same_maps_out(&before, root, lo, p + 4096),
        forall|v: int| p <= v < p + 4096 ==> #[trigger] lookup(b.ram, root, v) == Some((0int, e)),
        forall|v: int| lo <= v < p ==> #[trigger] lookup(b.ram, root, v) == lookup(a.ram, root, v),
{
    assert forall|v: int| p <= v < p + 4096 implies #[trigger] lookup(b.ram, root, v) == Some(
        (0int, e),
    ) by {
        lemma_vpn(v, p);
        lemma_lookup_page(b.ram, root, v, p);
    }
    assert forall|v: int| lo <= v < p implies #[trigger] lookup(b.ram, root, v) == lookup(
        a.ram,
        root,
        v,
    ) by {
        lemma_vpn(v, p);
    }
    assert forall|r: int| #[trigger] b.is_root(r) <==> before.is_root(r) by {
        assert(a.is_root(r) <==> before.is_root(r));
    }
    assert forall|r: int, v: int|
        b.is_root(r) && 0 <= v < VA_LIMIT && !(r == root && lo <= v < p
            + 4096) implies #[trigger] lookup(b.ram, r, v) == lookup(before.ram, r, v) by {
        lemma_vpn(v, p);
        assert(a.is_root(r));
        assert(lookup(a.ram, r, v) == lookup(before.ram, r, v));
    }
}

/// Middle tables that mapping `[lo, hi)` makes.
pub open spec fn mid_need(m: Ram, root: int, lo: int, hi: int) -> int {
    (mids(m, root) + gigs(lo, hi)).len() - mids(m, root).len()
}

/// Map `[start, end)` one to one in pages of 2 MiB. Nothing may be mapped there yet.
fn map_region_super(m: &mut PhysMemory, root: u64, start: u64, end: u64, flags: u64) -> (r: Result<
    (),
    (),
>)
    requires
        old(m).inv(),
        old(m).is_root(root as int),
        start % SUPER_PAGE == 0,
        end % SUPER_PAGE == 0,
        start <= end <= VA_LIMIT,
        flags < 1024,
        flags % 2 == 1,
        flags as int / 2 % 8 != 0,
        forall|v: int| start <= v < end ==> #[trigger] lookup(old(m).ram, root as int, v) is None,
        lows(old(m).ram, root as int).disjoint(megs(start as int, end as int)),
    ensures
        final(m).inv(),
        final(m).is_root(root as int),
        final(m).kept(old(m), root as int),
        r is Err <==> old(m).frames@.free_pages() < mid_need(
            old(m).ram,
            root as int,
            start as int,
            end as int,
        ),
        r is Ok ==> {
            &&& final(m).same_maps_out(old(m), root as int, start as int, end as int)
            &&& forall|v: int|
                start <= v < end ==> #[trigger] lookup(final(m).ram, root as int, v) == Some(
                    (1int, entry_for(v - v % 0x20_0000, flags as int)),
                )
            &&& mids(final(m).ram, root as int) == mids(old(m).ram, root as int) + gigs(
                start as int,
                end as int,
            )
            &&& lows(final(m).ram, root as int) == lows(old(m).ram, root as int)
            &&& final(m).frames@.free_pages() == old(m).frames@.free_pages() - mid_need(
                old(m).ram,
                root as int,
                start as int,
                end as int,
            )
        },
{
    let ghost before = *m;
    let ghost r0 = root as int;
    let mut va: u64 = start;
    proof {
        lemma_same_maps(before);
        PhysMemory::lemma_kept_same(before, r0);
        crate::sv39::lemma_range_empty(start as int);
        assert(mids(before.ram, r0) + gigs(start as int, start as int) =~= mids(before.ram, r0));
    }
    while va < end
        invariant
            before == *old(m),
            before.inv(),
            r0 == root,
            m.inv(),
            m.is_root(r0),
            m.kept(&before, r0),
            start % SUPER_PAGE == 0,
            end % SUPER_PAGE == 0,
            va % SUPER_PAGE == 0,
            start <= va <= end <= VA_LIMIT,
            flags < 1024,
            flags % 2 == 1,
            flags as int / 2 % 8 != 0,
            forall|v: int| start <= v < end ==> #[trigger] lookup(before.ram, r0, v) is None,
            lows(before.ram, r0).disjoint(megs(start as int, end as int)),
            m.same_maps_out(&before, r0, start as int, va as int),
            forall|v: int|
                start <= v < va ==> #[trigger] lookup(m.ram, r0, v) == Some(
                    (1int, entry_for(v - v % 0x20_0000, flags as int)),
                ),
            mids(m.ram, r0) == mids(before.ram, r0) + gigs(start as int, va as int),
            lows(m.ram, r0) == lows(before.ram, r0),
            m.frames@.free_pages() == before.frames@.free_pages() + mids(before.ram, r0).len()
                - mids(m.ram, r0).len(),
        decreases end - va,
    {
        let ghost a = *m;
        proof {
            assert(lookup(a.ram, r0, va as int) == lookup(before.ram, r0, va as int));
            lemma_super_step(before, a, start as int, va as int, end as int, r0);
        }
        let r = map_super(m, root, va, va, flags);
        proof {
            PhysMemory::lemma_kept(before, a, *m, r0);
        }
        if r.is_err() {
            return Err(());
        }
        proof {
            lemma_super_region(before, a, *m, r0, start as int, va as int, flags as int);
        }
        va = va + SUPER_PAGE;
    }
    proof {
        m.frames.lemma_wf();
        law_page_available(m.frames@);
    }
    Ok(())
}

proof fn lemma_super_step(
    before: PhysMemory,
    a: PhysMemory,
    lo: int,
    p: int,
    hi: int,
    root: int,
)
    requires
        0 <= lo <= p < hi <= VA_LIMIT,
        lo % (SUPER_PAGE as int) == 0,
        p % (SUPER_PAGE as int) == 0,
        hi % (SUPER_PAGE as int) == 0,
        lookup(a.ram, root, p) is None,
        lows(before.ram, root).disjoint(megs(lo, hi)),
        mids(a.ram, root) == mids(before.ram, root) + gigs(lo, p),
        lows(a.ram, root) == lows(before.ram, root),
        a.frames@.free_pages() == before.frames@.free_pages() + mids(before.ram, root).len() - mids(
            a.ram,
            root,
        ).len(),
    ensures
        !is_leaf(slot(a.ram, root, vpn2(p))),
        !has_path(a.ram, root, p),
        a.frames@.free_pages() < (if mids(a.ram, root).contains(vpn2(p)) {
            0int
        } else {
            1
        }) ==> before.frames@.free_pages() < mid_need(before.ram, root, lo, hi),
{
    lemma_vpn(p, p);
    lemma_grow(lo, p, 0x20_0000);
    lemma_missing(a.ram, root, p);
    lemma_sets_finite(a.ram, root);
    lemma_sets_finite(before.ram, root);
    lemma_ranges_finite(lo, hi);
    lemma_join(lo, p + 0x20_0000, hi);
    let m1 = mids(a.ram, root).insert(vpn2(p));
    let m2 = mids(before.ram, root) + gigs(lo, hi);
    assert(m1.subset_of(m2));
    vstd::set_lib::lemma_len_subset(m1, m2);
    assert(megs(lo, hi).contains(key1(p)));
    reveal(lookup);
}

proof fn lemma_super_region(
    before: PhysMemory,
    a: PhysMemory,
    b: PhysMemory,
    root: int,
    lo: int,
    p: int,
    flags: int,
)
    requires
        0 <= lo <= p < VA_LIMIT,
        lo % (SUPER_PAGE as int) == 0,
        p % (SUPER_PAGE as int) == 0,
        a.same_maps_out(&before, root, lo, p),
        b.same_maps_out(&a, root, p, p + SUPER_PAGE),
        b.is_root(root),
        forall|v: int|
            lo <= v < p ==> #[trigger] lookup(a.ram, root, v) == Some(
                (1int, entry_for(v - v % 0x20_0000, flags)),
            ),
        forall|v: int|
            p <= v < p + SUPER_PAGE ==> #[trigger] lookup(b.ram, root, v) == Some(
                (1int, entry_for(p, flags)),
            ),
        mids(a.ram, root) == mids(before.ram, root) + gigs(lo, p),
        mids(b.ram, root) == mids(a.ram, root).insert(vpn2(p)),
        b.frames@.free_pages() == a.frames@.free_pages() - (if mids(a.ram, root).contains(
            vpn2(p),
        ) {
            0int
        } else {
            1
        }),
    ensures
        b.same_maps_out(&before, root, lo, p + SUPER_PAGE),
        forall|v: int|
            lo <= v < p + SUPER_PAGE ==> #[trigger] lookup(b.ram, root, v) == Some(
                (1int, entry_for(v - v % 0x20_0000, flags)),
            ),
        mids(b.ram, root) == mids(before.ram, root) + gigs(lo, p + SUPER_PAGE),
        b.frames@.free_pages() == a.frames@.free_pages() + mids(a.ram, root).len() - mids(
            b.ram,
            root,
        ).len(),
{
    lemma_vpn(p, p);
    lemma_grow(lo, p, 0x20_0000);
    lemma_sets_finite(a.ram, root);
    assert(mids(b.ram, root) =~= mids(before.ram, root) + gigs(lo, p + SUPER_PAGE));
    assert forall|v: int| lo <= v < p + SUPER_PAGE implies #[trigger] lookup(b.ram, root, v)
        == Some((1int, entry_for(v - v % 0x20_0000, flags))) by {
        if v < p {
            assert(lookup(b.ram, root, v) == lookup(a.ram, root, v));
        } else {
            assert(v - v % 0x20_0000 == p);
        }
    }
    assert forall|r: int| #[trigger] b.is_root(r) <==> before.is_root(r) by {
        assert(a.is_root(r) <==> before.is_root(r));
    }
    assert forall|r: int, v: int|
        b.is_root(r) && 0 <= v < VA_LIMIT && !(r == root && lo <= v < p
            + SUPER_PAGE) implies #[trigger] lookup(b.ram, r, v) == lookup(before.ram, r, v) by {
        assert(a.is_root(r));
        assert(lookup(a.ram, r, v) == lookup(before.ram, r, v));
    }
}

/// Where the kernel and its stacks lie in memory, as the linker placed them.
#[derive(Clone, Copy)]
pub struct KernelLayout {
    pub ram_start: u64,
    pub ram_end: u64,
    pub kernel_start: u64,
    pub text_start: u64,
    pub rodata_start: u64,
    pub data_start: u64,
    pub kernel_end: u64,
    /// Page below the boot stack.
    pub stack_guard: u64,
    /// Trap stacks: a guard area and a stack for each hart.
    pub trap_base: u64,
    pub trap_top: u64,
    /// Idle stacks, laid out like the trap stacks.
    pub idle_base: u64,
    pub idle_top: u64,
    pub uart_base: u64,
}

/// `v` lies in the guard area of one of the stacks in `[base, top)`.
pub open spec fn in_guard(base: int, top: int, v: int) -> bool {
    base <= v < top && (v - base) % (TRAP_STRIDE as int) < TRAP_GUARD
}

impl KernelLayout {
    /// End of the memory that is mapped in small pages.
    pub open spec fn image_end(&self) -> int {
        round_up(self.kernel_end as int, SUPER_PAGE as int)
    }

    /// The parts follow one another, on page boundaries, inside the RAM; the stacks lie in the
    /// part that is mapped in small pages; the UART lies outside the RAM.
    pub open spec fn wf(&self) -> bool {
        &&& self.ram_start % SUPER_PAGE == 0
        &&& self.ram_end % SUPER_PAGE == 0
        &&& self.kernel_start % SUPER_PAGE == 0
        &&& self.text_start % 4096 == 0
        &&& self.rodata_start % 4096 == 0
        &&& self.data_start % 4096 == 0
        &&& self.kernel_end % 4096 == 0
        &&& self.ram_start <= self.kernel_start <= self.text_start <= self.rodata_start
            <= self.data_start <= self.kernel_end <= self.ram_end <= VA_LIMIT
        &&& self.stack_guard % 4096 == 0
        &&& self.kernel_start <= self.stack_guard < self.image_end()
        &&& self.trap_base % 4096 == 0
        &&& self.kernel_start <= self.trap_base <= self.trap_top <= self.image_end()
        &&& (self.trap_top - self.trap_base) % (TRAP_STRIDE as int) == 0
        &&& self.idle_base % 4096 == 0
        &&& self.kernel_start <= self.idle_base <= self.idle_top <= self.image_end()
        &&& (self.idle_top - self.idle_base) % (TRAP_STRIDE as int) == 0
        &&& self.uart_base < VA_LIMIT
        &&& self.uart_base < self.ram_start || self.uart_base >= self.ram_end
    }

    /// `v` lies in a page that is left unmapped so that a stack overflow faults.
    pub open spec fn guarded(&self, v: int) -> bool {
        ||| self.stack_guard <= v < self.stack_guard + 4096
        ||| in_guard(self.trap_base as int, self.trap_top as int, v)
        ||| in_guard(self.idle_base as int, self.idle_top as int, v)
    }

    /// Translation of the RAM, without guard pages.
    pub open spec fn ram_map(&self, v: int) -> Option<(int, u64)> {
        let page = v - v % 4096;
        let big = v - v % 0x20_0000;
        if v < self.ram_start {
            None
        } else if v < self.kernel_start {
            Some((1int, entry_for(big, PTE_LEAF_R as int)))
        } else if v < self.text_start {
            Some((0int, entry_for(page, PTE_LEAF_RW as int)))
        } else if v < self.rodata_start {
            Some((0int, entry_for(page, PTE_LEAF_RX as int)))
        } else if v < self.data_start {
            Some((0int, entry_for(page, PTE_LEAF_R as int)))
        } else if v < self.image_end() {
            Some((0int, entry_for(page, PTE_LEAF_RW as int)))
        } else if v < self.ram_end {
            Some((1int, entry_for(big, PTE_LEAF_RW as int)))
        } else {
            None
        }
    }

    /// Translation of the kernel region: firmware and constants read-only, code executable, the
    /// rest of the RAM and the UART writable, guard pages unmapped. No leaf grants user access.
    pub open spec fn kernel_map(&self, v: int) -> Option<(int, u64)> {
        if v / 4096 == self.uart_base as int / 4096 {
            Some((0int, entry_for(v - v % 4096, PTE_LEAF_RW as int)))
        } else if self.guarded(v) {
            None
        } else {
            self.ram_map(v)
        }
    }

    /// Tables that the kernel region takes, other than the root.
    pub open spec fn tables(&self) -> int {
        (gigs(self.ram_start as int, self.ram_end as int).insert(
            self.uart_base as int / 0x4000_0000,
        ).len() + megs(self.kernel_start as int, self.image_end()).insert(
            self.uart_base as int / 0x20_0000,
        ).len()) as int
    }
}

/// Remove the mappings of the guard areas of the stacks in `[base, top)`.
fn unmap_guard_pages(m: &mut PhysMemory, root: u64, base: u64, top: u64)
    requires
        old(m).inv(),
        old(m).is_root(root as int),
        base % 4096 == 0,
        base <= top <= VA_LIMIT,
        (top - base) % (TRAP_STRIDE as int) == 0,
        megs(base as int, top as int).subset_of(lows(old(m).ram, root as int)),
    ensures
        final(m).inv(),
        final(m).is_root(root as int),
        final(m).kept(old(m), root as int),
        mids(final(m).ram, root as int) == mids(old(m).ram, root as int),
        lows(final(m).ram, root as int) == lows(old(m).ram, root as int),
        final(m).frames@.free_pages() == old(m).frames@.free_pages(),
        forall|r: int| #[trigger] final(m).is_root(r) <==> old(m).is_root(r),
        forall|r: int, v: int|
            final(m).is_root(r) && 0 <= v < VA_LIMIT ==> #[trigger] lookup(final(m).ram, r, v) == (
            if r == root && in_guard(base as int, top as int, v) {
                None
            } else {
                lookup(old(m).ram, r, v)
            }),
{
    let ghost before = *m;
    let ghost r0 = root as int;
    let mut page: u64 = base;
    proof {
        PhysMemory::lemma_kept_same(before, r0);
    }
    while page < top
        invariant
            before == *old(m),
            r0 == root,
            m.inv(),
            m.is_root(r0),
            m.kept(&before, r0),
            base % 4096 == 0,
            base <= page <= top <= VA_LIMIT,
            page % 4096 == 0,
            (top - base) % (TRAP_STRIDE as int) == 0,
            megs(base as int, top as int).subset_of(lows(before.ram, r0)),
            mids(m.ram, r0) == mids(before.ram, r0),
            lows(m.ram, r0) == lows(before.ram, r0),
            m.frames@.free_pages() == before.frames@.free_pages(),
            forall|r: int| #[trigger] m.is_root(r) <==> before.is_root(r),
            forall|r: int, v: int|
                m.is_root(r) && 0 <= v < VA_LIMIT ==> #[trigger] lookup(m.ram, r, v) == (if r == r0
                    && v < page && in_guard(base as int, top as int, v) {
                    None
                } else {
                    lookup(before.ram, r, v)
                }),
        decreases top - page,
    {
        let ghost a = *m;
        assert(page + 4096 <= top);
        if (page - base) % TRAP_STRIDE < TRAP_GUARD {
            proof {
                lemma_vpn(page as int, page as int);
                lemma_path_there(a, r0, page as int, base as int, top as int);
                a.frames.lemma_wf();
                law_page_available(a.frames@);
            }
            let r = m.set_entry(root, page, 0);
            proof {
                let b = *m;
                PhysMemory::lemma_kept(before, a, b, r0);
                assert(r is Ok);
                assert(mids(b.ram, r0) =~= mids(a.ram, r0));
                assert(lows(b.ram, r0) =~= lows(a.ram, r0));
                assert forall|r: int, v: int|
                    b.is_root(r) && 0 <= v < VA_LIMIT implies #[trigger] lookup(b.ram, r, v) == (
                if r == r0 && v < page + 4096 && in_guard(base as int, top as int, v) {
                    None
                } else {
                    lookup(before.ram, r, v)
                }) by {
                    lemma_vpn(v, page as int);
                    assert(a.is_root(r));
                    if r == r0 && v / 4096 == page as int / 4096 {
                        lemma_lookup_page(b.ram, r0, v, page as int);
                        lemma_guard_page(base as int, top as int, page as int, v);
                    } else {
                        assert(lookup(b.ram, r, v) == lookup(a.ram, r, v));
                    }
                }
            }
        } else {
            proof {
                assert forall|r: int, v: int|
                    a.is_root(r) && 0 <= v < VA_LIMIT implies #[trigger] lookup(a.ram, r, v) == (
                if r == r0 && v < page + 4096 && in_guard(base as int, top as int, v) {
                    None
                } else {
                    lookup(before.ram, r, v)
                }) by {
                    if v / 4096 == page as int / 4096 {
                        lemma_guard_page(base as int, top as int, page as int, v);
                    }
                }
            }
        }
        page = page + 4096;
    }
}

/// A page lies wholly in a guard area or wholly outside.
proof fn lemma_guard_page(base: int, top: int, page: int, v: int)
    requires
        base % 4096 == 0,
        page % 4096 == 0,
        base <= page < top,
        (top - base) % (TRAP_STRIDE as int) == 0,
        v / 4096 == page / 4096,
    ensures
        in_guard(base, top, v) <==> in_guard(base, top, page),
{
    let d = page - base;
    let q = d / 0x8000;
    let r = d % 0x8000;
    let k = v % 4096;
    assert(v == page + k);
    assert(d == q * 0x8000 + r);
    assert(d % 4096 == 0);
    assert(r % 4096 == 0);
    assert(r <= 0x7000);
    vstd::arithmetic::div_mod::lemma_fundamental_div_mod_converse(d + k, 0x8000, q, r + k);
    assert((v - base) % 0x8000 == r + k);
    let n = (top - base) / 0x8000;
    assert(top - base == n * 0x8000);
    assert(v < top) by {
        assert(q < n);
    }
}

/// The tables for an address in a range of small pages are there.
proof fn lemma_path_there(m: PhysMemory, root: int, v: int, lo: int, hi: int)
    requires
        0 <= lo <= v < hi <= VA_LIMIT,
        megs(lo, hi).subset_of(lows(m.ram, root)),
    ensures
        has_path(m.ram, root, v),
        !blocked(m.ram, root, v),
        missing(m.ram, root, v) == 0,
        mids(m.ram, root).contains(vpn2(v)),
        lows(m.ram, root).contains(key1(v)),
{
    lemma_vpn(v, v);
    reveal(megs);
    assert(megs(lo, hi).contains(v / 0x20_0000));
    lemma_missing(m.ram, root, v);
    reveal(lookup);
    reveal(missing);
    reveal(mids);
}

/// The kernel region is mapped up to address `p`.
#[verifier::opaque]
spec fn mapped_to(m: PhysMemory, before: PhysMemory, root: int, l: KernelLayout, p: int) -> bool {
    &&& m.inv()
    &&& m.is_root(root)
    &&& m.kept(&before, root)
    &&& forall|r: int| #[trigger] m.is_root(r) <==> before.is_root(r)
    &&& forall|r: int, v: int|
        m.is_root(r) && r != root && 0 <= v < VA_LIMIT ==> #[trigger] lookup(m.ram, r, v) == lookup(
            before.ram,
            r,
            v,
        )
    &&& forall|v: int|
        0 <= v < VA_LIMIT ==> #[trigger] lookup(m.ram, root, v) == (if v < p {
            l.ram_map(v)
        } else {
            None
        })
    &&& mids(m.ram, root) == gigs(l.ram_start as int, p)
    &&& lows(m.ram, root) == megs(l.kernel_start as int, if p < l.image_end() {
        p
    } else {
        l.image_end()
    })
    &&& m.frames@.free_pages() == before.frames@.free_pages() - table_count(m.ram, root)
}

/// One more part of the kernel region is mapped.
proof fn lemma_mapped_part(
    before: PhysMemory,
    a: PhysMemory,
    b: PhysMemory,
    root: int,
    l: KernelLayout,
    p: int,
    q: int,
)
    requires
        l.wf(),
        l.ram_start <= p <= q <= VA_LIMIT,
        mapped_to(a, before, root, l, p),
        b.inv(),
        b.is_root(root),
        b.kept(&a, root),
        b.same_maps_out(&a, root, p, q),
        forall|v: int| p <= v < q ==> #[trigger] lookup(b.ram, root, v) == l.ram_map(v),
        mids(b.ram, root) == mids(a.ram, root) + gigs(p, q),
        (q <= l.kernel_start && lows(b.ram, root) == lows(a.ram, root)) || (l.kernel_start <= p
            && q <= l.image_end() && lows(b.ram, root) == lows(a.ram, root) + megs(p, q)) || (
        l.image_end() <= p && lows(b.ram, root) == lows(a.ram, root)),
        b.frames@.free_pages() == a.frames@.free_pages() + table_count(a.ram, root) - table_count(
            b.ram,
            root,
        ),
    ensures
        mapped_to(b, before, root, l, q),
{
    reveal(mapped_to);
    PhysMemory::lemma_kept(before, a, b, root);
    lemma_join(l.ram_start as int, p, q);
    if l.kernel_start <= p {
        lemma_join(l.kernel_start as int, p, q);
    }
    assert(lows(b.ram, root) =~= megs(l.kernel_start as int, if q < l.image_end() {
        q
    } else {
        l.image_end()
    })) by {
        if q <= l.kernel_start {
            reveal(megs);
        }
    }
    assert forall|r: int| #[trigger] b.is_root(r) <==> before.is_root(r) by {
        assert(a.is_root(r) <==> before.is_root(r));
    }
    assert forall|r: int, v: int|
        b.is_root(r) && r != root && 0 <= v < VA_LIMIT implies #[trigger] lookup(b.ram, r, v)
        == lookup(before.ram, r, v) by {
        assert(a.is_root(r));
        assert(lookup(b.ram, r, v) == lookup(a.ram, r, v));
    }
    assert forall|v: int| 0 <= v < VA_LIMIT implies #[trigger] lookup(b.ram, root, v) == (if v < q {
        l.ram_map(v)
    } else {
        None
    }) by {
        if !(p <= v < q) {
            assert(lookup(b.ram, root, v) == lookup(a.ram, root, v));
        }
    }
}

/// Tables that are made up to some point are not more than all.
proof fn lemma_tables_bound(l: KernelLayout, m1: Set<int>, l1: Set<int>)
    requires
        l.wf(),
        m1.subset_of(
            gigs(l.ram_start as int, l.ram_end as int).insert(l.uart_base as int / 0x4000_0000),
        ),
        l1.subset_of(
            megs(l.kernel_start as int, l.image_end()).insert(l.uart_base as int / 0x20_0000),
        ),
    ensures
        m1.len() + l1.len() <= l.tables(),
{
    lemma_ranges_finite(l.ram_start as int, l.ram_end as int);
    lemma_ranges_finite(l.kernel_start as int, l.image_end());
    vstd::set_lib::lemma_len_subset(
        m1,
        gigs(l.ram_start as int, l.ram_end as int).insert(l.uart_base as int / 0x4000_0000),
    );
    vstd::set_lib::lemma_len_subset(
        l1,
        megs(l.kernel_start as int, l.image_end()).insert(l.uart_base as int / 0x20_0000),
    );
}

/// Map the next part of the image, `[p, q)`, in small pages.
fn map_image_part(
    m: &mut PhysMemory,
    root: u64,
    l: &KernelLayout,
    p: u64,
    q: u64,
    flags: u64,
    before: Ghost<PhysMemory>,
) -> (r: Result<(), ()>)
    requires
        l.wf(),
        mapped_to(*old(m), before@, root as int, *l, p as int),
        l.kernel_start <= p <= q <= l.image_end(),
        p % 4096 == 0,
        q % 4096 == 0,
        flags < 1024,
        flags % 2 == 1,
        forall|v: int|
            p <= v < q ==> #[trigger] l.ram_map(v) == Some(
                (0int, entry_for(v - v % 4096, flags as int)),
            ),
    ensures
        r is Ok ==> mapped_to(*final(m), before@, root as int, *l, q as int),
        r is Err ==> before@.frames@.free_pages() < l.tables() && final(m).inv() && final(m).is_root(root as int) && final(m).kept(&before@, root as int),
{
    proof {
        reveal(mapped_to);
    }
    let ghost a = *m;
    let ghost r0 = root as int;
    proof {
        lemma_image_end(*l);
        assert forall|v: int| p <= v < q implies !#[trigger] blocked(a.ram, r0, v) by {
            assert(lookup(a.ram, r0, v) is None);
        }
        lemma_join(l.ram_start as int, p as int, q as int);
        lemma_join(l.ram_start as int, q as int, l.ram_end as int);
        lemma_join(l.kernel_start as int, p as int, q as int);
        lemma_join(l.kernel_start as int, q as int, l.image_end());
        lemma_tables_bound(
            *l,
            mids(a.ram, r0) + gigs(p as int, q as int),
            lows(a.ram, r0) + megs(p as int, q as int),
        );
    }
    let r = map_region_4k(m, root, p, q, flags);
    proof {
        PhysMemory::lemma_kept(before@, a, *m, r0);
        if r is Ok {
            assert forall|v: int| p <= v < q implies #[trigger] lookup(m.ram, r0, v) == l.ram_map(
                v,
            ) by {}
            lemma_mapped_part(before@, a, *m, r0, *l, p as int, q as int);
        }
    }
    r
}

/// Map the next part of the RAM, `[p, q)`, outside the image, in pages of 2 MiB.
fn map_ram_part(
    m: &mut PhysMemory,
    root: u64,
    l: &KernelLayout,
    p: u64,
    q: u64,
    flags: u64,
    before: Ghost<PhysMemory>,
) -> (r: Result<(), ()>)
    requires
        l.wf(),
        mapped_to(*old(m), before@, root as int, *l, p as int),
        l.ram_start <= p <= q <= l.ram_end,
        q <= l.kernel_start || l.image_end() <= p,
        p % SUPER_PAGE == 0,
        q % SUPER_PAGE == 0,
        flags < 1024,
        flags % 2 == 1,
        flags as int / 2 % 8 != 0,
        forall|v: int|
            p <= v < q ==> #[trigger] l.ram_map(v) == Some(
                (1int, entry_for(v - v % 0x20_0000, flags as int)),
            ),
    ensures
        r is Ok ==> mapped_to(*final(m), before@, root as int, *l, q as int),
        r is Err ==> before@.frames@.free_pages() < l.tables() && final(m).inv() && final(m).is_root(root as int) && final(m).kept(&before@, root as int),
{
    proof {
        reveal(mapped_to);
    }
    let ghost a = *m;
    let ghost r0 = root as int;
    proof {
        lemma_image_end(*l);
        lemma_join(l.ram_start as int, p as int, q as int);
        lemma_join(l.ram_start as int, q as int, l.ram_end as int);
        assert(lows(a.ram, r0).subset_of(megs(l.kernel_start as int, l.image_end()))) by {
            reveal(megs);
        }
        lemma_tables_bound(*l, mids(a.ram, r0) + gigs(p as int, q as int), lows(a.ram, r0));
        assert(lows(a.ram, r0).disjoint(megs(p as int, q as int))) by {
            reveal(megs);
        }
        lemma_sets_finite(a.ram, r0);
    }
    let r = map_region_super(m, root, p, q, flags);
    proof {
        PhysMemory::lemma_kept(before@, a, *m, r0);
        if r is Ok {
            assert forall|v: int| p <= v < q implies #[trigger] lookup(m.ram, r0, v) == l.ram_map(
                v,
            ) by {}
            lemma_mapped_part(before@, a, *m, r0, *l, p as int, q as int);
        }
    }
    r
}

/// Map the kernel region into an empty address space: the RAM, with the image by segments and
/// without the guard pages, and the registers of the UART.
///
/// Fails exactly when there are too few free pages for the tables.
fn map_kernel_region(m: &mut PhysMemory, root: u64, l: &KernelLayout) -> (r: Result<(), ()>)
    requires
        old(m).inv(),
        old(m).is_root(root as int),
        forall|i: int| 0 <= i < 512 ==> #[trigger] slot(old(m).ram, root as int, i) == 0,
        l.wf(),
    ensures
        final(m).inv(),
        final(m).is_root(root as int),
        final(m).kept(old(m), root as int),
        r is Err <==> old(m).frames@.free_pages() < l.tables(),
        r is Ok ==> {
            &&& final(m).frames@.free_pages() == old(m).frames@.free_pages() - l.tables()
            &&& forall|r: int| #[trigger] final(m).is_root(r) <==> old(m).is_root(r)
            &&& forall|r: int, v: int|
                final(m).is_root(r) && r != root && 0 <= v < VA_LIMIT ==> #[trigger] lookup(
                    final(m).ram,
                    r,
                    v,
                ) == lookup(old(m).ram, r, v)
            &&& forall|v: int|
                0 <= v < VA_LIMIT ==> #[trigger] lookup(final(m).ram, root as int, v)
                    == l.kernel_map(v)
        },
{
    let ghost before = *m;
    let ghost r0 = root as int;
    proof {
        lemma_fresh(before, r0, *l);
        lemma_image_end(*l);
    }
    let image_end: u64 = image_end(l);
    if map_ram_part(m, root, l, l.ram_start, l.kernel_start, PTE_LEAF_R, Ghost(before)).is_err() {
        return Err(());
    }
    if map_image_part(m, root, l, l.kernel_start, l.text_start, PTE_LEAF_RW, Ghost(before)).is_err() {
        return Err(());
    }
    if map_image_part(m, root, l, l.text_start, l.rodata_start, PTE_LEAF_RX, Ghost(before)).is_err() {
        return Err(());
    }
    if map_image_part(m, root, l, l.rodata_start, l.data_start, PTE_LEAF_R, Ghost(before)).is_err() {
        return Err(());
    }
    if map_image_part(m, root, l, l.data_start, image_end, PTE_LEAF_RW, Ghost(before)).is_err() {
        return Err(());
    }
    if map_ram_part(m, root, l, image_end, l.ram_end, PTE_LEAF_RW, Ghost(before)).is_err() {
        return Err(());
    }
    unmap_guards(m, root, l, Ghost(before));
    map_uart(m, root, l, Ghost(before))
}

/// The image ends inside the RAM.
proof fn lemma_image_end(l: KernelLayout)
    requires
        l.wf(),
    ensures
        l.image_end() == if l.kernel_end % SUPER_PAGE == 0 {
            l.kernel_end as int
        } else {
            l.kernel_end - l.kernel_end % SUPER_PAGE + SUPER_PAGE
        },
        l.image_end() % (SUPER_PAGE as int) == 0,
        l.kernel_end <= l.image_end() <= l.ram_end,
{
    crate::bytes::lemma_round_up(l.kernel_end as int, SUPER_PAGE as int);
}

/// End of the memory that is mapped in small pages.
fn image_end(l: &KernelLayout) -> (r: u64)
    requires
        l.wf(),
    ensures
        r == l.image_end(),
        r % SUPER_PAGE == 0,
        l.kernel_end <= r <= l.ram_end,
{
    proof {
        lemma_image_end(*l);
    }
    let over: u64 = l.kernel_end % SUPER_PAGE;
    if over == 0 {
        l.kernel_end
    } else {
        l.kernel_end - over + SUPER_PAGE
    }
}

/// An empty root has no tables below it.
proof fn lemma_fresh(m: PhysMemory, root: int, l: KernelLayout)
    requires
        m.inv(),
        m.is_root(root),
        l.wf(),
        forall|i: int| 0 <= i < 512 ==> #[trigger] slot(m.ram, root, i) == 0,
    ensures
        mapped_to(m, m, root, l, l.ram_start as int),
{
    reveal(mapped_to);
    PhysMemory::lemma_kept_same(m, root);
    reveal(gigs);
    reveal(megs);
    assert(mids(m.ram, root) =~= Set::empty()) by {
        reveal(mids);
    }
    assert(lows(m.ram, root) =~= Set::empty()) by {
        reveal(lows);
        assert forall|k: int| !#[trigger] lows(m.ram, root).contains(k) by {
            if 0 <= k < 0x4_0000 {
                assert(slot(m.ram, root, k / 512) == 0);
            }
        }
    }
    assert forall|v: int| #[trigger] lookup(m.ram, root, v) is None by {
        reveal(lookup);
        assert(slot(m.ram, root, vpn2(v)) == 0);
    }
    assert(gigs(l.ram_start as int, l.ram_start as int) =~= Set::empty());
    assert(megs(l.kernel_start as int, l.ram_start as int) =~= Set::empty());
    assert(megs(l.kernel_start as int, l.image_end()) =~= Set::empty() || l.ram_start
        < l.image_end());
}

/// The kernel region without guard pages and UART is mapped.
#[verifier::opaque]
spec fn mapped_guarded(m: PhysMemory, before: PhysMemory, root: int, l: KernelLayout) -> bool {
    &&& m.inv()
    &&& m.is_root(root)
    &&& m.kept(&before, root)
    &&& forall|r: int| #[trigger] m.is_root(r) <==> before.is_root(r)
    &&& forall|r: int, v: int|
        m.is_root(r) && r != root && 0 <= v < VA_LIMIT ==> #[trigger] lookup(m.ram, r, v) == lookup(
            before.ram,
            r,
            v,
        )
    &&& forall|v: int|
        0 <= v < VA_LIMIT ==> #[trigger] lookup(m.ram, root, v) == (if l.guarded(v) {
            None
        } else {
            l.ram_map(v)
        })
    &&& mids(m.ram, root) == gigs(l.ram_start as int, l.ram_end as int)
    &&& lows(m.ram, root) == megs(l.kernel_start as int, l.image_end())
    &&& m.frames@.free_pages() == before.frames@.free_pages() - table_count(m.ram, root)
}

/// Remove the mappings of all guard pages.
fn unmap_guards(m: &mut PhysMemory, root: u64, l: &KernelLayout, before: Ghost<PhysMemory>)
    requires
        l.wf(),
        mapped_to(*old(m), before@, root as int, *l, l.ram_end as int),
    ensures
        mapped_guarded(*final(m), before@, root as int, *l),
{
    proof {
        reveal(mapped_to);
        reveal(mapped_guarded);
    }
    let ghost a = *m;
    let ghost r0 = root as int;
    let g: u64 = l.stack_guard;
    proof {
        lemma_image_end(*l);
        lemma_path_there(a, r0, g as int, l.kernel_start as int, l.image_end());
        a.frames.lemma_wf();
        law_page_available(a.frames@);
    }
    let r = m.set_entry(root, g, 0);
    let ghost b = *m;
    proof {
        assert(r is Ok);
        PhysMemory::lemma_kept(before@, a, b, r0);
        assert(mids(b.ram, r0) =~= mids(a.ram, r0));
        assert(lows(b.ram, r0) =~= lows(a.ram, r0));
        assert forall|r: int, v: int|
            b.is_root(r) && 0 <= v < VA_LIMIT implies #[trigger] lookup(b.ram, r, v) == (if r == r0
            && g <= v < g + 4096 {
            None
        } else {
            lookup(a.ram, r, v)
        }) by {
            lemma_vpn(v, g as int);
            if r == r0 && g <= v < g + 4096 {
                lemma_lookup_page(b.ram, r0, v, g as int);
            }
        }
        assert(megs(l.trap_base as int, l.trap_top as int).subset_of(lows(b.ram, r0)) && megs(
            l.idle_base as int,
            l.idle_top as int,
        ).subset_of(lows(b.ram, r0))) by {
            reveal(megs);
        }
    }
    unmap_guard_pages(m, root, l.trap_base, l.trap_top);
    let ghost c = *m;
    unmap_guard_pages(m, root, l.idle_base, l.idle_top);
    proof {
        let d = *m;
        PhysMemory::lemma_kept(before@, b, c, r0);
        PhysMemory::lemma_kept(before@, c, d, r0);
        assert forall|r: int| #[trigger] d.is_root(r) <==> before@.is_root(r) by {
            assert(c.is_root(r) <==> b.is_root(r));
            assert(b.is_root(r) <==> a.is_root(r));
            assert(a.is_root(r) <==> before@.is_root(r));
        }
        assert forall|r: int, v: int|
            d.is_root(r) && r != r0 && 0 <= v < VA_LIMIT implies #[trigger] lookup(d.ram, r, v)
            == lookup(before@.ram, r, v) by {
            assert(c.is_root(r) && b.is_root(r) && a.is_root(r));
            assert(lookup(d.ram, r, v) == lookup(c.ram, r, v));
            assert(lookup(c.ram, r, v) == lookup(b.ram, r, v));
            assert(lookup(b.ram, r, v) == lookup(a.ram, r, v));
        }
        assert forall|v: int| 0 <= v < VA_LIMIT implies #[trigger] lookup(d.ram, r0, v) == (
        if l.guarded(v) {
            None
        } else {
            l.ram_map(v)
        }) by {
            assert(c.is_root(r0) && b.is_root(r0) && a.is_root(r0));
            let x = lookup(c.ram, r0, v);
            let y = lookup(b.ram, r0, v);
            let z = lookup(a.ram, r0, v);
            assert(z == l.ram_map(v));
        }
    }
}

/// Map the registers of the UART, the last part of the kernel region.
#[verifier::spinoff_prover]
#[verifier::rlimit(80)]
fn map_uart(m: &mut PhysMemory, root: u64, l: &KernelLayout, before: Ghost<PhysMemory>) -> (r: Result<
    (),
    (),
>)
    requires
        l.wf(),
        mapped_guarded(*old(m), before@, root as int, *l),
    ensures
        final(m).inv(),
        final(m).is_root(root as int),
        final(m).kept(&before@, root as int),
        r is Err <==> before@.frames@.free_pages() < l.tables(),
        r is Ok ==> {
            &&& final(m).frames@.free_pages() == before@.frames@.free_pages() - l.tables()
            &&& forall|r: int| #[trigger] final(m).is_root(r) <==> before@.is_root(r)
            &&& forall|r: int, v: int|
                final(m).is_root(r) && r != root && 0 <= v < VA_LIMIT ==> #[trigger] lookup(
                    final(m).ram,
                    r,
                    v,
                ) == lookup(before@.ram, r, v)
            &&& forall|v: int|
                0 <= v < VA_LIMIT ==> #[trigger] lookup(final(m).ram, root as int, v)
                    == l.kernel_map(v)
        },
{
    proof {
        reveal(mapped_guarded);
    }
    let ghost a = *m;
    let ghost r0 = root as int;
    let u: u64 = l.uart_base;
    proof {
        lemma_image_end(*l);
        assert(!l.guarded(u as int));
        assert(l.ram_map(u as int) is None);
        assert(lookup(a.ram, r0, u as int) is None);
        lemma_vpn(u as int, u as int);
        lemma_missing(a.ram, r0, u as int);
        lemma_sets_finite(a.ram, r0);
        lemma_tables_bound(*l, mids(a.ram, r0), lows(a.ram, r0));
        a.frames.lemma_wf();
        law_page_available(a.frames@);
    }
    let v: u64 = pte(u, PTE_LEAF_RW);
    let r = m.set_entry(root, u, v);
    proof {
        let b = *m;
        PhysMemory::lemma_kept(before@, a, b, r0);
        assert(a.frames@.free_pages() - missing(a.ram, r0, u as int) == before@.frames@.free_pages()
            - l.tables());
        if r is Ok {
            assert forall|r: int| #[trigger] b.is_root(r) <==> before@.is_root(r) by {
                assert(a.is_root(r) <==> before@.is_root(r));
            }
            assert forall|r: int, v: int|
                b.is_root(r) && r != r0 && 0 <= v < VA_LIMIT implies #[trigger] lookup(b.ram, r, v)
                == lookup(before@.ram, r, v) by {
                assert(a.is_root(r));
                assert(lookup(b.ram, r, v) == lookup(a.ram, r, v));
            }
            assert forall|w: int| 0 <= w < VA_LIMIT implies #[trigger] lookup(b.ram, r0, w)
                == l.kernel_map(w) by {
                lemma_vpn(w, u as int);
                if w / 4096 == u as int / 4096 {
                    lemma_lookup_page(b.ram, r0, w, u as int);
                    assert(entry_for(u as int, PTE_LEAF_RW as int) == entry_for(
                        w - w % 4096,
                        PTE_LEAF_RW as int,
                    )) by {
                        reveal(entry_for);
                    }
                } else {
                    assert(lookup(b.ram, r0, w) == lookup(a.ram, r0, w));
                }
            }
        }
    }
    r
}

impl PhysMemory {
    /// Entry `k` of the lowest table `t` under `root` maps a page of the allocator for the user.
    pub open spec fn user_leaf(&self, root: int, t: int, k: int) -> bool {
        let e = slot(self.ram, t, k);
        &&& self.is_pt(t)
        &&& self.owner@[t] is Low
        &&& self.root_of(t) == root
        &&& 0 <= k < 512
        &&& valid(e)
        &&& is_user(e)
        &&& self.frames@.base <= target(e) < self.frames@.addr(self.frames@.pages)
    }

    /// Page that entry `k` of table `t` maps.
    pub open spec fn leaf_page(&self, t: int, k: int) -> int {
        target(slot(self.ram, t, k))
    }

    /// The pages of the allocator that are mapped for the user belong to this address space
    /// alone: each is an allocated single page, no table, and mapped once.
    pub open spec fn owns_pages(&self, root: int) -> bool {
        &&& forall|t: int, k: int| #[trigger]
            self.user_leaf(root, t, k) ==> self.frames@.allocated(self.leaf_page(t, k), 0)
                && !self.is_pt(self.leaf_page(t, k))
        &&& forall|t: int, k: int, u: int, j: int|
            #![trigger self.user_leaf(root, t, k), self.user_leaf(root, u, j)]
            self.user_leaf(root, t, k) && self.user_leaf(root, u, j) && self.leaf_page(t, k)
                == self.leaf_page(u, j) ==> t == u && k == j
    }

    /// The page is mapped for the user under `root`, from a table that is no table in `later`.
    pub open spec fn mapped_from(&self, root: int, later: &PhysMemory, p: int) -> bool {
        exists|t: int, k: int|
            #![trigger self.user_leaf(root, t, k)]
            self.user_leaf(root, t, k) && !later.is_pt(t) && self.leaf_page(t, k) == p
    }

    /// Some tables of `root` are gone, with the user pages that they mapped; all else is as
    /// before.
    spec fn shrunk(&self, before: &PhysMemory, root: int) -> bool {
        &&& self.inv()
        &&& self.owner@.submap_of(before.owner@)
        &&& forall|p: int| #[trigger]
            before.is_pt(p) && before.root_of(p) != root ==> self.is_pt(p)
        &&& self.ram.base == before.ram.base
        &&& self.ram.words@.len() == before.ram.words@.len()
        &&& forall|p: int, i: int|
            #![trigger slot(self.ram, p, i)]
            self.is_pt(p) && 0 <= i < 512 ==> slot(self.ram, p, i) == slot(before.ram, p, i) || (
            before.root_of(p) == root && is_table(slot(before.ram, p, i)) && slot(self.ram, p, i)
                == 0 && !(before.owner@[p] is Low))
        &&& forall|a: int|
            self.ram.has(a) && !before.is_pt(a - a % 4096) ==> #[trigger] self.ram.word(a)
                == before.ram.word(a)
        &&& self.frames@.base == before.frames@.base
        &&& self.frames@.pages == before.frames@.pages
        &&& self.frames@.reserved == before.frames@.reserved
        &&& forall|p: int, o: int| #[trigger]
            self.frames@.allocated(p, o) <==> before.frames@.allocated(p, o) && !(before.is_pt(p)
                && !self.is_pt(p)) && !before.mapped_from(root, self, p)
    }
}

impl PhysMemory {
    /// Give back the pages that table `t` maps for the user.
    fn free_leaves(&mut self, t: u64, root: Ghost<int>)
        requires
            old(self).inv(),
            old(self).is_pt(t as int),
            old(self).owner@[t as int] is Low,
            old(self).root_of(t as int) == root@,
            forall|k: int| #[trigger]
                old(self).user_leaf(root@, t as int, k) ==> old(self).frames@.allocated(
                    old(self).leaf_page(t as int, k),
                    0,
                ) && !old(self).is_pt(old(self).leaf_page(t as int, k)),
            forall|k: int, j: int|
                #![trigger old(self).user_leaf(root@, t as int, k), old(self).user_leaf(root@, t as int, j)]
                old(self).user_leaf(root@, t as int, k) && old(self).user_leaf(root@, t as int, j)
                    && old(self).leaf_page(t as int, k) == old(self).leaf_page(t as int, j) ==> k == j,
        ensures
            final(self).inv(),
            final(self).ram == old(self).ram,
            final(self).owner@ == old(self).owner@,
            final(self).frames@.base == old(self).frames@.base,
            final(self).frames@.pages == old(self).frames@.pages,
            final(self).frames@.reserved == old(self).frames@.reserved,
            forall|p: int, o: int| #[trigger]
                final(self).frames@.allocated(p, o) <==> old(self).frames@.allocated(p, o) && !(
                exists|k: int| #[trigger]
                    old(self).user_leaf(root@, t as int, k) && old(self).leaf_page(t as int, k)
                        == p),
    {
        let ghost before = *self;
        let ghost tt = t as int;
        let mut k: u64 = 0;
        while k < 512
            invariant
                k <= 512,
                tt == t,
                before == *old(self),
                before.inv(),
                before.is_pt(tt),
                before.owner@[tt] is Low,
                before.root_of(tt) == root@,
                forall|k: int| #[trigger]
                    before.user_leaf(root@, tt, k) ==> before.frames@.allocated(
                        before.leaf_page(tt, k),
                        0,
                    ) && !before.is_pt(before.leaf_page(tt, k)),
                forall|k: int, j: int|
                    #![trigger before.user_leaf(root@, tt, k), before.user_leaf(root@, tt, j)]
                    before.user_leaf(root@, tt, k) && before.user_leaf(root@, tt, j)
                        && before.leaf_page(tt, k) == before.leaf_page(tt, j) ==> k == j,
                self.inv(),
                self.ram == before.ram,
                self.owner@ == before.owner@,
                self.frames@.base == before.frames@.base,
                self.frames@.pages == before.frames@.pages,
                self.frames@.reserved == before.frames@.reserved,
                forall|p: int, o: int| #[trigger]
                    self.frames@.allocated(p, o) <==> before.frames@.allocated(p, o) && !(exists|
                        j: int,
                    | #[trigger]
                        before.user_leaf(root@, tt, j) && j < k && before.leaf_page(tt, j) == p),
            decreases 512 - k,
        {
            let ghost a = *self;
            proof {
                self.lemma_pt(tt);
                assert(self.ram.has(tt + 8 * k));
                self.frames.lemma_wf();
            }
            let e: u64 = self.ram.read(t + 8 * k);
            assert(e == slot(before.ram, tt, k as int));
            let pa: u64 = pte_target(e);
            let ours: bool = pte_valid(e) && pte_user(e) && crate::mem::page_in_range(
                &self.frames,
                pa,
            );
            assert(ours == before.user_leaf(root@, tt, k as int));
            if ours {
                proof {
                    assert(before.leaf_page(tt, k as int) == pa);
                    assert(a.frames@.allocated(pa as int, 0));
                    crate::mem::law_allocated_can_free(a.frames@, pa as int, 0);
                }
                let r = self.free_block(pa);
                proof {
                    assert forall|p: int, o: int| #[trigger]
                        self.frames@.allocated(p, o) <==> before.frames@.allocated(p, o) && !(
                        exists|j: int| #[trigger]
                            before.user_leaf(root@, tt, j) && j < k + 1 && before.leaf_page(tt, j)
                                == p) by {
                        crate::mem::law_free_ends_one(a.frames@, pa as int, p, o);
                        assert(a.frames@.allocated(p, o) <==> before.frames@.allocated(p, o) && !(
                        exists|j: int| #[trigger]
                            before.user_leaf(root@, tt, j) && j < k && before.leaf_page(tt, j)
                                == p));
                        assert(before.user_leaf(root@, tt, k as int));
                        if exists|j: int| #[trigger]
                            before.user_leaf(root@, tt, j) && j < k + 1 && before.leaf_page(tt, j)
                                == p {
                            let j = choose|j: int| #[trigger]
                                before.user_leaf(root@, tt, j) && j < k + 1 && before.leaf_page(
                                    tt,
                                    j,
                                ) == p;
                            assert(j == k || j < k);
                        }
                    }
                }
            } else {
                proof {
                    assert forall|p: int, o: int| #[trigger]
                        self.frames@.allocated(p, o) <==> before.frames@.allocated(p, o) && !(
                        exists|j: int| #[trigger]
                            before.user_leaf(root@, tt, j) && j < k + 1 && before.leaf_page(tt, j)
                                == p) by {
                        if exists|j: int| #[trigger]
                            before.user_leaf(root@, tt, j) && j < k + 1 && before.leaf_page(tt, j)
                                == p {
                            let j = choose|j: int| #[trigger]
                                before.user_leaf(root@, tt, j) && j < k + 1 && before.leaf_page(
                                    tt,
                                    j,
                                ) == p;
                            assert(j != k);
                            assert(j < k);
                        }
                    }
                }
            }
            k += 1;
        }
        proof {
            assert forall|p: int, o: int| #[trigger]
                self.frames@.allocated(p, o) <==> before.frames@.allocated(p, o) && !(exists|k: int|
                 #[trigger]
                    before.user_leaf(root@, tt, k) && before.leaf_page(tt, k) == p) by {
                if exists|k: int| #[trigger]
                    before.user_leaf(root@, tt, k) && before.leaf_page(tt, k) == p {
                    let j = choose|k: int| #[trigger]
                        before.user_leaf(root@, tt, k) && before.leaf_page(tt, k) == p;
                    assert(before.user_leaf(root@, tt, j) && j < 512);
                }
            }
        }
    }

    /// The table that entry `i` of table `p` points to was taken out of the tree.
    spec fn unhung(&self, a: &PhysMemory, p: int, i: int) -> bool {
        let c = target(slot(a.ram, p, i));
        &&& a.inv()
        &&& a.is_pt(p)
        &&& !(a.owner@[p] is Low)
        &&& 0 <= i < 512
        &&& is_table(slot(a.ram, p, i))
        &&& a.owner@[c] is Mid ==> forall|j: int| 0 <= j < 512 ==> !is_table(#[trigger] slot(a.ram, c, j))
        &&& self.ram.wf()
        &&& self.frames == a.frames
        &&& self.owner@ == a.owner@.remove(c)
        &&& self.ram.same_but_word(&a.ram, p + 8 * i)
        &&& slot(self.ram, p, i) == 0
    }

    proof fn lemma_unhung_slots(a: PhysMemory, b: PhysMemory, p: int, i: int, q: int, j: int)
        requires
            b.unhung(&a, p, i),
            a.is_pt(q),
            0 <= j < 512,
            !(q == p && j == i),
        ensures
            slot(b.ram, q, j) == slot(a.ram, q, j),
    {
        a.lemma_pt(q);
        a.lemma_pt(p);
        assert(a.ram.has(q + 8 * j));
        if q != p {
            lemma_apart(q, p, j);
        }
        assert(b.ram.has(q + 8 * j));
        assert(b.ram.word(q + 8 * j) == a.ram.word(q + 8 * j));
    }

    #[verifier::rlimit(40)]
    proof fn lemma_unhung(a: PhysMemory, b: PhysMemory, p: int, i: int)
        requires
            b.unhung(&a, p, i),
        ensures
            b.inv(),
            a.is_pt(target(slot(a.ram, p, i))),
            target(slot(a.ram, p, i)) != p,
            a.owner@[target(slot(a.ram, p, i))] == a.child_owner(p, i),
    {
        let c = target(slot(a.ram, p, i));
        a.lemma_slot(p, i);
        a.lemma_place(p);
        assert forall|q: int| #[trigger] b.is_pt(q) implies b.place_ok(q) by {
            a.lemma_place(q);
            match a.owner@[q] {
                Owner::Root => {},
                Owner::Mid { root: r, idx } => {
                    assert(r != c);
                    assert(!(r == p && idx == i));
                    Self::lemma_unhung_slots(a, b, p, i, r, idx);
                },
                Owner::Low { mid: m, idx } => {
                    assert(m != c);
                    assert(!(m == p && idx == i));
                    Self::lemma_unhung_slots(a, b, p, i, m, idx);
                },
            }
        }
        assert forall|q: int, j: int|
            #![trigger slot(b.ram, q, j)]
            b.is_pt(q) && 0 <= j < 512 implies b.slot_ok(q, j) by {
            if !(q == p && j == i) {
                Self::lemma_unhung_slots(a, b, p, i, q, j);
                a.lemma_slot(q, j);
                let e = slot(a.ram, q, j);
                if is_table(e) && target(e) == c && !(a.owner@[q] is Low) {
                    assert(false);
                }
            }
        }
        assert forall|q: int| #[trigger] b.is_pt(q) implies b.frames@.allocated(q, 0) by {
            a.lemma_place(q);
        }
        b.lemma_consistent();
    }

    /// Take the table out of the tree that entry `i` of table `p` points to, and give its page
    /// back. It points to no further table.
    fn drop_table(&mut self, p: u64, i: u64) -> (c: u64)
        requires
            old(self).inv(),
            old(self).is_pt(p as int),
            !(old(self).owner@[p as int] is Low),
            i < 512,
            is_table(slot(old(self).ram, p as int, i as int)),
            old(self).owner@[target(slot(old(self).ram, p as int, i as int))] is Mid ==> forall|
                j: int,
            |
                0 <= j < 512 ==> !is_table(
                    #[trigger] slot(
                        old(self).ram,
                        target(slot(old(self).ram, p as int, i as int)),
                        j,
                    ),
                ),
        ensures
            final(self).inv(),
            c == target(slot(old(self).ram, p as int, i as int)),
            old(self).is_pt(c as int),
            c != p,
            old(self).owner@[c as int] == old(self).child_owner(p as int, i as int),
            final(self).owner@ == old(self).owner@.remove(c as int),
            final(self).ram.same_but_word(&old(self).ram, p + 8 * i),
            slot(final(self).ram, p as int, i as int) == 0,
            final(self).frames@.base == old(self).frames@.base,
            final(self).frames@.pages == old(self).frames@.pages,
            final(self).frames@.reserved == old(self).frames@.reserved,
            forall|q: int, o: int| #[trigger]
                final(self).frames@.allocated(q, o) <==> old(self).frames@.allocated(q, o) && q
                    != c,
            forall|q: int, j: int|
                #![trigger slot(final(self).ram, q, j)]
                old(self).is_pt(q) && 0 <= j < 512 && !(q == p && j == i) ==> slot(
                    final(self).ram,
                    q,
                    j,
                ) == slot(old(self).ram, q, j),
    {
        let ghost a = *self;
        proof {
            self.lemma_pt(p as int);
            assert(self.ram.has(p + 8 * i));
            self.lemma_slot(p as int, i as int);
        }
        let e: u64 = self.ram.read(p + 8 * i);
        assert(e == slot(a.ram, p as int, i as int));
        let c: u64 = pte_target(e);
        self.ram.write(p + 8 * i, 0);
        proof {
            self.owner@ = a.owner@.remove(c as int);
            assert(self.unhung(&a, p as int, i as int));
            Self::lemma_unhung(a, *self, p as int, i as int);
            a.lemma_place(c as int);
            self.frames.lemma_wf();
            crate::mem::law_allocated_can_free(self.frames@, c as int, 0);
        }
        let ghost b = *self;
        let r = self.free_block(c);
        proof {
            assert forall|q: int, o: int| #[trigger]
                self.frames@.allocated(q, o) <==> a.frames@.allocated(q, o) && q != c by {
                crate::mem::law_free_ends_one(b.frames@, c as int, q, o);
            }
            assert forall|q: int, j: int|
                #![trigger slot(self.ram, q, j)]
                a.is_pt(q) && 0 <= j < 512 && !(q == p && j == i) implies slot(self.ram, q, j)
                == slot(a.ram, q, j) by {
                Self::lemma_unhung_slots(a, b, p as int, i as int, q, j);
            }
        }
        c
    }
}

impl PhysMemory {
    /// What an entry of a lowest table maps does not change while other tables go.
    proof fn lemma_shrunk_leaf(before: PhysMemory, a: PhysMemory, root: int, t: int, k: int)
        requires
            before.inv(),
            before.owns_pages(root),
            a.shrunk(&before, root),
            a.is_pt(t),
            a.owner@[t] is Low,
        ensures
            before.is_pt(t),
            before.owner@[t] == a.owner@[t],
            before.root_of(t) == a.root_of(t),
            a.user_leaf(root, t, k) <==> before.user_leaf(root, t, k),
            a.user_leaf(root, t, k) ==> {
                &&& a.leaf_page(t, k) == before.leaf_page(t, k)
                &&& a.frames@.allocated(a.leaf_page(t, k), 0)
                &&& !a.is_pt(a.leaf_page(t, k))
            },
    {
        assert(before.is_pt(t));
        a.lemma_place(t);
        before.lemma_place(t);
        let m = a.owner@[t]->mid;
        assert(before.is_pt(m));
        if 0 <= k < 512 {
            assert(slot(a.ram, t, k) == slot(before.ram, t, k));
        }
        if before.user_leaf(root, t, k) {
            let p = before.leaf_page(t, k);
            assert(before.frames@.allocated(p, 0) && !before.is_pt(p));
            if before.mapped_from(root, &a, p) {
                let (u, j) = choose|u: int, j: int|
                    #![trigger before.user_leaf(root, u, j)]
                    before.user_leaf(root, u, j) && !a.is_pt(u) && before.leaf_page(u, j) == p;
                assert(u == t);
            }
        }
    }

    /// A lowest table and the pages that it mapped are gone.
    proof fn lemma_shrunk_low(
        before: PhysMemory,
        a: PhysMemory,
        x: PhysMemory,
        b: PhysMemory,
        root: int,
        mid: int,
        i: int,
        t: int,
    )
        requires
            before.inv(),
            before.owns_pages(root),
            a.shrunk(&before, root),
            a.is_pt(t),
            a.owner@[t] == (Owner::Low { mid, idx: i }),
            a.is_pt(mid),
            a.owner@[mid] is Mid,
            a.root_of(t) == root,
            0 <= i < 512,
            is_table(slot(a.ram, mid, i)),
            x.ram == a.ram,
            x.owner@ == a.owner@,
            x.frames@.base == a.frames@.base,
            x.frames@.pages == a.frames@.pages,
            x.frames@.reserved == a.frames@.reserved,
            forall|p: int, o: int| #[trigger]
                x.frames@.allocated(p, o) <==> a.frames@.allocated(p, o) && !(exists|k: int|
                 #[trigger]
                    a.user_leaf(root, t, k) && a.leaf_page(t, k) == p),
            b.inv(),
            b.owner@ == a.owner@.remove(t),
            b.ram.same_but_word(&x.ram, mid + 8 * i),
            slot(b.ram, mid, i) == 0,
            b.frames@.base == x.frames@.base,
            b.frames@.pages == x.frames@.pages,
            b.frames@.reserved == x.frames@.reserved,
            forall|p: int, o: int| #[trigger]
                b.frames@.allocated(p, o) <==> x.frames@.allocated(p, o) && p != t,
            forall|q: int, j: int|
                #![trigger slot(b.ram, q, j)]
                x.is_pt(q) && 0 <= j < 512 && !(q == mid && j == i) ==> slot(b.ram, q, j) == slot(
                    x.ram,
                    q,
                    j,
                ),
        ensures
            b.shrunk(&before, root),
    {
        a.lemma_place(mid);
        a.lemma_pt(mid);
        Self::lemma_shrunk_leaf(before, a, root, t, 0);
        assert forall|p: int| #[trigger] before.is_pt(p) && before.root_of(p) != root implies b.is_pt(
            p,
        ) by {
            assert(a.is_pt(p));
        }
        assert forall|q: int, j: int|
            #![trigger slot(b.ram, q, j)]
            b.is_pt(q) && 0 <= j < 512 implies slot(b.ram, q, j) == slot(before.ram, q, j) || (
        before.root_of(q) == root && is_table(slot(before.ram, q, j)) && slot(b.ram, q, j) == 0
            && !(before.owner@[q] is Low)) by {
            assert(a.is_pt(q));
            if q == mid && j == i {
                assert(slot(a.ram, mid, i) == slot(before.ram, mid, i));
                assert(before.is_pt(mid));
                assert(before.owner@[mid] == a.owner@[mid]);
            } else {
                assert(slot(b.ram, q, j) == slot(a.ram, q, j));
            }
        }
        assert forall|w: int|
            b.ram.has(w) && !before.is_pt(w - w % 4096) implies #[trigger] b.ram.word(w)
            == before.ram.word(w) by {
            assert(before.is_pt(mid));
            assert(w - w % 4096 != mid);
            assert(a.ram.has(w));
            assert(a.ram.word(w) == before.ram.word(w));
            assert(x.ram.has(w));
            assert(b.ram.word(w) == x.ram.word(w));
        }
        assert forall|p: int, o: int| #[trigger]
            b.frames@.allocated(p, o) <==> before.frames@.allocated(p, o) && !(before.is_pt(p)
                && !b.is_pt(p)) && !before.mapped_from(root, &b, p) by {
            assert(b.frames@.allocated(p, o) <==> x.frames@.allocated(p, o) && p != t);
            assert(x.frames@.allocated(p, o) <==> a.frames@.allocated(p, o) && !(exists|k: int|
             #[trigger]
                a.user_leaf(root, t, k) && a.leaf_page(t, k) == p));
            assert(a.frames@.allocated(p, o) <==> before.frames@.allocated(p, o) && !(before.is_pt(
                p,
            ) && !a.is_pt(p)) && !before.mapped_from(root, &a, p));
            if before.mapped_from(root, &b, p) {
                let (u, k) = choose|u: int, k: int|
                    #![trigger before.user_leaf(root, u, k)]
                    before.user_leaf(root, u, k) && !b.is_pt(u) && before.leaf_page(u, k) == p;
                if u == t {
                    Self::lemma_shrunk_leaf(before, a, root, t, k);
                    assert(a.user_leaf(root, t, k) && a.leaf_page(t, k) == p);
                } else {
                    assert(!a.is_pt(u));
                    assert(before.user_leaf(root, u, k));
                    assert(before.mapped_from(root, &a, p));
                }
            }
            if before.mapped_from(root, &a, p) {
                let (u, k) = choose|u: int, k: int|
                    #![trigger before.user_leaf(root, u, k)]
                    before.user_leaf(root, u, k) && !a.is_pt(u) && before.leaf_page(u, k) == p;
                assert(!b.is_pt(u));
                assert(before.user_leaf(root, u, k));
            }
            if exists|k: int| #[trigger] a.user_leaf(root, t, k) && a.leaf_page(t, k) == p {
                let k = choose|k: int| #[trigger]
                    a.user_leaf(root, t, k) && a.leaf_page(t, k) == p;
                Self::lemma_shrunk_leaf(before, a, root, t, k);
                assert(before.user_leaf(root, t, k) && !b.is_pt(t));
            }
        }
    }

    /// Give back all lowest tables under middle table `mid`, with the user pages they map.
    fn free_lows(&mut self, mid: u64, root: Ghost<int>, before: Ghost<PhysMemory>)
        requires
            before@.inv(),
            before@.owns_pages(root@),
            old(self).shrunk(&before@, root@),
            old(self).is_pt(mid as int),
            old(self).owner@[mid as int] is Mid,
            old(self).root_of(mid as int) == root@,
        ensures
            final(self).shrunk(&before@, root@),
            final(self).is_pt(mid as int),
            final(self).owner@.submap_of(old(self).owner@),
            forall|j: int| 0 <= j < 512 ==> !is_table(#[trigger] slot(final(self).ram, mid as int, j)),
            forall|p: int, j: int|
                #![trigger slot(final(self).ram, p, j)]
                final(self).is_pt(p) && p != mid && 0 <= j < 512 ==> slot(final(self).ram, p, j)
                    == slot(old(self).ram, p, j),
            forall|p: int| #[trigger]
                old(self).is_pt(p) && !(old(self).owner@[p] is Low) ==> final(self).is_pt(p),
    {
        let ghost start = *self;
        let ghost mm = mid as int;
        let mut i: u64 = 0;
        while i < 512
            invariant
                i <= 512,
                mm == mid,
                start == *old(self),
                before@.inv(),
                before@.owns_pages(root@),
                self.shrunk(&before@, root@),
                self.is_pt(mm),
                self.owner@[mm] is Mid,
                self.root_of(mm) == root@,
                self.owner@.submap_of(start.owner@),
                forall|j: int| 0 <= j < i ==> !is_table(#[trigger] slot(self.ram, mm, j)),
                forall|p: int, j: int|
                    #![trigger slot(self.ram, p, j)]
                    self.is_pt(p) && p != mm && 0 <= j < 512 ==> slot(self.ram, p, j) == slot(
                        start.ram,
                        p,
                        j,
                    ),
                forall|p: int| #[trigger]
                    start.is_pt(p) && !(start.owner@[p] is Low) ==> self.is_pt(p),
            decreases 512 - i,
        {
            let ghost a = *self;
            proof {
                self.lemma_pt(mm);
                assert(self.ram.has(mm + 8 * i));
                self.lemma_slot(mm, i as int);
            }
            let e: u64 = self.ram.read(mid + 8 * i);
            assert(e == slot(a.ram, mm, i as int));
            if pte_valid(e) && !pte_leaf(e) {
                let t: u64 = pte_target(e);
                let ghost tt = t as int;
                proof {
                    assert(a.owner@[tt] == (Owner::Low { mid: mm, idx: i as int }));
                    assert forall|k: int| #[trigger] a.user_leaf(root@, tt, k) implies a.frames@.allocated(
                        a.leaf_page(tt, k),
                        0,
                    ) && !a.is_pt(a.leaf_page(tt, k)) by {
                        Self::lemma_shrunk_leaf(before@, a, root@, tt, k);
                    }
                    assert forall|k: int, j: int|
                        #![trigger a.user_leaf(root@, tt, k), a.user_leaf(root@, tt, j)]
                        a.user_leaf(root@, tt, k) && a.user_leaf(root@, tt, j) && a.leaf_page(tt, k)
                            == a.leaf_page(tt, j) implies k == j by {
                        Self::lemma_shrunk_leaf(before@, a, root@, tt, k);
                        Self::lemma_shrunk_leaf(before@, a, root@, tt, j);
                    }
                }
                self.free_leaves(t, root);
                let ghost x = *self;
                let c: u64 = self.drop_table(mid, i);
                proof {
                    let b = *self;
                    Self::lemma_shrunk_low(before@, a, x, b, root@, mm, i as int, tt);
                    assert forall|p: int, j: int|
                        #![trigger slot(b.ram, p, j)]
                        b.is_pt(p) && p != mm && 0 <= j < 512 implies slot(b.ram, p, j) == slot(
                        start.ram,
                        p,
                        j,
                    ) by {
                        assert(a.is_pt(p));
                        assert(slot(b.ram, p, j) == slot(a.ram, p, j));
                    }
                    assert forall|j: int| 0 <= j < i + 1 implies !is_table(
                        #[trigger] slot(b.ram, mm, j),
                    ) by {
                        if j < i {
                            assert(slot(b.ram, mm, j) == slot(a.ram, mm, j));
                        }
                    }
                }
            }
            i += 1;
        }
    }
}

impl PhysMemory {
    /// A middle table that points to no table is gone.
    proof fn lemma_shrunk_mid(
        before: PhysMemory,
        a: PhysMemory,
        b: PhysMemory,
        root: int,
        i: int,
        c: int,
    )
        requires
            before.inv(),
            a.shrunk(&before, root),
            a.is_root(root),
            0 <= i < 512,
            is_table(slot(a.ram, root, i)),
            a.is_pt(c),
            a.owner@[c] == (Owner::Mid { root, idx: i }),
            b.inv(),
            b.owner@ == a.owner@.remove(c),
            b.ram.same_but_word(&a.ram, root + 8 * i),
            slot(b.ram, root, i) == 0,
            b.frames@.base == a.frames@.base,
            b.frames@.pages == a.frames@.pages,
            b.frames@.reserved == a.frames@.reserved,
            forall|p: int, o: int| #[trigger]
                b.frames@.allocated(p, o) <==> a.frames@.allocated(p, o) && p != c,
            forall|q: int, j: int|
                #![trigger slot(b.ram, q, j)]
                a.is_pt(q) && 0 <= j < 512 && !(q == root && j == i) ==> slot(b.ram, q, j) == slot(
                    a.ram,
                    q,
                    j,
                ),
        ensures
            b.shrunk(&before, root),
    {
        assert(before.is_pt(root) && before.is_pt(c));
        a.lemma_pt(root);
        assert forall|p: int| #[trigger] before.is_pt(p) && before.root_of(p) != root implies b.is_pt(
            p,
        ) by {
            assert(a.is_pt(p));
            assert(before.owner@[c] == a.owner@[c]);
        }
        assert(b.owner@.submap_of(before.owner@));
        assert(b.ram.base == before.ram.base && b.ram.words@.len() == before.ram.words@.len());
        assert(b.frames@.base == before.frames@.base && b.frames@.pages == before.frames@.pages
            && b.frames@.reserved == before.frames@.reserved);
        assert forall|q: int, j: int|
            #![trigger slot(b.ram, q, j)]
            b.is_pt(q) && 0 <= j < 512 implies slot(b.ram, q, j) == slot(before.ram, q, j) || (
        before.root_of(q) == root && is_table(slot(before.ram, q, j)) && slot(b.ram, q, j) == 0
            && !(before.owner@[q] is Low)) by {
            assert(a.is_pt(q));
            if q == root && j == i {
                assert(slot(a.ram, root, i) == slot(before.ram, root, i));
            } else {
                assert(slot(b.ram, q, j) == slot(a.ram, q, j));
            }
        }
        assert forall|w: int|
            b.ram.has(w) && !before.is_pt(w - w % 4096) implies #[trigger] b.ram.word(w)
            == before.ram.word(w) by {
            assert(w - w % 4096 != root);
            assert(a.ram.has(w));
            assert(a.ram.word(w) == before.ram.word(w));
            assert(b.ram.word(w) == a.ram.word(w));
        }
        assert forall|p: int, o: int| #[trigger]
            b.frames@.allocated(p, o) <==> before.frames@.allocated(p, o) && !(before.is_pt(p)
                && !b.is_pt(p)) && !before.mapped_from(root, &b, p) by {
            assert(b.frames@.allocated(p, o) <==> a.frames@.allocated(p, o) && p != c);
            if before.mapped_from(root, &b, p) {
                let (u, k) = choose|u: int, k: int|
                    #![trigger before.user_leaf(root, u, k)]
                    before.user_leaf(root, u, k) && !b.is_pt(u) && before.leaf_page(u, k) == p;
                assert(u != c);
                assert(!a.is_pt(u));
                assert(before.mapped_from(root, &a, p));
            }
            if before.mapped_from(root, &a, p) {
                let (u, k) = choose|u: int, k: int|
                    #![trigger before.user_leaf(root, u, k)]
                    before.user_leaf(root, u, k) && !a.is_pt(u) && before.leaf_page(u, k) == p;
                assert(!b.is_pt(u));
                assert(before.user_leaf(root, u, k));
            }
        }
    }

    /// Give back all tables below the root, with the user pages they map.
    fn free_mids(&mut self, root: u64, before: Ghost<PhysMemory>)
        requires
            before@.inv(),
            before@.is_root(root as int),
            before@.owns_pages(root as int),
            old(self).shrunk(&before@, root as int),
            old(self).is_root(root as int),
        ensures
            final(self).shrunk(&before@, root as int),
            final(self).is_root(root as int),
            forall|j: int|
                0 <= j < 512 ==> !is_table(#[trigger] slot(final(self).ram, root as int, j)),
    {
        let ghost rr = root as int;
        let mut i: u64 = 0;
        while i < 512
            invariant
                i <= 512,
                rr == root,
                before@.inv(),
                before@.is_root(rr),
                before@.owns_pages(rr),
                self.shrunk(&before@, rr),
                self.is_root(rr),
                forall|j: int| 0 <= j < i ==> !is_table(#[trigger] slot(self.ram, rr, j)),
            decreases 512 - i,
        {
            let ghost a = *self;
            proof {
                self.lemma_pt(rr);
                assert(self.ram.has(rr + 8 * i));
                self.lemma_slot(rr, i as int);
            }
            let e: u64 = self.ram.read(root + 8 * i);
            assert(e == slot(a.ram, rr, i as int));
            if pte_valid(e) && !pte_leaf(e) {
                let mid: u64 = pte_target(e);
                self.free_lows(mid, Ghost(rr), before);
                let ghost x = *self;
                proof {
                    assert(x.is_pt(rr));
                    assert(slot(x.ram, rr, i as int) == slot(a.ram, rr, i as int));
                }
                let c: u64 = self.drop_table(root, i);
                proof {
                    let b = *self;
                    Self::lemma_shrunk_mid(before@, x, b, rr, i as int, c as int);
                    assert forall|j: int| 0 <= j < i + 1 implies !is_table(
                        #[trigger] slot(b.ram, rr, j),
                    ) by {
                        if j < i {
                            assert(slot(b.ram, rr, j) == slot(x.ram, rr, j));
                            assert(slot(x.ram, rr, j) == slot(a.ram, rr, j));
                        }
                    }
                }
            }
            i += 1;
        }
    }

    /// `other` without the address space of `root`: its tables and its user pages are given
    /// back; all other address spaces, and all memory but the tables, are as before.
    pub open spec fn without_root(&self, other: &PhysMemory, root: int) -> bool {
        &&& self.inv()
        &&& forall|p: int| #[trigger]
            self.is_pt(p) <==> other.is_pt(p) && other.root_of(p) != root
        &&& forall|r: int| #[trigger] self.is_root(r) <==> other.is_root(r) && r != root
        &&& forall|r: int, v: int|
            self.is_root(r) ==> #[trigger] lookup(self.ram, r, v) == lookup(other.ram, r, v)
        &&& self.ram.base == other.ram.base
        &&& self.ram.end() == other.ram.end()
        &&& forall|a: int|
            self.ram.has(a) && !other.is_pt(a - a % 4096) ==> #[trigger] self.ram.word(a)
                == other.ram.word(a)
        &&& self.frames@.base == other.frames@.base
        &&& self.frames@.pages == other.frames@.pages
        &&& self.frames@.reserved == other.frames@.reserved
        &&& forall|p: int, o: int| #[trigger]
            self.frames@.allocated(p, o) <==> other.frames@.allocated(p, o) && !(other.is_pt(p)
                && other.root_of(p) == root) && !other.maps_page(root, p)
    }

    /// A leaf under `root` maps the page of the allocator at `p` for the user.
    pub open spec fn maps_page(&self, root: int, p: int) -> bool {
        exists|t: int, k: int|
            #![trigger self.user_leaf(root, t, k)]
            self.user_leaf(root, t, k) && self.leaf_page(t, k) == p
    }

    /// With the root gone too, nothing of the address space is left.
    #[verifier::rlimit(40)]
    proof fn lemma_without_root(
        before: PhysMemory,
        a: PhysMemory,
        x: PhysMemory,
        b: PhysMemory,
        root: int,
    )
        requires
            before.inv(),
            before.is_root(root),
            a.shrunk(&before, root),
            a.is_root(root),
            forall|j: int| 0 <= j < 512 ==> !is_table(#[trigger] slot(a.ram, root, j)),
            x.ram == a.ram,
            x.frames == a.frames,
            x.owner@ == a.owner@.remove(root),
            b.ram == a.ram,
            b.owner@ == x.owner@,
            b.basic(),
            b.frames@.base == a.frames@.base,
            b.frames@.pages == a.frames@.pages,
            b.frames@.reserved == a.frames@.reserved,
            forall|p: int, o: int| #[trigger]
                b.frames@.allocated(p, o) <==> a.frames@.allocated(p, o) && p != root,
        ensures
            b.without_root(&before, root),
            x.inv(),
    {
        // Tables of this root other than the root itself are gone.
        assert forall|p: int| #[trigger] a.is_pt(p) implies p == root || before.root_of(p)
            != root by {
            assert(before.is_pt(p));
            if p != root && before.root_of(p) == root {
                a.lemma_place(p);
                match a.owner@[p] {
                    Owner::Root => {},
                    Owner::Mid { root: r, idx } => {
                        assert(r == root);
                        assert(is_table(slot(a.ram, root, idx)));
                    },
                    Owner::Low { mid, idx } => {
                        assert(a.is_pt(mid));
                        assert(before.is_pt(mid));
                        a.lemma_place(mid);
                        assert(a.owner@[mid]->root == root);
                        assert(is_table(slot(a.ram, root, a.owner@[mid]->Mid_idx)));
                    },
                }
            }
        }
        assert forall|p: int| #[trigger]
            b.is_pt(p) <==> before.is_pt(p) && before.root_of(p) != root by {
            if before.is_pt(p) && before.root_of(p) != root {
                assert(a.is_pt(p));
            }
            if b.is_pt(p) {
                assert(a.is_pt(p));
                assert(before.is_pt(p));
            }
        }
        assert forall|q: int| #[trigger] b.is_pt(q) implies b.place_ok(q) && x.place_ok(q) by {
            assert(a.is_pt(q));
            a.lemma_place(q);
            assert(before.is_pt(q));
            match a.owner@[q] {
                Owner::Root => {},
                Owner::Mid { root: r, idx } => {
                    assert(r != root);
                },
                Owner::Low { mid, idx } => {
                    assert(mid != root);
                },
            }
        }
        assert forall|q: int, j: int|
            #![trigger slot(b.ram, q, j)]
            b.is_pt(q) && 0 <= j < 512 implies b.slot_ok(q, j) && x.slot_ok(q, j) by {
            assert(a.is_pt(q));
            a.lemma_slot(q, j);
            let e = slot(a.ram, q, j);
            if is_table(e) && target(e) == root {
                assert(a.owner@[root] is Root);
            }
        }
        assert forall|q: int| #[trigger] b.is_pt(q) implies b.frames@.allocated(q, 0)
            && x.frames@.allocated(q, 0) by {
            assert(a.is_pt(q));
            a.lemma_place(q);
        }
        b.lemma_consistent();
        x.lemma_consistent();
        assert forall|r: int| #[trigger] b.is_root(r) <==> before.is_root(r) && r != root by {
            if b.is_root(r) {
                assert(a.is_pt(r));
                assert(before.is_pt(r));
            }
            if before.is_root(r) && r != root {
                assert(before.root_of(r) == r);
                assert(b.is_pt(r));
                assert(a.is_pt(r));
            }
        }
        assert forall|r: int, v: int| b.is_root(r) implies #[trigger] lookup(b.ram, r, v) == lookup(
            before.ram,
            r,
            v,
        ) by {
            assert(before.is_root(r) && r != root);
            Self::lemma_shrunk_lookup(before, a, root, r, v);
        }
        assert forall|p: int, o: int| #[trigger]
            b.frames@.allocated(p, o) <==> before.frames@.allocated(p, o) && !(before.is_pt(p)
                && before.root_of(p) == root) && !before.maps_page(root, p) by {
            assert(b.frames@.allocated(p, o) <==> a.frames@.allocated(p, o) && p != root);
            if before.maps_page(root, p) {
                let (t, k) = choose|t: int, k: int|
                    #![trigger before.user_leaf(root, t, k)]
                    before.user_leaf(root, t, k) && before.leaf_page(t, k) == p;
                assert(t != root);
                assert(!a.is_pt(t));
                assert(before.mapped_from(root, &a, p));
            }
            if before.mapped_from(root, &a, p) {
                let (t, k) = choose|t: int, k: int|
                    #![trigger before.user_leaf(root, t, k)]
                    before.user_leaf(root, t, k) && !a.is_pt(t) && before.leaf_page(t, k) == p;
                assert(before.user_leaf(root, t, k));
            }
        }
    }

    /// Other address spaces translate as before while tables of `root` go.
    proof fn lemma_shrunk_lookup(before: PhysMemory, a: PhysMemory, root: int, r: int, v: int)
        requires
            before.inv(),
            a.shrunk(&before, root),
            before.is_root(r),
            r != root,
        ensures
            lookup(a.ram, r, v) == lookup(before.ram, r, v),
    {
        reveal(lookup);
        assert(before.root_of(r) == r);
        assert(a.is_pt(r));
        let e2 = slot(before.ram, r, vpn2(v));
        assert(slot(a.ram, r, vpn2(v)) == e2);
        if is_table(e2) {
            before.lemma_slot(r, vpn2(v));
            let t1 = target(e2);
            assert(before.root_of(t1) == r);
            assert(a.is_pt(t1));
            let e1 = slot(before.ram, t1, vpn1(v));
            assert(slot(a.ram, t1, vpn1(v)) == e1);
            if is_table(e1) {
                before.lemma_slot(t1, vpn1(v));
                let t0 = target(e1);
                assert(before.root_of(t0) == r);
                assert(a.is_pt(t0));
                assert(slot(a.ram, t0, vpn0(v)) == slot(before.ram, t0, vpn0(v)));
            }
        }
    }
}

/// Tear down the address space of `root`: its user pages, its tables and the root are given back.
///
/// The pages that it maps for the user are its own; pages outside the allocator, such as device
/// registers, are only unmapped.
pub fn destroy_root(m: &mut PhysMemory, root: u64)
    requires
        old(m).inv(),
        old(m).is_root(root as int),
        old(m).owns_pages(root as int),
    ensures
        final(m).without_root(old(m), root as int),
{
    let ghost before = *m;
    proof {
        assert(m.shrunk(&before, root as int)) by {
            assert forall|p: int| !before.mapped_from(root as int, &before, p) by {}
        }
    }
    m.free_mids(root, Ghost(before));
    let ghost a = *m;
    proof {
        a.lemma_place(root as int);
        m.owner@ = a.owner@.remove(root as int);
        m.frames.lemma_wf();
        crate::mem::law_allocated_can_free(m.frames@, root as int, 0);
    }
    let ghost x = *m;
    let r = crate::mem::free_pages(&mut m.frames, root);
    proof {
        assert forall|p: int, o: int| #[trigger]
            m.frames@.allocated(p, o) <==> a.frames@.allocated(p, o) && p != root by {
            crate::mem::law_free_ends_one(x.frames@, root as int, p, o);
        }
        PhysMemory::lemma_without_root(before, a, x, *m, root as int);
    }
}

impl KernelLayout {
    /// Whether the parts of the layout fit together.
    pub fn check(&self) -> (r: bool)
        ensures
            r == self.wf(),
    {
        let big: u64 = SUPER_PAGE;
        if self.kernel_end > VA_LIMIT || self.ram_end > VA_LIMIT {
            return false;
        }
        let over: u64 = self.kernel_end + big - 1;
        let end: u64 = over - over % big;
        assert(end == self.image_end());
        let aligned: bool = self.ram_start % big == 0 && self.ram_end % big == 0
            && self.kernel_start % big == 0 && self.text_start % 4096 == 0 && self.rodata_start
            % 4096 == 0 && self.data_start % 4096 == 0 && self.kernel_end % 4096 == 0;
        let ordered: bool = self.ram_start <= self.kernel_start && self.kernel_start
            <= self.text_start && self.text_start <= self.rodata_start && self.rodata_start
            <= self.data_start && self.data_start <= self.kernel_end && self.kernel_end
            <= self.ram_end;
        if !aligned || !ordered {
            return false;
        }
        let guard: bool = self.stack_guard % 4096 == 0 && self.kernel_start <= self.stack_guard
            && self.stack_guard < end;
        let trap: bool = self.trap_base % 4096 == 0 && self.kernel_start <= self.trap_base
            && self.trap_base <= self.trap_top && self.trap_top <= end && (self.trap_top
            - self.trap_base) % TRAP_STRIDE == 0;
        let idle: bool = self.idle_base % 4096 == 0 && self.kernel_start <= self.idle_base
            && self.idle_base <= self.idle_top && self.idle_top <= end && (self.idle_top
            - self.idle_base) % TRAP_STRIDE == 0;
        let uart: bool = self.uart_base < VA_LIMIT && (self.uart_base < self.ram_start
            || self.uart_base >= self.ram_end);
        guard && trap && idle && uart
    }
}

/// Pages that the tables of a kernel region take, other than the root.
fn kernel_tables(l: &KernelLayout) -> (r: u64)
    requires
        l.wf(),
    ensures
        r == l.tables(),
        r <= 0x10_0000,
{
    let end: u64 = image_end(l);
    let mut n: u64 = 0;
    let u1: u64 = l.uart_base / 0x4000_0000;
    let u0: u64 = l.uart_base / 0x20_0000;
    let ghost g = gigs(l.ram_start as int, l.ram_end as int);
    let ghost h = megs(l.kernel_start as int, l.image_end());
    proof {
        reveal(gigs);
        reveal(megs);
        lemma_ranges_finite(l.ram_start as int, l.ram_end as int);
        lemma_ranges_finite(l.kernel_start as int, l.image_end());
        vstd::set_lib::lemma_int_range(
            l.ram_start as int / 0x4000_0000,
            (l.ram_end - 1) / 0x4000_0000 + 1,
        );
        vstd::set_lib::lemma_int_range(
            l.kernel_start as int / 0x20_0000,
            (l.image_end() - 1) / 0x20_0000 + 1,
        );
    }
    let mut has1: bool = false;
    if l.ram_start < l.ram_end {
        let a: u64 = l.ram_start / 0x4000_0000;
        let b: u64 = (l.ram_end - 1) / 0x4000_0000;
        has1 = a <= u1 && u1 <= b;
        n = b - a + 1;
    }
    assert(n == g.len() && has1 == g.contains(u1 as int));
    if !has1 {
        n = n + 1;
    }
    let ghost n1 = n;
    let mut k: u64 = 0;
    let mut has0: bool = false;
    if l.kernel_start < end {
        let a: u64 = l.kernel_start / 0x20_0000;
        let b: u64 = (end - 1) / 0x20_0000;
        has0 = a <= u0 && u0 <= b;
        k = b - a + 1;
    }
    assert(k == h.len() && has0 == h.contains(u0 as int));
    if !has0 {
        k = k + 1;
    }
    n + k
}

impl PhysMemory {
    /// `self` is `other` with one more address space, that of `root`, which maps the kernel region;
    /// all that was there is as before. The root is the page that was to be handed out next, and
    /// its tables are those that followed.
    pub open spec fn with_root(&self, other: &PhysMemory, root: int, l: &KernelLayout) -> bool {
        &&& self.inv()
        &&& !other.is_pt(root)
        &&& self.kept(other, root)
        &&& forall|r: int| #[trigger] self.is_root(r) <==> other.is_root(r) || r == root
        &&& forall|r: int, v: int|
            other.is_root(r) && 0 <= v < VA_LIMIT ==> #[trigger] lookup(self.ram, r, v) == lookup(
                other.ram,
                r,
                v,
            )
        &&& forall|v: int|
            0 <= v < VA_LIMIT ==> #[trigger] lookup(self.ram, root, v) == l.kernel_map(v)
        &&& root == other.frames@.next_page()
        &&& self.frames@.free_pages() == other.frames@.free_pages() - l.tables() - 1
        &&& self.frames@ == other.frames@.after_pages(l.tables() + 1)
    }

    /// Make the page, which is filled with zero, the root of an empty address space.
    proof fn lemma_new_root(a: PhysMemory, b: PhysMemory, page: int)
        requires
            a.inv(),
            a.frames@.allocated(page, 0),
            !a.is_pt(page),
            forall|w: int| page <= w < page + 4096 && w % 8 == 0 ==> #[trigger] a.ram.word(w) == 0,
            b.ram == a.ram,
            b.frames == a.frames,
            b.owner@ == a.owner@.insert(page, Owner::Root),
        ensures
            b.inv(),
            forall|i: int| 0 <= i < 512 ==> #[trigger] slot(b.ram, page, i) == 0,
            forall|r: int| #[trigger] b.is_root(r) <==> a.is_root(r) || r == page,
    {
        a.lemma_page(page, 0);
        assert forall|i: int| 0 <= i < 512 implies #[trigger] slot(b.ram, page, i) == 0 by {
            assert(a.ram.word(page + 8 * i) == 0);
        }
        assert forall|q: int| #[trigger] b.is_pt(q) implies b.place_ok(q) by {
            if q != page {
                a.lemma_place(q);
            }
        }
        assert forall|q: int, j: int|
            #![trigger slot(b.ram, q, j)]
            b.is_pt(q) && 0 <= j < 512 implies b.slot_ok(q, j) by {
            if q != page {
                a.lemma_slot(q, j);
            }
        }
        assert forall|q: int| #[trigger] b.is_pt(q) implies b.frames@.allocated(q, 0) by {
            if q != page {
                a.lemma_place(q);
            }
        }
        b.lemma_consistent();
    }
}

/// Make an address space that maps the kernel region and nothing else. Fails, with nothing
/// changed, exactly when there are too few free pages for its tables.
pub fn create_user_root(m: &mut PhysMemory, l: &KernelLayout) -> (r: Result<u64, ()>)
    requires
        old(m).inv(),
        l.wf(),
    ensures
        r is Err <==> old(m).frames@.free_pages() < l.tables() + 1,
        r is Err ==> *final(m) == *old(m),
        r matches Ok(root) ==> final(m).with_root(old(m), root as int, l),
{
    let need: u64 = kernel_tables(l);
    let free: usize = m.frames.free_page_count();
    if (free as u64) < need + 1 {
        return Err(());
    }
    let ghost before = *m;
    let page: u64 = match m.alloc_page_zeroed() {
        Some(p) => p,
        None => {
            return Err(());
        },
    };
    let ghost a = *m;
    let ghost root = page as int;
    proof {
        before.frames.lemma_wf();
        law_page_available(before.frames@);
        crate::mem::law_alloc_takes_pages(before.frames@, 0);
        crate::tiling::lemma_block_pages_values();
        m.owner@ = a.owner@.insert(root, Owner::Root);
        PhysMemory::lemma_new_root(a, *m, root);
    }
    let ghost b = *m;
    let r = map_kernel_region(m, page, l);
    proof {
        let c = *m;
        assert(r is Ok);
        assert(b.kept(&before, root)) by {
            reveal(PhysMemory::kept);
            assert forall|w: int|
                b.ram.has(w) && !b.is_pt(w - w % 4096) implies #[trigger] b.ram.word(w)
                == before.ram.word(w) by {
                assert(w - w % 4096 != root);
                assert(a.ram.has(w));
            }
            assert(b.frames_grown(&before));
        }
        PhysMemory::lemma_kept(before, b, c, root);
        assert(c.frames@.drawn_from(before.frames@)) by {
            reveal(PhysMemory::kept);
        }
        crate::mem::law_drawn_pages(before.frames@, c.frames@);
        assert forall|r: int| #[trigger] c.is_root(r) <==> before.is_root(r) || r == root by {
            assert(b.is_root(r) <==> a.is_root(r) || r == root);
        }
        assert forall|r: int, v: int|
            before.is_root(r) && 0 <= v < VA_LIMIT implies #[trigger] lookup(c.ram, r, v) == lookup(
            before.ram,
            r,
            v,
        ) by {
            assert(b.is_root(r) && c.is_root(r));
            assert(a.is_root(r));
            assert(lookup(a.ram, r, v) == lookup(before.ram, r, v));
        }
    }
    Ok(page)
}

/// Make the address space of the kernel itself. There has to be memory for its tables.
pub fn init(m: &mut PhysMemory, l: &KernelLayout) -> (root: u64)
    requires
        old(m).inv(),
        l.wf(),
        old(m).frames@.free_pages() > l.tables(),
    ensures
        final(m).with_root(old(m), root as int, l),
{
    match create_user_root(m, l) {
        Ok(root) => root,
        Err(_) => 0,
    }
}

/// Value of `satp` that makes the hart use the address space of `root`.
pub open spec fn satp_of(root: int) -> int {
    SATP_MODE_SV39 + root / 4096 % 0x1000_0000_0000
}

/// Value of `satp` that makes the hart use the address space of `root`.
pub fn satp_value(root: u64) -> (r: u64)
    ensures
        r == satp_of(root as int),
{
    SATP_MODE_SV39 + root / 4096 % 0x1000_0000_0000
}

/// What has to be written to `satp` to switch to `root`; `None` when the hart uses it already,
/// so that no translation has to be flushed.
pub fn switch_root(satp: u64, root: u64) -> (r: Option<u64>)
    ensures
        r == (if satp == satp_of(root as int) {
            None
        } else {
            Some(satp_of(root as int) as u64)
        }),
{
    let goal: u64 = satp_value(root);
    if satp == goal {
        None
    } else {
        Some(goal)
    }
}

/// Law: nothing of the kernel region is open to the user.
pub proof fn law_kernel_closed_to_user(l: KernelLayout, v: int)
    requires
        l.wf(),
        0 <= v < VA_LIMIT,
    ensures
        l.kernel_map(v) matches Some((level, e)) ==> !is_user(e),
{
    let page = v - v % 4096;
    let big = v - v % 0x20_0000;
    lemma_entry(page, PTE_LEAF_RW as int);
    lemma_entry(page, PTE_LEAF_RX as int);
    lemma_entry(page, PTE_LEAF_R as int);
    lemma_entry(big, PTE_LEAF_RW as int);
    lemma_entry(big, PTE_LEAF_R as int);
}

/// Law: no page of the kernel region is both writable and executable.
pub proof fn law_kernel_write_xor_execute(l: KernelLayout, v: int)
    requires
        l.wf(),
        0 <= v < VA_LIMIT,
    ensures
        l.kernel_map(v) matches Some((level, e)) ==> !(flags_of(e) / 4 % 2 == 1 && flags_of(e) / 8
            % 2 == 1),
{
    let page = v - v % 4096;
    let big = v - v % 0x20_0000;
    lemma_entry(page, PTE_LEAF_RW as int);
    lemma_entry(page, PTE_LEAF_RX as int);
    lemma_entry(page, PTE_LEAF_R as int);
    lemma_entry(big, PTE_LEAF_RW as int);
    lemma_entry(big, PTE_LEAF_R as int);
}

/// Law: the kernel region is mapped one to one.
pub proof fn law_kernel_identity(l: KernelLayout, v: int)
    requires
        l.wf(),
        0 <= v < VA_LIMIT,
    ensures
        l.kernel_map(v) matches Some((level, e)) ==> v == target(e) + (if level == 0 {
            v % 4096
        } else {
            v % 0x20_0000
        }),
{
    let page = v - v % 4096;
    let big = v - v % 0x20_0000;
    lemma_entry(page, PTE_LEAF_RW as int);
    lemma_entry(page, PTE_LEAF_RX as int);
    lemma_entry(page, PTE_LEAF_R as int);
    lemma_entry(big, PTE_LEAF_RW as int);
    lemma_entry(big, PTE_LEAF_R as int);
}

impl PhysMemory {
    /// Fill an allocated page that is no table with 4096 bytes.
    pub fn fill_page(&mut self, page: u64, data: &[u8])
        requires
            old(self).inv(),
            old(self).frames@.allocated(page as int, 0),
            !old(self).is_pt(page as int),
            data@.len() == 4096,
        ensures
            final(self).inv(),
            final(self).frames == old(self).frames,
            final(self).owner@ == old(self).owner@,
            final(self).same_maps(old(self)),
            final(self).same_tables(old(self)),
            final(self).ram.same_but_page(&old(self).ram, page as int),
            forall|i: int|
                0 <= i < 512 ==> #[trigger] final(self).ram.word(page + 8 * i) == le64_at(
                    data@,
                    8 * i,
                ),
    {
        let ghost before = *self;
        proof {
            self.lemma_page(page as int, 0);
        }
        self.ram.write_page(page, data);
        proof {
            assert forall|p: int, i: int|
                #![trigger slot(self.ram, p, i)]
                self.is_pt(p) && 0 <= i < 512 implies slot(self.ram, p, i) == slot(
                before.ram,
                p,
                i,
            ) by {
                before.lemma_pt(p);
                assert(before.ram.has(p + 8 * i));
                assert(self.ram.has(p + 8 * i));
                lemma_apart(p, page as int, i);
            }
            Self::lemma_tables_kept(before, *self);
            assert forall|p: int| #[trigger] self.is_pt(p) implies self.frames@.allocated(p, 0) by {
                before.lemma_place(p);
            }
            self.lemma_consistent();
        }
    }

    /// Like `kept`, but the single pages `pages` were allocated too. Memory that was in use, other
    /// than tables, is as before.
    #[verifier::opaque]
    pub open spec fn held(&self, other: &PhysMemory, root: int, pages: Set<int>) -> bool {
        &&& self.inv()
        &&& self.is_root(root)
        &&& other.owner@.submap_of(self.owner@)
        &&& self.ram.base == other.ram.base
        &&& self.ram.end() == other.ram.end()
        &&& forall|a: int|
            self.ram.has(a) && !self.is_pt(a - a % 4096) && !other.frames@.free_page(a - a % 4096)
                ==> #[trigger] self.ram.word(a) == other.ram.word(a)
        &&& self.frames@.base == other.frames@.base
        &&& self.frames@.pages == other.frames@.pages
        &&& self.frames@.reserved == other.frames@.reserved
        &&& forall|p: int, o: int| #[trigger]
            self.frames@.allocated(p, o) <==> other.frames@.allocated(p, o) || (o == 0 && ((
            self.is_pt(p) && !other.is_pt(p)) || pages.contains(p)))
        &&& forall|p: int| #[trigger]
            self.is_pt(p) && !other.is_pt(p) ==> other.frames@.free_page(p)
        &&& forall|p: int| #[trigger]
            pages.contains(p) ==> !self.is_pt(p) && other.frames@.free_page(p)
    }

    /// A change of the tables alone holds no pages.
    pub proof fn lemma_held_none(a: PhysMemory, b: PhysMemory, root: int)
        requires
            b.kept(&a, root),
        ensures
            b.held(&a, root, Set::empty()),
    {
        reveal(PhysMemory::kept);
        reveal(PhysMemory::held);
        assert forall|p: int, o: int| #[trigger] b.frames@.allocated(p, o) <==> a.frames@.allocated(
            p,
            o,
        ) || (o == 0 && ((b.is_pt(p) && !a.is_pt(p)) || Set::<int>::empty().contains(p))) by {}
    }

    /// Two steps taken together.
    pub proof fn lemma_held_steps(
        before: PhysMemory,
        a: PhysMemory,
        b: PhysMemory,
        root: int,
        pages: Set<int>,
        more: Set<int>,
    )
        requires
            a.held(&before, root, pages),
            b.held(&a, root, more),
        ensures
            b.held(&before, root, pages + more),
            forall|p: int| pages.contains(p) ==> !#[trigger] more.contains(p),
    {
        reveal(PhysMemory::held);
        assert forall|p: int| a.frames@.free_page(p) implies #[trigger] before.frames@.free_page(
            p,
        ) by {
            crate::mem::law_free_shrinks(before.frames@, a.frames@, p);
        }
        a.frames.lemma_wf();
        assert forall|p: int| #[trigger] pages.contains(p) implies !a.frames@.free_page(p) by {
            assert(a.frames@.allocated(p, 0));
            crate::mem::law_allocated_not_free(a.frames@, p, 0);
        }
        assert forall|w: int|
            b.ram.has(w) && !b.is_pt(w - w % 4096) && !before.frames@.free_page(
                w - w % 4096,
            ) implies #[trigger] b.ram.word(w) == before.ram.word(w) by {
            assert(a.ram.has(w));
            assert(!a.is_pt(w - w % 4096));
            assert(!a.frames@.free_page(w - w % 4096));
            assert(b.ram.word(w) == a.ram.word(w));
        }
        assert forall|p: int, o: int| #[trigger] b.frames@.allocated(p, o)
            <==> before.frames@.allocated(p, o) || (o == 0 && ((b.is_pt(p) && !before.is_pt(p)) || (
        pages + more).contains(p))) by {
            assert(a.frames@.allocated(p, o) <==> before.frames@.allocated(p, o) || (o == 0 && ((
            a.is_pt(p) && !before.is_pt(p)) || pages.contains(p))));
        }
        assert forall|p: int| #[trigger] (pages + more).contains(p) implies !b.is_pt(p)
            && before.frames@.free_page(p) by {
            if pages.contains(p) {
                assert(!a.is_pt(p));
                if b.is_pt(p) {
                    assert(a.frames@.free_page(p));
                }
            } else {
                assert(more.contains(p));
            }
        }
        assert forall|p: int| #[trigger]
            b.is_pt(p) && !before.is_pt(p) implies before.frames@.free_page(p) by {
            if !a.is_pt(p) {
                assert(a.frames@.free_page(p));
            }
        }
        assert forall|p: int| before.owner@.dom().contains(p) implies #[trigger] b.owner@.dom().contains(
            p,
        ) && before.owner@[p] == b.owner@[p] by {
            assert(a.owner@.dom().contains(p));
        }
    }

    /// A page that was held was given back.
    pub proof fn lemma_held_back(
        before: PhysMemory,
        c: PhysMemory,
        d: PhysMemory,
        root: int,
        pages: Set<int>,
        pa: int,
    )
        requires
            c.held(&before, root, pages),
            pages.contains(pa),
            c.frames@.can_free(pa),
            d.inv(),
            d.ram == c.ram,
            d.owner@ == c.owner@,
            d.frames@ == c.frames@.after_free(c.frames@.index(pa)),
        ensures
            d.held(&before, root, pages.remove(pa)),
    {
        reveal(PhysMemory::held);
        c.frames.lemma_wf();
        before.lemma_free_page_unused(pa);
        assert forall|p: int, o: int| #[trigger] d.frames@.allocated(p, o)
            <==> before.frames@.allocated(p, o) || (o == 0 && ((d.is_pt(p) && !before.is_pt(p))
            || pages.remove(pa).contains(p))) by {
            crate::mem::law_free_ends_one(c.frames@, pa, p, o);
            assert(c.frames@.allocated(p, o) <==> before.frames@.allocated(p, o) || (o == 0 && ((
            c.is_pt(p) && !before.is_pt(p)) || pages.contains(p))));
            if p == pa {
                assert(!before.frames@.allocated(pa, o));
                assert(!c.is_pt(pa));
            }
        }
        assert forall|p: int| #[trigger] pages.remove(pa).contains(p) implies !d.is_pt(p)
            && before.frames@.free_page(p) by {
            assert(pages.contains(p));
        }
    }

    /// A page that is free is not allocated.
    pub proof fn lemma_free_page_unused(&self, p: int)
        ensures
            self.frames@.free_page(p) ==> forall|o: int| !self.frames@.allocated(p, o),
    {
        reveal(BuddyState::free_page);
        if self.frames@.free_page(p) {
            assert forall|o: int| !self.frames@.allocated(p, o) by {
                crate::tiling::lemma_block_pages_pos(o);
                let n = crate::tiling::block_pages(o);
                assert(n * PAGE_SIZE >= 4096) by (nonlinear_arith)
                    requires
                        n >= 1,
                        PAGE_SIZE == 4096,
                ;
            }
        }
    }
}

/// Nothing changed.
pub proof fn lemma_unchanged(m: PhysMemory, root: int)
    requires
        m.inv(),
        m.is_root(root),
    ensures
        m.held(&m, root, Set::empty()),
        m.same_maps(&m),
{
    PhysMemory::lemma_kept_same(m, root);
    PhysMemory::lemma_held_none(m, m, root);
    lemma_same_maps(m);
}

/// Nothing changed but the inside of the allocator.
pub proof fn lemma_unchanged_state(a: PhysMemory, b: PhysMemory, root: int)
    requires
        a.inv(),
        b.inv(),
        b.same(&a),
        a.is_root(root),
    ensures
        b.held(&a, root, Set::empty()),
{
    reveal(PhysMemory::held);
    assert forall|p: int, o: int| #[trigger] b.frames@.allocated(p, o) <==> a.frames@.allocated(
        p,
        o,
    ) || (o == 0 && ((b.is_pt(p) && !a.is_pt(p)) || Set::<int>::empty().contains(p))) by {}
}

/// A page was allocated and filled.
pub proof fn lemma_page_taken(before: PhysMemory, a: PhysMemory, b: PhysMemory, root: int, pa: int)
    requires
        before.inv(),
        before.is_root(root),
        a.owner@ == before.owner@,
        a.frames@ == before.frames@.after_alloc(0),
        before.frames@.free_page(pa),
        !before.is_pt(pa),
        a.ram.same_but_page(&before.ram, pa),
        pa % 4096 == 0,
        forall|p: int, o: int| #[trigger]
            a.frames@.allocated(p, o) <==> before.frames@.allocated(p, o) || (p == pa && o == 0),
        b.inv(),
        b.frames == a.frames,
        b.owner@ == a.owner@,
        b.ram.same_but_page(&a.ram, pa),
        a.same_maps(&before),
        b.same_maps(&a),
    ensures
        b.held(&before, root, set![pa]),
        b.same_maps(&before),
{
    reveal(PhysMemory::held);
    let s = before.frames@;
    assert forall|p: int, o: int| #[trigger] b.frames@.allocated(p, o) <==> s.allocated(p, o) || (o
        == 0 && ((b.is_pt(p) && !before.is_pt(p)) || set![pa].contains(p))) by {
        assert(a.frames@.allocated(p, o) <==> s.allocated(p, o) || (p == pa && o == 0));
    }
    assert forall|w: int|
        b.ram.has(w) && !b.is_pt(w - w % 4096) && !s.free_page(
            w - w % 4096,
        ) implies #[trigger] b.ram.word(w) == before.ram.word(w) by {
        assert(w - w % 4096 != pa);
        assert(a.ram.has(w));
        assert(b.ram.word(w) == a.ram.word(w));
        assert(a.ram.word(w) == before.ram.word(w));
    }
    assert forall|r: int| #[trigger] b.is_root(r) <==> before.is_root(r) by {
        assert(a.is_root(r) <==> before.is_root(r));
    }
    assert forall|r: int, v: int| b.is_root(r) implies #[trigger] lookup(b.ram, r, v) == lookup(
        before.ram,
        r,
        v,
    ) by {
        assert(a.is_root(r));
        assert(lookup(a.ram, r, v) == lookup(before.ram, r, v));
    }
}

/// A page that is held can be given back.
pub proof fn lemma_held_can_free(before: PhysMemory, c: PhysMemory, root: int, pages: Set<int>, pa: int)
    requires
        c.held(&before, root, pages),
        pages.contains(pa),
    ensures
        c.frames@.can_free(pa),
        c.frames@.allocated(pa, 0),
        !c.is_pt(pa),
{
    reveal(PhysMemory::held);
    assert(c.frames@.allocated(pa, 0));
    c.frames.lemma_wf();
    crate::mem::law_allocated_can_free(c.frames@, pa, 0);
}

/// Translations that are the same twice over are the same.
pub proof fn lemma_same_maps_steps(a: PhysMemory, b: PhysMemory, c: PhysMemory)
    requires
        b.same_maps(&a),
        c.same_maps(&b),
    ensures
        c.same_maps(&a),
{
    assert forall|r: int| #[trigger] c.is_root(r) <==> a.is_root(r) by {
        assert(b.is_root(r) <==> a.is_root(r));
    }
    assert forall|r: int, v: int| c.is_root(r) implies #[trigger] lookup(c.ram, r, v) == lookup(
        a.ram,
        r,
        v,
    ) by {
        assert(b.is_root(r));
        assert(lookup(b.ram, r, v) == lookup(a.ram, r, v));
    }
}

/// Taking and filling a page makes no tables.
pub proof fn lemma_same_sets(before: PhysMemory, a: PhysMemory, b: PhysMemory, root: int, va: int)
    requires
        before.inv(),
        before.is_root(root),
        a.same_tables(&before),
        b.same_tables(&a),
    ensures
        mids(b.ram, root) == mids(before.ram, root),
        lows(b.ram, root) == lows(before.ram, root),
        missing(b.ram, root, va) == missing(before.ram, root, va),
{
    reveal(mids);
    reveal(lows);
    reveal(missing);
    assert forall|q: int, j: int|
        #![trigger slot(b.ram, q, j)]
        before.is_pt(q) && 0 <= j < 512 implies slot(b.ram, q, j) == slot(before.ram, q, j) by {
        assert(slot(b.ram, q, j) == slot(a.ram, q, j));
        assert(slot(a.ram, q, j) == slot(before.ram, q, j));
    }
    assert(mids(b.ram, root) =~= mids(before.ram, root));
    assert forall|x: int| #[trigger] lows(b.ram, root).contains(x) <==> lows(
        before.ram,
        root,
    ).contains(x) by {
        let i = x / 512;
        let j = x % 512;
        if 0 <= x < 0x4_0000 {
            assert(slot(b.ram, root, i) == slot(before.ram, root, i));
            if is_table(slot(before.ram, root, i)) {
                before.lemma_slot(root, i);
                let t = target(slot(before.ram, root, i));
                assert(slot(b.ram, t, j) == slot(before.ram, t, j));
            }
        }
    }
    assert(lows(b.ram, root) =~= lows(before.ram, root));
    let e2 = slot(before.ram, root, vpn2(va));
    assert(slot(b.ram, root, vpn2(va)) == e2);
    if is_table(e2) {
        before.lemma_slot(root, vpn2(va));
        assert(slot(b.ram, target(e2), vpn1(va)) == slot(before.ram, target(e2), vpn1(va)));
    }
}

} // verus!
