//! Address spaces of processes, taken together.
//!
//! A page of the allocator that a process can see belongs to that process alone, unless it is a
//! shared page, which its two owners see at one fixed address. Every operation on processes,
//! shared pages and page capabilities keeps this.

use vstd::prelude::*;
use crate::mmu::{has_path, lookup, low_table, slot, PhysMemory};
use crate::pages::PageRecord;
use crate::process::{Cap, ProcessTable, MAX_CAPS};
use crate::registry::Registry;
use crate::shm::{SharedPage, SHM_VA};
use crate::sv39::{
    is_user, lemma_vpn, target, vpn0, vpn1, vpn2, VA_LIMIT,
};

verus! {

/// Most shared pages at one time.
pub const MAX_SHMS: usize = 16;

/// Most page capabilities at one time.
pub const MAX_PAGE_CAPS: usize = 64;

/// Memory, processes, and the pages that processes share or hold by capability.
pub struct Spaces {
    pub mem: PhysMemory,
    pub procs: ProcessTable,
    pub shms: Registry<SharedPage>,
    pub pages: Registry<PageRecord>,
}

/// The address is the start of a page.
pub open spec fn page_addr(v: int) -> bool {
    0 <= v < VA_LIMIT && v % 4096 == 0
}

/// The page of the allocator that `va` maps for the user in the address space of `root`.
pub open spec fn user_page(m: PhysMemory, root: int, va: int) -> Option<int> {
    match lookup(m.ram, root, va) {
        Some((level, e)) => if level == 0 && is_user(e) && m.frames@.base <= target(e) < m.frames@.addr(
            m.frames@.pages,
        ) {
            Some(target(e))
        } else {
            None
        },
        None => None,
    }
}

/// User access is granted to small pages only.
#[verifier::opaque]
pub open spec fn small_only(m: PhysMemory, root: int) -> bool {
    forall|v: int|
        page_addr(v) ==> (#[trigger] lookup(m.ram, root, v) matches Some((level, e)) ==> (is_user(e)
            ==> level == 0))
}

/// Where every translation is as before or of a small page, user access stays with small pages.
pub proof fn lemma_small(a: PhysMemory, b: PhysMemory, root: int)
    requires
        small_only(a, root),
        forall|v: int|
            page_addr(v) ==> #[trigger] lookup(b.ram, root, v) == lookup(a.ram, root, v) || (
            lookup(b.ram, root, v) matches Some((level, e)) ==> level == 0),
    ensures
        small_only(b, root),
{
    reveal(small_only);
    assert forall|v: int| page_addr(v) implies (#[trigger] lookup(b.ram, root, v) matches Some(
        (level, e),
    ) ==> (is_user(e) ==> level == 0)) by {
        let x = lookup(a.ram, root, v);
    }
}

/// The page is allocated by itself and is no table.
pub open spec fn plain(m: PhysMemory, p: int) -> bool {
    m.frames@.allocated(p, 0) && !m.is_pt(p)
}

/// `b` is `a` after a change that shows at most at page `va` of `root`: everything else that user
/// code can see is the same, and pages in use stay in use.
#[verifier::opaque]
pub open spec fn step(a: PhysMemory, b: PhysMemory, root: int, va: int) -> bool {
    &&& b.inv()
    &&& forall|r: int| #[trigger] b.is_root(r) <==> a.is_root(r)
    &&& forall|r: int, v: int|
        a.is_root(r) && page_addr(v) && !(r == root && v == va) ==> #[trigger] user_page(b, r, v)
            == user_page(a, r, v)
    &&& forall|p: int| #[trigger] plain(a, p) ==> plain(b, p)
}

/// Pages in use stay in use while tables are added.
pub proof fn lemma_plain_kept(a: PhysMemory, b: PhysMemory, root: int, p: int)
    requires
        a.inv(),
        b.kept(&a, root),
        plain(a, p),
    ensures
        plain(b, p),
{
    reveal(PhysMemory::kept);
    a.frames.lemma_wf();
    crate::mem::law_allocated_not_free(a.frames@, p, 0);
}

/// A change of one entry.
pub proof fn lemma_step_entry(a: PhysMemory, b: PhysMemory, root: int, va: int)
    requires
        a.inv(),
        b.kept(&a, root),
        b.same_maps_but(&a, root, va),
        page_addr(va),
    ensures
        step(a, b, root, va),
        b.frames@.base == a.frames@.base,
        b.frames@.pages == a.frames@.pages,
{
    reveal(step);
    assert(b.inv() && b.frames_grown(&a)) by {
        reveal(PhysMemory::kept);
    }
    assert forall|r: int, v: int|
        a.is_root(r) && page_addr(v) && !(r == root && v == va) implies #[trigger] user_page(
        b,
        r,
        v,
    ) == user_page(a, r, v) by {
        assert(b.is_root(r));
        lemma_vpn(v, va);
        assert(lookup(b.ram, r, v) == lookup(a.ram, r, v));
    }
    assert forall|p: int| #[trigger] plain(a, p) implies plain(b, p) by {
        lemma_plain_kept(a, b, root, p);
    }
}


/// A page was taken from the allocator.
pub proof fn lemma_step_alloc(a: PhysMemory, b: PhysMemory, page: int)
    requires
        a.inv(),
        b.inv(),
        b.owner@ == a.owner@,
        b.frames@ == a.frames@.after_alloc(0),
        b.same_maps(&a),
        a.frames@.free_page(page),
        !a.is_pt(page),
        forall|p: int, o: int| #[trigger]
            b.frames@.allocated(p, o) <==> a.frames@.allocated(p, o) || (p == page && o == 0),
    ensures
        step(a, b, 0, -1),
        plain(b, page),
        !plain(a, page),
{
    reveal(step);
    a.lemma_free_page_unused(page);
    assert forall|r: int, v: int| a.is_root(r) && page_addr(v) implies #[trigger] user_page(b, r, v)
        == user_page(a, r, v) by {
        assert(b.is_root(r));
        assert(lookup(b.ram, r, v) == lookup(a.ram, r, v));
    }
    assert(b.frames@.allocated(page, 0));
}

/// A page was given back to the allocator.
pub proof fn lemma_step_free(a: PhysMemory, b: PhysMemory, page: int)
    requires
        a.inv(),
        b.inv(),
        b.ram == a.ram,
        b.owner@ == a.owner@,
        a.frames@.can_free(page),
        b.frames@ == a.frames@.after_free(a.frames@.index(page)),
    ensures
        forall|r: int| #[trigger] b.is_root(r) <==> a.is_root(r),
        forall|r: int, v: int| #[trigger] user_page(b, r, v) == user_page(a, r, v),
        forall|p: int| #[trigger] plain(b, p) <==> plain(a, p) && p != page,
{
    a.frames.lemma_wf();
    assert forall|p: int| #[trigger] plain(b, p) <==> plain(a, p) && p != page by {
        crate::mem::law_free_ends_one(a.frames@, page, p, 0);
    }
}

/// Two changes at most one of which shows.
pub proof fn lemma_steps(a: PhysMemory, b: PhysMemory, c: PhysMemory, root: int, va: int)
    requires
        step(a, b, root, va) || step(a, b, 0, -1) || step(a, b, root, -1),
        step(b, c, root, va) || step(b, c, 0, -1) || step(b, c, root, -1),
        page_addr(va) || va == -1,
    ensures
        step(a, c, root, va),
{
    reveal(step);
    assert forall|r: int| #[trigger] c.is_root(r) <==> a.is_root(r) by {
        assert(b.is_root(r) <==> a.is_root(r));
    }
    assert forall|r: int, v: int|
        a.is_root(r) && page_addr(v) && !(r == root && v == va) implies #[trigger] user_page(
        c,
        r,
        v,
    ) == user_page(a, r, v) by {
        assert(b.is_root(r));
        assert(user_page(b, r, v) == user_page(a, r, v));
    }
    assert forall|p: int| #[trigger] plain(a, p) implies plain(c, p) by {
        assert(plain(b, p));
    }
}

/// First address of the page that entry `k` of the lowest table `t` maps.
pub open spec fn leaf_va(m: PhysMemory, t: int, k: int) -> int {
    let mid = m.owner@[t]->mid;
    m.owner@[mid]->Mid_idx * 0x4000_0000 + m.owner@[t]->Low_idx * 0x20_0000 + k * 4096
}

/// The address that three indices make up.
proof fn lemma_indices(i2: int, i1: int, i0: int)
    requires
        0 <= i2 < 512,
        0 <= i1 < 512,
        0 <= i0 < 512,
    ensures
        ({
            let v = i2 * 0x4000_0000 + i1 * 0x20_0000 + i0 * 4096;
            &&& page_addr(v)
            &&& vpn2(v) == i2
            &&& vpn1(v) == i1
            &&& vpn0(v) == i0
        }),
{
    let v = i2 * 0x4000_0000 + i1 * 0x20_0000 + i0 * 4096;
    reveal(vpn2);
    reveal(vpn1);
    reveal(vpn0);
    assert(v / 4096 == i2 * 0x4_0000 + i1 * 512 + i0);
    assert(v / 0x20_0000 == i2 * 512 + i1);
    assert(v / 0x4000_0000 == i2);
}

/// An entry of the lowest level translates the page at its address, and the address tells the
/// entry.
pub proof fn lemma_leaf_va(m: PhysMemory, root: int, t: int, k: int)
    requires
        m.inv(),
        m.user_leaf(root, t, k),
    ensures
        page_addr(leaf_va(m, t, k)),
        m.is_root(root),
        lookup(m.ram, root, leaf_va(m, t, k)) == Some((0int, slot(m.ram, t, k))),
        user_page(m, root, leaf_va(m, t, k)) == Some(m.leaf_page(t, k)),
        vpn0(leaf_va(m, t, k)) == k,
        target(
            slot(
                m.ram,
                target(slot(m.ram, root, vpn2(leaf_va(m, t, k)))),
                vpn1(leaf_va(m, t, k)),
            ),
        ) == t,
{
    m.lemma_place(t);
    let mid = m.owner@[t]->mid;
    m.lemma_place(mid);
    let i1 = m.owner@[t]->Low_idx;
    let i2 = m.owner@[mid]->Mid_idx;
    let v = leaf_va(m, t, k);
    lemma_indices(i2, i1, k);
    assert(lookup(m.ram, root, v) == Some((0int, slot(m.ram, t, k)))) by {
        reveal(lookup);
    }
}

/// When nothing that `root` maps for the user is mapped there twice, and all of it is in use,
/// the address space owns its pages.
pub proof fn lemma_owns(m: PhysMemory, root: int)
    requires
        m.inv(),
        m.is_root(root),
        forall|v: int| page_addr(v) ==> (#[trigger] user_page(m, root, v) matches Some(p) ==> plain(
            m,
            p,
        )),
        forall|v: int, w: int|
            #![trigger user_page(m, root, v), user_page(m, root, w)]
            page_addr(v) && page_addr(w) && user_page(m, root, v) is Some && user_page(m, root, v)
                == user_page(m, root, w) ==> v == w,
    ensures
        m.owns_pages(root),
        forall|p: int| #[trigger]
            m.maps_page(root, p) ==> exists|v: int|
                page_addr(v) && #[trigger] user_page(m, root, v) == Some(p),
{
    assert forall|t: int, k: int| #[trigger] m.user_leaf(root, t, k) implies m.frames@.allocated(
        m.leaf_page(t, k),
        0,
    ) && !m.is_pt(m.leaf_page(t, k)) by {
        lemma_leaf_va(m, root, t, k);
        assert(plain(m, m.leaf_page(t, k)));
    }
    assert forall|t: int, k: int, u: int, j: int|
        #![trigger m.user_leaf(root, t, k), m.user_leaf(root, u, j)]
        m.user_leaf(root, t, k) && m.user_leaf(root, u, j) && m.leaf_page(t, k) == m.leaf_page(
            u,
            j,
        ) implies t == u && k == j by {
        lemma_leaf_va(m, root, t, k);
        lemma_leaf_va(m, root, u, j);
        assert(user_page(m, root, leaf_va(m, t, k)) == user_page(m, root, leaf_va(m, u, j)));
    }
    assert forall|p: int| #[trigger] m.maps_page(root, p) implies exists|v: int|
        page_addr(v) && #[trigger] user_page(m, root, v) == Some(p) by {
        let (t, k) = choose|t: int, k: int|
            #![trigger m.user_leaf(root, t, k)]
            m.user_leaf(root, t, k) && m.leaf_page(t, k) == p;
        lemma_leaf_va(m, root, t, k);
        assert(user_page(m, root, leaf_va(m, t, k)) == Some(p));
    }
}

impl Spaces {
    /// The page of the allocator that the process sees at an address.
    pub open spec fn sees(&self, pid: int, va: int) -> Option<int> {
        user_page(self.mem, self.procs@[pid].root as int, va)
    }

    /// The process exists.
    #[verifier::inline]
    pub open spec fn alive(&self, pid: int) -> bool {
        self.procs@.dom().contains(pid)
    }

    /// Each process has an address space of its own.
    pub open spec fn roots_ok(&self) -> bool {
        &&& forall|i: int| #![trigger self.procs@[i]]
            self.alive(i) ==> self.mem.is_root(self.procs@[i].root as int) && small_only(
                self.mem,
                self.procs@[i].root as int,
            )
        &&& forall|i: int, j: int|
            #![trigger self.procs@[i], self.procs@[j]]
            self.alive(i) && self.alive(j) && i != j ==> self.procs@[i].root != self.procs@[j].root
    }

    /// Pages that processes see are in use, and seen once unless shared.
    pub open spec fn private_ok(&self) -> bool {
        &&& forall|i: int, v: int|
            self.alive(i) && page_addr(v) ==> (#[trigger] self.sees(i, v) matches Some(p)
                ==> plain(self.mem, p))
        &&& forall|i: int, v: int, j: int, w: int|
            #![trigger self.sees(i, v), self.sees(j, w)]
            self.alive(i) && page_addr(v) && self.alive(j) && page_addr(w) && self.sees(i, v)
                == self.sees(j, w) && self.sees(i, v) is Some ==> (i == j && v == w)
                || self.is_shared(self.sees(i, v)->0)
    }

    /// The page is a shared page.
    pub open spec fn is_shared(&self, p: int) -> bool {
        exists|id: int| #![trigger self.shms@[id]]
            self.shms@.dom().contains(id) && self.shms@[id].paddr == p
    }

    /// Shared pages are in use, each is another page, and it is seen by its two owners at
    /// `SHM_VA` and nowhere else.
    pub open spec fn shared_ok(&self) -> bool {
        &&& forall|id: int| #![trigger self.shms@[id]]
            self.shms@.dom().contains(id) ==> {
                let s = self.shms@[id];
                &&& plain(self.mem, s.paddr as int)
                &&& s.a.0 != s.b.0
                &&& s.a.1 < MAX_CAPS
                &&& s.b.1 < MAX_CAPS
                &&& self.alive(s.a.0 as int)
                &&& self.alive(s.b.0 as int)
                &&& self.sees(s.a.0 as int, SHM_VA as int) == Some(s.paddr as int)
                &&& self.sees(s.b.0 as int, SHM_VA as int) == Some(s.paddr as int)
            }
        &&& forall|id: int, j: int|
            #![trigger self.shms@[id], self.shms@[j]]
            self.shms@.dom().contains(id) && self.shms@.dom().contains(j) && id != j
                ==> self.shms@[id].paddr != self.shms@[j].paddr
        &&& forall|id: int, i: int, v: int|
            #![trigger self.shms@[id], self.sees(i, v)]
            self.shms@.dom().contains(id) && self.alive(i) && page_addr(v) && self.sees(i, v)
                == Some(self.shms@[id].paddr as int) ==> v == SHM_VA && (i == self.shms@[id].a.0
                || i == self.shms@[id].b.0)
    }

    /// Pages held by capability are in use, each is another page, and it is seen only by its
    /// holder at the address that the record tells.
    pub open spec fn held_ok(&self) -> bool {
        &&& forall|id: int| #![trigger self.pages@[id]]
            self.pages@.dom().contains(id) ==> {
                let r = self.pages@[id];
                &&& plain(self.mem, r.paddr as int)
                &&& self.alive(r.owner as int)
                &&& !self.is_shared(r.paddr as int)
                &&& r.map_va matches Some(va) ==> page_addr(va as int) && self.sees(
                    r.owner as int,
                    va as int,
                ) == Some(r.paddr as int)
            }
        &&& forall|id: int, j: int|
            #![trigger self.pages@[id], self.pages@[j]]
            self.pages@.dom().contains(id) && self.pages@.dom().contains(j) && id != j
                ==> self.pages@[id].paddr != self.pages@[j].paddr
        &&& forall|id: int, i: int, v: int|
            #![trigger self.pages@[id], self.sees(i, v)]
            self.pages@.dom().contains(id) && self.alive(i) && page_addr(v) && self.sees(i, v)
                == Some(self.pages@[id].paddr as int) ==> i == self.pages@[id].owner
                && self.pages@[id].map_va == Some(v as u64)
    }

    /// A page capability is held by the process that its record names, in one slot.
    pub open spec fn caps_ok(&self) -> bool {
        &&& forall|i: int, s: int, id: usize| #[trigger]
            self.holds_page(i, s, id) ==> self.pages@.dom().contains(id as int)
                && self.pages@[id as int].owner == i
        &&& forall|i: int, s: int, j: int, u: int, id: usize|
            #![trigger self.holds_page(i, s, id), self.holds_page(j, u, id)]
            self.holds_page(i, s, id) && self.holds_page(j, u, id) ==> i == j && s == u
    }

    /// Slot `s` of process `i` holds the capability of page `id`.
    pub open spec fn holds_page(&self, i: int, s: int, id: usize) -> bool {
        &&& self.alive(i)
        &&& 0 <= s < MAX_CAPS
        &&& self.procs@[i].caps[s] == Some(Cap::Page(id))
    }

    /// What every operation keeps.
    pub open spec fn inv(&self) -> bool {
        &&& self.parts_ok()
        &&& self.isolated()
    }

    /// The parts are consistent in themselves.
    pub open spec fn parts_ok(&self) -> bool {
        &&& self.mem.inv()
        &&& self.procs.wf()
        &&& self.shms.wf()
        &&& self.shms.limit() == MAX_SHMS
        &&& self.pages.wf()
        &&& self.pages.limit() == MAX_PAGE_CAPS
        &&& self.roots_ok()
    }

    /// Processes see only what is theirs.
    #[verifier::opaque]
    pub open spec fn isolated(&self) -> bool {
        &&& self.private_ok()
        &&& self.shared_ok()
        &&& self.held_ok()
        &&& self.caps_ok()
    }
}

/// Pages in use stay in use, and pages that were taken are in use now and were not before.
pub proof fn lemma_held_plain(before: PhysMemory, m: PhysMemory, r: int, pages: Set<int>)
    requires
        before.inv(),
        m.held(&before, r, pages),
    ensures
        m.inv(),
        m.frames@.base == before.frames@.base,
        m.frames@.pages == before.frames@.pages,
        forall|p: int| #[trigger] plain(before, p) ==> plain(m, p),
        forall|p: int| #[trigger] pages.contains(p) ==> plain(m, p) && !plain(before, p),
{
    reveal(PhysMemory::held);
    before.frames.lemma_wf();
    assert forall|p: int| #[trigger] plain(before, p) implies plain(m, p) by {
        crate::mem::law_allocated_not_free(before.frames@, p, 0);
    }
    assert forall|p: int| #[trigger] pages.contains(p) implies plain(m, p) && !plain(before, p) by {
        before.lemma_free_page_unused(p);
        assert(m.frames@.allocated(p, 0));
    }
}

impl Spaces {
    /// `self` and `a` have the same processes with the same address spaces.
    pub open spec fn same_procs(&self, a: &Spaces) -> bool {
        &&& forall|i: int| #[trigger] self.procs@.dom().contains(i) <==> a.procs@.dom().contains(i)
        &&& forall|i: int| #![trigger self.procs@[i]]
            a.alive(i) ==> self.procs@[i].root == a.procs@[i].root
    }

    /// Every page capability that a slot holds was there before.
    pub open spec fn no_new_page_caps(&self, a: &Spaces) -> bool {
        forall|i: int, s: int, id: usize| #[trigger]
            self.holds_page(i, s, id) ==> a.holds_page(i, s, id)
    }

    /// Pages in use stay in use.
    pub open spec fn plain_kept(&self, a: &Spaces) -> bool {
        forall|p: int| #[trigger] plain(a.mem, p) ==> plain(self.mem, p)
    }

    /// Nothing changed that a process can see.
    pub proof fn lemma_frame(a: Spaces, b: Spaces)
        requires
            a.inv(),
            b.parts_ok(),
            b.same_procs(&a),
            forall|i: int, v: int|
                a.alive(i) && page_addr(v) ==> #[trigger] b.sees(i, v) == a.sees(i, v),
            b.plain_kept(&a),
            b.shms@ == a.shms@,
            b.pages@ == a.pages@,
            b.no_new_page_caps(&a),
        ensures
            b.inv(),
    {
        reveal(Spaces::isolated);
        assert forall|i: int, v: int| b.alive(i) && page_addr(v) implies (#[trigger] b.sees(
            i,
            v,
        ) matches Some(p) ==> plain(b.mem, p)) by {
            assert(a.sees(i, v) == b.sees(i, v));
        }
        assert forall|i: int, v: int, j: int, w: int|
            #![trigger b.sees(i, v), b.sees(j, w)]
            b.alive(i) && page_addr(v) && b.alive(j) && page_addr(w) && b.sees(i, v) == b.sees(
                j,
                w,
            ) && b.sees(i, v) is Some implies (i == j && v == w) || b.is_shared(
            b.sees(i, v)->0,
        ) by {
            assert(a.sees(i, v) == b.sees(i, v));
            assert(a.sees(j, w) == b.sees(j, w));
            if a.is_shared(a.sees(i, v)->0) {
                let id = choose|id: int| #![trigger a.shms@[id]]
                    a.shms@.dom().contains(id) && a.shms@[id].paddr == a.sees(i, v)->0;
                assert(b.shms@[id].paddr == b.sees(i, v)->0);
            }
        }
        assert(b.shared_ok()) by {
            assert forall|id: int| #![trigger b.shms@[id]] b.shms@.dom().contains(id) implies {
                let s = b.shms@[id];
                &&& plain(b.mem, s.paddr as int)
                &&& s.a.0 != s.b.0
                &&& s.a.1 < MAX_CAPS
                &&& s.b.1 < MAX_CAPS
                &&& b.alive(s.a.0 as int)
                &&& b.alive(s.b.0 as int)
                &&& b.sees(s.a.0 as int, SHM_VA as int) == Some(s.paddr as int)
                &&& b.sees(s.b.0 as int, SHM_VA as int) == Some(s.paddr as int)
            } by {
                let s = a.shms@[id];
                assert(a.sees(s.a.0 as int, SHM_VA as int) == Some(s.paddr as int));
                assert(a.sees(s.b.0 as int, SHM_VA as int) == Some(s.paddr as int));
                assert(page_addr(SHM_VA as int));
            }
            assert forall|id: int, i: int, v: int|
                #![trigger b.shms@[id], b.sees(i, v)]
                b.shms@.dom().contains(id) && b.alive(i) && page_addr(v) && b.sees(i, v) == Some(
                    b.shms@[id].paddr as int,
                ) implies v == SHM_VA && (i == b.shms@[id].a.0 || i == b.shms@[id].b.0) by {
                assert(a.sees(i, v) == b.sees(i, v));
                assert(a.shms@[id] == b.shms@[id]);
            }
        }
        assert(b.held_ok()) by {
            assert forall|id: int| #![trigger b.pages@[id]] b.pages@.dom().contains(id) implies {
                let r = b.pages@[id];
                &&& plain(b.mem, r.paddr as int)
                &&& b.alive(r.owner as int)
                &&& !b.is_shared(r.paddr as int)
                &&& r.map_va matches Some(va) ==> page_addr(va as int) && b.sees(
                    r.owner as int,
                    va as int,
                ) == Some(r.paddr as int)
            } by {
                let r = a.pages@[id];
                assert(!a.is_shared(r.paddr as int));
                if r.map_va is Some {
                    assert(a.sees(r.owner as int, r.map_va->0 as int) == Some(r.paddr as int));
                }
            }
            assert forall|id: int, i: int, v: int|
                #![trigger b.pages@[id], b.sees(i, v)]
                b.pages@.dom().contains(id) && b.alive(i) && page_addr(v) && b.sees(i, v) == Some(
                    b.pages@[id].paddr as int,
                ) implies i == b.pages@[id].owner && b.pages@[id].map_va == Some(v as u64) by {
                assert(a.sees(i, v) == b.sees(i, v));
                assert(a.pages@[id] == b.pages@[id]);
            }
        }
        assert(b.caps_ok()) by {
            assert forall|i: int, s: int, id: usize| #[trigger] b.holds_page(
                i,
                s,
                id,
            ) implies b.pages@.dom().contains(id as int) && b.pages@[id as int].owner == i by {
                assert(a.holds_page(i, s, id));
            }
            assert forall|i: int, s: int, j: int, u: int, id: usize|
                #![trigger b.holds_page(i, s, id), b.holds_page(j, u, id)]
                b.holds_page(i, s, id) && b.holds_page(j, u, id) implies i == j && s == u by {
                assert(a.holds_page(i, s, id) && a.holds_page(j, u, id));
            }
        }
    }

    /// Memory changed in tables alone.
    pub proof fn lemma_tables_only(a: Spaces, b: Spaces)
        requires
            a.inv(),
            b.mem.inv(),
            b.mem.same_maps(&a.mem),
            forall|r: int| #[trigger] a.mem.is_root(r) ==> b.mem.held(&a.mem, r, Set::empty()),
            b.procs.wf(),
            b.procs@ == a.procs@,
            b.shms == a.shms,
            b.pages == a.pages,
        ensures
            b.inv(),
    {
        let dom = a.procs@.dom();
        if exists|i: int| dom.contains(i) {
            let i = choose|i: int| dom.contains(i);
            assert(a.mem.is_root(a.procs@[i].root as int));
            lemma_held_plain(a.mem, b.mem, a.procs@[i].root as int, Set::empty());
            assert(b.roots_ok()) by {
                assert forall|i: int| #![trigger b.procs@[i]] b.alive(i) implies b.mem.is_root(
                    b.procs@[i].root as int,
                ) && small_only(b.mem, b.procs@[i].root as int) by {
                    let r = a.procs@[i].root as int;
                    assert(a.mem.is_root(r) && b.mem.is_root(r));
                    lemma_small(a.mem, b.mem, r);
                }
                assert forall|i: int, j: int|
                    #![trigger b.procs@[i], b.procs@[j]]
                    b.alive(i) && b.alive(j) && i != j implies b.procs@[i].root
                    != b.procs@[j].root by {
                    assert(a.procs@[i].root != a.procs@[j].root);
                }
            }
            assert forall|i: int, v: int| a.alive(i) && page_addr(v) implies #[trigger] b.sees(
                i,
                v,
            ) == a.sees(i, v) by {
                let r = a.procs@[i].root as int;
                assert(a.mem.is_root(r) && b.mem.is_root(r));
                assert(lookup(b.mem.ram, r, v) == lookup(a.mem.ram, r, v));
            }
            assert(b.no_new_page_caps(&a)) by {
                assert forall|i: int, s: int, id: usize| #[trigger] b.holds_page(
                    i,
                    s,
                    id,
                ) implies a.holds_page(i, s, id) by {}
            }
            Self::lemma_frame(a, b);
        } else {
            reveal(Spaces::isolated);
            assert forall|i: int| !#[trigger] b.alive(i) by {
                assert(!dom.contains(i));
            }
            assert forall|id: int| !#[trigger] b.shms@.dom().contains(id) by {
                if a.shms@.dom().contains(id) {
                    assert(a.alive(a.shms@[id].a.0 as int));
                }
            }
            assert forall|id: int| !#[trigger] b.pages@.dom().contains(id) by {
                if a.pages@.dom().contains(id) {
                    assert(a.alive(a.pages@[id].owner as int));
                }
            }
        }
    }

    /// A page that nobody saw became a shared page of two processes.
    pub proof fn lemma_add_shared(a: Spaces, b: Spaces, id: int, s: SharedPage)
        requires
            a.inv(),
            b.parts_ok(),
            b.same_procs(&a),
            b.shms@ == a.shms@.insert(id, s),
            !a.shms@.dom().contains(id),
            b.pages@ == a.pages@,
            b.no_new_page_caps(&a),
            b.plain_kept(&a),
            plain(b.mem, s.paddr as int),
            !plain(a.mem, s.paddr as int),
            s.a.0 != s.b.0,
            s.a.1 < MAX_CAPS,
            s.b.1 < MAX_CAPS,
            a.alive(s.a.0 as int),
            a.alive(s.b.0 as int),
            a.sees(s.a.0 as int, SHM_VA as int) is None,
            a.sees(s.b.0 as int, SHM_VA as int) is None,
            forall|i: int, v: int|
                a.alive(i) && page_addr(v) ==> #[trigger] b.sees(i, v) == (if v == SHM_VA && (i
                    == s.a.0 || i == s.b.0) {
                    Some(s.paddr as int)
                } else {
                    a.sees(i, v)
                }),
        ensures
            b.inv(),
    {
        reveal(Spaces::isolated);
        let p = s.paddr as int;
        assert(page_addr(SHM_VA as int));
        assert forall|i: int, v: int| a.alive(i) && page_addr(v) implies #[trigger] a.sees(i, v)
            != Some(p) by {}
        assert forall|q: int| a.is_shared(q) implies #[trigger] b.is_shared(q) by {
            let k = choose|k: int| #![trigger a.shms@[k]]
                a.shms@.dom().contains(k) && a.shms@[k].paddr == q;
            assert(b.shms@[k].paddr == q);
        }
        assert(b.shms@[id].paddr == p);
        assert(b.is_shared(p));
        assert forall|q: int| #[trigger] b.is_shared(q) implies a.is_shared(q) || q == p by {
            let k = choose|k: int| #![trigger b.shms@[k]]
                b.shms@.dom().contains(k) && b.shms@[k].paddr == q;
            if k != id {
                assert(a.shms@[k].paddr == q);
            }
        }
        assert(b.private_ok()) by {
            assert forall|i: int, v: int| b.alive(i) && page_addr(v) implies (#[trigger] b.sees(
                i,
                v,
            ) matches Some(q) ==> plain(b.mem, q)) by {
                let x = a.sees(i, v);
            }
            assert forall|i: int, v: int, j: int, w: int|
                #![trigger b.sees(i, v), b.sees(j, w)]
                b.alive(i) && page_addr(v) && b.alive(j) && page_addr(w) && b.sees(i, v) == b.sees(
                    j,
                    w,
                ) && b.sees(i, v) is Some implies (i == j && v == w) || b.is_shared(
                b.sees(i, v)->0,
            ) by {
                let x = a.sees(i, v);
                let y = a.sees(j, w);
            }
        }
        assert(b.shared_ok()) by {
            assert forall|k: int| #![trigger b.shms@[k]] b.shms@.dom().contains(k) implies {
                let s = b.shms@[k];
                &&& plain(b.mem, s.paddr as int)
                &&& s.a.0 != s.b.0
                &&& s.a.1 < MAX_CAPS
                &&& s.b.1 < MAX_CAPS
                &&& b.alive(s.a.0 as int)
                &&& b.alive(s.b.0 as int)
                &&& b.sees(s.a.0 as int, SHM_VA as int) == Some(s.paddr as int)
                &&& b.sees(s.b.0 as int, SHM_VA as int) == Some(s.paddr as int)
            } by {
                if k != id {
                    let t = a.shms@[k];
                    assert(a.sees(t.a.0 as int, SHM_VA as int) == Some(t.paddr as int));
                    assert(a.sees(t.b.0 as int, SHM_VA as int) == Some(t.paddr as int));
                }
            }
            assert forall|k: int, j: int|
                #![trigger b.shms@[k], b.shms@[j]]
                b.shms@.dom().contains(k) && b.shms@.dom().contains(j) && k
                    != j implies b.shms@[k].paddr != b.shms@[j].paddr by {
                if k != id {
                    assert(plain(a.mem, a.shms@[k].paddr as int));
                }
                if j != id {
                    assert(plain(a.mem, a.shms@[j].paddr as int));
                }
            }
            assert forall|k: int, i: int, v: int|
                #![trigger b.shms@[k], b.sees(i, v)]
                b.shms@.dom().contains(k) && b.alive(i) && page_addr(v) && b.sees(i, v) == Some(
                    b.shms@[k].paddr as int,
                ) implies v == SHM_VA && (i == b.shms@[k].a.0 || i == b.shms@[k].b.0) by {
                let x = a.sees(i, v);
                if k != id {
                    assert(plain(a.mem, a.shms@[k].paddr as int));
                }
            }
        }
        assert(b.held_ok()) by {
            assert forall|k: int| #![trigger b.pages@[k]] b.pages@.dom().contains(k) implies {
                let r = b.pages@[k];
                &&& plain(b.mem, r.paddr as int)
                &&& b.alive(r.owner as int)
                &&& !b.is_shared(r.paddr as int)
                &&& r.map_va matches Some(va) ==> page_addr(va as int) && b.sees(
                    r.owner as int,
                    va as int,
                ) == Some(r.paddr as int)
            } by {
                let r = a.pages@[k];
                assert(!a.is_shared(r.paddr as int));
                assert(plain(a.mem, r.paddr as int));
                if r.map_va is Some {
                    assert(a.sees(r.owner as int, r.map_va->0 as int) == Some(r.paddr as int));
                }
            }
            assert forall|k: int, i: int, v: int|
                #![trigger b.pages@[k], b.sees(i, v)]
                b.pages@.dom().contains(k) && b.alive(i) && page_addr(v) && b.sees(i, v) == Some(
                    b.pages@[k].paddr as int,
                ) implies i == b.pages@[k].owner && b.pages@[k].map_va == Some(v as u64) by {
                let x = a.sees(i, v);
                assert(plain(a.mem, a.pages@[k].paddr as int));
            }
        }
        Self::lemma_caps_kept(a, b);
    }

    /// Page capabilities stay in order where none is new and no record changed.
    pub proof fn lemma_caps_kept(a: Spaces, b: Spaces)
        requires
            a.caps_ok(),
            b.pages@ == a.pages@,
            b.no_new_page_caps(&a),
        ensures
            b.caps_ok(),
    {
        assert forall|i: int, s: int, id: usize| #[trigger] b.holds_page(
            i,
            s,
            id,
        ) implies b.pages@.dom().contains(id as int) && b.pages@[id as int].owner == i by {
            assert(a.holds_page(i, s, id));
        }
        assert forall|i: int, s: int, j: int, u: int, id: usize|
            #![trigger b.holds_page(i, s, id), b.holds_page(j, u, id)]
            b.holds_page(i, s, id) && b.holds_page(j, u, id) implies i == j && s == u by {
            assert(a.holds_page(i, s, id) && a.holds_page(j, u, id));
        }
    }

    /// A shared page is no longer shared, seen or in use.
    pub proof fn lemma_drop_shared(a: Spaces, b: Spaces, id: int)
        requires
            a.inv(),
            b.parts_ok(),
            b.same_procs(&a),
            a.shms@.dom().contains(id),
            b.shms@ == a.shms@.remove(id),
            b.pages@ == a.pages@,
            b.no_new_page_caps(&a),
            forall|p: int| #[trigger]
                plain(a.mem, p) && p != a.shms@[id].paddr ==> plain(b.mem, p),
            forall|i: int, v: int|
                a.alive(i) && page_addr(v) ==> #[trigger] b.sees(i, v) == (if v == SHM_VA && (i
                    == a.shms@[id].a.0 || i == a.shms@[id].b.0) {
                    None
                } else {
                    a.sees(i, v)
                }),
        ensures
            b.inv(),
    {
        reveal(Spaces::isolated);
        let s = a.shms@[id];
        let p = s.paddr as int;
        assert(page_addr(SHM_VA as int));
        assert forall|i: int, v: int| a.alive(i) && page_addr(v) implies #[trigger] b.sees(i, v)
            != Some(p) by {
            let x = a.sees(i, v);
        }
        assert forall|q: int| #[trigger] b.is_shared(q) <==> a.is_shared(q) && q != p by {
            if b.is_shared(q) {
                let k = choose|k: int| #![trigger b.shms@[k]]
                    b.shms@.dom().contains(k) && b.shms@[k].paddr == q;
                assert(a.shms@[k].paddr == q);
            }
            if a.is_shared(q) && q != p {
                let k = choose|k: int| #![trigger a.shms@[k]]
                    a.shms@.dom().contains(k) && a.shms@[k].paddr == q;
                assert(b.shms@[k].paddr == q);
            }
        }
        assert(b.private_ok()) by {
            assert forall|i: int, v: int| b.alive(i) && page_addr(v) implies (#[trigger] b.sees(
                i,
                v,
            ) matches Some(q) ==> plain(b.mem, q)) by {
                let x = a.sees(i, v);
            }
            assert forall|i: int, v: int, j: int, w: int|
                #![trigger b.sees(i, v), b.sees(j, w)]
                b.alive(i) && page_addr(v) && b.alive(j) && page_addr(w) && b.sees(i, v) == b.sees(
                    j,
                    w,
                ) && b.sees(i, v) is Some implies (i == j && v == w) || b.is_shared(
                b.sees(i, v)->0,
            ) by {
                let x = a.sees(i, v);
                let y = a.sees(j, w);
            }
        }
        assert(b.shared_ok()) by {
            assert forall|k: int| #![trigger b.shms@[k]] b.shms@.dom().contains(k) implies {
                let s = b.shms@[k];
                &&& plain(b.mem, s.paddr as int)
                &&& s.a.0 != s.b.0
                &&& s.a.1 < MAX_CAPS
                &&& s.b.1 < MAX_CAPS
                &&& b.alive(s.a.0 as int)
                &&& b.alive(s.b.0 as int)
                &&& b.sees(s.a.0 as int, SHM_VA as int) == Some(s.paddr as int)
                &&& b.sees(s.b.0 as int, SHM_VA as int) == Some(s.paddr as int)
            } by {
                let t = a.shms@[k];
                assert(a.sees(t.a.0 as int, SHM_VA as int) == Some(t.paddr as int));
                assert(a.sees(t.b.0 as int, SHM_VA as int) == Some(t.paddr as int));
                assert(t.paddr != s.paddr);
                assert(a.sees(s.a.0 as int, SHM_VA as int) == Some(s.paddr as int));
                assert(a.sees(s.b.0 as int, SHM_VA as int) == Some(s.paddr as int));
            }
            assert forall|k: int, j: int|
                #![trigger b.shms@[k], b.shms@[j]]
                b.shms@.dom().contains(k) && b.shms@.dom().contains(j) && k
                    != j implies b.shms@[k].paddr != b.shms@[j].paddr by {
                assert(a.shms@[k].paddr != a.shms@[j].paddr);
            }
            assert forall|k: int, i: int, v: int|
                #![trigger b.shms@[k], b.sees(i, v)]
                b.shms@.dom().contains(k) && b.alive(i) && page_addr(v) && b.sees(i, v) == Some(
                    b.shms@[k].paddr as int,
                ) implies v == SHM_VA && (i == b.shms@[k].a.0 || i == b.shms@[k].b.0) by {
                let x = a.sees(i, v);
                assert(a.shms@[k] == b.shms@[k]);
            }
        }
        assert(b.held_ok()) by {
            assert forall|k: int| #![trigger b.pages@[k]] b.pages@.dom().contains(k) implies {
                let r = b.pages@[k];
                &&& plain(b.mem, r.paddr as int)
                &&& b.alive(r.owner as int)
                &&& !b.is_shared(r.paddr as int)
                &&& r.map_va matches Some(va) ==> page_addr(va as int) && b.sees(
                    r.owner as int,
                    va as int,
                ) == Some(r.paddr as int)
            } by {
                let r = a.pages@[k];
                assert(!a.is_shared(r.paddr as int));
                assert(a.is_shared(p));
                if r.map_va is Some {
                    assert(a.sees(r.owner as int, r.map_va->0 as int) == Some(r.paddr as int));
                    assert(a.sees(s.a.0 as int, SHM_VA as int) == Some(p));
                    assert(a.sees(s.b.0 as int, SHM_VA as int) == Some(p));
                }
            }
            assert forall|k: int, i: int, v: int|
                #![trigger b.pages@[k], b.sees(i, v)]
                b.pages@.dom().contains(k) && b.alive(i) && page_addr(v) && b.sees(i, v) == Some(
                    b.pages@[k].paddr as int,
                ) implies i == b.pages@[k].owner && b.pages@[k].map_va == Some(v as u64) by {
                let x = a.sees(i, v);
                assert(a.pages@[k] == b.pages@[k]);
            }
        }
        Self::lemma_caps_kept(a, b);
    }
}

impl Spaces {
    /// What changes when record `id` of the page `p` is made, changed or taken out: at most the
    /// page itself appears or disappears, at addresses where nothing else was.
    pub open spec fn only_page_changed(a: Spaces, b: Spaces, id: int, p: int) -> bool {
        &&& b.same_procs(&a)
        &&& b.shms@ == a.shms@
        &&& forall|k: int| #![trigger b.pages@[k]]
            k != id ==> (b.pages@.dom().contains(k) <==> a.pages@.dom().contains(k))
                && b.pages@[k] == a.pages@[k]
        &&& forall|i: int, v: int|
            a.alive(i) && page_addr(v) ==> #[trigger] b.sees(i, v) == a.sees(i, v) || (b.sees(i, v)
                is None && a.sees(i, v) == Some(p)) || (b.sees(i, v) == Some(p) && a.sees(i, v)
                is None)
        &&& forall|q: int| #[trigger] plain(a.mem, q) && q != p ==> plain(b.mem, q)
    }

    /// The record of a page was made, changed or taken out.
    pub proof fn lemma_page_changed(a: Spaces, b: Spaces, id: int, p: int)
        requires
            a.inv(),
            b.parts_ok(),
            Self::only_page_changed(a, b, id, p),
            !a.is_shared(p),
            forall|k: int| #![trigger a.pages@[k]]
                a.pages@.dom().contains(k) && k != id ==> a.pages@[k].paddr != p,
            forall|i: int, v: int| #![trigger b.sees(i, v)]
                a.alive(i) && page_addr(v) && b.sees(i, v) == Some(p) ==> b.pages@.dom().contains(id)
                    && i == b.pages@[id].owner && b.pages@[id].map_va == Some(v as u64),
            b.pages@.dom().contains(id) ==> {
                let r = b.pages@[id];
                &&& r.paddr == p
                &&& plain(b.mem, p)
                &&& a.alive(r.owner as int)
                &&& r.map_va matches Some(va) ==> page_addr(va as int) && b.sees(
                    r.owner as int,
                    va as int,
                ) == Some(p)
            },
            b.caps_ok(),
        ensures
            b.inv(),
    {
        reveal(Spaces::isolated);
        assert(page_addr(SHM_VA as int));
        assert forall|q: int| #[trigger] b.is_shared(q) <==> a.is_shared(q) by {
            if b.is_shared(q) {
                let k = choose|k: int| #![trigger b.shms@[k]]
                    b.shms@.dom().contains(k) && b.shms@[k].paddr == q;
                assert(a.shms@[k].paddr == q);
            }
            if a.is_shared(q) {
                let k = choose|k: int| #![trigger a.shms@[k]]
                    a.shms@.dom().contains(k) && a.shms@[k].paddr == q;
                assert(b.shms@[k].paddr == q);
            }
        }
        assert(b.private_ok()) by {
            assert forall|i: int, v: int| b.alive(i) && page_addr(v) implies (#[trigger] b.sees(
                i,
                v,
            ) matches Some(q) ==> plain(b.mem, q)) by {
                let x = a.sees(i, v);
            }
            assert forall|i: int, v: int, j: int, w: int|
                #![trigger b.sees(i, v), b.sees(j, w)]
                b.alive(i) && page_addr(v) && b.alive(j) && page_addr(w) && b.sees(i, v) == b.sees(
                    j,
                    w,
                ) && b.sees(i, v) is Some implies (i == j && v == w) || b.is_shared(
                b.sees(i, v)->0,
            ) by {
                let x = a.sees(i, v);
                let y = a.sees(j, w);
            }
        }
        assert(b.shared_ok()) by {
            assert forall|k: int| #![trigger b.shms@[k]] b.shms@.dom().contains(k) implies {
                let s = b.shms@[k];
                &&& plain(b.mem, s.paddr as int)
                &&& s.a.0 != s.b.0
                &&& s.a.1 < MAX_CAPS
                &&& s.b.1 < MAX_CAPS
                &&& b.alive(s.a.0 as int)
                &&& b.alive(s.b.0 as int)
                &&& b.sees(s.a.0 as int, SHM_VA as int) == Some(s.paddr as int)
                &&& b.sees(s.b.0 as int, SHM_VA as int) == Some(s.paddr as int)
            } by {
                let t = a.shms@[k];
                assert(a.sees(t.a.0 as int, SHM_VA as int) == Some(t.paddr as int));
                assert(a.sees(t.b.0 as int, SHM_VA as int) == Some(t.paddr as int));
                assert(a.is_shared(t.paddr as int));
            }
            assert forall|k: int, j: int|
                #![trigger b.shms@[k], b.shms@[j]]
                b.shms@.dom().contains(k) && b.shms@.dom().contains(j) && k
                    != j implies b.shms@[k].paddr != b.shms@[j].paddr by {
                assert(a.shms@[k].paddr != a.shms@[j].paddr);
            }
            assert forall|k: int, i: int, v: int|
                #![trigger b.shms@[k], b.sees(i, v)]
                b.shms@.dom().contains(k) && b.alive(i) && page_addr(v) && b.sees(i, v) == Some(
                    b.shms@[k].paddr as int,
                ) implies v == SHM_VA && (i == b.shms@[k].a.0 || i == b.shms@[k].b.0) by {
                let x = a.sees(i, v);
                assert(a.shms@[k] == b.shms@[k]);
                assert(a.is_shared(a.shms@[k].paddr as int));
            }
        }
        assert(b.held_ok()) by {
            assert forall|k: int| #![trigger b.pages@[k]] b.pages@.dom().contains(k) implies {
                let r = b.pages@[k];
                &&& plain(b.mem, r.paddr as int)
                &&& b.alive(r.owner as int)
                &&& !b.is_shared(r.paddr as int)
                &&& r.map_va matches Some(va) ==> page_addr(va as int) && b.sees(
                    r.owner as int,
                    va as int,
                ) == Some(r.paddr as int)
            } by {
                if k != id {
                    let r = a.pages@[k];
                    assert(!a.is_shared(r.paddr as int));
                    if r.map_va is Some {
                        assert(a.sees(r.owner as int, r.map_va->0 as int) == Some(r.paddr as int));
                    }
                }
            }
            assert forall|k: int, j: int|
                #![trigger b.pages@[k], b.pages@[j]]
                b.pages@.dom().contains(k) && b.pages@.dom().contains(j) && k
                    != j implies b.pages@[k].paddr != b.pages@[j].paddr by {
                let x = a.pages@[k];
                let y = a.pages@[j];
            }
            assert forall|k: int, i: int, v: int|
                #![trigger b.pages@[k], b.sees(i, v)]
                b.pages@.dom().contains(k) && b.alive(i) && page_addr(v) && b.sees(i, v) == Some(
                    b.pages@[k].paddr as int,
                ) implies i == b.pages@[k].owner && b.pages@[k].map_va == Some(v as u64) by {
                let x = a.sees(i, v);
                let y = a.pages@[k];
            }
        }
    }
}

impl Spaces {
    /// A process was added that sees nothing.
    pub proof fn lemma_process_added(a: Spaces, b: Spaces, pid: int)
        requires
            a.inv(),
            b.parts_ok(),
            !a.alive(pid),
            forall|i: int| #[trigger]
                b.procs@.dom().contains(i) <==> a.procs@.dom().contains(i) || i == pid,
            forall|i: int, v: int|
                b.alive(i) && page_addr(v) ==> #[trigger] b.sees(i, v) == (if i == pid {
                    None
                } else {
                    a.sees(i, v)
                }),
            b.plain_kept(&a),
            b.shms@ == a.shms@,
            b.pages@ == a.pages@,
            b.no_new_page_caps(&a),
        ensures
            b.inv(),
    {
        reveal(Spaces::isolated);
        assert(page_addr(SHM_VA as int));
        assert forall|q: int| #[trigger] b.is_shared(q) <==> a.is_shared(q) by {
            if b.is_shared(q) {
                let k = choose|k: int| #![trigger b.shms@[k]]
                    b.shms@.dom().contains(k) && b.shms@[k].paddr == q;
                assert(a.shms@[k].paddr == q);
            }
            if a.is_shared(q) {
                let k = choose|k: int| #![trigger a.shms@[k]]
                    a.shms@.dom().contains(k) && a.shms@[k].paddr == q;
                assert(b.shms@[k].paddr == q);
            }
        }
        assert(b.private_ok()) by {
            assert forall|i: int, v: int| b.alive(i) && page_addr(v) implies (#[trigger] b.sees(
                i,
                v,
            ) matches Some(q) ==> plain(b.mem, q)) by {
                let x = a.sees(i, v);
            }
            assert forall|i: int, v: int, j: int, w: int|
                #![trigger b.sees(i, v), b.sees(j, w)]
                b.alive(i) && page_addr(v) && b.alive(j) && page_addr(w) && b.sees(i, v) == b.sees(
                    j,
                    w,
                ) && b.sees(i, v) is Some implies (i == j && v == w) || b.is_shared(
                b.sees(i, v)->0,
            ) by {
                let x = a.sees(i, v);
                let y = a.sees(j, w);
            }
        }
        assert(b.shared_ok()) by {
            assert forall|k: int| #![trigger b.shms@[k]] b.shms@.dom().contains(k) implies {
                let s = b.shms@[k];
                &&& plain(b.mem, s.paddr as int)
                &&& s.a.0 != s.b.0
                &&& s.a.1 < MAX_CAPS
                &&& s.b.1 < MAX_CAPS
                &&& b.alive(s.a.0 as int)
                &&& b.alive(s.b.0 as int)
                &&& b.sees(s.a.0 as int, SHM_VA as int) == Some(s.paddr as int)
                &&& b.sees(s.b.0 as int, SHM_VA as int) == Some(s.paddr as int)
            } by {
                let t = a.shms@[k];
                assert(a.alive(t.a.0 as int) && a.alive(t.b.0 as int));
                assert(a.sees(t.a.0 as int, SHM_VA as int) == Some(t.paddr as int));
                assert(a.sees(t.b.0 as int, SHM_VA as int) == Some(t.paddr as int));
            }
            assert forall|k: int, j: int|
                #![trigger b.shms@[k], b.shms@[j]]
                b.shms@.dom().contains(k) && b.shms@.dom().contains(j) && k
                    != j implies b.shms@[k].paddr != b.shms@[j].paddr by {
                assert(a.shms@[k].paddr != a.shms@[j].paddr);
            }
            assert forall|k: int, i: int, v: int|
                #![trigger b.shms@[k], b.sees(i, v)]
                b.shms@.dom().contains(k) && b.alive(i) && page_addr(v) && b.sees(i, v) == Some(
                    b.shms@[k].paddr as int,
                ) implies v == SHM_VA && (i == b.shms@[k].a.0 || i == b.shms@[k].b.0) by {
                let x = a.sees(i, v);
                assert(a.shms@[k] == b.shms@[k]);
            }
        }
        assert(b.held_ok()) by {
            assert forall|k: int| #![trigger b.pages@[k]] b.pages@.dom().contains(k) implies {
                let r = b.pages@[k];
                &&& plain(b.mem, r.paddr as int)
                &&& b.alive(r.owner as int)
                &&& !b.is_shared(r.paddr as int)
                &&& r.map_va matches Some(va) ==> page_addr(va as int) && b.sees(
                    r.owner as int,
                    va as int,
                ) == Some(r.paddr as int)
            } by {
                let r = a.pages@[k];
                assert(!a.is_shared(r.paddr as int));
                assert(a.alive(r.owner as int));
                if r.map_va is Some {
                    assert(a.sees(r.owner as int, r.map_va->0 as int) == Some(r.paddr as int));
                }
            }
            assert forall|k: int, j: int|
                #![trigger b.pages@[k], b.pages@[j]]
                b.pages@.dom().contains(k) && b.pages@.dom().contains(j) && k
                    != j implies b.pages@[k].paddr != b.pages@[j].paddr by {
                assert(a.pages@[k].paddr != a.pages@[j].paddr);
            }
            assert forall|k: int, i: int, v: int|
                #![trigger b.pages@[k], b.sees(i, v)]
                b.pages@.dom().contains(k) && b.alive(i) && page_addr(v) && b.sees(i, v) == Some(
                    b.pages@[k].paddr as int,
                ) implies i == b.pages@[k].owner && b.pages@[k].map_va == Some(v as u64) by {
                let x = a.sees(i, v);
                let y = a.pages@[k];
            }
        }
        Self::lemma_caps_kept(a, b);
    }
}

/// A small page that is mapped for the user comes from an entry of the lowest level.
pub proof fn lemma_va_leaf(m: PhysMemory, root: int, v: int)
    requires
        m.inv(),
        m.is_root(root),
        user_page(m, root, v) is Some,
    ensures
        m.maps_page(root, user_page(m, root, v)->0),
{
    assert(has_path(m.ram, root, v)) by {
        reveal(lookup);
    }
    m.lemma_path(root, v);
    let t = low_table(m.ram, root, v);
    crate::sv39::lemma_vpn0_range(v);
    assert(m.user_leaf(root, t, vpn0(v))) by {
        reveal(lookup);
    }
}

impl Spaces {
    /// One of the owners of shared page `id` is the process.
    pub open spec fn owns_shm(&self, id: int, pid: int) -> bool {
        self.shms@.dom().contains(id) && (self.shms@[id].a.0 == pid || self.shms@[id].b.0 == pid)
    }

    /// A process was taken away with all that it alone had.
    pub proof fn lemma_process_removed(a: Spaces, b: Spaces, pid: int)
        requires
            a.inv(),
            b.parts_ok(),
            a.alive(pid),
            forall|id: int| !#[trigger] a.owns_shm(id, pid),
            forall|id: int| #![trigger a.pages@[id]]
                a.pages@.dom().contains(id) ==> a.pages@[id].owner != pid,
            b.procs@ == a.procs@.remove(pid),
            forall|i: int, v: int|
                b.alive(i) && page_addr(v) ==> #[trigger] b.sees(i, v) == a.sees(i, v),
            forall|q: int| #[trigger]
                plain(a.mem, q) && (forall|v: int| page_addr(v) ==> a.sees(pid, v) != Some(q))
                    ==> plain(b.mem, q),
            b.shms@ == a.shms@,
            b.pages@ == a.pages@,
        ensures
            b.inv(),
    {
        reveal(Spaces::isolated);
        assert(page_addr(SHM_VA as int));
        assert forall|q: int| #[trigger] b.is_shared(q) <==> a.is_shared(q) by {
            if b.is_shared(q) {
                let k = choose|k: int| #![trigger b.shms@[k]]
                    b.shms@.dom().contains(k) && b.shms@[k].paddr == q;
                assert(a.shms@[k].paddr == q);
            }
            if a.is_shared(q) {
                let k = choose|k: int| #![trigger a.shms@[k]]
                    a.shms@.dom().contains(k) && a.shms@[k].paddr == q;
                assert(b.shms@[k].paddr == q);
            }
        }
        // What a shared page is, the process does not see.
        assert forall|q: int, v: int| #[trigger] a.is_shared(q) && page_addr(
            v,
        ) implies #[trigger] a.sees(pid, v) != Some(q) by {
            if a.sees(pid, v) == Some(q) {
                let k = choose|k: int| #![trigger a.shms@[k]]
                    a.shms@.dom().contains(k) && a.shms@[k].paddr == q;
                assert(a.shms@[k].paddr == q);
                assert(a.owns_shm(k, pid));
            }
        }
        assert(b.private_ok()) by {
            assert forall|i: int, v: int| b.alive(i) && page_addr(v) implies (#[trigger] b.sees(
                i,
                v,
            ) matches Some(q) ==> plain(b.mem, q)) by {
                let x = a.sees(i, v);
                if x is Some {
                    let q = x->0;
                    assert forall|w: int| page_addr(w) implies a.sees(pid, w) != Some(q) by {
                        let y = a.sees(pid, w);
                        if y == Some(q) {
                            assert(a.is_shared(q));
                        }
                    }
                }
            }
            assert forall|i: int, v: int, j: int, w: int|
                #![trigger b.sees(i, v), b.sees(j, w)]
                b.alive(i) && page_addr(v) && b.alive(j) && page_addr(w) && b.sees(i, v) == b.sees(
                    j,
                    w,
                ) && b.sees(i, v) is Some implies (i == j && v == w) || b.is_shared(
                b.sees(i, v)->0,
            ) by {
                let x = a.sees(i, v);
                let y = a.sees(j, w);
            }
        }
        assert(b.shared_ok()) by {
            assert forall|k: int| #![trigger b.shms@[k]] b.shms@.dom().contains(k) implies {
                let s = b.shms@[k];
                &&& plain(b.mem, s.paddr as int)
                &&& s.a.0 != s.b.0
                &&& s.a.1 < MAX_CAPS
                &&& s.b.1 < MAX_CAPS
                &&& b.alive(s.a.0 as int)
                &&& b.alive(s.b.0 as int)
                &&& b.sees(s.a.0 as int, SHM_VA as int) == Some(s.paddr as int)
                &&& b.sees(s.b.0 as int, SHM_VA as int) == Some(s.paddr as int)
            } by {
                let t = a.shms@[k];
                assert(!a.owns_shm(k, pid));
                assert(a.alive(t.a.0 as int) && a.alive(t.b.0 as int));
                assert(a.sees(t.a.0 as int, SHM_VA as int) == Some(t.paddr as int));
                assert(a.sees(t.b.0 as int, SHM_VA as int) == Some(t.paddr as int));
                assert(a.is_shared(t.paddr as int));
                assert(plain(a.mem, t.paddr as int));
            }
            assert forall|k: int, j: int|
                #![trigger b.shms@[k], b.shms@[j]]
                b.shms@.dom().contains(k) && b.shms@.dom().contains(j) && k
                    != j implies b.shms@[k].paddr != b.shms@[j].paddr by {
                assert(a.shms@[k].paddr != a.shms@[j].paddr);
            }
            assert forall|k: int, i: int, v: int|
                #![trigger b.shms@[k], b.sees(i, v)]
                b.shms@.dom().contains(k) && b.alive(i) && page_addr(v) && b.sees(i, v) == Some(
                    b.shms@[k].paddr as int,
                ) implies v == SHM_VA && (i == b.shms@[k].a.0 || i == b.shms@[k].b.0) by {
                let x = a.sees(i, v);
                assert(a.shms@[k] == b.shms@[k]);
            }
        }
        assert(b.held_ok()) by {
            assert forall|k: int| #![trigger b.pages@[k]] b.pages@.dom().contains(k) implies {
                let r = b.pages@[k];
                &&& plain(b.mem, r.paddr as int)
                &&& b.alive(r.owner as int)
                &&& !b.is_shared(r.paddr as int)
                &&& r.map_va matches Some(va) ==> page_addr(va as int) && b.sees(
                    r.owner as int,
                    va as int,
                ) == Some(r.paddr as int)
            } by {
                let r = a.pages@[k];
                assert(!a.is_shared(r.paddr as int));
                assert(a.alive(r.owner as int));
                assert(plain(a.mem, r.paddr as int));
                assert forall|v: int| page_addr(v) implies a.sees(pid, v) != Some(
                    r.paddr as int,
                ) by {
                    let x = a.sees(pid, v);
                }
                if r.map_va is Some {
                    assert(a.sees(r.owner as int, r.map_va->0 as int) == Some(r.paddr as int));
                }
            }
            assert forall|k: int, j: int|
                #![trigger b.pages@[k], b.pages@[j]]
                b.pages@.dom().contains(k) && b.pages@.dom().contains(j) && k
                    != j implies b.pages@[k].paddr != b.pages@[j].paddr by {
                assert(a.pages@[k].paddr != a.pages@[j].paddr);
            }
            assert forall|k: int, i: int, v: int|
                #![trigger b.pages@[k], b.sees(i, v)]
                b.pages@.dom().contains(k) && b.alive(i) && page_addr(v) && b.sees(i, v) == Some(
                    b.pages@[k].paddr as int,
                ) implies i == b.pages@[k].owner && b.pages@[k].map_va == Some(v as u64) by {
                let x = a.sees(i, v);
                let y = a.pages@[k];
            }
        }
        assert(b.no_new_page_caps(&a)) by {
            assert forall|i: int, k: int, p: usize| #[trigger] b.holds_page(
                i,
                k,
                p,
            ) implies a.holds_page(i, k, p) by {}
        }
        Self::lemma_caps_kept(a, b);
    }
}

/// Law: a process shares at most one page at a time, as there is one address for it.
pub proof fn law_one_shared_page(s: Spaces, pid: int, id: int, j: int)
    requires
        s.inv(),
        s.owns_shm(id, pid),
        s.owns_shm(j, pid),
    ensures
        id == j,
{
    reveal(Spaces::isolated);
    let x = s.shms@[id];
    let y = s.shms@[j];
    assert(s.sees(pid, SHM_VA as int) == Some(x.paddr as int));
    assert(s.sees(pid, SHM_VA as int) == Some(y.paddr as int));
}

impl Spaces {
    /// A process sees new pages, each at one address, where it saw nothing.
    pub proof fn lemma_private_added(a: Spaces, b: Spaces, pid: int)
        requires
            a.inv(),
            b.parts_ok(),
            a.alive(pid),
            b.same_procs(&a),
            b.plain_kept(&a),
            b.shms@ == a.shms@,
            b.pages@ == a.pages@,
            b.no_new_page_caps(&a),
            forall|i: int, v: int|
                a.alive(i) && page_addr(v) ==> #[trigger] b.sees(i, v) == a.sees(i, v) || (i == pid
                    && a.sees(i, v) is None && b.sees(i, v) is Some && plain(
                    b.mem,
                    b.sees(i, v)->0,
                ) && !plain(a.mem, b.sees(i, v)->0)),
            forall|v: int, w: int|
                #![trigger b.sees(pid, v), b.sees(pid, w)]
                page_addr(v) && page_addr(w) && b.sees(pid, v) == b.sees(pid, w) && a.sees(pid, v)
                    is None && a.sees(pid, w) is None && b.sees(pid, v) is Some ==> v == w,
        ensures
            b.inv(),
    {
        reveal(Spaces::isolated);
        assert(page_addr(SHM_VA as int));
        assert forall|q: int| #[trigger] b.is_shared(q) <==> a.is_shared(q) by {
            if b.is_shared(q) {
                let k = choose|k: int| #![trigger b.shms@[k]]
                    b.shms@.dom().contains(k) && b.shms@[k].paddr == q;
                assert(a.shms@[k].paddr == q);
            }
            if a.is_shared(q) {
                let k = choose|k: int| #![trigger a.shms@[k]]
                    a.shms@.dom().contains(k) && a.shms@[k].paddr == q;
                assert(b.shms@[k].paddr == q);
            }
        }
        assert(b.private_ok()) by {
            assert forall|i: int, v: int| b.alive(i) && page_addr(v) implies (#[trigger] b.sees(
                i,
                v,
            ) matches Some(q) ==> plain(b.mem, q)) by {
                let x = a.sees(i, v);
            }
            assert forall|i: int, v: int, j: int, w: int|
                #![trigger b.sees(i, v), b.sees(j, w)]
                b.alive(i) && page_addr(v) && b.alive(j) && page_addr(w) && b.sees(i, v) == b.sees(
                    j,
                    w,
                ) && b.sees(i, v) is Some implies (i == j && v == w) || b.is_shared(
                b.sees(i, v)->0,
            ) by {
                let x = a.sees(i, v);
                let y = a.sees(j, w);
            }
        }
        assert(b.shared_ok()) by {
            assert forall|k: int| #![trigger b.shms@[k]] b.shms@.dom().contains(k) implies {
                let s = b.shms@[k];
                &&& plain(b.mem, s.paddr as int)
                &&& s.a.0 != s.b.0
                &&& s.a.1 < MAX_CAPS
                &&& s.b.1 < MAX_CAPS
                &&& b.alive(s.a.0 as int)
                &&& b.alive(s.b.0 as int)
                &&& b.sees(s.a.0 as int, SHM_VA as int) == Some(s.paddr as int)
                &&& b.sees(s.b.0 as int, SHM_VA as int) == Some(s.paddr as int)
            } by {
                let t = a.shms@[k];
                assert(a.sees(t.a.0 as int, SHM_VA as int) == Some(t.paddr as int));
                assert(a.sees(t.b.0 as int, SHM_VA as int) == Some(t.paddr as int));
            }
            assert forall|k: int, j: int|
                #![trigger b.shms@[k], b.shms@[j]]
                b.shms@.dom().contains(k) && b.shms@.dom().contains(j) && k
                    != j implies b.shms@[k].paddr != b.shms@[j].paddr by {
                assert(a.shms@[k].paddr != a.shms@[j].paddr);
            }
            assert forall|k: int, i: int, v: int|
                #![trigger b.shms@[k], b.sees(i, v)]
                b.shms@.dom().contains(k) && b.alive(i) && page_addr(v) && b.sees(i, v) == Some(
                    b.shms@[k].paddr as int,
                ) implies v == SHM_VA && (i == b.shms@[k].a.0 || i == b.shms@[k].b.0) by {
                let x = a.sees(i, v);
                assert(a.shms@[k] == b.shms@[k]);
            }
        }
        assert(b.held_ok()) by {
            assert forall|k: int| #![trigger b.pages@[k]] b.pages@.dom().contains(k) implies {
                let r = b.pages@[k];
                &&& plain(b.mem, r.paddr as int)
                &&& b.alive(r.owner as int)
                &&& !b.is_shared(r.paddr as int)
                &&& r.map_va matches Some(va) ==> page_addr(va as int) && b.sees(
                    r.owner as int,
                    va as int,
                ) == Some(r.paddr as int)
            } by {
                let r = a.pages@[k];
                assert(!a.is_shared(r.paddr as int));
                if r.map_va is Some {
                    assert(a.sees(r.owner as int, r.map_va->0 as int) == Some(r.paddr as int));
                }
            }
            assert forall|k: int, j: int|
                #![trigger b.pages@[k], b.pages@[j]]
                b.pages@.dom().contains(k) && b.pages@.dom().contains(j) && k
                    != j implies b.pages@[k].paddr != b.pages@[j].paddr by {
                assert(a.pages@[k].paddr != a.pages@[j].paddr);
            }
            assert forall|k: int, i: int, v: int|
                #![trigger b.pages@[k], b.sees(i, v)]
                b.pages@.dom().contains(k) && b.alive(i) && page_addr(v) && b.sees(i, v) == Some(
                    b.pages@[k].paddr as int,
                ) implies i == b.pages@[k].owner && b.pages@[k].map_va == Some(v as u64) by {
                let x = a.sees(i, v);
                let y = a.pages@[k];
            }
        }
        Self::lemma_caps_kept(a, b);
    }
}

/// Law: two processes that see the same page of memory are the two owners of a shared page, and
/// both see it at the one address for shared pages.
pub proof fn law_isolation(s: Spaces, i: int, v: int, j: int, w: int)
    requires
        s.inv(),
        s.alive(i),
        s.alive(j),
        i != j,
        page_addr(v),
        page_addr(w),
        s.sees(i, v) is Some,
        s.sees(i, v) == s.sees(j, w),
    ensures
        v == SHM_VA,
        w == SHM_VA,
        exists|id: int| #![trigger s.shms@[id]]
            s.shms@.dom().contains(id) && s.shms@[id].paddr == s.sees(i, v)->0 && ((
            s.shms@[id].a.0 == i && s.shms@[id].b.0 == j) || (s.shms@[id].a.0 == j
                && s.shms@[id].b.0 == i)),
{
    reveal(Spaces::isolated);
    let p = s.sees(i, v)->0;
    assert(s.is_shared(p));
    let id = choose|id: int| #![trigger s.shms@[id]]
        s.shms@.dom().contains(id) && s.shms@[id].paddr == p;
    assert(s.shms@[id].paddr == p);
}

/// Law: a page that is held by capability is seen by nobody but its holder, and by the holder at
/// one address at most.
pub proof fn law_held_page_seen_once(s: Spaces, id: int, i: int, v: int)
    requires
        s.inv(),
        s.pages@.dom().contains(id),
        s.alive(i),
        page_addr(v),
        s.sees(i, v) == Some(s.pages@[id].paddr as int),
    ensures
        i == s.pages@[id].owner,
        s.pages@[id].map_va == Some(v as u64),
{
    reveal(Spaces::isolated);
    assert(s.pages@[id].paddr == s.pages@[id].paddr);
}

/// Law: a page capability has one holder: no two slots hold the same page.
pub proof fn law_page_cap_unique(s: Spaces, i: int, a: int, j: int, b: int, id: usize)
    requires
        s.inv(),
        s.holds_page(i, a, id),
        s.holds_page(j, b, id),
    ensures
        i == j,
        a == b,
{
    reveal(Spaces::isolated);
}

impl Spaces {
    /// No processes yet.
    pub fn new(mem: PhysMemory) -> (r: Spaces)
        requires
            mem.inv(),
        ensures
            r.inv(),
            r.mem == mem,
            forall|i: int| !#[trigger] r.procs@.dom().contains(i),
            forall|id: int| !#[trigger] r.shms@.dom().contains(id),
            forall|id: int| !#[trigger] r.pages@.dom().contains(id),
    {
        let r = Spaces {
            mem,
            procs: ProcessTable::new(),
            shms: crate::shm::init(),
            pages: crate::pages::init(),
        };
        proof {
            reveal(Spaces::isolated);
        }
        r
    }
}

} // verus!
