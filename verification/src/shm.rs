//! Memory that two processes share.
//!
//! A process that may send to another can set up one page that both see at `SHM_VA`. The slots
//! that make them owners then hold a capability for the page, in place of what they held; each
//! owner can end the sharing for both.

use vstd::prelude::*;
use crate::mmu::{
    lemma_held_can_free, lemma_lookup_page, lemma_page_taken, lemma_same_maps_steps,
    lemma_same_sets, lemma_unchanged, lookup, map_user_page, missing, unmap_4k, PhysMemory,
};
use crate::process::{
    cap_at, cap_errno, cap_errno_spec, cap_target, clear_cap, grant_shm_cap, pid_root, with_slot,
    Cap, CapError, ProcView, MAX_CAPS,
};
use crate::registry::Registry;
use crate::space::{lemma_small, page_addr, plain, small_only, user_page, Spaces, MAX_SHMS};
use crate::sv39::{
    entry_for, lemma_entry, lemma_vpn, same_vpn, user_flags, PTE_LEAF_RW,
};
use crate::syscall::{SYS_ERR_EACCES, SYS_ERR_EINVAL, SYS_ERR_ENOMEM};

verus! {

/// Address at which both owners see the shared page.
pub const SHM_VA: u64 = 0x5000_0000;

/// Length of a shared region: one page.
pub const SHM_LEN: u64 = 4096;

/// One page with two owners, each a process and the capability slot that makes it an owner.
#[derive(Debug, Clone, Copy)]
pub struct SharedPage {
    pub paddr: u64,
    pub a: (usize, usize),
    pub b: (usize, usize),
}

/// The leaf that maps a page for the user to read and write.
pub open spec fn user_rw(pa: int) -> Option<(int, u64)> {
    Some((0int, entry_for(pa, user_flags(PTE_LEAF_RW as int))))
}

/// `m` is `before` with the page `pa`, newly allocated and filled with zero, mapped at `SHM_VA`
/// into the address spaces of `ra` and `rb`.
#[verifier::opaque]
pub open spec fn joined(m: PhysMemory, before: PhysMemory, ra: int, rb: int, pa: int) -> bool {
    &&& m.held(&before, ra, set![pa])
    &&& m.held(&before, rb, set![pa])
    &&& forall|r: int| #[trigger] m.is_root(r) <==> before.is_root(r)
    &&& lookup(m.ram, ra, SHM_VA as int) == user_rw(pa)
    &&& lookup(m.ram, rb, SHM_VA as int) == user_rw(pa)
    &&& forall|r: int, v: int|
        before.is_root(r) && !((r == ra || r == rb) && same_vpn(v, SHM_VA as int))
            ==> #[trigger] lookup(m.ram, r, v) == lookup(before.ram, r, v)
    &&& forall|w: int| pa <= w < pa + 4096 && w % 8 == 0 ==> #[trigger] m.ram.word(w) == 0
}

/// `m` translates as `before`, and nothing was allocated since but tables.
pub open spec fn tables_only(m: PhysMemory, before: PhysMemory) -> bool {
    &&& m.inv()
    &&& m.same_maps(&before)
    &&& forall|r: int| #[trigger] before.is_root(r) ==> m.held(&before, r, Set::empty())
    &&& (forall|r: int| !#[trigger] before.is_root(r)) ==> m == before
}

/// Where nothing was allocated but tables, memory lies where it did.
pub proof fn lemma_tables_region(m: PhysMemory, before: PhysMemory)
    requires
        tables_only(m, before),
    ensures
        m.same_region(&before),
{
    if exists|r: int| #[trigger] before.is_root(r) {
        reveal(PhysMemory::held);
        let r = choose|r: int| #[trigger] before.is_root(r);
        assert(m.held(&before, r, Set::empty()));
    }
}

/// What is held does not depend on the address space.
proof fn lemma_held_any(before: PhysMemory, m: PhysMemory, r: int, q: int, pages: Set<int>)
    requires
        m.held(&before, r, pages),
        m.is_root(q),
    ensures
        m.held(&before, q, pages),
{
    reveal(PhysMemory::held);
}

pub proof fn lemma_tables_only(before: PhysMemory, m: PhysMemory, r: int)
    requires
        m.inv(),
        m.same_maps(&before),
        m.held(&before, r, Set::empty()),
    ensures
        tables_only(m, before),
{
    assert(before.is_root(r)) by {
        reveal(PhysMemory::held);
        assert(m.is_root(r));
    }
    assert forall|q: int| #[trigger] before.is_root(q) implies m.held(&before, q, Set::empty()) by {
        assert(m.is_root(q));
        lemma_held_any(before, m, r, q, Set::empty());
    }
}

pub proof fn lemma_nothing_done(m: PhysMemory)
    requires
        m.inv(),
    ensures
        tables_only(m, m),
{
    assert(m.same_maps(&m));
    assert forall|r: int| #[trigger] m.is_root(r) implies m.held(&m, r, Set::empty()) by {
        lemma_unchanged(m, r);
    }
}

/// A page was taken and nothing else changed.
proof fn lemma_taken(before: PhysMemory, m: PhysMemory, ra: int, pa: int)
    requires
        before.inv(),
        before.is_root(ra),
        m.inv(),
        m.owner@ == before.owner@,
        m.frames@ == before.frames@.after_alloc(0),
        before.frames@.free_page(pa),
        !before.is_pt(pa),
        m.ram.has_page(pa),
        m.ram.same_but_page(&before.ram, pa),
        m.same_maps(&before),
        m.same_tables(&before),
        forall|p: int, o: int| #[trigger]
            m.frames@.allocated(p, o) <==> before.frames@.allocated(p, o) || (p == pa && o == 0),
    ensures
        m.held(&before, ra, set![pa]),
        forall|r: int, v: int|
            before.is_root(r) ==> #[trigger] missing(m.ram, r, v) == missing(before.ram, r, v),
{
    assert(m.ram.same_but_page(&m.ram, pa));
    lemma_page_taken(before, m, m, ra, pa);
    assert(m.same_tables(&m));
    assert forall|r: int, v: int| before.is_root(r) implies #[trigger] missing(m.ram, r, v)
        == missing(before.ram, r, v) by {
        lemma_same_sets(before, m, m, r, v);
    }
}

/// Room for a shared page: neither address space has anything at `SHM_VA`, and there is memory
/// for the page and the tables.
pub open spec fn share_fits(m: PhysMemory, ra: int, rb: int) -> bool {
    &&& ra != rb
    &&& lookup(m.ram, ra, SHM_VA as int) is None
    &&& lookup(m.ram, rb, SHM_VA as int) is None
    &&& missing(m.ram, ra, SHM_VA as int) + missing(m.ram, rb, SHM_VA as int) + 1
        <= m.frames@.free_pages()
}

/// Pages that sharing takes: the page itself, and the tables that are not there yet.
pub open spec fn share_pages(m: PhysMemory, ra: int, rb: int) -> int {
    1 + missing(m.ram, ra, SHM_VA as int) + missing(m.ram, rb, SHM_VA as int)
}

/// The first mapping was made.
proof fn lemma_half(before: PhysMemory, x: PhysMemory, y: PhysMemory, ra: int, pa: int)
    requires
        x.held(&before, ra, set![pa]),
        x.same_maps(&before),
        y.kept(&x, ra),
        lookup(y.ram, ra, SHM_VA as int) == user_rw(pa),
        y.same_maps_but(&x, ra, SHM_VA as int),
        forall|w: int| pa <= w < pa + 4096 && w % 8 == 0 ==> #[trigger] x.ram.word(w) == 0,
        x.ram.has_page(pa),
    ensures
        joined(y, before, ra, ra, pa),
{
    reveal(joined);
    PhysMemory::lemma_held_none(x, y, ra);
    PhysMemory::lemma_held_steps(before, x, y, ra, set![pa], Set::empty());
    assert(set![pa] + Set::<int>::empty() =~= set![pa]);
    lemma_zero_kept(before, x, y, ra, pa);
    assert forall|r: int| #[trigger] y.is_root(r) <==> before.is_root(r) by {
        assert(x.is_root(r) <==> before.is_root(r));
    }
    assert forall|r: int, v: int|
        before.is_root(r) && !(r == ra && same_vpn(v, SHM_VA as int)) implies #[trigger] lookup(
        y.ram,
        r,
        v,
    ) == lookup(before.ram, r, v) by {
        assert(x.is_root(r) && y.is_root(r));
        assert(lookup(x.ram, r, v) == lookup(before.ram, r, v));
    }
}

/// Pages that are held keep their contents while tables change.
proof fn lemma_zero_kept(before: PhysMemory, x: PhysMemory, y: PhysMemory, r: int, pa: int)
    requires
        x.held(&before, r, set![pa]),
        y.kept(&x, r),
        y.held(&before, r, set![pa]),
        x.ram.has_page(pa),
        forall|w: int| pa <= w < pa + 4096 && w % 8 == 0 ==> #[trigger] x.ram.word(w) == 0,
    ensures
        forall|w: int| pa <= w < pa + 4096 && w % 8 == 0 ==> #[trigger] y.ram.word(w) == 0,
        y.ram.has_page(pa),
{
    reveal(PhysMemory::held);
    reveal(PhysMemory::kept);
    assert(set![pa].contains(pa));
    assert forall|w: int| pa <= w < pa + 4096 && w % 8 == 0 implies #[trigger] y.ram.word(w) == 0 by {
        assert(w - w % 4096 == pa);
        assert(y.ram.has(w));
        assert(x.ram.word(w) == 0);
    }
}

/// Both mappings were made.
proof fn lemma_both(before: PhysMemory, y: PhysMemory, z: PhysMemory, ra: int, rb: int, pa: int)
    requires
        joined(y, before, ra, ra, pa),
        before.is_root(rb),
        before.is_root(ra),
        ra != rb,
        z.kept(&y, rb),
        lookup(z.ram, rb, SHM_VA as int) == user_rw(pa),
        z.same_maps_but(&y, rb, SHM_VA as int),
        y.ram.has_page(pa),
    ensures
        joined(z, before, ra, rb, pa),
{
    reveal(joined);
    assert(y.is_root(rb) && z.is_root(rb) && z.is_root(ra));
    lemma_held_any(before, y, ra, rb, set![pa]);
    PhysMemory::lemma_held_none(y, z, rb);
    PhysMemory::lemma_held_steps(before, y, z, rb, set![pa], Set::empty());
    assert(set![pa] + Set::<int>::empty() =~= set![pa]);
    lemma_zero_kept(before, y, z, rb, pa);
    lemma_held_any(before, z, rb, ra, set![pa]);
    assert forall|r: int| #[trigger] z.is_root(r) <==> before.is_root(r) by {
        assert(y.is_root(r) <==> before.is_root(r));
    }
    assert forall|r: int, v: int|
        before.is_root(r) && !((r == ra || r == rb) && same_vpn(
            v,
            SHM_VA as int,
        )) implies #[trigger] lookup(z.ram, r, v) == lookup(before.ram, r, v) by {
        assert(z.is_root(r) && y.is_root(r));
        assert(lookup(y.ram, r, v) == lookup(before.ram, r, v));
    }
    assert(lookup(z.ram, ra, SHM_VA as int) == lookup(y.ram, ra, SHM_VA as int));
}

/// The mapping of one address space was taken away again.
proof fn lemma_undo_one(before: PhysMemory, y: PhysMemory, z: PhysMemory, ra: int, rb: int, pa: int)
    requires
        joined(y, before, ra, rb, pa),
        before.is_root(rb),
        before.is_root(ra),
        z.kept(&y, ra),
        lookup(z.ram, ra, SHM_VA as int) is None,
        lookup(before.ram, ra, SHM_VA as int) is None,
        z.same_maps_but(&y, ra, SHM_VA as int),
        y.ram.has_page(pa),
    ensures
        z.held(&before, ra, set![pa]),
        z.held(&before, rb, set![pa]),
        rb != ra ==> joined(z, before, rb, rb, pa),
        rb == ra ==> z.same_maps(&before),
{
    reveal(joined);
    assert(z.is_root(rb) && z.is_root(ra));
    PhysMemory::lemma_held_none(y, z, ra);
    PhysMemory::lemma_held_steps(before, y, z, ra, set![pa], Set::empty());
    assert(set![pa] + Set::<int>::empty() =~= set![pa]);
    lemma_zero_kept(before, y, z, ra, pa);
    lemma_held_any(before, z, ra, rb, set![pa]);
    assert forall|r: int| #[trigger] z.is_root(r) <==> before.is_root(r) by {
        assert(y.is_root(r) <==> before.is_root(r));
    }
    assert forall|r: int, v: int|
        before.is_root(r) && !(r == rb && r != ra && same_vpn(
            v,
            SHM_VA as int,
        )) implies #[trigger] lookup(z.ram, r, v) == lookup(before.ram, r, v) by {
        assert(z.is_root(r) && y.is_root(r));
        if r == ra && same_vpn(v, SHM_VA as int) {
            lemma_lookup_page(z.ram, ra, v, SHM_VA as int);
            lemma_lookup_page(before.ram, ra, v, SHM_VA as int);
        } else {
            assert(lookup(z.ram, r, v) == lookup(y.ram, r, v));
            assert(lookup(y.ram, r, v) == lookup(before.ram, r, v));
        }
    }
    if rb != ra {
        assert(lookup(z.ram, rb, SHM_VA as int) == lookup(y.ram, rb, SHM_VA as int));
    }
}

/// The page was given back, with nothing mapped.
proof fn lemma_undo_page(before: PhysMemory, y: PhysMemory, z: PhysMemory, ra: int, pa: int)
    requires
        y.held(&before, ra, set![pa]),
        y.same_maps(&before),
        y.frames@.can_free(pa),
        z.inv(),
        z.ram == y.ram,
        z.owner@ == y.owner@,
        z.frames@ == y.frames@.after_free(y.frames@.index(pa)),
        z.same_maps(&y),
    ensures
        tables_only(z, before),
{
    PhysMemory::lemma_held_back(before, y, z, ra, set![pa], pa);
    assert(set![pa].remove(pa) =~= Set::<int>::empty());
    lemma_same_maps_steps(before, y, z);
    lemma_tables_only(before, z, ra);
}

/// A page that is mapped has its tables.
proof fn lemma_mapped_small(m: PhysMemory, root: int, pa: int)
    requires
        lookup(m.ram, root, SHM_VA as int) == user_rw(pa),
    ensures
        missing(m.ram, root, SHM_VA as int) == 0,
{
    reveal(lookup);
    reveal(missing);
}

/// Take a page filled with zero and map it at `SHM_VA` into two address spaces, or do nothing.
fn share_page(m: &mut PhysMemory, ra: u64, rb: u64) -> (r: Result<u64, u64>)
    requires
        old(m).inv(),
        old(m).is_root(ra as int),
        old(m).is_root(rb as int),
    ensures
        match r {
            Err(e) => {
                &&& tables_only(*final(m), *old(m))
                &&& e == if old(m).frames@.free_pages() == 0 {
                    SYS_ERR_ENOMEM
                } else {
                    SYS_ERR_EINVAL
                }
                &&& !share_fits(*old(m), ra as int, rb as int)
            },
            Ok(pa) => {
                &&& old(m).frames@.free_pages() > 0
                &&& share_fits(*old(m), ra as int, rb as int)
                &&& joined(*final(m), *old(m), ra as int, rb as int, pa as int)
                &&& pa == old(m).frames@.next_page()
                &&& final(m).frames@ == old(m).frames@.after_pages(
                    share_pages(*old(m), ra as int, rb as int),
                )
                &&& pa as int % 4096 == 0
                &&& final(m).ram.has_page(pa as int)
                &&& old(m).frames@.base <= pa < old(m).frames@.addr(old(m).frames@.pages)
            },
        },
{
    let ghost before = *m;
    let ghost (a, b) = (ra as int, rb as int);
    proof {
        lemma_nothing_done(before);
        before.frames.lemma_wf();
        crate::mem::law_page_available(before.frames@);
        assert(missing(before.ram, b, SHM_VA as int) >= 0 && missing(before.ram, a, SHM_VA as int)
            >= 0) by {
            reveal(missing);
        }
    }
    let pa: u64 = match m.alloc_page_zeroed() {
        Some(p) => p,
        None => {
            proof {
                reveal(PhysMemory::held);
                assert forall|r: int| #[trigger] before.is_root(r) implies m.held(
                    &before,
                    r,
                    Set::empty(),
                ) by {
                    crate::mmu::lemma_unchanged_state(before, *m, r);
                }
            }
            return Err(SYS_ERR_ENOMEM);
        },
    };
    let ghost p = pa as int;
    let ghost x = *m;
    proof {
        lemma_taken(before, x, a, p);
        crate::mem::law_alloc_takes_pages(before.frames@, 0);
        crate::tiling::lemma_block_pages_values();
        x.lemma_page(p, 0);
        x.frames.lemma_wf();
        crate::mem::law_block_placement(x.frames@, p, 0);
        assert(lookup(x.ram, a, SHM_VA as int) == lookup(before.ram, a, SHM_VA as int));
        assert(missing(x.ram, a, SHM_VA as int) == missing(before.ram, a, SHM_VA as int));
        assert(missing(x.ram, b, SHM_VA as int) == missing(before.ram, b, SHM_VA as int));
    }
    if map_user_page(m, ra, SHM_VA, pa, PTE_LEAF_RW).is_err() {
        proof {
            PhysMemory::lemma_held_none(x, *m, a);
            PhysMemory::lemma_held_steps(before, x, *m, a, set![p], Set::empty());
            assert(set![p] + Set::<int>::empty() =~= set![p]);
            lemma_same_maps_steps(before, x, *m);
            assert(set![p].contains(p));
            lemma_held_can_free(before, *m, a, set![p], p);
        }
        let ghost y = *m;
        let _ = m.free_block(pa);
        proof {
            lemma_undo_page(before, y, *m, a, p);
        }
        return Err(SYS_ERR_EINVAL);
    }
    let ghost y = *m;
    proof {
        lemma_half(before, x, y, a, p);
        PhysMemory::lemma_held_none(x, y, a);
        PhysMemory::lemma_held_steps(before, x, y, a, set![p], Set::empty());
        assert(set![p] + Set::<int>::empty() =~= set![p]);
        lemma_zero_kept(before, x, y, a, p);
        assert(y.is_root(b)) by {
            assert(x.is_root(b));
        }
        if a != b {
            assert(lookup(y.ram, b, SHM_VA as int) == lookup(x.ram, b, SHM_VA as int));
            assert(missing(y.ram, b, SHM_VA as int) == missing(x.ram, b, SHM_VA as int)) by {
                reveal(PhysMemory::others_same);
            }
        }
        assert(y.frames@.base == x.frames@.base && y.frames@.pages == x.frames@.pages) by {
            reveal(PhysMemory::kept);
        }
        assert(x.frames@.base == before.frames@.base && x.frames@.pages == before.frames@.pages);
    }
    if map_user_page(m, rb, SHM_VA, pa, PTE_LEAF_RW).is_err() {
        let ghost z = *m;
        proof {
            assert(z.is_root(a) && y.is_root(a));
            assert(joined(z, before, a, a, p)) by {
                reveal(joined);
                lemma_held_any(before, y, a, b, set![p]);
                PhysMemory::lemma_held_none(y, z, b);
                PhysMemory::lemma_held_steps(before, y, z, b, set![p], Set::empty());
                lemma_held_any(before, z, b, a, set![p]);
                lemma_zero_kept(before, y, z, b, p);
                assert forall|r: int| #[trigger] z.is_root(r) <==> before.is_root(r) by {
                    assert(y.is_root(r) <==> before.is_root(r));
                }
                assert forall|r: int, v: int|
                    before.is_root(r) && !(r == a && same_vpn(
                        v,
                        SHM_VA as int,
                    )) implies #[trigger] lookup(z.ram, r, v) == lookup(before.ram, r, v) by {
                    assert(z.is_root(r) && y.is_root(r));
                    assert(lookup(z.ram, r, v) == lookup(y.ram, r, v));
                }
                assert(lookup(z.ram, a, SHM_VA as int) == lookup(y.ram, a, SHM_VA as int));
            }
            lemma_zero_kept_page(y, z, b, p);
        }
        unmap_shared(m, ra, ra, pa, Ghost(before));
        return Err(SYS_ERR_EINVAL);
    }
    proof {
        lemma_both(before, y, *m, a, b, p);
        lemma_held_any(before, y, a, b, set![p]);
        assert(m.held(&before, b, set![p])) by {
            reveal(joined);
        }
        lemma_zero_kept(before, y, *m, b, p);
        assert(y.frames@.drawn_from(x.frames@) && m.frames@.drawn_from(y.frames@)) by {
            reveal(PhysMemory::kept);
        }
        x.frames@.lemma_drawn_more(before.frames@, y.frames@);
        y.frames@.lemma_drawn_more(before.frames@, m.frames@);
        crate::mem::law_drawn_pages(before.frames@, m.frames@);
        assert(before.frames@.free_pages() - m.frames@.free_pages() == share_pages(before, a, b));
    }
    Ok(pa)
}

/// Take back what `share_page` did.
fn unmap_shared(m: &mut PhysMemory, ra: u64, rb: u64, pa: u64, before: Ghost<PhysMemory>)
    requires
        old(m).inv(),
        before@.inv(),
        before@.is_root(ra as int),
        before@.is_root(rb as int),
        joined(*old(m), before@, ra as int, rb as int, pa as int),
        old(m).ram.has_page(pa as int),
        lookup(before@.ram, ra as int, SHM_VA as int) is None,
        lookup(before@.ram, rb as int, SHM_VA as int) is None,
    ensures
        tables_only(*final(m), before@),
{
    let ghost x = *m;
    let ghost (a, b, p) = (ra as int, rb as int, pa as int);
    proof {
        assert(x.is_root(a) && x.is_root(b)) by {
            reveal(joined);
        }
        assert(lookup(x.ram, a, SHM_VA as int) == user_rw(p)) by {
            reveal(joined);
        }
        lemma_mapped_small(x, a, p);
        x.frames.lemma_wf();
        crate::mem::law_page_available(x.frames@);
    }
    let _ = unmap_4k(m, ra, SHM_VA);
    let ghost y = *m;
    proof {
        lemma_undo_one(before@, x, y, a, b, p);
    }
    if ra != rb {
        proof {
            assert(lookup(y.ram, b, SHM_VA as int) == user_rw(p)) by {
                reveal(joined);
            }
            assert(y.is_root(b)) by {
                reveal(joined);
            }
            lemma_mapped_small(y, b, p);
            y.frames.lemma_wf();
            crate::mem::law_page_available(y.frames@);
            assert(x.held(&before@, a, set![p])) by {
                reveal(joined);
            }
            lemma_zero_kept_page(x, y, a, p);
        }
        let _ = unmap_4k(m, rb, SHM_VA);
        proof {
            lemma_undo_one(before@, y, *m, b, b, p);
        }
    }
    let ghost z = *m;
    proof {
        assert(z.held(&before@, b, set![p]) && z.same_maps(&before@));
        assert(set![p].contains(p));
        lemma_held_can_free(before@, z, b, set![p], p);
    }
    let _ = m.free_block(pa);
    proof {
        lemma_undo_page(before@, z, *m, b, p);
    }
}

/// A page of memory stays one.
proof fn lemma_zero_kept_page(x: PhysMemory, y: PhysMemory, r: int, p: int)
    requires
        y.kept(&x, r),
        x.ram.has_page(p),
    ensures
        y.ram.has_page(p),
{
    reveal(PhysMemory::kept);
}

/// Why a page cannot be shared.
pub open spec fn share_error(
    s: Spaces,
    caller: int,
    a_slot: int,
    b_slot: int,
    len: int,
) -> Option<u64> {
    if len != SHM_LEN {
        Some(SYS_ERR_EINVAL)
    } else {
        match cap_at(s.procs@, caller, a_slot) {
            Err(e) => Some(cap_errno_spec(e)),
            Ok(Cap::Proc(peer)) => if b_slot >= MAX_CAPS {
                Some(SYS_ERR_EINVAL)
            } else if !s.procs@.dom().contains(peer as int) {
                Some(SYS_ERR_EACCES)
            } else if s.mem.frames@.free_pages() == 0 {
                Some(SYS_ERR_ENOMEM)
            } else if !share_fits(
                s.mem,
                s.procs@[caller].root as int,
                s.procs@[peer as int].root as int,
            ) {
                Some(SYS_ERR_EINVAL)
            } else if s.shms.pool().next(MAX_SHMS as int) is None {
                Some(SYS_ERR_ENOMEM)
            } else {
                None
            },
            Ok(_) => Some(SYS_ERR_EINVAL),
        }
    }
}

/// The process that slot `slot` of `pid` lets send to.
pub open spec fn peer_of(t: Map<int, ProcView>, pid: int, slot: int) -> usize {
    cap_at(t, pid, slot)->Ok_0->Proc_0
}

/// `s` is `before` with a page that the two owners of `id` share: the page that was to be handed
/// out next.
pub open spec fn sharing(s: Spaces, before: Spaces, id: int, sp: SharedPage) -> bool {
    let a = sp.a.0 as int;
    let b = sp.b.0 as int;
    &&& s.shms@ == before.shms@.insert(id, sp)
    &&& s.shms.pool() == before.shms.pool().taken()
    &&& s.procs@ == with_slot(
        with_slot(before.procs@, a, sp.a.1 as int, Some(Cap::Shm(id as usize))),
        b,
        sp.b.1 as int,
        Some(Cap::Shm(id as usize)),
    )
    &&& s.procs.pool() == before.procs.pool()
    &&& s.pages == before.pages
    &&& before.mem.frames@.free_page(sp.paddr as int)
    &&& sp.paddr == before.mem.frames@.next_page()
    &&& s.mem.frames@ == before.mem.frames@.after_pages(
        share_pages(before.mem, before.procs@[a].root as int, before.procs@[b].root as int),
    )
    &&& joined(
        s.mem,
        before.mem,
        before.procs@[a].root as int,
        before.procs@[b].root as int,
        sp.paddr as int,
    )
}

/// Translations of a joined memory, as processes see them.
pub proof fn lemma_joined_sees(m: PhysMemory, before: PhysMemory, ra: int, rb: int, pa: int)
    requires
        before.inv(),
        before.is_root(ra),
        before.is_root(rb),
        joined(m, before, ra, rb, pa),
        pa % 4096 == 0,
        before.frames@.base <= pa < before.frames@.addr(before.frames@.pages),
    ensures
        m.inv(),
        forall|r: int| #[trigger] m.is_root(r) <==> before.is_root(r),
        forall|r: int, v: int|
            before.is_root(r) && page_addr(v) ==> #[trigger] user_page(m, r, v) == (if v == SHM_VA
                && (r == ra || r == rb) {
                Some(pa)
            } else {
                user_page(before, r, v)
            }),
        forall|p: int| #[trigger] plain(before, p) ==> plain(m, p),
        plain(m, pa),
        !plain(before, pa),
        before.frames@.free_page(pa),
{
    assert(before.frames@.free_page(pa)) by {
        reveal(joined);
        reveal(PhysMemory::held);
        assert(set![pa].contains(pa));
    }
    assert(m.held(&before, ra, set![pa])) by {
        reveal(joined);
    }
    crate::space::lemma_held_plain(before, m, ra, set![pa]);
    assert(set![pa].contains(pa));
    assert(forall|r: int| #[trigger] m.is_root(r) <==> before.is_root(r)) by {
        reveal(joined);
    }
    assert(pa < crate::ram::PHYS_LIMIT) by {
        m.lemma_page(pa, 0);
    }
    lemma_entry(pa, user_flags(PTE_LEAF_RW as int));
    assert forall|r: int, v: int| before.is_root(r) && page_addr(v) implies #[trigger] user_page(
        m,
        r,
        v,
    ) == (if v == SHM_VA && (r == ra || r == rb) {
        Some(pa)
    } else {
        user_page(before, r, v)
    }) by {
        reveal(joined);
        lemma_vpn(v, SHM_VA as int);
        if !(v == SHM_VA && (r == ra || r == rb)) {
            assert(lookup(m.ram, r, v) == lookup(before.ram, r, v));
        }
    }
}

proof fn lemma_joined_small(m: PhysMemory, before: PhysMemory, ra: int, rb: int, pa: int, r: int)
    requires
        joined(m, before, ra, rb, pa),
        before.is_root(r),
        small_only(before, r),
    ensures
        small_only(m, r),
{
    reveal(joined);
    assert forall|v: int| page_addr(v) implies #[trigger] lookup(m.ram, r, v) == lookup(
        before.ram,
        r,
        v,
    ) || (lookup(m.ram, r, v) matches Some((level, e)) ==> level == 0) by {
        if (r == ra || r == rb) && same_vpn(v, SHM_VA as int) {
            lemma_lookup_page(m.ram, r, v, SHM_VA as int);
        }
    }
    lemma_small(before, m, r);
}

/// Both slots of a page that is set up hold its capability, and the invariant holds.
proof fn lemma_sharing(s: Spaces, before: Spaces, id: int, sp: SharedPage)
    requires
        before.inv(),
        sharing(s, before, id, sp),
        !before.shms@.dom().contains(id),
        s.procs.wf(),
        s.shms.wf(),
        s.shms.limit() == MAX_SHMS,
        before.alive(sp.a.0 as int),
        before.alive(sp.b.0 as int),
        sp.a.0 != sp.b.0,
        sp.a.1 < MAX_CAPS,
        sp.b.1 < MAX_CAPS,
        sp.paddr as int % 4096 == 0,
        before.mem.frames@.base <= sp.paddr < before.mem.frames@.addr(before.mem.frames@.pages),
        lookup(before.mem.ram, before.procs@[sp.a.0 as int].root as int, SHM_VA as int) is None,
        lookup(before.mem.ram, before.procs@[sp.b.0 as int].root as int, SHM_VA as int) is None,
    ensures
        s.inv(),
{
    let a = sp.a.0 as int;
    let b = sp.b.0 as int;
    let ra = before.procs@[a].root as int;
    let rb = before.procs@[b].root as int;
    before.procs.lemma_view();
    lemma_joined_sees(s.mem, before.mem, ra, rb, sp.paddr as int);
    assert(s.same_procs(&before)) by {
        assert forall|i: int| #![trigger s.procs@[i]] before.alive(i) implies s.procs@[i].root
            == before.procs@[i].root by {}
    }
    assert(s.roots_ok()) by {
        assert forall|i: int| #![trigger s.procs@[i]] s.alive(i) implies s.mem.is_root(
            s.procs@[i].root as int,
        ) && small_only(s.mem, s.procs@[i].root as int) by {
            let r = before.procs@[i].root as int;
            assert(before.mem.is_root(r));
            lemma_joined_small(s.mem, before.mem, ra, rb, sp.paddr as int, r);
        }
        assert forall|i: int, j: int|
            #![trigger s.procs@[i], s.procs@[j]]
            s.alive(i) && s.alive(j) && i != j implies s.procs@[i].root != s.procs@[j].root by {
            assert(before.procs@[i].root != before.procs@[j].root);
        }
    }
    assert forall|i: int, v: int| before.alive(i) && page_addr(v) implies #[trigger] s.sees(i, v)
        == (if v == SHM_VA && (i == sp.a.0 || i == sp.b.0) {
        Some(sp.paddr as int)
    } else {
        before.sees(i, v)
    }) by {
        let r = before.procs@[i].root as int;
        assert(before.mem.is_root(r));
        assert(s.procs@[i].root == before.procs@[i].root);
        assert(user_page(s.mem, r, v) == user_page(s.mem, r, v));
        if i != a {
            assert(before.procs@[i].root != before.procs@[a].root);
        }
        if i != b {
            assert(before.procs@[i].root != before.procs@[b].root);
        }
    }
    assert(s.no_new_page_caps(&before)) by {
        assert forall|i: int, k: int, p: usize| #[trigger] s.holds_page(
            i,
            k,
            p,
        ) implies before.holds_page(i, k, p) by {}
    }
    Spaces::lemma_add_shared(before, s, id, sp);
}

/// Table of shared pages with nothing in it.
pub fn init() -> (r: Registry<SharedPage>)
    ensures
        r.wf(),
        r.limit() == MAX_SHMS,
        r@ == Map::<int, SharedPage>::empty(),
{
    Registry::new(MAX_SHMS)
}

/// What asking for a shared page does.
pub open spec fn share_effect(
    s: Spaces,
    before: Spaces,
    caller: usize,
    a_slot: usize,
    b_slot: usize,
    len: u64,
    r: Result<usize, u64>,
) -> bool {
    match r {
        Err(e) => {
            &&& share_error(before, caller as int, a_slot as int, b_slot as int, len as int)
                == Some(e)
            &&& s.procs@ == before.procs@
            &&& s.procs.pool() == before.procs.pool()
            &&& s.shms == before.shms
            &&& s.pages == before.pages
            &&& tables_only(s.mem, before.mem)
        },
        Ok(id) => {
            let peer = peer_of(before.procs@, caller as int, a_slot as int);
            &&& share_error(before, caller as int, a_slot as int, b_slot as int, len as int)
                is None
            &&& id as int == before.shms.pool().next(MAX_SHMS as int)->0
            &&& s.shms@[id as int].a == (caller, a_slot)
            &&& s.shms@[id as int].b == (peer, b_slot)
            &&& sharing(s, before, id as int, s.shms@[id as int])
        },
    }
}

/// Share a page with the process that slot `a_slot` of the caller lets send to.
///
/// Both see a page filled with zero at `SHM_VA`, and slot `a_slot` of the caller and slot
/// `b_slot` of the peer become its owners. Whatever fails is undone: no page is lost and nothing
/// stays mapped.
pub fn mmap_share(s: &mut Spaces, caller: usize, a_slot: usize, b_slot: usize, len: u64) -> (r:
    Result<usize, u64>)
    requires
        old(s).inv(),
    ensures
        final(s).inv(),
        share_effect(*final(s), *old(s), caller, a_slot, b_slot, len, r),
{
    proof {
        lemma_nothing_done(s.mem);
    }
    if len != SHM_LEN {
        return Err(SYS_ERR_EINVAL);
    }
    let peer: usize = match cap_target(&s.procs, caller, a_slot) {
        Ok(Cap::Proc(p)) => p,
        Ok(_) => {
            return Err(SYS_ERR_EINVAL);
        },
        Err(e) => {
            return Err(cap_errno(e));
        },
    };
    if b_slot >= MAX_CAPS {
        return Err(SYS_ERR_EINVAL);
    }
    let root_b: u64 = match pid_root(&s.procs, peer) {
        Some(r) => r,
        None => {
            return Err(SYS_ERR_EACCES);
        },
    };
    let root_a: u64 = match pid_root(&s.procs, caller) {
        Some(r) => r,
        None => {
            return Err(SYS_ERR_EACCES);
        },
    };
    let ghost before = *s;
    let paddr: u64 = match share_page(&mut s.mem, root_a, root_b) {
        Ok(p) => p,
        Err(e) => {
            proof {
                Spaces::lemma_tables_only(before, *s);
            }
            return Err(e);
        },
    };
    proof {
        if caller == peer {
            assert(false);
        }
        reveal(joined);
        assert(s.mem.inv()) by {
            reveal(PhysMemory::held);
        }
    }
    if !s.shms.has_room() {
        unmap_shared(&mut s.mem, root_a, root_b, paddr, Ghost(before.mem));
        proof {
            Spaces::lemma_tables_only(before, *s);
        }
        return Err(SYS_ERR_ENOMEM);
    }
    let sp: SharedPage = SharedPage { paddr, a: (caller, a_slot), b: (peer, b_slot) };
    let id: usize = s.shms.insert(sp);
    let _ = grant_shm_cap(&mut s.procs, caller, a_slot, id);
    let _ = grant_shm_cap(&mut s.procs, peer, b_slot, id);
    proof {
        lemma_joined_sees(s.mem, before.mem, root_a as int, root_b as int, paddr as int);
        assert(sharing(*s, before, id as int, sp));
        lemma_sharing(*s, before, id as int, sp);
        assert(s.shms@[id as int] == sp);
    }
    Ok(id)
}

/// `m` is `before` with `SHM_VA` no longer mapped in the address spaces of `ra` and `rb`, and
/// the page `pa` given back.
#[verifier::opaque]
pub open spec fn parted(m: PhysMemory, before: PhysMemory, ra: int, rb: int, pa: int) -> bool {
    &&& m.inv()
    &&& forall|r: int| #[trigger] m.is_root(r) <==> before.is_root(r)
    &&& lookup(m.ram, ra, SHM_VA as int) is None
    &&& lookup(m.ram, rb, SHM_VA as int) is None
    &&& forall|r: int, v: int|
        before.is_root(r) && !((r == ra || r == rb) && same_vpn(v, SHM_VA as int))
            ==> #[trigger] lookup(m.ram, r, v) == lookup(before.ram, r, v)
    &&& m.same_data(&before)
    &&& m.owner@ == before.owner@
    &&& m.frames@.base == before.frames@.base
    &&& m.frames@.pages == before.frames@.pages
    &&& m.frames@.reserved == before.frames@.reserved
    &&& forall|p: int, o: int| #[trigger]
        m.frames@.allocated(p, o) <==> before.frames@.allocated(p, o) && p != pa
}

/// A small page that is mapped has its tables, and no larger page covers it.
pub proof fn lemma_small_path(m: PhysMemory, root: int, va: int)
    requires
        lookup(m.ram, root, va) matches Some((level, e)) && level == 0,
    ensures
        missing(m.ram, root, va) == 0,
        !crate::mmu::blocked(m.ram, root, va),
{
    reveal(lookup);
    reveal(missing);
}

/// End the mapping of a shared page in both address spaces, and give the page back.
fn part_page(m: &mut PhysMemory, ra: u64, rb: u64, pa: u64) -> (r: Result<(), ()>)
    requires
        old(m).inv(),
        old(m).is_root(ra as int),
        old(m).is_root(rb as int),
        ra != rb,
        lookup(old(m).ram, ra as int, SHM_VA as int) matches Some((level, e)) && level == 0,
        lookup(old(m).ram, rb as int, SHM_VA as int) matches Some((level, e)) && level == 0,
        plain(*old(m), pa as int),
    ensures
        r is Ok,
        parted(*final(m), *old(m), ra as int, rb as int, pa as int),
{
    let ghost x = *m;
    let ghost (a, b, p) = (ra as int, rb as int, pa as int);
    proof {
        lemma_small_path(x, a, SHM_VA as int);
        x.frames.lemma_wf();
        crate::mem::law_page_available(x.frames@);
    }
    let _ = unmap_4k(m, ra, SHM_VA);
    let ghost y = *m;
    proof {
        assert(x.is_root(b) && y.is_root(b));
        assert(lookup(y.ram, b, SHM_VA as int) == lookup(x.ram, b, SHM_VA as int));
        lemma_small_path(y, b, SHM_VA as int);
        y.frames.lemma_wf();
        crate::mem::law_page_available(y.frames@);
    }
    let _ = unmap_4k(m, rb, SHM_VA);
    let ghost z = *m;
    proof {
        z.frames.lemma_wf();
        crate::mem::law_allocated_can_free(z.frames@, p, 0);
    }
    let r = m.free_block(pa);
    proof {
        let w = *m;
        reveal(parted);
        assert forall|r: int| #[trigger] w.is_root(r) <==> x.is_root(r) by {
            assert(z.is_root(r) <==> y.is_root(r));
            assert(y.is_root(r) <==> x.is_root(r));
        }
        assert(lookup(w.ram, a, SHM_VA as int) == lookup(z.ram, a, SHM_VA as int));
        assert(z.is_root(a));
        assert(lookup(z.ram, a, SHM_VA as int) == lookup(y.ram, a, SHM_VA as int));
        assert forall|r: int, v: int|
            x.is_root(r) && !((r == a || r == b) && same_vpn(v, SHM_VA as int)) implies #[trigger] lookup(
            w.ram,
            r,
            v,
        ) == lookup(x.ram, r, v) by {
            assert(y.is_root(r) && z.is_root(r));
            assert(lookup(z.ram, r, v) == lookup(y.ram, r, v));
            assert(lookup(y.ram, r, v) == lookup(x.ram, r, v));
        }
        assert forall|q: int, o: int| #[trigger] w.frames@.allocated(q, o) <==> x.frames@.allocated(
            q,
            o,
        ) && q != p by {
            crate::mem::law_free_ends_one(z.frames@, p, q, o);
        }
        assert(z.same_data(&x)) by {
            reveal(PhysMemory::kept);
            assert forall|k: int|
                z.ram.has(k) && !z.is_pt(k - k % 4096) implies #[trigger] z.ram.word(k)
                == x.ram.word(k) by {
                assert(y.ram.has(k));
                assert(y.ram.word(k) == x.ram.word(k));
            }
        }
        assert forall|k: int|
            w.ram.has(k) && !w.is_pt(k - k % 4096) implies #[trigger] w.ram.word(k) == x.ram.word(
            k,
        ) by {
            assert(z.ram.word(k) == x.ram.word(k));
        }
    }
    r
}

/// `s` is `before` without the shared page `id`: neither owner sees it or owns it any more.
pub open spec fn unshared(s: Spaces, before: Spaces, id: int) -> bool {
    let sp = before.shms@[id];
    &&& s.shms@ == before.shms@.remove(id)
    &&& s.shms.pool() == before.shms.pool().given(id as usize)
    &&& s.procs@ == with_slot(
        with_slot(before.procs@, sp.a.0 as int, sp.a.1 as int, None),
        sp.b.0 as int,
        sp.b.1 as int,
        None,
    )
    &&& s.procs.pool() == before.procs.pool()
    &&& s.pages == before.pages
    &&& parted(
        s.mem,
        before.mem,
        before.procs@[sp.a.0 as int].root as int,
        before.procs@[sp.b.0 as int].root as int,
        sp.paddr as int,
    )
}

proof fn lemma_unshared(s: Spaces, before: Spaces, id: int)
    requires
        before.inv(),
        before.shms@.dom().contains(id),
        unshared(s, before, id),
        s.procs.wf(),
        s.shms.wf(),
        s.shms.limit() == MAX_SHMS,
    ensures
        s.inv(),
{
    let sp = before.shms@[id];
    let (a, b) = (sp.a.0 as int, sp.b.0 as int);
    let ra = before.procs@[a].root as int;
    let rb = before.procs@[b].root as int;
    before.procs.lemma_view();
    assert(before.alive(a) && before.alive(b) && sp.a.1 < MAX_CAPS && sp.b.1 < MAX_CAPS && a != b) by {
        reveal(Spaces::isolated);
    }
    assert(s.mem.inv()) by {
        reveal(parted);
    }
    assert(s.same_procs(&before)) by {
        assert forall|i: int| #![trigger s.procs@[i]] before.alive(i) implies s.procs@[i].root
            == before.procs@[i].root by {}
    }
    assert(s.roots_ok()) by {
        assert forall|i: int| #![trigger s.procs@[i]] s.alive(i) implies s.mem.is_root(
            s.procs@[i].root as int,
        ) && small_only(s.mem, s.procs@[i].root as int) by {
            reveal(parted);
            let r = before.procs@[i].root as int;
            assert(before.mem.is_root(r));
            assert forall|v: int| page_addr(v) implies #[trigger] lookup(s.mem.ram, r, v) == lookup(
                before.mem.ram,
                r,
                v,
            ) || (lookup(s.mem.ram, r, v) matches Some((level, e)) ==> level == 0) by {
                if (r == ra || r == rb) && same_vpn(v, SHM_VA as int) {
                    lemma_lookup_page(s.mem.ram, r, v, SHM_VA as int);
                }
            }
            lemma_small(before.mem, s.mem, r);
        }
        assert forall|i: int, j: int|
            #![trigger s.procs@[i], s.procs@[j]]
            s.alive(i) && s.alive(j) && i != j implies s.procs@[i].root != s.procs@[j].root by {
            assert(before.procs@[i].root != before.procs@[j].root);
        }
    }
    assert forall|i: int, v: int| before.alive(i) && page_addr(v) implies #[trigger] s.sees(i, v)
        == (if v == SHM_VA && (i == a || i == b) {
        None
    } else {
        before.sees(i, v)
    }) by {
        reveal(parted);
        let r = before.procs@[i].root as int;
        assert(before.mem.is_root(r));
        assert(s.procs@[i].root == before.procs@[i].root);
        lemma_vpn(v, SHM_VA as int);
        if i != a {
            assert(before.procs@[i].root != before.procs@[a].root);
        }
        if i != b {
            assert(before.procs@[i].root != before.procs@[b].root);
        }
        if !(v == SHM_VA && (i == a || i == b)) {
            assert(lookup(s.mem.ram, r, v) == lookup(before.mem.ram, r, v));
        }
    }
    assert(s.no_new_page_caps(&before)) by {
        assert forall|i: int, k: int, p: usize| #[trigger] s.holds_page(
            i,
            k,
            p,
        ) implies before.holds_page(i, k, p) by {}
    }
    assert forall|p: int| #[trigger] plain(before.mem, p) && p != sp.paddr implies plain(
        s.mem,
        p,
    ) by {
        reveal(parted);
    }
    Spaces::lemma_drop_shared(before, s, id);
}

/// End the sharing of a page: it is unmapped in both address spaces and given back, the slots
/// that made the two processes owners are emptied, and the id is free. Fails when there is no
/// such page, and changes nothing then.
///
/// The translation caches have to be flushed afterwards, on every core.
pub fn shm_revoke(s: &mut Spaces, id: usize) -> (r: Result<(), ()>)
    requires
        old(s).inv(),
    ensures
        final(s).inv(),
        r is Ok <==> old(s).shms@.dom().contains(id as int),
        r is Err ==> *final(s) == *old(s),
        r is Ok ==> unshared(*final(s), *old(s), id as int),
{
    let sp: SharedPage = match s.shms.get(id) {
        Some(sp) => sp,
        None => {
            return Err(());
        },
    };
    let ghost before = *s;
    proof {
        reveal(Spaces::isolated);
        assert(before.shms@[id as int] == sp);
        before.procs.lemma_view();
        assert(before.sees(sp.a.0 as int, SHM_VA as int) == Some(sp.paddr as int));
        assert(before.sees(sp.b.0 as int, SHM_VA as int) == Some(sp.paddr as int));
    }
    s.shms.remove(id);
    let ra: u64 = crate::process::root(&s.procs, sp.a.0);
    let rb: u64 = crate::process::root(&s.procs, sp.b.0);
    let r = part_page(&mut s.mem, ra, rb, sp.paddr);
    let _ = clear_cap(&mut s.procs, sp.a.0, sp.a.1);
    let _ = clear_cap(&mut s.procs, sp.b.0, sp.b.1);
    proof {
        lemma_unshared(*s, before, id as int);
    }
    r
}

/// Physical address of a shared page.
pub fn shm_paddr(s: &Spaces, id: usize) -> (r: Option<u64>)
    requires
        s.inv(),
    ensures
        r is Some <==> s.shms@.dom().contains(id as int),
        r matches Some(p) ==> p == s.shms@[id as int].paddr,
{
    match s.shms.get(id) {
        Some(sp) => Some(sp.paddr),
        None => None,
    }
}

/// Law: what one owner of a shared page writes there, the other reads: both see the same page.
pub proof fn law_shared_page_is_one(s: Spaces, id: int)
    requires
        s.inv(),
        s.shms@.dom().contains(id),
    ensures
        s.sees(s.shms@[id].a.0 as int, SHM_VA as int) == Some(s.shms@[id].paddr as int),
        s.sees(s.shms@[id].b.0 as int, SHM_VA as int) == Some(s.shms@[id].paddr as int),
{
    reveal(Spaces::isolated);
    assert(s.shms@[id].paddr == s.shms@[id].paddr);
}

/// Law: once a page is revoked it is gone: neither owner maps anything at `SHM_VA`, the slots that
/// made them owners are empty, and it cannot be revoked again.
pub proof fn law_revoked_is_gone(s: Spaces, before: Spaces, id: int)
    requires
        before.inv(),
        before.shms@.dom().contains(id),
        unshared(s, before, id),
    ensures
        ({
            let sp = before.shms@[id];
            &&& !s.shms@.dom().contains(id)
            &&& lookup(s.mem.ram, s.procs@[sp.a.0 as int].root as int, SHM_VA as int) is None
            &&& lookup(s.mem.ram, s.procs@[sp.b.0 as int].root as int, SHM_VA as int) is None
            &&& cap_at(s.procs@, sp.a.0 as int, sp.a.1 as int) == Err::<Cap, CapError>(
                CapError::NotFound,
            )
            &&& cap_at(s.procs@, sp.b.0 as int, sp.b.1 as int) == Err::<Cap, CapError>(
                CapError::NotFound,
            )
            &&& !plain(s.mem, sp.paddr as int)
        }),
{
    reveal(Spaces::isolated);
    reveal(parted);
    before.procs.lemma_view();
    let sp = before.shms@[id];
    assert(before.alive(sp.a.0 as int) && before.alive(sp.b.0 as int));
}

} // verus!
