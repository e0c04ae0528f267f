//! What sharing, handing over, mapping and giving up pages is for: who sees which page afterwards,
//! and which slots say so.

use vstd::prelude::*;
use crate::device::device_effect;
use crate::mmu::{lookup, PhysMemory};
use crate::pages::{grant_effect, map_effect};
use crate::process::{revoke_effect, Cap, CapError};
use crate::shm::{joined, lemma_joined_sees, share_effect, SHM_VA};
use crate::space::{law_held_page_seen_once, page_addr, plain, user_page, Spaces};
use crate::sv39::{lemma_entry, lemma_vpn};
use crate::syscall::{SYS_ERR_EACCES, SYS_ERR_EEXIST, SYS_ERR_EINVAL, SYS_ERR_ENOMEM};

verus! {

/// What slot `k` of a process holds.
pub open spec fn slot_of(s: Spaces, pid: int, k: int) -> Option<Cap> {
    s.procs@[pid].caps[k]
}

/// All slots of all processes hold what they held, but for up to two.
pub open spec fn slots_stay_but(
    s: Spaces,
    before: Spaces,
    p: int,
    x: int,
    q: int,
    y: int,
) -> bool {
    &&& forall|i: int| #[trigger] s.procs@.dom().contains(i) <==> before.procs@.dom().contains(i)
    &&& forall|i: int, k: int|
        before.alive(i) && 0 <= k < 8 && !(i == p && k == x) && !(i == q && k == y)
            ==> #[trigger] slot_of(s, i, k) == slot_of(before, i, k)
}

/// Why the first step of a call that needs a capability fails: there is no such slot, or it is
/// empty.
pub open spec fn slot_fault(s: Spaces, pid: int, k: int) -> Option<u64> {
    if k >= 8 {
        Some(SYS_ERR_EINVAL)
    } else if slot_of(s, pid, k) is None {
        Some(SYS_ERR_EACCES)
    } else {
        None
    }
}

/// Law: two processes that share a page see the same page at the same address, new and filled with
/// zero; the slots that were named say so, and hold nothing else any more. What every process sees
/// elsewhere, and every other slot, stays.
pub proof fn law_sharing_joins_two(
    s: Spaces,
    before: Spaces,
    caller: usize,
    a_slot: usize,
    b_slot: usize,
    len: u64,
    id: usize,
)
    requires
        before.inv(),
        s.inv(),
        before.alive(caller as int),
        share_effect(s, before, caller, a_slot, b_slot, len, Ok(id)),
    ensures
        ({
            let cap = slot_of(before, caller as int, a_slot as int);
            let peer = cap->0->Proc_0 as int;
            let p = s.shms@[id as int].paddr as int;
            &&& len == 4096
            &&& a_slot < 8 && b_slot < 8
            &&& cap is Some && cap->0 is Proc
            &&& before.alive(peer)
            &&& peer != caller
            &&& slot_of(s, caller as int, a_slot as int) == Some(Cap::Shm(id))
            &&& slot_of(s, peer, b_slot as int) == Some(Cap::Shm(id))
            &&& slots_stay_but(s, before, caller as int, a_slot as int, peer, b_slot as int)
            &&& s.sees(caller as int, SHM_VA as int) == Some(p)
            &&& s.sees(peer, SHM_VA as int) == Some(p)
            &&& !plain(before.mem, p)
            &&& forall|w: int| p <= w < p + 4096 && w % 8 == 0 ==> #[trigger] s.mem.ram.word(w) == 0
            &&& forall|i: int, v: int|
                before.alive(i) && page_addr(v) && !(v == SHM_VA && (i == caller || i == peer))
                    ==> #[trigger] s.sees(i, v) == before.sees(i, v)
        }),
{
    reveal(Spaces::isolated);
    before.procs.lemma_view();
    let sp = s.shms@[id as int];
    let a = caller as int;
    let peer = sp.b.0 as int;
    let p = sp.paddr as int;
    let ra = before.procs@[a].root as int;
    let rb = before.procs@[peer].root as int;
    assert(s.shms@.dom().contains(id as int));
    assert(s.shms@[id as int].paddr == p);
    assert(before.mem.is_root(ra) && before.mem.is_root(rb));
    let m = s.mem;
    assert(plain(m, p));
    m.lemma_page(p, 0);
    m.frames.lemma_wf();
    crate::mem::law_block_placement(m.frames@, p, 0);
    crate::tiling::lemma_block_pages_values();
    assert(m.held(&before.mem, ra, set![p])) by {
        reveal(joined);
    }
    crate::space::lemma_held_plain(before.mem, m, ra, set![p]);
    assert(p % 4096 == 0 && before.mem.frames@.base <= p < before.mem.frames@.addr(
        before.mem.frames@.pages,
    ));
    lemma_joined_sees(m, before.mem, ra, rb, p);
    assert forall|w: int| p <= w < p + 4096 && w % 8 == 0 implies #[trigger] s.mem.ram.word(w) == 0 by {
        reveal(joined);
    }
    assert forall|i: int| #[trigger] s.procs@.dom().contains(i) <==> before.procs@.dom().contains(
        i,
    ) by {}
    assert forall|i: int, v: int|
        before.alive(i) && page_addr(v) && !(v == SHM_VA && (i == caller || i == peer)) implies #[trigger] s.sees(
        i,
        v,
    ) == before.sees(i, v) by {
        let r = before.procs@[i].root as int;
        assert(before.mem.is_root(r));
        assert(s.procs@[i].root == r);
        if i != a {
            assert(before.procs@[i].root != before.procs@[a].root);
        }
        if i != peer {
            assert(before.procs@[i].root != before.procs@[peer].root);
        }
        assert(user_page(m, r, v) == user_page(before.mem, r, v));
    }
}

/// Law: a page is shared with a process that the caller may send to, a whole page and nothing else;
/// where that cannot be, no slot changes and nobody sees anything else than before.
pub proof fn law_sharing_refused(
    s: Spaces,
    before: Spaces,
    caller: usize,
    a_slot: usize,
    b_slot: usize,
    len: u64,
    e: u64,
)
    requires
        before.inv(),
        before.alive(caller as int),
        share_effect(s, before, caller, a_slot, b_slot, len, Err(e)),
    ensures
        s.procs@ == before.procs@,
        s.shms == before.shms,
        s.pages == before.pages,
        forall|i: int, v: int|
            before.alive(i) ==> #[trigger] lookup(s.mem.ram, before.procs@[i].root as int, v)
                == lookup(before.mem.ram, before.procs@[i].root as int, v),
        len != 4096 ==> e == SYS_ERR_EINVAL,
        len == 4096 ==> {
            let cap = slot_of(before, caller as int, a_slot as int);
            let fault = slot_fault(before, caller as int, a_slot as int);
            &&& fault is Some ==> Some(e) == fault
            &&& fault is None && !(cap->0 is Proc) ==> e == SYS_ERR_EINVAL
            &&& fault is None && cap->0 is Proc && b_slot >= 8 ==> e == SYS_ERR_EINVAL
            &&& fault is None && cap->0 is Proc && b_slot < 8 && !before.alive(
                cap->0->Proc_0 as int,
            ) ==> e == SYS_ERR_EACCES
            &&& fault is None && cap->0 is Proc && b_slot < 8 && before.alive(
                cap->0->Proc_0 as int,
            ) && before.mem.frames@.free_pages() == 0 ==> e == SYS_ERR_ENOMEM
        },
{
    before.procs.lemma_view();
    assert forall|i: int, v: int| before.alive(i) implies #[trigger] lookup(
        s.mem.ram,
        before.procs@[i].root as int,
        v,
    ) == lookup(before.mem.ram, before.procs@[i].root as int, v) by {
        let r = before.procs@[i].root as int;
        assert(before.mem.is_root(r));
        assert(s.mem.is_root(r));
    }
}

/// Law: handing a page over needs a page in the slot that is named, a process that the caller may
/// send to, and an empty slot there. Then the page is the other's: its slot holds it, the caller's
/// is empty, nobody sees the page any more, and its bytes stay. Otherwise nothing changes.
pub proof fn law_page_changes_hands(
    s: Spaces,
    before: Spaces,
    caller: usize,
    src: usize,
    via: usize,
    dst: usize,
    r: Result<(), u64>,
)
    requires
        before.inv(),
        s.inv(),
        before.alive(caller as int),
        grant_effect(s, before, caller, src, via, dst, r),
    ensures
        ({
            let me = caller as int;
            let what = slot_of(before, me, src as int);
            let whom = slot_of(before, me, via as int);
            let f1 = slot_fault(before, me, src as int);
            let f2 = slot_fault(before, me, via as int);
            let peer = whom->0->Proc_0 as int;
            let id = what->0->Page_0;
            let fine = f1 is None && what->0 is Page && f2 is None && whom->0 is Proc
                && before.alive(peer) && dst < 8;
            &&& r is Err ==> s == before
            &&& f1 is Some ==> r == Err::<(), u64>(f1->0)
            &&& f1 is None && !(what->0 is Page) ==> r == Err::<(), u64>(SYS_ERR_EINVAL)
            &&& f1 is None && what->0 is Page && f2 is Some ==> r == Err::<(), u64>(f2->0)
            &&& f1 is None && what->0 is Page && f2 is None && !(whom->0 is Proc) ==> r == Err::<
                (),
                u64,
            >(SYS_ERR_EINVAL)
            &&& f1 is None && what->0 is Page && f2 is None && whom->0 is Proc && !before.alive(peer)
                ==> r == Err::<(), u64>(SYS_ERR_EACCES)
            &&& fine && slot_of(before, peer, dst as int) is Some ==> r == Err::<(), u64>(
                SYS_ERR_EEXIST,
            )
            &&& fine && slot_of(before, peer, dst as int) is None ==> {
                &&& r is Ok
                &&& slot_of(s, peer, dst as int) == Some(Cap::Page(id))
                &&& slot_of(s, me, src as int) is None
                &&& slots_stay_but(s, before, me, src as int, peer, dst as int)
                &&& s.pages@[id as int].owner == peer
                &&& s.pages@[id as int].map_va is None
                &&& s.pages@[id as int].paddr == before.pages@[id as int].paddr
                &&& forall|i: int, v: int|
                    s.alive(i) && page_addr(v) ==> #[trigger] s.sees(i, v) != Some(
                        s.pages@[id as int].paddr as int,
                    )
            }
        }),
{
    before.procs.lemma_view();
    let me = caller as int;
    let what = slot_of(before, me, src as int);
    let whom = slot_of(before, me, via as int);
    if r is Ok {
        let id = what->0->Page_0;
        let peer = whom->0->Proc_0 as int;
        assert(before.holds_page(me, src as int, id));
        assert(before.pages@.dom().contains(id as int)) by {
            reveal(Spaces::isolated);
        }
        assert forall|i: int, v: int| s.alive(i) && page_addr(v) implies #[trigger] s.sees(i, v)
            != Some(s.pages@[id as int].paddr as int) by {
            if s.sees(i, v) == Some(s.pages@[id as int].paddr as int) {
                law_held_page_seen_once(s, id as int, i, v);
            }
        }
        assert forall|i: int| #[trigger] s.procs@.dom().contains(i)
            <==> before.procs@.dom().contains(i) by {}
    }
}

/// Law: a page that is mapped is seen by its holder at the address that was asked for, and nothing
/// else that anybody sees changes, and no slot. The page has to be one that the caller holds and has
/// not mapped yet, and nothing may be there already.
pub proof fn law_mapping_shows_the_page(
    s: Spaces,
    before: Spaces,
    caller: usize,
    slot: usize,
    va: u64,
    r: Result<(), u64>,
)
    requires
        before.inv(),
        s.inv(),
        before.alive(caller as int),
        map_effect(s, before, caller, slot, va, r),
    ensures
        ({
            let me = caller as int;
            let what = slot_of(before, me, slot as int);
            let fault = slot_fault(before, me, slot as int);
            let id = what->0->Page_0 as int;
            let good = va % 4096 == 0 && va < 0x40_0000_0000;
            let fine = good && fault is None && what->0 is Page;
            &&& s.procs@ == before.procs@
            &&& !good ==> r == Err::<(), u64>(SYS_ERR_EINVAL)
            &&& good && fault is Some ==> r == Err::<(), u64>(fault->0)
            &&& good && fault is None && !(what->0 is Page) ==> r == Err::<(), u64>(SYS_ERR_EINVAL)
            &&& fine && before.pages@[id].map_va is Some ==> r == Err::<(), u64>(SYS_ERR_EEXIST)
            &&& fine && before.pages@[id].map_va is None && lookup(
                before.mem.ram,
                before.procs@[me].root as int,
                va as int,
            ) is Some ==> r == Err::<(), u64>(SYS_ERR_EINVAL)
            &&& r is Err ==> s.pages == before.pages && forall|i: int, v: int|
                before.alive(i) ==> #[trigger] lookup(s.mem.ram, before.procs@[i].root as int, v)
                    == lookup(before.mem.ram, before.procs@[i].root as int, v)
            &&& r is Ok ==> {
                &&& fine
                &&& s.sees(me, va as int) == Some(before.pages@[id].paddr as int)
                &&& s.pages@[id].map_va == Some(va)
                &&& s.pages@[id].owner == caller
                &&& s.pages@[id].paddr == before.pages@[id].paddr
                &&& forall|i: int, v: int|
                    before.alive(i) && page_addr(v) && !(i == me && v == va) ==> #[trigger] s.sees(
                        i,
                        v,
                    ) == before.sees(i, v)
                &&& forall|w: int|
                    s.mem.ram.has(w) && !s.mem.is_pt(w - w % 4096) ==> #[trigger] s.mem.ram.word(w)
                        == before.mem.ram.word(w)
            }
        }),
{
    before.procs.lemma_view();
    let me = caller as int;
    let what = slot_of(before, me, slot as int);
    let id = what->0->Page_0 as int;
    let root = before.procs@[me].root as int;
    if r is Err {
        assert forall|i: int, v: int| before.alive(i) implies #[trigger] lookup(
            s.mem.ram,
            before.procs@[i].root as int,
            v,
        ) == lookup(before.mem.ram, before.procs@[i].root as int, v) by {
            let q = before.procs@[i].root as int;
            assert(before.mem.is_root(q));
            assert(s.mem.is_root(q));
        }
    } else {
        assert(before.holds_page(me, slot as int, id as usize));
        reveal(Spaces::isolated);
        assert(before.pages@.dom().contains(id) && before.pages@[id].owner == caller);
        assert(s.pages@.dom().contains(id));
        assert(s.pages@[id].map_va == Some(va));
        assert(s.sees(me, va as int) == Some(before.pages@[id].paddr as int));
        assert(before.mem.is_root(root));
        crate::space::lemma_step_entry(before.mem, s.mem, root, va as int);
        assert forall|i: int, v: int|
            before.alive(i) && page_addr(v) && !(i == me && v == va) implies #[trigger] s.sees(i, v)
            == before.sees(i, v) by {
            let q = before.procs@[i].root as int;
            assert(before.mem.is_root(q));
            if i != me {
                assert(before.procs@[i].root != before.procs@[me].root);
            }
            reveal(crate::space::step);
        }
        assert(s.mem.same_data(&before.mem)) by {
            reveal(PhysMemory::kept);
        }
    }
}

/// Law: giving up a capability empties its slot. One for a process is only forgotten: nobody sees
/// anything else than before. A page that is held alone goes back to the allocator, and its holder
/// sees it no more; what is seen of other pages stays. An empty slot, and one that is not there, are
/// refused.
pub proof fn law_giving_up_empties_the_slot(
    s: Spaces,
    before: Spaces,
    pid: usize,
    slot: usize,
    r: Result<(), CapError>,
)
    requires
        before.inv(),
        s.inv(),
        before.alive(pid as int),
        revoke_effect(s, before, pid, slot, r),
        slot < 8 ==> !(slot_of(before, pid as int, slot as int) matches Some(Cap::Shm(_))),
    ensures
        slot >= 8 ==> r == Err::<(), CapError>(CapError::InvalidSlot) && s == before,
        slot < 8 ==> {
            let me = pid as int;
            match slot_of(before, me, slot as int) {
                None => r == Err::<(), CapError>(CapError::NotFound) && s == before,
                Some(Cap::Proc(_)) => {
                    &&& r is Ok
                    &&& slot_of(s, me, slot as int) is None
                    &&& slots_stay_but(s, before, me, slot as int, me, slot as int)
                    &&& s.mem == before.mem
                    &&& s.shms == before.shms
                    &&& s.pages == before.pages
                },
                Some(Cap::Page(id)) => {
                    let p = before.pages@[id as int].paddr as int;
                    &&& r is Ok
                    &&& slot_of(s, me, slot as int) is None
                    &&& slots_stay_but(s, before, me, slot as int, me, slot as int)
                    &&& !s.pages@.dom().contains(id as int)
                    &&& !s.mem.frames@.allocated(p, 0)
                    &&& forall|i: int, v: int|
                        before.alive(i) && page_addr(v) ==> #[trigger] s.sees(i, v) == (
                        if before.sees(i, v) == Some(p) {
                            None
                        } else {
                            before.sees(i, v)
                        })
                },
                Some(_) => true,
            }
        },
{
    before.procs.lemma_view();
    let me = pid as int;
    if r is Ok {
        assert forall|i: int| #[trigger] s.procs@.dom().contains(i)
            <==> before.procs@.dom().contains(i) by {}
    }
    if slot < 8 {
        if let Some(Cap::Page(id)) = slot_of(before, me, slot as int) {
            assert(before.holds_page(me, slot as int, id));
            assert(before.pages@.dom().contains(id as int) && before.pages@[id as int].owner
                == pid) by {
                reveal(Spaces::isolated);
            }
            let rec = before.pages@[id as int];
            let p = rec.paddr as int;
            assert(r is Ok);
            assert forall|i: int, v: int| before.alive(i) && page_addr(v) implies #[trigger] s.sees(
                i,
                v,
            ) == (if before.sees(i, v) == Some(p) {
                None
            } else {
                before.sees(i, v)
            }) by {
                let q = before.procs@[i].root as int;
                assert(before.mem.is_root(q));
                assert(s.procs@[i].root == q);
                if before.sees(i, v) == Some(p) {
                    law_held_page_seen_once(before, id as int, i, v);
                } else if rec.map_va is Some {
                    let va = rec.map_va->0 as int;
                    assert(page_addr(va) && before.sees(me, va) == Some(p)) by {
                        reveal(Spaces::isolated);
                        assert(before.pages@[id as int].paddr == p);
                    }
                    lemma_vpn(v, va);
                    if i != me {
                        assert(before.procs@[i].root != before.procs@[me].root);
                    }
                    assert(lookup(s.mem.ram, q, v) == lookup(before.mem.ram, q, v));
                } else {
                    assert(lookup(s.mem.ram, q, v) == lookup(before.mem.ram, q, v));
                }
            }
        }
    }
}

/// Law: the serial device is number 0 and belongs to the process that asks for it first; that
/// process sees its registers at the address that it named, to read and write and not to execute.
/// Nobody else gets it, and what is seen elsewhere stays.
pub proof fn law_device_has_one_owner(
    t: Seq<Option<(usize, u64)>>,
    s: Spaces,
    old_t: Seq<Option<(usize, u64)>>,
    before: Spaces,
    uart_base: u64,
    caller: usize,
    dev_id: usize,
    va: u64,
    r: Result<(), u64>,
)
    requires
        before.inv(),
        old_t.len() == 8,
        before.alive(caller as int),
        uart_base < crate::ram::PHYS_LIMIT,
        device_effect(t, s, old_t, before, uart_base, caller, dev_id, va, r),
    ensures
        ({
            let me = caller as int;
            let root = before.procs@[me].root as int;
            let good = dev_id == 0 && va < 0x40_0000_0000 && va % 4096 == 0 && uart_base % 4096 == 0;
            let free = lookup(before.mem.ram, root, va as int) is None;
            &&& s.procs == before.procs
            &&& s.shms == before.shms
            &&& s.pages == before.pages
            &&& r is Err ==> t == old_t
            &&& !good ==> r == Err::<(), u64>(SYS_ERR_EINVAL)
            &&& good && (old_t[0] matches Some((owner, at)) && owner != caller) ==> r == Err::<
                (),
                u64,
            >(SYS_ERR_EEXIST)
            &&& good && (old_t[0] matches Some((owner, at)) && owner == caller && at != va) ==> r
                == Err::<(), u64>(SYS_ERR_EINVAL)
            &&& good && (old_t[0] matches Some((owner, at)) && owner == caller && at == va) ==> r
                is Ok && s == before && t == old_t
            &&& good && old_t[0] is None && !free ==> r == Err::<(), u64>(SYS_ERR_EINVAL)
            &&& r is Ok ==> {
                &&& good
                &&& t.len() == 8
                &&& t[0] == Some((caller, va))
                &&& forall|i: int| 1 <= i < 8 ==> #[trigger] t[i] == old_t[i]
            }
            &&& r is Ok && old_t[0] is None ==> {
                let found = lookup(s.mem.ram, root, va as int);
                let (level, entry) = found->0;
                &&& free
                &&& found is Some
                &&& level == 0
                &&& entry as int / 1024 * 4096 == uart_base
                &&& entry as int % 32 == 0x17
                &&& forall|i: int, v: int|
                    before.alive(i) && page_addr(v) && !(i == me && v == va) ==> #[trigger] lookup(
                        s.mem.ram,
                        before.procs@[i].root as int,
                        v,
                    ) == lookup(before.mem.ram, before.procs@[i].root as int, v)
            }
        }),
{
    before.procs.lemma_view();
    let me = caller as int;
    let root = before.procs@[me].root as int;
    assert(before.mem.is_root(root));
    if r is Ok && old_t[0] is Some {
        assert(t =~= old_t);
    }
    if r is Ok && old_t[0] is None {
        lemma_entry(uart_base as int, 0xD7);
        assert forall|i: int, v: int|
            before.alive(i) && page_addr(v) && !(i == me && v == va) implies #[trigger] lookup(
            s.mem.ram,
            before.procs@[i].root as int,
            v,
        ) == lookup(before.mem.ram, before.procs@[i].root as int, v) by {
            let q = before.procs@[i].root as int;
            assert(before.mem.is_root(q));
            assert(s.mem.is_root(q));
            if i != me {
                assert(before.procs@[i].root != before.procs@[me].root);
            }
            lemma_vpn(v, va as int);
        }
    }
}

} // verus!
