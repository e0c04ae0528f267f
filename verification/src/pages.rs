//! Pages that are held by capability.
//!
//! A page capability has one holder. The holder can map the page at one address, hand it over to
//! a process that it may send to, or give it back. Handing over or giving back ends the mapping.

use vstd::prelude::*;
use crate::mmu::{lemma_lookup_page, lookup, map_user_page, missing, unmap_4k, PhysMemory};
use crate::process::{
    cap_at, cap_errno, cap_errno_spec, cap_target, clear_cap, grant_typed_cap, pid_root, with_slot,
    Cap, CapError, ProcView, MAX_CAPS,
};
use crate::registry::Registry;
use crate::shm::{lemma_small_path, tables_only, user_rw};
use crate::space::{
    lemma_small, page_addr, plain, small_only, user_page, Spaces, MAX_PAGE_CAPS,
};
use crate::sv39::{lemma_entry, lemma_vpn, same_vpn, user_flags, PTE_LEAF_RW, USER_VA_LIMIT};
use crate::syscall::{
    SYS_ERR_EACCES, SYS_ERR_EEXIST, SYS_ERR_EINVAL, SYS_ERR_ENOENT, SYS_ERR_ENOMEM,
};

verus! {

/// One page, its holder, and where the holder maps it.
#[derive(Debug, Clone, Copy)]
pub struct PageRecord {
    pub paddr: u64,
    pub owner: usize,
    pub map_va: Option<u64>,
}

/// Table of held pages with nothing in it.
pub fn init() -> (r: Registry<PageRecord>)
    ensures
        r.wf(),
        r.limit() == MAX_PAGE_CAPS,
        r@ == Map::<int, PageRecord>::empty(),
{
    Registry::new(MAX_PAGE_CAPS)
}

/// Whether the page is mapped.
pub fn is_mapped(t: &Registry<PageRecord>, id: usize) -> (r: bool)
    requires
        t.wf(),
    ensures
        r == (t@.dom().contains(id as int) && t@[id as int].map_va is Some),
{
    match t.get(id) {
        Some(p) => p.map_va.is_some(),
        None => false,
    }
}

/// Physical address of a page.
pub fn paddr(t: &Registry<PageRecord>, id: usize) -> (r: Option<u64>)
    requires
        t.wf(),
    ensures
        r is Some <==> t@.dom().contains(id as int),
        r matches Some(p) ==> p == t@[id as int].paddr,
{
    match t.get(id) {
        Some(p) => Some(p.paddr),
        None => None,
    }
}

/// Record that the holder maps the page at `va`. A page that is mapped already is refused.
pub fn map(t: &mut Registry<PageRecord>, id: usize, va: u64) -> (r: Result<(), ()>)
    requires
        old(t).wf(),
    ensures
        final(t).wf(),
        final(t).limit() == old(t).limit(),
        final(t).pool() == old(t).pool(),
        r is Ok <==> old(t)@.dom().contains(id as int) && old(t)@[id as int].map_va is None,
        r is Err ==> final(t)@ == old(t)@,
        r is Ok ==> final(t)@ == old(t)@.insert(
            id as int,
            (PageRecord { map_va: Some(va), ..old(t)@[id as int] }),
        ),
{
    match t.get(id) {
        Some(p) => if p.map_va.is_some() {
            Err(())
        } else {
            t.set(id, PageRecord { paddr: p.paddr, owner: p.owner, map_va: Some(va) });
            Ok(())
        },
        None => Err(()),
    }
}

/// `m` is `before` with nothing mapped at `va` of `root`.
#[verifier::opaque]
pub open spec fn unmapped_at(m: PhysMemory, before: PhysMemory, root: int, va: int) -> bool {
    &&& m.inv()
    &&& lookup(m.ram, root, va) is None
    &&& m.same_maps_but(&before, root, va)
    &&& m.same_data(&before)
    &&& m.owner@ == before.owner@
    &&& m.frames@ == before.frames@
}

/// Take away the mapping of a small page.
fn drop_mapping(m: &mut PhysMemory, root: u64, va: u64)
    requires
        old(m).inv(),
        old(m).is_root(root as int),
        lookup(old(m).ram, root as int, va as int) matches Some((level, e)) && level == 0,
    ensures
        unmapped_at(*final(m), *old(m), root as int, va as int),
{
    let ghost before = *m;
    proof {
        lemma_small_path(before, root as int, va as int);
        before.frames.lemma_wf();
        crate::mem::law_page_available(before.frames@);
    }
    let _ = unmap_4k(m, root, va);
    proof {
        reveal(unmapped_at);
        reveal(PhysMemory::kept);
    }
}

/// The mapping that a record tells was taken away, if there was one.
pub open spec fn mapping_dropped(s: Spaces, before: Spaces, rec: PageRecord) -> bool {
    match rec.map_va {
        Some(va) => unmapped_at(
            s.mem,
            before.mem,
            before.procs@[rec.owner as int].root as int,
            va as int,
        ),
        None => s.mem == before.mem,
    }
}

/// What processes see after a mapping of page `p` was taken away.
proof fn lemma_dropped(s: Spaces, before: Spaces, id: int)
    requires
        before.parts_ok(),
        before.held_ok(),
        before.pages@.dom().contains(id),
        mapping_dropped(s, before, before.pages@[id]),
        s.procs.wf(),
        s.same_procs(&before),
        s.shms.wf(),
        s.shms.limit() == before.shms.limit(),
        s.pages.wf(),
        s.pages.limit() == before.pages.limit(),
    ensures
        s.parts_ok(),
        forall|i: int, v: int|
            before.alive(i) && page_addr(v) ==> #[trigger] s.sees(i, v) == (if before.sees(i, v)
                == Some(before.pages@[id].paddr as int) {
                None
            } else {
                before.sees(i, v)
            }),
        forall|q: int| #[trigger] plain(s.mem, q) <==> plain(before.mem, q),
{
    reveal(unmapped_at);
    let rec = before.pages@[id];
    let p = rec.paddr as int;
    assert forall|i: int| #![trigger s.procs@[i]] s.alive(i) implies s.mem.is_root(
        s.procs@[i].root as int,
    ) && small_only(s.mem, s.procs@[i].root as int) by {
        let r = before.procs@[i].root as int;
        assert(before.alive(i));
        assert(before.mem.is_root(r));
        if rec.map_va is Some {
            let root = before.procs@[rec.owner as int].root as int;
            let va = rec.map_va->0 as int;
            assert(s.mem.is_root(r));
            assert forall|v: int| page_addr(v) implies #[trigger] lookup(s.mem.ram, r, v) == lookup(
                before.mem.ram,
                r,
                v,
            ) || (lookup(s.mem.ram, r, v) matches Some((level, e)) ==> level == 0) by {
                if r == root && same_vpn(v, va) {
                    lemma_lookup_page(s.mem.ram, r, v, va);
                }
            }
            lemma_small(before.mem, s.mem, r);
        }
    }
    assert forall|i: int, j: int|
        #![trigger s.procs@[i], s.procs@[j]]
        s.alive(i) && s.alive(j) && i != j implies s.procs@[i].root != s.procs@[j].root by {
        assert(before.alive(i) && before.alive(j));
        assert(before.procs@[i].root != before.procs@[j].root);
    }
    assert forall|i: int, v: int| before.alive(i) && page_addr(v) implies #[trigger] s.sees(i, v)
        == (if before.sees(i, v) == Some(p) {
        None
    } else {
        before.sees(i, v)
    }) by {
        let r = before.procs@[i].root as int;
        assert(s.procs@[i].root == before.procs@[i].root);
        assert(before.mem.is_root(r));
        let x = before.sees(i, v);
        if rec.map_va is Some {
            let own = rec.owner as int;
            let va = rec.map_va->0 as int;
            assert(before.sees(own, va) == Some(p));
            lemma_vpn(v, va);
            if i != own {
                assert(before.procs@[i].root != before.procs@[own].root);
            }
            if !(i == own && v == va) {
                assert(s.mem.is_root(r));
                assert(lookup(s.mem.ram, r, v) == lookup(before.mem.ram, r, v));
                if x == Some(p) {
                    assert(before.pages@[id].paddr == p);
                }
            }
        } else if x == Some(p) {
            assert(before.pages@[id].paddr == p);
        }
    }
}

/// Hand the page over to another holder. It is unmapped where the old holder had it; the slots
/// that hold the capability are the caller's affair. Fails when there is no such page, and
/// changes nothing then.
pub fn grant(s: &mut Spaces, id: usize, to_pid: usize) -> (r: Result<(), ()>)
    requires
        old(s).parts_ok(),
        old(s).held_ok(),
    ensures
        final(s).parts_ok(),
        r is Ok <==> old(s).pages@.dom().contains(id as int),
        r is Err ==> *final(s) == *old(s),
        r is Ok ==> {
            let rec = old(s).pages@[id as int];
            &&& final(s).pages@ == old(s).pages@.insert(
                id as int,
                (PageRecord { owner: to_pid, map_va: None, ..rec }),
            )
            &&& final(s).pages.pool() == old(s).pages.pool()
            &&& final(s).procs == old(s).procs
            &&& final(s).shms == old(s).shms
            &&& mapping_dropped(*final(s), *old(s), rec)
        },
{
    let rec: PageRecord = match s.pages.get(id) {
        Some(r) => r,
        None => {
            return Err(());
        },
    };
    let ghost before = *s;
    assert(before.pages@[id as int] == rec);
    s.pages.set(id, PageRecord { paddr: rec.paddr, owner: to_pid, map_va: None });
    if let Some(va) = rec.map_va {
        if let Some(root) = pid_root(&s.procs, rec.owner) {
            proof {
                assert(before.sees(rec.owner as int, va as int) == Some(rec.paddr as int));
            }
            drop_mapping(&mut s.mem, root, va);
        }
    }
    proof {
        lemma_dropped(*s, before, id as int);
    }
    Ok(())
}

/// `s` is `before` without the page `id`: it is unmapped and given back, and the id is free.
pub open spec fn released(s: Spaces, before: Spaces, id: int) -> bool {
    let rec = before.pages@[id];
    &&& s.pages@ == before.pages@.remove(id)
    &&& s.pages.pool() == before.pages.pool().given(id as usize)
    &&& s.shms == before.shms
    &&& forall|r: int| #[trigger] s.mem.is_root(r) <==> before.mem.is_root(r)
    &&& s.mem.owner@ == before.mem.owner@
    &&& s.mem.same_data(&before.mem)
    &&& s.mem.same_region(&before.mem)
    &&& forall|r: int, v: int|
        before.mem.is_root(r) && !(rec.map_va is Some && r == before.procs@[rec.owner as int].root
            && same_vpn(v, rec.map_va->0 as int)) ==> #[trigger] lookup(s.mem.ram, r, v) == lookup(
            before.mem.ram,
            r,
            v,
        )
    &&& rec.map_va matches Some(va) ==> lookup(
        s.mem.ram,
        before.procs@[rec.owner as int].root as int,
        va as int,
    ) is None
    &&& forall|p: int, o: int| #[trigger]
        s.mem.frames@.allocated(p, o) <==> before.mem.frames@.allocated(p, o) && p != rec.paddr
}

/// Give a page back: it is unmapped, returned to the allocator, and its id is free. The slot that
/// holds the capability is the caller's affair. Fails when there is no such page, and changes
/// nothing then.
///
/// The translation caches have to be flushed afterwards, on every core.
pub fn revoke(s: &mut Spaces, id: usize) -> (r: Result<(), ()>)
    requires
        old(s).parts_ok(),
        old(s).held_ok(),
    ensures
        final(s).parts_ok(),
        r is Ok <==> old(s).pages@.dom().contains(id as int),
        r is Err ==> *final(s) == *old(s),
        r is Ok ==> released(*final(s), *old(s), id as int) && final(s).procs == old(s).procs,
        r is Ok ==> {
            let p = old(s).pages@[id as int].paddr as int;
            &&& forall|i: int, v: int|
                old(s).alive(i) && page_addr(v) ==> #[trigger] final(s).sees(i, v) == (if old(
                    s,
                ).sees(i, v) == Some(p) {
                    None
                } else {
                    old(s).sees(i, v)
                })
            &&& forall|q: int| #[trigger]
                plain(final(s).mem, q) <==> plain(old(s).mem, q) && q != p
        },
{
    let rec: PageRecord = match s.pages.get(id) {
        Some(r) => r,
        None => {
            return Err(());
        },
    };
    let ghost before = *s;
    let ghost p = rec.paddr as int;
    assert(before.pages@[id as int] == rec);
    s.pages.remove(id);
    if let Some(va) = rec.map_va {
        if let Some(root) = pid_root(&s.procs, rec.owner) {
            proof {
                assert(before.sees(rec.owner as int, va as int) == Some(rec.paddr as int));
            }
            drop_mapping(&mut s.mem, root, va);
        }
    }
    let ghost mid = *s;
    proof {
        lemma_dropped(mid, before, id as int);
        mid.mem.frames.lemma_wf();
        assert(plain(mid.mem, p));
        crate::mem::law_allocated_can_free(mid.mem.frames@, p, 0);
    }
    let r = s.mem.free_block(rec.paddr);
    proof {
        crate::space::lemma_step_free(mid.mem, s.mem, p);
        assert(s.roots_ok()) by {
            assert forall|i: int| #![trigger s.procs@[i]] s.alive(i) implies s.mem.is_root(
                s.procs@[i].root as int,
            ) && small_only(s.mem, s.procs@[i].root as int) by {
                let x = mid.procs@[i];
                lemma_small(mid.mem, s.mem, x.root as int);
            }
            assert forall|i: int, j: int|
                #![trigger s.procs@[i], s.procs@[j]]
                s.alive(i) && s.alive(j) && i != j implies s.procs@[i].root != s.procs@[j].root by {
                assert(mid.procs@[i].root != mid.procs@[j].root);
            }
        }
        assert forall|i: int, v: int| before.alive(i) && page_addr(v) implies #[trigger] s.sees(
            i,
            v,
        ) == (if before.sees(i, v) == Some(p) {
            None
        } else {
            before.sees(i, v)
        }) by {
            assert(mid.sees(i, v) == s.sees(i, v));
        }
        assert forall|q: int| #[trigger] plain(s.mem, q) <==> plain(before.mem, q) && q != p by {
            assert(plain(mid.mem, q) <==> plain(before.mem, q));
        }
        assert(released(*s, before, id as int)) by {
            reveal(unmapped_at);
            assert forall|q: int, o: int| #[trigger] s.mem.frames@.allocated(q, o)
                <==> before.mem.frames@.allocated(q, o) && q != p by {
                crate::mem::law_free_ends_one(mid.mem.frames@, p, q, o);
            }
            assert forall|k: int|
                s.mem.ram.has(k) && !s.mem.is_pt(k - k % 4096) implies #[trigger] s.mem.ram.word(k)
                == before.mem.ram.word(k) by {
                assert(mid.mem.ram.has(k));
            }
        }
    }
    r
}

/// Why a page cannot be handed over.
pub open spec fn mem_grant_error(
    t: Map<int, ProcView>,
    caller: int,
    src_slot: int,
    peer_slot: int,
    dst_slot: int,
) -> Option<u64> {
    match cap_at(t, caller, src_slot) {
        Err(e) => Some(cap_errno_spec(e)),
        Ok(Cap::Page(_)) => match cap_at(t, caller, peer_slot) {
            Err(e) => Some(cap_errno_spec(e)),
            Ok(Cap::Proc(peer)) => if !t.dom().contains(peer as int) {
                Some(SYS_ERR_EACCES)
            } else if dst_slot >= MAX_CAPS {
                Some(SYS_ERR_EINVAL)
            } else if t[peer as int].caps[dst_slot] is Some {
                Some(SYS_ERR_EEXIST)
            } else {
                None
            },
            Ok(_) => Some(SYS_ERR_EINVAL),
        },
        Ok(_) => Some(SYS_ERR_EINVAL),
    }
}

/// `s` is `before` with page `id` moved from a slot of `caller` to a slot of `peer`.
pub open spec fn moved(
    s: Spaces,
    before: Spaces,
    id: int,
    caller: int,
    src_slot: int,
    peer: usize,
    dst_slot: int,
) -> bool {
    &&& s.procs@ == with_slot(
        with_slot(before.procs@, peer as int, dst_slot, Some(Cap::Page(id as usize))),
        caller,
        src_slot,
        None,
    )
    &&& s.procs.pool() == before.procs.pool()
    &&& s.shms == before.shms
    &&& s.pages@ == before.pages@.insert(
        id,
        (PageRecord { owner: peer, map_va: None, ..before.pages@[id] }),
    )
    &&& s.pages.pool() == before.pages.pool()
    &&& mapping_dropped(s, before, before.pages@[id])
}

proof fn lemma_moved(
    s: Spaces,
    before: Spaces,
    id: int,
    caller: int,
    src_slot: int,
    peer: usize,
    dst_slot: int,
)
    requires
        before.inv(),
        moved(s, before, id, caller, src_slot, peer, dst_slot),
        s.procs.wf(),
        s.pages.wf(),
        s.pages.limit() == before.pages.limit(),
        0 <= id <= usize::MAX,
        before.holds_page(caller, src_slot, id as usize),
        before.alive(peer as int),
        0 <= dst_slot < MAX_CAPS,
        before.procs@[peer as int].caps[dst_slot] is None,
    ensures
        s.inv(),
{
    assert(before.held_ok() && before.caps_ok()) by {
        reveal(Spaces::isolated);
    }
    before.procs.lemma_view();
    let p = before.pages@[id].paddr as int;
    assert(s.same_procs(&before)) by {
        assert forall|i: int| #![trigger s.procs@[i]] before.alive(i) implies s.procs@[i].root
            == before.procs@[i].root by {}
    }
    lemma_dropped(s, before, id);
    assert(s.caps_ok()) by {
        assert forall|i: int, k: int, x: usize| #[trigger] s.holds_page(i, k, x) implies {
            ||| x == id && i == peer && k == dst_slot
            ||| x != id && before.holds_page(i, k, x)
        } by {
            if x == id && !(i == peer && k == dst_slot) {
                assert(before.holds_page(i, k, x));
            }
        }
        assert forall|i: int, k: int, x: usize| #[trigger] s.holds_page(
            i,
            k,
            x,
        ) implies s.pages@.dom().contains(x as int) && s.pages@[x as int].owner == i by {
            if x != id {
                assert(before.holds_page(i, k, x));
            }
        }
        assert forall|i: int, k: int, j: int, u: int, x: usize|
            #![trigger s.holds_page(i, k, x), s.holds_page(j, u, x)]
            s.holds_page(i, k, x) && s.holds_page(j, u, x) implies i == j && k == u by {
            if x != id {
                assert(before.holds_page(i, k, x) && before.holds_page(j, u, x));
            }
        }
    }
    assert(!before.is_shared(p)) by {
        assert(before.pages@[id].paddr == p);
    }
    assert(Spaces::only_page_changed(before, s, id, p));
    Spaces::lemma_page_changed(before, s, id, p);
}

/// What handing a page over does.
pub open spec fn grant_effect(
    s: Spaces,
    before: Spaces,
    caller: usize,
    src_slot: usize,
    peer_slot: usize,
    dst_slot: usize,
    r: Result<(), u64>,
) -> bool {
    match r {
        Err(e) => {
            &&& mem_grant_error(
                before.procs@,
                caller as int,
                src_slot as int,
                peer_slot as int,
                dst_slot as int,
            ) == Some(e)
            &&& s == before
        },
        Ok(_) => {
            &&& mem_grant_error(
                before.procs@,
                caller as int,
                src_slot as int,
                peer_slot as int,
                dst_slot as int,
            ) is None
            &&& moved(
                s,
                before,
                cap_at(before.procs@, caller as int, src_slot as int)->Ok_0->Page_0 as int,
                caller as int,
                src_slot as int,
                cap_at(before.procs@, caller as int, peer_slot as int)->Ok_0->Proc_0,
                dst_slot as int,
            )
        },
    }
}

/// Hand a page over to a process that the caller may send to. The capability moves: the slot of
/// the caller is emptied, and the page is unmapped there. An occupied slot of the receiver is
/// refused.
pub fn mem_grant(
    s: &mut Spaces,
    caller: usize,
    src_slot: usize,
    peer_slot: usize,
    dst_slot: usize,
) -> (r: Result<(), u64>)
    requires
        old(s).inv(),
    ensures
        final(s).inv(),
        grant_effect(*final(s), *old(s), caller, src_slot, peer_slot, dst_slot, r),
{
    let id: usize = match cap_target(&s.procs, caller, src_slot) {
        Ok(Cap::Page(id)) => id,
        Ok(_) => {
            return Err(cap_errno(CapError::WrongType));
        },
        Err(e) => {
            return Err(cap_errno(e));
        },
    };
    let peer: usize = match cap_target(&s.procs, caller, peer_slot) {
        Ok(Cap::Proc(p)) => p,
        Ok(_) => {
            return Err(cap_errno(CapError::WrongType));
        },
        Err(e) => {
            return Err(cap_errno(e));
        },
    };
    if pid_root(&s.procs, peer).is_none() {
        return Err(SYS_ERR_EACCES);
    }
    if dst_slot >= MAX_CAPS {
        return Err(SYS_ERR_EINVAL);
    }
    if cap_target(&s.procs, peer, dst_slot).is_ok() {
        return Err(SYS_ERR_EEXIST);
    }
    let ghost before = *s;
    proof {
        reveal(Spaces::isolated);
        assert(before.holds_page(caller as int, src_slot as int, id));
    }
    if grant(s, id, peer).is_err() {
        return Err(SYS_ERR_ENOENT);
    }
    let ghost mid = *s;
    let _ = grant_typed_cap(&mut s.procs, peer, dst_slot, Cap::Page(id));
    let _ = clear_cap(&mut s.procs, caller, src_slot);
    proof {
        lemma_moved(*s, before, id as int, caller as int, src_slot as int, peer, dst_slot as int);
    }
    Ok(())
}

/// Why a page cannot be mapped.
pub open spec fn mem_map_error(s: Spaces, caller: int, slot: int, va: int) -> Option<u64> {
    if va % 4096 != 0 || va >= USER_VA_LIMIT {
        Some(SYS_ERR_EINVAL)
    } else {
        match cap_at(s.procs@, caller, slot) {
            Err(e) => Some(cap_errno_spec(e)),
            Ok(Cap::Page(id)) => if s.pages@[id as int].map_va is Some {
                Some(SYS_ERR_EEXIST)
            } else if lookup(s.mem.ram, s.procs@[caller].root as int, va) is Some
                || s.mem.frames@.free_pages() < missing(
                s.mem.ram,
                s.procs@[caller].root as int,
                va,
            ) {
                Some(SYS_ERR_EINVAL)
            } else {
                None
            },
            Ok(_) => Some(SYS_ERR_EINVAL),
        }
    }
}

/// `s` is `before` with the page of record `id` mapped by its holder at `va`.
pub open spec fn mapped(s: Spaces, before: Spaces, id: int, va: u64) -> bool {
    let rec = before.pages@[id];
    let root = before.procs@[rec.owner as int].root as int;
    &&& s.procs == before.procs
    &&& s.shms == before.shms
    &&& s.pages@ == before.pages@.insert(id, (PageRecord { map_va: Some(va), ..rec }))
    &&& s.pages.pool() == before.pages.pool()
    &&& lookup(s.mem.ram, root, va as int) == user_rw(rec.paddr as int)
    &&& s.mem.same_maps_but(&before.mem, root, va as int)
    &&& s.mem.kept(&before.mem, root)
    &&& s.mem.frames@ == before.mem.frames@.after_pages(missing(before.mem.ram, root, va as int))
}

proof fn lemma_mapped(s: Spaces, before: Spaces, id: int, va: u64)
    requires
        before.inv(),
        before.pages@.dom().contains(id),
        before.pages@[id].map_va is None,
        mapped(s, before, id, va),
        s.pages.wf(),
        s.pages.limit() == before.pages.limit(),
        page_addr(va as int),
        lookup(
            before.mem.ram,
            before.procs@[before.pages@[id].owner as int].root as int,
            va as int,
        ) is None,
    ensures
        s.inv(),
{
    assert(before.held_ok() && before.caps_ok()) by {
        reveal(Spaces::isolated);
    }
    let rec = before.pages@[id];
    let own = rec.owner as int;
    let root = before.procs@[own].root as int;
    let p = rec.paddr as int;
    let v0 = va as int;
    assert(before.alive(own) && plain(before.mem, p) && !before.is_shared(p));
    crate::space::lemma_step_entry(before.mem, s.mem, root, v0);
    assert(user_page(s.mem, root, v0) == Some(p)) by {
        before.mem.lemma_page(p, 0);
        before.mem.frames.lemma_wf();
        crate::mem::law_block_placement(before.mem.frames@, p, 0);
        crate::tiling::lemma_block_pages_values();
        lemma_entry(p, user_flags(PTE_LEAF_RW as int));
    }
    assert forall|i: int| #![trigger s.procs@[i]] s.alive(i) implies s.mem.is_root(
        s.procs@[i].root as int,
    ) && small_only(s.mem, s.procs@[i].root as int) by {
        let r = before.procs@[i].root as int;
        assert(before.mem.is_root(r));
        assert(s.mem.is_root(r));
        assert forall|v: int| page_addr(v) implies #[trigger] lookup(s.mem.ram, r, v) == lookup(
            before.mem.ram,
            r,
            v,
        ) || (lookup(s.mem.ram, r, v) matches Some((level, e)) ==> level == 0) by {
            if r == root && same_vpn(v, v0) {
                lemma_lookup_page(s.mem.ram, r, v, v0);
            }
        }
        lemma_small(before.mem, s.mem, r);
    }
    assert forall|i: int, j: int|
        #![trigger s.procs@[i], s.procs@[j]]
        s.alive(i) && s.alive(j) && i != j implies s.procs@[i].root != s.procs@[j].root by {
        assert(before.procs@[i].root != before.procs@[j].root);
    }
    assert(s.mem.inv()) by {
        reveal(crate::space::step);
    }
    assert forall|i: int, v: int| before.alive(i) && page_addr(v) implies #[trigger] s.sees(i, v)
        == (if i == own && v == v0 {
        Some(p)
    } else {
        before.sees(i, v)
    }) by {
        reveal(crate::space::step);
        let r = before.procs@[i].root as int;
        assert(before.mem.is_root(r));
        if i != own {
            assert(before.procs@[i].root != before.procs@[own].root);
        }
        assert(user_page(s.mem, r, v) == user_page(s.mem, r, v));
    }
    assert(before.sees(own, v0) is None);
    assert forall|i: int, v: int| #![trigger s.sees(i, v)]
        before.alive(i) && page_addr(v) && s.sees(i, v) == Some(p) implies i == own && v == v0 by {
        let x = before.sees(i, v);
        assert(before.pages@[id].paddr == p);
    }
    assert forall|q: int| #[trigger] plain(before.mem, q) implies plain(s.mem, q) by {
        reveal(crate::space::step);
    }
    assert(s.caps_ok()) by {
        assert forall|i: int, k: int, x: usize| #[trigger] s.holds_page(
            i,
            k,
            x,
        ) implies s.pages@.dom().contains(x as int) && s.pages@[x as int].owner == i by {
            assert(before.holds_page(i, k, x));
        }
        assert forall|i: int, k: int, j: int, u: int, x: usize|
            #![trigger s.holds_page(i, k, x), s.holds_page(j, u, x)]
            s.holds_page(i, k, x) && s.holds_page(j, u, x) implies i == j && k == u by {
            assert(before.holds_page(i, k, x) && before.holds_page(j, u, x));
        }
    }
    assert(Spaces::only_page_changed(before, s, id, p));
    Spaces::lemma_page_changed(before, s, id, p);
}

/// What mapping a page does.
pub open spec fn map_effect(
    s: Spaces,
    before: Spaces,
    caller: usize,
    slot: usize,
    va: u64,
    r: Result<(), u64>,
) -> bool {
    match r {
        Err(e) => {
            &&& mem_map_error(before, caller as int, slot as int, va as int) == Some(e)
            &&& s.procs == before.procs
            &&& s.shms == before.shms
            &&& s.pages == before.pages
            &&& tables_only(s.mem, before.mem)
        },
        Ok(_) => {
            &&& mem_map_error(before, caller as int, slot as int, va as int) is None
            &&& mapped(
                s,
                before,
                cap_at(before.procs@, caller as int, slot as int)->Ok_0->Page_0 as int,
                va,
            )
        },
    }
}

/// Map a page that the caller holds, for reading and writing, at `va`. A page has one mapping at
/// most.
pub fn mem_map(s: &mut Spaces, caller: usize, slot: usize, va: u64) -> (r: Result<(), u64>)
    requires
        old(s).inv(),
    ensures
        final(s).inv(),
        map_effect(*final(s), *old(s), caller, slot, va, r),
{
    proof {
        crate::shm::lemma_nothing_done(s.mem);
    }
    if va % 4096 != 0 || va >= USER_VA_LIMIT {
        return Err(SYS_ERR_EINVAL);
    }
    let id: usize = match cap_target(&s.procs, caller, slot) {
        Ok(Cap::Page(id)) => id,
        Ok(_) => {
            return Err(cap_errno(CapError::WrongType));
        },
        Err(e) => {
            return Err(cap_errno(e));
        },
    };
    let ghost before = *s;
    proof {
        reveal(Spaces::isolated);
        assert(before.holds_page(caller as int, slot as int, id));
        assert(before.pages@.dom().contains(id as int));
        assert(before.pages@[id as int].owner == caller);
    }
    if is_mapped(&s.pages, id) {
        return Err(SYS_ERR_EEXIST);
    }
    let pa: u64 = match paddr(&s.pages, id) {
        Some(p) => p,
        None => {
            return Err(SYS_ERR_ENOENT);
        },
    };
    let root: u64 = match pid_root(&s.procs, caller) {
        Some(r) => r,
        None => {
            return Err(SYS_ERR_EACCES);
        },
    };
    proof {
        before.mem.lemma_page(pa as int, 0);
        before.mem.frames.lemma_wf();
        crate::mem::law_block_placement(before.mem.frames@, pa as int, 0);
        crate::tiling::lemma_block_pages_values();
    }
    if map_user_page(&mut s.mem, root, va, pa, PTE_LEAF_RW).is_err() {
        proof {
            PhysMemory::lemma_held_none(before.mem, s.mem, root as int);
            crate::shm::lemma_tables_only(before.mem, s.mem, root as int);
            Spaces::lemma_tables_only(before, *s);
        }
        return Err(SYS_ERR_EINVAL);
    }
    if map(&mut s.pages, id, va).is_err() {
        let _ = unmap_4k(&mut s.mem, root, va);
        return Err(SYS_ERR_EEXIST);
    }
    proof {
        lemma_mapped(*s, before, id as int, va);
    }
    Ok(())
}

/// Why a page cannot be taken for a process.
pub open spec fn alloc_page_error(s: Spaces, pid: int, slot: int) -> Option<u64> {
    if slot >= MAX_CAPS {
        Some(SYS_ERR_EINVAL)
    } else if !s.procs@.dom().contains(pid) {
        Some(SYS_ERR_EACCES)
    } else if s.procs@[pid].caps[slot] is Some {
        Some(SYS_ERR_EEXIST)
    } else if s.pages.pool().next(MAX_PAGE_CAPS as int) is None || s.mem.frames@.free_pages() == 0 {
        Some(SYS_ERR_ENOMEM)
    } else {
        None
    }
}

/// Take a page filled with zero, and let the process hold it in an empty slot. This is how the
/// first pages come into the hands of a memory server; no system call does it.
pub fn alloc_page(s: &mut Spaces, pid: usize, slot: usize) -> (r: Result<usize, u64>)
    requires
        old(s).inv(),
    ensures
        final(s).inv(),
        match r {
            Err(e) => {
                &&& alloc_page_error(*old(s), pid as int, slot as int) == Some(e)
                &&& *final(s) == *old(s)
            },
            Ok(id) => {
                let rec = final(s).pages@[id as int];
                &&& alloc_page_error(*old(s), pid as int, slot as int) is None
                &&& id as int == old(s).pages.pool().next(MAX_PAGE_CAPS as int)->0
                &&& final(s).pages@ == old(s).pages@.insert(id as int, rec)
                &&& rec.owner == pid
                &&& rec.map_va is None
                &&& final(s).pages.pool() == old(s).pages.pool().taken()
                &&& final(s).procs@ == with_slot(
                    old(s).procs@,
                    pid as int,
                    slot as int,
                    Some(Cap::Page(id)),
                )
                &&& final(s).procs.pool() == old(s).procs.pool()
                &&& final(s).shms == old(s).shms
                &&& old(s).mem.frames@.free_page(rec.paddr as int)
                &&& rec.paddr == old(s).mem.frames@.next_page()
                &&& final(s).mem.frames@ == old(s).mem.frames@.after_alloc(0)
                &&& final(s).mem.owner@ == old(s).mem.owner@
                &&& final(s).mem.same_maps(&old(s).mem)
                &&& final(s).mem.ram.same_but_page(&old(s).mem.ram, rec.paddr as int)
                &&& forall|a: int|
                    rec.paddr <= a < rec.paddr + 4096 && a % 8 == 0
                        ==> #[trigger] final(s).mem.ram.word(a) == 0
            },
        },
{
    if slot >= MAX_CAPS {
        return Err(SYS_ERR_EINVAL);
    }
    if pid_root(&s.procs, pid).is_none() {
        return Err(SYS_ERR_EACCES);
    }
    if cap_target(&s.procs, pid, slot).is_ok() {
        return Err(SYS_ERR_EEXIST);
    }
    if !s.pages.has_room() || s.mem.frames.free_page_count() == 0 {
        return Err(SYS_ERR_ENOMEM);
    }
    let ghost before = *s;
    proof {
        before.mem.frames.lemma_wf();
        crate::mem::law_page_available(before.mem.frames@);
    }
    let pa: u64 = match s.mem.alloc_page_zeroed() {
        Some(p) => p,
        None => {
            return Err(SYS_ERR_ENOMEM);
        },
    };
    let id: usize = s.pages.insert(PageRecord { paddr: pa, owner: pid, map_va: None });
    let _ = grant_typed_cap(&mut s.procs, pid, slot, Cap::Page(id));
    proof {
        assert(s.pages@[id as int].paddr == pa);
        lemma_new_page(*s, before, id, pid as int, slot as int);
    }
    Ok(id)
}

proof fn lemma_new_page(s: Spaces, before: Spaces, id: usize, pid: int, slot: int)
    requires
        before.inv(),
        before.alive(pid),
        0 <= slot < MAX_CAPS,
        !before.pages@.dom().contains(id as int),
        s.pages@ == before.pages@.insert(id as int, s.pages@[id as int]),
        s.pages@[id as int].owner == pid,
        s.pages@[id as int].map_va is None,
        s.pages.wf(),
        s.pages.limit() == before.pages.limit(),
        s.procs.wf(),
        s.procs@ == with_slot(before.procs@, pid, slot, Some(Cap::Page(id))),
        s.shms == before.shms,
        s.mem.inv(),
        s.mem.owner@ == before.mem.owner@,
        s.mem.frames@ == before.mem.frames@.after_alloc(0),
        s.mem.same_maps(&before.mem),
        before.mem.frames@.free_page(s.pages@[id as int].paddr as int),
        !before.mem.is_pt(s.pages@[id as int].paddr as int),
        forall|p: int, o: int| #[trigger]
            s.mem.frames@.allocated(p, o) <==> before.mem.frames@.allocated(p, o) || (p
                == s.pages@[id as int].paddr && o == 0),
    ensures
        s.inv(),
{
    assert(before.private_ok() && before.shared_ok() && before.held_ok() && before.caps_ok()) by {
        reveal(Spaces::isolated);
    }
    before.procs.lemma_view();
    let p = s.pages@[id as int].paddr as int;
    crate::space::lemma_step_alloc(before.mem, s.mem, p);
    reveal(crate::space::step);
    assert(s.same_procs(&before)) by {
        assert forall|i: int| #![trigger s.procs@[i]] before.alive(i) implies s.procs@[i].root
            == before.procs@[i].root by {}
    }
    assert forall|i: int| #![trigger s.procs@[i]] s.alive(i) implies s.mem.is_root(
        s.procs@[i].root as int,
    ) && small_only(s.mem, s.procs@[i].root as int) by {
        let r = before.procs@[i].root as int;
        assert(before.mem.is_root(r));
        assert(s.mem.is_root(r));
        lemma_small(before.mem, s.mem, r);
    }
    assert forall|i: int, j: int|
        #![trigger s.procs@[i], s.procs@[j]]
        s.alive(i) && s.alive(j) && i != j implies s.procs@[i].root != s.procs@[j].root by {
        assert(before.procs@[i].root != before.procs@[j].root);
    }
    assert forall|i: int, v: int| before.alive(i) && page_addr(v) implies #[trigger] s.sees(i, v)
        == before.sees(i, v) && s.sees(i, v) != Some(p) by {
        let r = before.procs@[i].root as int;
        assert(before.mem.is_root(r));
        assert(user_page(s.mem, r, v) == user_page(before.mem, r, v));
        let x = before.sees(i, v);
    }
    if before.is_shared(p) {
        let k = choose|k: int| #![trigger before.shms@[k]]
            before.shms@.dom().contains(k) && before.shms@[k].paddr == p;
        assert(plain(before.mem, before.shms@[k].paddr as int));
    }
    assert forall|k: int| #![trigger before.pages@[k]]
        before.pages@.dom().contains(k) && k != id implies before.pages@[k].paddr != p by {
        assert(plain(before.mem, before.pages@[k].paddr as int));
    }
    assert(s.caps_ok()) by {
        assert forall|i: int, k: int, x: usize| #[trigger] s.holds_page(i, k, x) implies {
            ||| x == id && i == pid && k == slot
            ||| x != id && before.holds_page(i, k, x)
        } by {
            if !(i == pid && k == slot) {
                assert(before.holds_page(i, k, x));
            }
        }
        assert forall|i: int, k: int, x: usize| #[trigger] s.holds_page(
            i,
            k,
            x,
        ) implies s.pages@.dom().contains(x as int) && s.pages@[x as int].owner == i by {
            if x != id {
                assert(before.holds_page(i, k, x));
            }
        }
        assert forall|i: int, k: int, j: int, u: int, x: usize|
            #![trigger s.holds_page(i, k, x), s.holds_page(j, u, x)]
            s.holds_page(i, k, x) && s.holds_page(j, u, x) implies i == j && k == u by {
            if x != id {
                assert(before.holds_page(i, k, x) && before.holds_page(j, u, x));
            }
        }
    }
    assert(Spaces::only_page_changed(before, s, id as int, p));
    Spaces::lemma_page_changed(before, s, id as int, p);
}

/// Law: after a page was handed over, the receiver holds it in the slot that was named, the
/// giver's slot is empty, and nobody sees the page until the receiver maps it.
pub proof fn law_grant_moves(
    s: Spaces,
    before: Spaces,
    id: usize,
    caller: int,
    src_slot: int,
    peer: usize,
    dst_slot: int,
    i: int,
    v: int,
)
    requires
        before.inv(),
        s.inv(),
        before.holds_page(caller, src_slot, id),
        before.alive(peer as int),
        0 <= dst_slot < MAX_CAPS,
        (peer as int, dst_slot) != (caller, src_slot),
        moved(s, before, id as int, caller, src_slot, peer, dst_slot),
        s.alive(i),
        page_addr(v),
    ensures
        cap_at(s.procs@, peer as int, dst_slot) == Ok::<Cap, CapError>(Cap::Page(id)),
        cap_at(s.procs@, caller, src_slot) == Err::<Cap, CapError>(CapError::NotFound),
        s.sees(i, v) != Some(s.pages@[id as int].paddr as int),
{
    before.procs.lemma_view();
    if s.sees(i, v) == Some(s.pages@[id as int].paddr as int) {
        assert(before.caps_ok()) by {
            reveal(Spaces::isolated);
        }
        crate::space::law_held_page_seen_once(s, id as int, i, v);
    }
}

} // verus!
