//! Device registers in user address spaces.
//!
//! A device belongs to one process at a time. The only device is the UART, number 0. The claim
//! ends with the process.

use vstd::prelude::*;
use crate::mmu::{lemma_lookup_page, lookup, map_device_page, missing, PhysMemory};
use crate::process::pid_root;
use crate::shm::{tables_only, user_rw};
use crate::space::{lemma_small, page_addr, small_only, user_page, Spaces};
use crate::sv39::{
    lemma_entry, same_vpn, user_flags, PTE_LEAF_RW, USER_VA_LIMIT,
};
use crate::syscall::{SYS_ERR_EACCES, SYS_ERR_EEXIST, SYS_ERR_EINVAL};

verus! {

/// Most devices.
pub const MAX_DEVICES: usize = 8;

/// Flags of a device page: reading and writing, no execution.
pub const DEVICE_FLAGS: u64 = PTE_LEAF_RW;

/// Which process has claimed each device, and where it maps it.
#[derive(Debug, Clone, Copy)]
pub struct DeviceTable {
    pub slots: [Option<(usize, u64)>; MAX_DEVICES],
}

impl DeviceTable {
    /// The claims, by device number.
    pub open spec fn view(&self) -> Seq<Option<(usize, u64)>> {
        self.slots@
    }

    /// No device is claimed.
    pub fn new() -> (r: DeviceTable)
        ensures
            r@.len() == MAX_DEVICES,
            forall|i: int| 0 <= i < MAX_DEVICES ==> #[trigger] r@[i] is None,
    {
        DeviceTable { slots: [None, None, None, None, None, None, None, None] }
    }
}

/// Why a device cannot be mapped.
pub open spec fn map_error(
    t: Seq<Option<(usize, u64)>>,
    s: Spaces,
    uart_base: int,
    caller: int,
    dev_id: int,
    va: int,
) -> Option<u64> {
    if dev_id != 0 {
        Some(SYS_ERR_EINVAL)
    } else if va >= USER_VA_LIMIT || va % 4096 != 0 || uart_base % 4096 != 0 {
        Some(SYS_ERR_EINVAL)
    } else if !s.procs@.dom().contains(caller) {
        Some(SYS_ERR_EACCES)
    } else {
        match t[dev_id] {
            Some((owner, at)) => if owner != caller {
                Some(SYS_ERR_EEXIST)
            } else if at != va {
                Some(SYS_ERR_EINVAL)
            } else {
                None
            },
            None => if lookup(s.mem.ram, s.procs@[caller].root as int, va) is Some
                || s.mem.frames@.free_pages() < missing(
                s.mem.ram,
                s.procs@[caller].root as int,
                va,
            ) {
                Some(SYS_ERR_EINVAL)
            } else {
                None
            },
        }
    }
}

/// `s` is `before` with the page of a device mapped at `va` of the process.
pub open spec fn device_mapped(s: Spaces, before: Spaces, pid: int, pa: int, va: int) -> bool {
    let root = before.procs@[pid].root as int;
    &&& s.procs == before.procs
    &&& s.shms == before.shms
    &&& s.pages == before.pages
    &&& lookup(s.mem.ram, root, va) == user_rw(pa)
    &&& s.mem.same_maps_but(&before.mem, root, va)
    &&& s.mem.kept(&before.mem, root)
    &&& s.mem.frames@ == before.mem.frames@.after_pages(missing(before.mem.ram, root, va))
}

proof fn lemma_device_mapped(s: Spaces, before: Spaces, pid: int, pa: int, va: int)
    requires
        before.inv(),
        before.alive(pid),
        device_mapped(s, before, pid, pa, va),
        page_addr(va),
        0 <= pa < crate::ram::PHYS_LIMIT,
        pa % 4096 == 0,
        !(before.mem.frames@.base <= pa < before.mem.frames@.addr(before.mem.frames@.pages)),
        lookup(before.mem.ram, before.procs@[pid].root as int, va) is None,
    ensures
        s.inv(),
{
    let root = before.procs@[pid].root as int;
    crate::space::lemma_step_entry(before.mem, s.mem, root, va);
    reveal(crate::space::step);
    lemma_entry(pa, user_flags(PTE_LEAF_RW as int));
    assert(user_page(s.mem, root, va) is None);
    assert(user_page(before.mem, root, va) is None);
    assert forall|i: int| #![trigger s.procs@[i]] s.alive(i) implies s.mem.is_root(
        s.procs@[i].root as int,
    ) && small_only(s.mem, s.procs@[i].root as int) by {
        let r = before.procs@[i].root as int;
        assert(before.mem.is_root(r));
        assert(s.mem.is_root(r));
        assert forall|v: int| page_addr(v) implies #[trigger] lookup(s.mem.ram, r, v) == lookup(
            before.mem.ram,
            r,
            v,
        ) || (lookup(s.mem.ram, r, v) matches Some((level, e)) ==> level == 0) by {
            if r == root && same_vpn(v, va) {
                lemma_lookup_page(s.mem.ram, r, v, va);
            }
        }
        lemma_small(before.mem, s.mem, r);
    }
    assert forall|i: int, j: int|
        #![trigger s.procs@[i], s.procs@[j]]
        s.alive(i) && s.alive(j) && i != j implies s.procs@[i].root != s.procs@[j].root by {
        assert(before.procs@[i].root != before.procs@[j].root);
    }
    assert forall|i: int, v: int| before.alive(i) && page_addr(v) implies #[trigger] s.sees(i, v)
        == before.sees(i, v) by {
        let r = before.procs@[i].root as int;
        assert(before.mem.is_root(r));
        assert(user_page(s.mem, r, v) == user_page(s.mem, r, v));
    }
    assert(s.no_new_page_caps(&before)) by {
        assert forall|i: int, k: int, p: usize| #[trigger] s.holds_page(
            i,
            k,
            p,
        ) implies before.holds_page(i, k, p) by {}
    }
    Spaces::lemma_frame(before, s);
}

/// What asking for a device does.
pub open spec fn device_effect(
    t: Seq<Option<(usize, u64)>>,
    s: Spaces,
    old_t: Seq<Option<(usize, u64)>>,
    before: Spaces,
    uart_base: u64,
    caller: usize,
    dev_id: usize,
    va: u64,
    r: Result<(), u64>,
) -> bool {
    match r {
        Err(e) => {
            &&& map_error(
                old_t,
                before,
                uart_base as int,
                caller as int,
                dev_id as int,
                va as int,
            ) == Some(e)
            &&& t == old_t
            &&& s.procs == before.procs
            &&& s.shms == before.shms
            &&& s.pages == before.pages
            &&& tables_only(s.mem, before.mem)
        },
        Ok(_) => {
            &&& map_error(
                old_t,
                before,
                uart_base as int,
                caller as int,
                dev_id as int,
                va as int,
            ) is None
            &&& t == old_t.update(dev_id as int, Some((caller, va)))
            &&& old_t[dev_id as int] is Some ==> s == before
            &&& old_t[dev_id as int] is None ==> device_mapped(
                s,
                before,
                caller as int,
                uart_base as int,
                va as int,
            )
        },
    }
}

/// Map the registers of a device at `va` of the caller, and claim the device for it. Claiming it
/// again at the same address does nothing.
///
/// The registers lie outside the memory that the allocator manages.
pub fn map(
    t: &mut DeviceTable,
    s: &mut Spaces,
    uart_base: u64,
    caller: usize,
    dev_id: usize,
    va: u64,
) -> (r: Result<(), u64>)
    requires
        old(s).inv(),
        uart_base < crate::ram::PHYS_LIMIT,
        !(old(s).mem.frames@.base <= uart_base < old(s).mem.frames@.addr(
            old(s).mem.frames@.pages,
        )),
    ensures
        final(s).inv(),
        device_effect(final(t)@, *final(s), old(t)@, *old(s), uart_base, caller, dev_id, va, r),
{
    proof {
        crate::shm::lemma_nothing_done(s.mem);
    }
    if dev_id != 0 {
        return Err(SYS_ERR_EINVAL);
    }
    if va >= USER_VA_LIMIT || va % 4096 != 0 || uart_base % 4096 != 0 {
        return Err(SYS_ERR_EINVAL);
    }
    let root: u64 = match pid_root(&s.procs, caller) {
        Some(r) => r,
        None => {
            return Err(SYS_ERR_EACCES);
        },
    };
    match t.slots[dev_id] {
        Some((owner, at)) => {
            if owner != caller {
                return Err(SYS_ERR_EEXIST);
            }
            if at != va {
                return Err(SYS_ERR_EINVAL);
            }
            assert(t@ =~= old(t)@.update(0, Some((caller, va))));
            Ok(())
        },
        None => {
            let ghost before = *s;
            if map_device_page(&mut s.mem, root, va, uart_base, DEVICE_FLAGS).is_err() {
                proof {
                    PhysMemory::lemma_held_none(before.mem, s.mem, root as int);
                    crate::shm::lemma_tables_only(before.mem, s.mem, root as int);
                    Spaces::lemma_tables_only(before, *s);
                }
                return Err(SYS_ERR_EINVAL);
            }
            t.slots[dev_id] = Some((caller, va));
            proof {
                lemma_device_mapped(*s, before, caller as int, uart_base as int, va as int);
            }
            Ok(())
        },
    }
}

/// End every claim of a process. Its mappings end with its address space.
pub fn release_all(t: &mut DeviceTable, pid: usize)
    ensures
        final(t)@.len() == MAX_DEVICES,
        forall|i: int|
            0 <= i < MAX_DEVICES ==> #[trigger] final(t)@[i] == (match old(t)@[i] {
                Some((owner, at)) => if owner == pid {
                    None
                } else {
                    old(t)@[i]
                },
                None => None,
            }),
{
    let mut i: usize = 0;
    while i < MAX_DEVICES
        invariant
            i <= MAX_DEVICES,
            t@.len() == MAX_DEVICES,
            forall|k: int|
                0 <= k < MAX_DEVICES ==> #[trigger] t@[k] == (match old(t)@[k] {
                    Some((owner, at)) => if owner == pid && k < i {
                        None
                    } else {
                        old(t)@[k]
                    },
                    None => None,
                }),
        decreases MAX_DEVICES - i,
    {
        if let Some((owner, _)) = t.slots[i] {
            if owner == pid {
                t.slots[i] = None;
            }
        }
        i += 1;
    }
}

/// Law: a device has one owner: while a process has it, no other process can map it.
pub proof fn law_device_exclusive(
    t: Seq<Option<(usize, u64)>>,
    s: Spaces,
    uart_base: int,
    caller: int,
    va: int,
)
    requires
        s.procs@.dom().contains(caller),
        0 <= va < USER_VA_LIMIT,
        va % 4096 == 0,
        uart_base % 4096 == 0,
        t[0] matches Some((owner, at)) && owner != caller,
    ensures
        map_error(t, s, uart_base, caller, 0, va) == Some(SYS_ERR_EEXIST),
{
}

} // verus!
