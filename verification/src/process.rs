//! Processes and their capability slots.
//!
//! A process is an address space with a small table of capabilities. A capability is the only
//! way to name something outside the process: another process for messages, a page that is
//! shared with another process, or a page that is held alone.

use vstd::prelude::*;
use std::collections::VecDeque;
use crate::device::{release_all, DeviceTable, MAX_DEVICES};
use crate::mmu::{create_user_root, destroy_root, lookup, KernelLayout};
use crate::pages::{released, PageRecord};
use crate::registry::Pool;
use crate::services::{
    register_error, register_locked, unregister_all_locked, ServiceTable, MAX_SERVICES,
};
use crate::shm::{shm_revoke, unshared, SHM_VA};
use crate::space::{
    lemma_small, page_addr, plain, small_only, user_page, Spaces, MAX_PAGE_CAPS, MAX_SHMS,
};
use crate::sv39::is_user;
use crate::syscall::{SYS_ERR_EACCES, SYS_ERR_EINVAL, SYS_ERR_ENOENT};

verus! {

/// Most processes at one time.
pub const MAX_PROCESSES: usize = 16;

/// Capability slots of a process.
pub const MAX_CAPS: usize = 8;

/// Id of a table entry that is not in use.
pub const NO_ID: usize = usize::MAX;

/// What a capability stands for.
#[derive(Debug, Clone, Copy, PartialEq, Eq, Structural)]
pub enum Cap {
    /// Send to and receive from the process.
    Proc(usize),
    /// Co-owner of the shared page.
    Shm(usize),
    /// Only holder of the page.
    Page(usize),
}

/// Why a capability could not be used.
#[derive(Debug, Clone, Copy, PartialEq, Eq, Structural)]
pub enum CapError {
    /// No such slot.
    InvalidSlot,
    /// The slot is empty, or there is no such process.
    NotFound,
    /// The capability stands for something else.
    WrongType,
    /// The shared page is gone.
    ShmNotFound,
    /// The page is gone.
    PageNotFound,
}

/// Error code that a user sees.
pub open spec fn cap_errno_spec(e: CapError) -> u64 {
    match e {
        CapError::InvalidSlot | CapError::WrongType => SYS_ERR_EINVAL,
        CapError::NotFound => SYS_ERR_EACCES,
        CapError::ShmNotFound | CapError::PageNotFound => SYS_ERR_ENOENT,
    }
}

/// Error code that a user sees.
pub fn cap_errno(err: CapError) -> (r: u64)
    ensures
        r == cap_errno_spec(err),
{
    match err {
        CapError::InvalidSlot | CapError::WrongType => SYS_ERR_EINVAL,
        CapError::NotFound => SYS_ERR_EACCES,
        CapError::ShmNotFound | CapError::PageNotFound => SYS_ERR_ENOENT,
    }
}

/// Entry of the process table.
#[derive(Debug, Clone, Copy)]
pub struct Process {
    /// Position in the table, or `NO_ID`.
    pub id: usize,
    /// Root table of the address space.
    pub root: u64,
    pub caps: [Option<Cap>; MAX_CAPS],
}

/// A process: its address space and its capability slots.
#[verifier::ext_equal]
pub struct ProcView {
    pub root: u64,
    pub caps: Seq<Option<Cap>>,
}

impl ProcView {
    /// The process with another value in one slot.
    pub open spec fn with_cap(self, slot: int, cap: Option<Cap>) -> ProcView {
        ProcView { caps: self.caps.update(slot, cap), ..self }
    }
}

/// All processes.
pub struct ProcessTable {
    slots: Vec<Process>,
    free: VecDeque<usize>,
}

impl ProcessTable {
    /// Entries in use and entries to use again.
    pub closed spec fn pool(&self) -> Pool {
        Pool { len: self.slots@.len() as int, free: self.free@ }
    }

    /// Entries in use hold their position, the others `NO_ID`.
    pub closed spec fn wf(&self) -> bool {
        &&& self.pool().wf(MAX_PROCESSES as int)
        &&& forall|i: int| #![trigger self.slots@[i]]
            0 <= i < self.slots@.len() ==> self.slots@[i].id == if self.pool().live(i) {
                i as usize
            } else {
                NO_ID
            }
    }

    /// The processes, by pid.
    pub closed spec fn view(&self) -> Map<int, ProcView> {
        Map::new(
            |i: int| self.pool().live(i),
            |i: int| ProcView { root: self.slots@[i].root, caps: self.slots@[i].caps@ },
        )
    }

    /// The pids are the ids in use, and every process has all its slots.
    pub proof fn lemma_view(&self)
        requires
            self.wf(),
        ensures
            self.pool().wf(MAX_PROCESSES as int),
            forall|i: int| #[trigger] self@.dom().contains(i) <==> self.pool().live(i),
            forall|i: int| #[trigger]
                self@.dom().contains(i) ==> 0 <= i < MAX_PROCESSES && self@[i].caps.len()
                    == MAX_CAPS,
    {
        assert forall|i: int| #[trigger] self@.dom().contains(i) implies 0 <= i < MAX_PROCESSES
            && self@[i].caps.len() == MAX_CAPS by {
            assert(self.slots@[i].caps@.len() == MAX_CAPS);
        }
    }

    /// No process.
    pub fn new() -> (r: ProcessTable)
        ensures
            r.wf(),
            r@ == Map::<int, ProcView>::empty(),
            r.pool() == (Pool { len: 0, free: Seq::empty() }),
    {
        let r = ProcessTable { slots: Vec::new(), free: VecDeque::new() };
        assert(r@ =~= Map::<int, ProcView>::empty());
        r
    }

    /// Whether the process exists.
    pub fn has(&self, pid: usize) -> (r: bool)
        requires
            self.wf(),
        ensures
            r == self@.dom().contains(pid as int),
    {
        pid < self.slots.len() && self.slots[pid].id == pid
    }

    /// Whether there is room for one more process.
    pub fn has_room(&self) -> (r: bool)
        requires
            self.wf(),
        ensures
            r == self.pool().next(MAX_PROCESSES as int) is Some,
    {
        self.free.len() > 0 || self.slots.len() < MAX_PROCESSES
    }

    /// Put a process with the given address space and no capability into the table.
    pub fn insert(&mut self, root: u64) -> (pid: usize)
        requires
            old(self).wf(),
            old(self).pool().next(MAX_PROCESSES as int) is Some,
        ensures
            final(self).wf(),
            pid as int == old(self).pool().next(MAX_PROCESSES as int)->0,
            final(self).pool() == old(self).pool().taken(),
            !old(self)@.dom().contains(pid as int),
            final(self)@ == old(self)@.insert(
                pid as int,
                ProcView { root, caps: Seq::new(MAX_CAPS as nat, |i: int| None) },
            ),
    {
        proof {
            self.pool().lemma_take(MAX_PROCESSES as int);
        }
        let ghost before = *self;
        let caps: [Option<Cap>; MAX_CAPS] = [None, None, None, None, None, None, None, None];
        let pid: usize = match self.free.pop_front() {
            Some(idx) => {
                self.slots.set(idx, Process { id: idx, root, caps });
                idx
            },
            None => {
                let idx: usize = self.slots.len();
                self.slots.push(Process { id: idx, root, caps });
                idx
            },
        };
        proof {
            assert(self.pool() =~= before.pool().taken());
            assert(caps@ =~= Seq::new(MAX_CAPS as nat, |i: int| None));
            assert forall|i: int| #![trigger self.slots@[i]]
                0 <= i < self.slots@.len() implies self.slots@[i].id == if self.pool().live(i) {
                i as usize
            } else {
                NO_ID
            } by {
                if i != pid {
                    assert(self.slots@[i] == before.slots@[i]);
                }
                assert(self.pool().live(i) <==> before.pool().live(i) || i == pid);
            }
            assert(self@ =~= before@.insert(
                pid as int,
                ProcView { root, caps: Seq::new(MAX_CAPS as nat, |i: int| None) },
            )) by {
                assert forall|i: int| #[trigger] self@.dom().contains(i) <==> before@.dom().contains(i)
                    || i == pid by {
                    assert(self.pool().live(i) <==> before.pool().live(i) || i == pid);
                }
            }
        }
        pid
    }

    /// Take a process out of the table.
    pub fn remove(&mut self, pid: usize)
        requires
            old(self).wf(),
            old(self)@.dom().contains(pid as int),
        ensures
            final(self).wf(),
            final(self)@ == old(self)@.remove(pid as int),
            final(self).pool() == old(self).pool().given(pid),
    {
        proof {
            self.pool().lemma_give(pid, MAX_PROCESSES as int);
        }
        let ghost before = *self;
        let mut p: Process = self.slots[pid];
        p.id = NO_ID;
        self.slots.set(pid, p);
        self.free.push_back(pid);
        proof {
            assert(self.pool() =~= before.pool().given(pid));
            assert forall|i: int| #![trigger self.slots@[i]]
                0 <= i < self.slots@.len() implies self.slots@[i].id == if self.pool().live(i) {
                i as usize
            } else {
                NO_ID
            } by {
                if i != pid {
                    assert(self.slots@[i] == before.slots@[i]);
                }
                assert(self.pool().live(i) <==> before.pool().live(i) && i != pid);
            }
            assert(self@ =~= before@.remove(pid as int)) by {
                assert forall|i: int| #[trigger] self@.dom().contains(i) <==> before@.dom().contains(i)
                    && i != pid by {
                    assert(self.pool().live(i) <==> before.pool().live(i) && i != pid);
                }
            }
        }
    }

    /// Put a value into a slot.
    fn set_cap(&mut self, pid: usize, slot: usize, cap: Option<Cap>)
        requires
            old(self).wf(),
            old(self)@.dom().contains(pid as int),
            slot < MAX_CAPS,
        ensures
            final(self).wf(),
            final(self).pool() == old(self).pool(),
            final(self)@ == old(self)@.insert(
                pid as int,
                old(self)@[pid as int].with_cap(slot as int, cap),
            ),
    {
        let ghost before = *self;
        let mut p: Process = self.slots[pid];
        p.caps[slot] = cap;
        self.slots.set(pid, p);
        proof {
            assert(self@ =~= before@.insert(
                pid as int,
                before@[pid as int].with_cap(slot as int, cap),
            ));
        }
    }
}

/// Root table of the address space of a process that exists.
pub fn root(t: &ProcessTable, pid: usize) -> (r: u64)
    requires
        t.wf(),
        t@.dom().contains(pid as int),
    ensures
        r == t@[pid as int].root,
{
    t.slots[pid].root
}

/// Root table of the address space, if the process exists.
pub fn pid_root(t: &ProcessTable, pid: usize) -> (r: Option<u64>)
    requires
        t.wf(),
    ensures
        r is Some <==> t@.dom().contains(pid as int),
        r matches Some(x) ==> x == t@[pid as int].root,
{
    if t.has(pid) {
        Some(t.slots[pid].root)
    } else {
        None
    }
}

/// Why slot `slot` of process `pid` cannot be written.
pub open spec fn slot_error(t: Map<int, ProcView>, pid: int, slot: int) -> Option<CapError> {
    if slot >= MAX_CAPS {
        Some(CapError::InvalidSlot)
    } else if !t.dom().contains(pid) {
        Some(CapError::NotFound)
    } else {
        None
    }
}

/// What slot `slot` of process `pid` holds.
pub open spec fn cap_at(t: Map<int, ProcView>, pid: int, slot: int) -> Result<Cap, CapError> {
    match slot_error(t, pid, slot) {
        Some(e) => Err(e),
        None => match t[pid].caps[slot] {
            Some(c) => Ok(c),
            None => Err(CapError::NotFound),
        },
    }
}

/// The table with another value in one slot.
pub open spec fn with_slot(
    t: Map<int, ProcView>,
    pid: int,
    slot: int,
    cap: Option<Cap>,
) -> Map<int, ProcView> {
    t.insert(pid, t[pid].with_cap(slot, cap))
}

/// Let `pid` send to and receive from `target_pid` through `slot`. Whatever the slot held is
/// replaced.
pub fn grant_cap(t: &mut ProcessTable, pid: usize, slot: usize, target_pid: usize) -> (r: Result<
    (),
    CapError,
>)
    requires
        old(t).wf(),
    ensures
        final(t).wf(),
        final(t).pool() == old(t).pool(),
        r == match slot_error(old(t)@, pid as int, slot as int) {
            Some(e) => Err::<(), CapError>(e),
            None => Ok(()),
        },
        r is Err ==> final(t)@ == old(t)@,
        r is Ok ==> final(t)@ == with_slot(
            old(t)@,
            pid as int,
            slot as int,
            Some(Cap::Proc(target_pid)),
        ),
{
    grant_typed_cap(t, pid, slot, Cap::Proc(target_pid))
}

/// Put a capability into a slot. Whatever the slot held is replaced.
pub fn grant_typed_cap(t: &mut ProcessTable, pid: usize, slot: usize, cap: Cap) -> (r: Result<
    (),
    CapError,
>)
    requires
        old(t).wf(),
    ensures
        final(t).wf(),
        final(t).pool() == old(t).pool(),
        r == match slot_error(old(t)@, pid as int, slot as int) {
            Some(e) => Err::<(), CapError>(e),
            None => Ok(()),
        },
        r is Err ==> final(t)@ == old(t)@,
        r is Ok ==> final(t)@ == with_slot(old(t)@, pid as int, slot as int, Some(cap)),
{
    if slot >= MAX_CAPS {
        return Err(CapError::InvalidSlot);
    }
    if !t.has(pid) {
        return Err(CapError::NotFound);
    }
    t.set_cap(pid, slot, Some(cap));
    Ok(())
}

/// Make `pid` a co-owner of a shared page through `slot`.
pub fn grant_shm_cap(t: &mut ProcessTable, pid: usize, slot: usize, shm_id: usize) -> (r: Result<
    (),
    CapError,
>)
    requires
        old(t).wf(),
    ensures
        final(t).wf(),
        final(t).pool() == old(t).pool(),
        r == match slot_error(old(t)@, pid as int, slot as int) {
            Some(e) => Err::<(), CapError>(e),
            None => Ok(()),
        },
        r is Err ==> final(t)@ == old(t)@,
        r is Ok ==> final(t)@ == with_slot(
            old(t)@,
            pid as int,
            slot as int,
            Some(Cap::Shm(shm_id)),
        ),
{
    grant_typed_cap(t, pid, slot, Cap::Shm(shm_id))
}

/// What a slot holds.
pub fn cap_target(t: &ProcessTable, pid: usize, slot: usize) -> (r: Result<Cap, CapError>)
    requires
        t.wf(),
    ensures
        r == cap_at(t@, pid as int, slot as int),
{
    if slot >= MAX_CAPS {
        return Err(CapError::InvalidSlot);
    }
    if !t.has(pid) {
        return Err(CapError::NotFound);
    }
    match t.slots[pid].caps[slot] {
        Some(c) => Ok(c),
        None => Err(CapError::NotFound),
    }
}

/// Why slot `from` cannot be copied to slot `to`. The only holder of a page stays the only one.
pub open spec fn dup_error(t: Map<int, ProcView>, pid: int, from: int, to: int) -> Option<CapError> {
    if to >= MAX_CAPS {
        Some(CapError::InvalidSlot)
    } else {
        match cap_at(t, pid, from) {
            Err(e) => Some(e),
            Ok(Cap::Page(_)) => Some(CapError::WrongType),
            Ok(_) => None,
        }
    }
}

/// Copy a capability to another slot of the same process. A page capability has one holder and
/// is not copied.
pub fn cap_duplicate(t: &mut ProcessTable, pid: usize, from: usize, to: usize) -> (r: Result<
    (),
    CapError,
>)
    requires
        old(t).wf(),
    ensures
        final(t).wf(),
        final(t).pool() == old(t).pool(),
        r == match dup_error(old(t)@, pid as int, from as int, to as int) {
            Some(e) => Err::<(), CapError>(e),
            None => Ok(()),
        },
        r is Err ==> final(t)@ == old(t)@,
        r is Ok ==> final(t)@ == with_slot(
            old(t)@,
            pid as int,
            to as int,
            Some(cap_at(old(t)@, pid as int, from as int)->Ok_0),
        ),
{
    if from >= MAX_CAPS || to >= MAX_CAPS {
        return Err(CapError::InvalidSlot);
    }
    match cap_target(t, pid, from) {
        Err(e) => Err(e),
        Ok(Cap::Page(_)) => Err(CapError::WrongType),
        Ok(c) => {
            t.set_cap(pid, to, Some(c));
            Ok(())
        },
    }
}

/// Empty a slot, whatever it holds. An empty slot stays empty.
pub fn clear_cap(t: &mut ProcessTable, pid: usize, slot: usize) -> (r: Result<(), CapError>)
    requires
        old(t).wf(),
    ensures
        final(t).wf(),
        final(t).pool() == old(t).pool(),
        r == match slot_error(old(t)@, pid as int, slot as int) {
            Some(e) => Err::<(), CapError>(e),
            None => Ok(()),
        },
        r is Err ==> final(t)@ == old(t)@,
        r is Ok ==> final(t)@ == with_slot(old(t)@, pid as int, slot as int, None),
{
    if slot >= MAX_CAPS {
        return Err(CapError::InvalidSlot);
    }
    if !t.has(pid) {
        return Err(CapError::NotFound);
    }
    t.set_cap(pid, slot, None);
    Ok(())
}

/// `s` is `before` with a new process: it has an address space that maps the kernel region alone,
/// and no capability.
pub open spec fn created(s: Spaces, before: Spaces, pid: int, root: u64, l: KernelLayout) -> bool {
    &&& s.procs@ == before.procs@.insert(
        pid,
        ProcView { root, caps: Seq::new(MAX_CAPS as nat, |i: int| None) },
    )
    &&& s.procs.pool() == before.procs.pool().taken()
    &&& s.shms == before.shms
    &&& s.pages == before.pages
    &&& s.mem.with_root(&before.mem, root as int, &l)
}

proof fn lemma_created(s: Spaces, before: Spaces, pid: int, root: u64, l: KernelLayout)
    requires
        before.inv(),
        l.wf(),
        !before.alive(pid),
        created(s, before, pid, root, l),
        s.procs.wf(),
    ensures
        s.inv(),
{
    let r0 = root as int;
    crate::mmu::PhysMemory::lemma_held_none(before.mem, s.mem, r0);
    crate::space::lemma_held_plain(before.mem, s.mem, r0, Set::empty());
    assert forall|v: int| page_addr(v) implies user_page(s.mem, r0, v) is None && (#[trigger] lookup(
        s.mem.ram,
        r0,
        v,
    ) matches Some((level, e)) ==> !is_user(e)) by {
        crate::mmu::law_kernel_closed_to_user(l, v);
        assert(lookup(s.mem.ram, r0, v) == l.kernel_map(v));
    }
    assert forall|i: int| #![trigger s.procs@[i]] s.alive(i) implies s.mem.is_root(
        s.procs@[i].root as int,
    ) && small_only(s.mem, s.procs@[i].root as int) by {
        if i == pid {
            reveal(small_only);
        } else {
            let r = before.procs@[i].root as int;
            assert(before.mem.is_root(r));
            assert(s.mem.is_root(r));
            lemma_small(before.mem, s.mem, r);
        }
    }
    assert forall|i: int, j: int|
        #![trigger s.procs@[i], s.procs@[j]]
        s.alive(i) && s.alive(j) && i != j implies s.procs@[i].root != s.procs@[j].root by {
        if i != pid {
            assert(before.mem.is_root(before.procs@[i].root as int));
        }
        if j != pid {
            assert(before.mem.is_root(before.procs@[j].root as int));
        }
    }
    assert forall|i: int, v: int| s.alive(i) && page_addr(v) implies #[trigger] s.sees(i, v) == (
    if i == pid {
        None
    } else {
        before.sees(i, v)
    }) by {
        if i == pid {
            let x = lookup(s.mem.ram, r0, v);
        } else {
            let r = before.procs@[i].root as int;
            assert(before.mem.is_root(r));
            assert(lookup(s.mem.ram, r, v) == lookup(before.mem.ram, r, v));
        }
    }
    assert forall|i: int, k: int, x: usize| #[trigger] s.holds_page(
        i,
        k,
        x,
    ) implies before.holds_page(i, k, x) by {}
    Spaces::lemma_process_added(before, s, pid);
}

/// Make a process: a new address space that maps the kernel region, and empty capability slots.
/// Fails, with nothing changed, exactly when the table is full or there is too little memory.
pub fn create(s: &mut Spaces, l: &KernelLayout) -> (r: Result<usize, ()>)
    requires
        old(s).inv(),
        l.wf(),
    ensures
        final(s).inv(),
        r is Err <==> old(s).procs.pool().next(MAX_PROCESSES as int) is None
            || old(s).mem.frames@.free_pages() < l.tables() + 1,
        r is Err ==> *final(s) == *old(s),
        r matches Ok(pid) ==> {
            &&& pid as int == old(s).procs.pool().next(MAX_PROCESSES as int)->0
            &&& created(*final(s), *old(s), pid as int, final(s).procs@[pid as int].root, *l)
        },
{
    if !s.procs.has_room() {
        return Err(());
    }
    let ghost before = *s;
    let root: u64 = match create_user_root(&mut s.mem, l) {
        Ok(r) => r,
        Err(_) => {
            return Err(());
        },
    };
    let pid: usize = s.procs.insert(root);
    proof {
        lemma_created(*s, before, pid as int, root, *l);
    }
    Ok(pid)
}

/// What offering a service does.
pub open spec fn register_effect(
    t: Map<int, ProcView>,
    services: Seq<Option<usize>>,
    before: Seq<Option<usize>>,
    pid: usize,
    id: usize,
    r: Result<(), u64>,
) -> bool {
    match r {
        Err(e) => {
            &&& services == before
            &&& Some(e) == if !t.dom().contains(pid as int) {
                Some(SYS_ERR_EACCES)
            } else {
                register_error(before, id as int)
            }
        },
        Ok(_) => {
            &&& t.dom().contains(pid as int)
            &&& register_error(before, id as int) is None
            &&& services == before.update(id as int, Some(pid))
        },
    }
}

/// Register a process that exists as a server.
pub fn register_service(t: &ProcessTable, services: &mut ServiceTable, pid: usize, id: usize) -> (r:
    Result<(), u64>)
    requires
        t.wf(),
    ensures
        register_effect(t@, final(services)@, old(services)@, pid, id, r),
{
    if !t.has(pid) {
        return Err(SYS_ERR_EACCES);
    }
    register_locked(services, pid, id)
}

/// Why a capability cannot be given up.
pub open spec fn revoke_error(s: Spaces, pid: int, slot: int) -> Option<CapError> {
    match cap_at(s.procs@, pid, slot) {
        Err(e) => Some(e),
        Ok(Cap::Shm(id)) => if s.shms@.dom().contains(id as int) {
            None
        } else {
            Some(CapError::ShmNotFound)
        },
        Ok(_) => None,
    }
}

/// What giving up a capability does.
pub open spec fn revoke_effect(
    s: Spaces,
    before: Spaces,
    pid: usize,
    slot: usize,
    r: Result<(), CapError>,
) -> bool {
    match r {
        Err(e) => revoke_error(before, pid as int, slot as int) == Some(e) && s
            == before,
        Ok(_) => {
            &&& revoke_error(before, pid as int, slot as int) is None
            &&& match cap_at(before.procs@, pid as int, slot as int)->Ok_0 {
                Cap::Proc(_) => {
                    &&& s.procs@ == with_slot(
                        before.procs@,
                        pid as int,
                        slot as int,
                        None,
                    )
                    &&& s.procs.pool() == before.procs.pool()
                    &&& s.mem == before.mem
                    &&& s.shms == before.shms
                    &&& s.pages == before.pages
                },
                Cap::Shm(id) => unshared(s, before, id as int),
                Cap::Page(id) => {
                    &&& released(s, before, id as int)
                    &&& s.procs@ == with_slot(
                        before.procs@,
                        pid as int,
                        slot as int,
                        None,
                    )
                    &&& s.procs.pool() == before.procs.pool()
                },
            }
        },
    }
}

/// Give up what a slot holds. For a shared page that ends the sharing for both owners; a page
/// that is held alone goes back to the allocator; a capability for a process is only forgotten.
///
/// After a page was given up the translation caches have to be flushed, on every core.
pub fn cap_revoke(s: &mut Spaces, pid: usize, slot: usize) -> (r: Result<(), CapError>)
    requires
        old(s).inv(),
    ensures
        final(s).inv(),
        revoke_effect(*final(s), *old(s), pid, slot, r),
{
    let c: Cap = match cap_target(&s.procs, pid, slot) {
        Ok(c) => c,
        Err(e) => {
            return Err(e);
        },
    };
    let ghost before = *s;
    proof {
        before.procs.lemma_view();
    }
    match c {
        Cap::Shm(id) => match shm_revoke(s, id) {
            Ok(_) => Ok(()),
            Err(_) => Err(CapError::ShmNotFound),
        },
        Cap::Page(id) => {
            proof {
                reveal(Spaces::isolated);
                assert(before.holds_page(pid as int, slot as int, id));
            }
            if crate::pages::revoke(s, id).is_err() {
                return Err(CapError::PageNotFound);
            }
            let ghost mid = *s;
            let r = clear_cap(&mut s.procs, pid, slot);
            proof {
                lemma_page_given_up(*s, mid, before, pid as int, slot as int, id);
            }
            r
        },
        Cap::Proc(_) => {
            let r = clear_cap(&mut s.procs, pid, slot);
            proof {
                lemma_slot_cleared(before, *s, pid as int, slot as int);
            }
            r
        },
    }
}

/// Emptying a slot keeps the invariant.
proof fn lemma_slot_cleared(a: Spaces, b: Spaces, pid: int, slot: int)
    requires
        a.inv(),
        a.alive(pid),
        0 <= slot < MAX_CAPS,
        b.procs.wf(),
        b.procs@ == with_slot(a.procs@, pid, slot, None),
        b.mem == a.mem,
        b.shms == a.shms,
        b.pages == a.pages,
    ensures
        b.inv(),
{
    a.procs.lemma_view();
    assert(b.same_procs(&a)) by {
        assert forall|i: int| #![trigger b.procs@[i]] a.alive(i) implies b.procs@[i].root
            == a.procs@[i].root by {}
    }
    assert(b.no_new_page_caps(&a)) by {
        assert forall|i: int, k: int, p: usize| #[trigger] b.holds_page(i, k, p) implies a.holds_page(
            i,
            k,
            p,
        ) by {}
    }
    lemma_slots_changed(a, b);
}

/// Changing slots keeps the invariant, when no slot comes to hold a page.
pub proof fn lemma_slots_changed(a: Spaces, b: Spaces)
    requires
        a.inv(),
        b.procs.wf(),
        b.same_procs(&a),
        b.no_new_page_caps(&a),
        b.mem == a.mem,
        b.shms == a.shms,
        b.pages == a.pages,
    ensures
        b.inv(),
{
    lemma_same_roots(a, b);
    assert forall|i: int, v: int| a.alive(i) && page_addr(v) implies #[trigger] b.sees(i, v)
        == a.sees(i, v) by {
        assert(b.procs@[i].root == a.procs@[i].root);
    }
    Spaces::lemma_frame(a, b);
}

/// The same processes in the same memory have address spaces of their own.
pub proof fn lemma_same_roots(a: Spaces, b: Spaces)
    requires
        a.roots_ok(),
        b.mem == a.mem,
        b.same_procs(&a),
    ensures
        b.roots_ok(),
{
    assert forall|i: int| #![trigger b.procs@[i]] b.alive(i) implies b.mem.is_root(
        b.procs@[i].root as int,
    ) && small_only(b.mem, b.procs@[i].root as int) by {
        let x = a.procs@[i];
        assert(a.alive(i));
    }
    assert forall|i: int, j: int|
        #![trigger b.procs@[i], b.procs@[j]]
        b.alive(i) && b.alive(j) && i != j implies b.procs@[i].root != b.procs@[j].root by {
        assert(a.alive(i) && a.alive(j));
        assert(a.procs@[i].root != a.procs@[j].root);
    }
}

/// A page was given back and the slot that held it was emptied.
proof fn lemma_page_given_up(
    s: Spaces,
    mid: Spaces,
    before: Spaces,
    pid: int,
    slot: int,
    id: usize,
)
    requires
        before.inv(),
        before.holds_page(pid, slot, id),
        mid.parts_ok(),
        released(mid, before, id as int),
        mid.procs == before.procs,
        forall|i: int, v: int|
            before.alive(i) && page_addr(v) ==> #[trigger] mid.sees(i, v) == (if before.sees(i, v)
                == Some(before.pages@[id as int].paddr as int) {
                None
            } else {
                before.sees(i, v)
            }),
        forall|q: int| #[trigger]
            plain(mid.mem, q) <==> plain(before.mem, q) && q != before.pages@[id as int].paddr,
        s.mem == mid.mem,
        s.shms == mid.shms,
        s.pages == mid.pages,
        s.procs.wf(),
        s.procs@ == with_slot(before.procs@, pid, slot, None),
    ensures
        s.inv(),
{
    assert(before.held_ok() && before.caps_ok()) by {
        reveal(Spaces::isolated);
    }
    before.procs.lemma_view();
    let p = before.pages@[id as int].paddr as int;
    assert(s.same_procs(&mid)) by {
        assert forall|i: int| #![trigger s.procs@[i]] mid.alive(i) implies s.procs@[i].root
            == mid.procs@[i].root by {}
    }
    lemma_same_roots(mid, s);
    assert forall|i: int, v: int| before.alive(i) && page_addr(v) implies #[trigger] s.sees(i, v)
        == mid.sees(i, v) by {
        assert(s.procs@[i].root == mid.procs@[i].root);
    }
    assert(s.same_procs(&before)) by {
        assert forall|i: int| #![trigger s.procs@[i]] before.alive(i) implies s.procs@[i].root
            == before.procs@[i].root by {}
    }
    assert(!before.is_shared(p)) by {
        assert(before.pages@[id as int].paddr == p);
    }
    assert(s.caps_ok()) by {
        assert forall|i: int, k: int, x: usize| #[trigger] s.holds_page(i, k, x) implies x != id
            && before.holds_page(i, k, x) by {
            assert(before.holds_page(i, k, x));
        }
        assert forall|i: int, k: int, x: usize| #[trigger] s.holds_page(
            i,
            k,
            x,
        ) implies s.pages@.dom().contains(x as int) && s.pages@[x as int].owner == i by {
            assert(before.holds_page(i, k, x));
        }
        assert forall|i: int, k: int, j: int, u: int, x: usize|
            #![trigger s.holds_page(i, k, x), s.holds_page(j, u, x)]
            s.holds_page(i, k, x) && s.holds_page(j, u, x) implies i == j && k == u by {
            assert(before.holds_page(i, k, x) && before.holds_page(j, u, x));
        }
    }
    assert(Spaces::only_page_changed(before, s, id as int, p));
    Spaces::lemma_page_changed(before, s, id as int, p);
}

/// Empty every slot of a process.
fn drop_caps(s: &mut Spaces, pid: usize)
    requires
        old(s).inv(),
        old(s).alive(pid as int),
    ensures
        final(s).inv(),
        final(s).procs@ == old(s).procs@.insert(
            pid as int,
            ProcView {
                root: old(s).procs@[pid as int].root,
                caps: Seq::new(MAX_CAPS as nat, |i: int| None),
            },
        ),
        final(s).procs.pool() == old(s).procs.pool(),
        final(s).mem == old(s).mem,
        final(s).shms == old(s).shms,
        final(s).pages == old(s).pages,
{
    let ghost before = *s;
    let mut i: usize = 0;
    proof {
        before.procs.lemma_view();
        assert(s.procs@ =~= before.procs@.insert(pid as int, before.procs@[pid as int]));
    }
    while i < MAX_CAPS
        invariant
            i <= MAX_CAPS,
            s.inv(),
            before.alive(pid as int),
            before.procs@[pid as int].caps.len() == MAX_CAPS,
            s.alive(pid as int),
            s.procs@ == before.procs@.insert(pid as int, s.procs@[pid as int]),
            s.procs@[pid as int].root == before.procs@[pid as int].root,
            s.procs@[pid as int].caps.len() == MAX_CAPS,
            forall|k: int| 0 <= k < i ==> #[trigger] s.procs@[pid as int].caps[k] is None,
            s.procs.pool() == before.procs.pool(),
            s.mem == before.mem,
            s.shms == before.shms,
            s.pages == before.pages,
        decreases MAX_CAPS - i,
    {
        let ghost a = *s;
        let _ = clear_cap(&mut s.procs, pid, i);
        proof {
            lemma_slot_cleared(a, *s, pid as int, i as int);
            assert(s.procs@ =~= before.procs@.insert(pid as int, s.procs@[pid as int]));
        }
        i += 1;
    }
    proof {
        assert(s.procs@[pid as int].caps =~= Seq::new(MAX_CAPS as nat, |i: int| None));
        assert(s.procs@ =~= before.procs@.insert(
            pid as int,
            ProcView {
                root: before.procs@[pid as int].root,
                caps: Seq::new(MAX_CAPS as nat, |i: int| None),
            },
        ));
    }
}

/// The shared page of a process, if it has one.
fn find_shm(s: &Spaces, pid: usize) -> (r: Option<usize>)
    requires
        s.inv(),
    ensures
        r matches Some(id) ==> s.owns_shm(id as int, pid as int),
        r is None ==> forall|id: int| !#[trigger] s.owns_shm(id, pid as int),
{
    let mut i: usize = 0;
    while i < MAX_SHMS
        invariant
            i <= MAX_SHMS,
            s.inv(),
            forall|id: int| 0 <= id < i ==> !#[trigger] s.owns_shm(id, pid as int),
        decreases MAX_SHMS - i,
    {
        if let Some(sp) = s.shms.get(i) {
            if sp.a.0 == pid || sp.b.0 == pid {
                return Some(i);
            }
        }
        i += 1;
    }
    proof {
        s.shms.lemma_view();
        assert forall|id: int| !#[trigger] s.owns_shm(id, pid as int) by {
            if s.shms@.dom().contains(id) {
                assert(0 <= id < MAX_SHMS);
            }
        }
    }
    None
}

/// End the sharing of the page that a process shares, if it does.
fn drop_shared(s: &mut Spaces, pid: usize)
    requires
        old(s).inv(),
    ensures
        final(s).inv(),
        forall|id: int| !#[trigger] final(s).owns_shm(id, pid as int),
        forall|id: int| #[trigger]
            old(s).owns_shm(id, pid as int) ==> unshared(*final(s), *old(s), id),
        (forall|id: int| !#[trigger] old(s).owns_shm(id, pid as int)) ==> *final(s) == *old(s),
{
    let ghost before = *s;
    match find_shm(s, pid) {
        Some(id) => {
            let _ = shm_revoke(s, id);
            proof {
                assert forall|j: int| !#[trigger] s.owns_shm(j, pid as int) by {
                    if s.owns_shm(j, pid as int) {
                        assert(before.owns_shm(j, pid as int));
                        crate::space::law_one_shared_page(before, pid as int, id as int, j);
                    }
                }
                assert forall|j: int| #[trigger] before.owns_shm(j, pid as int) implies unshared(
                    *s,
                    before,
                    j,
                ) by {
                    crate::space::law_one_shared_page(before, pid as int, id as int, j);
                }
            }
        },
        None => {},
    }
}

/// One of the first `n` records is of a page at `p` that the process holds.
pub open spec fn frees(t: Map<int, PageRecord>, pid: int, n: int, p: int) -> bool {
    exists|k: int| #![trigger t[k]]
        0 <= k < n && t.dom().contains(k) && t[k].owner == pid && t[k].paddr == p
}

/// The ids of page records after those of the process among the first `n` became free, one after
/// the other.
pub open spec fn ids_given(pool: Pool, t: Map<int, PageRecord>, pid: int, n: int) -> Pool
    decreases n,
{
    if n <= 0 {
        pool
    } else {
        let q = ids_given(pool, t, pid, n - 1);
        if t.dom().contains(n - 1) && t[n - 1].owner == pid {
            q.given((n - 1) as usize)
        } else {
            q
        }
    }
}

/// The pages that a process holds, up to record `n`, were given back.
#[verifier::opaque]
spec fn pages_dropped(s: Spaces, before: Spaces, pid: int, n: int) -> bool {
    &&& s.procs == before.procs
    &&& s.shms == before.shms
    &&& s.pages.pool() == ids_given(before.pages.pool(), before.pages@, pid, n)
    &&& s.mem.same_region(&before.mem)
    &&& s.mem.same_data(&before.mem)
    &&& forall|k: int| #[trigger]
        s.pages@.dom().contains(k) <==> before.pages@.dom().contains(k) && !(k < n
            && before.pages@[k].owner == pid)
    &&& forall|k: int| #![trigger s.pages@[k]] s.pages@.dom().contains(k) ==> s.pages@[k] == before.pages@[k]
    &&& s.mem.owner@ == before.mem.owner@
    &&& forall|r: int, v: int|
        before.mem.is_root(r) && r != before.procs@[pid].root ==> #[trigger] lookup(
            s.mem.ram,
            r,
            v,
        ) == lookup(before.mem.ram, r, v)
    &&& forall|v: int|
        page_addr(v) ==> #[trigger] s.sees(pid, v) == (match before.sees(pid, v) {
            Some(p) => if frees(before.pages@, pid, n, p) {
                None
            } else {
                Some(p)
            },
            None => None,
        })
    &&& forall|p: int, o: int| #[trigger]
        s.mem.frames@.allocated(p, o) <==> before.mem.frames@.allocated(p, o) && !frees(
            before.pages@,
            pid,
            n,
            p,
        )
}

proof fn lemma_pages_dropped_start(s: Spaces, pid: int)
    requires
        s.inv(),
    ensures
        pages_dropped(s, s, pid, 0),
{
    reveal(pages_dropped);
    s.pages.lemma_view();
    assert forall|p: int| !#[trigger] frees(s.pages@, pid, 0, p) by {}
}

/// One more record was looked at: it is of another process, or was given back.
proof fn lemma_pages_dropped_more(
    s: Spaces,
    mid: Spaces,
    before: Spaces,
    pid: int,
    n: int,
)
    requires
        before.inv(),
        before.alive(pid),
        mid.inv(),
        pages_dropped(mid, before, pid, n),
        0 <= n,
        n <= usize::MAX,
        !(mid.pages@.dom().contains(n) && mid.pages@[n].owner == pid) ==> s == mid,
        mid.pages@.dom().contains(n) && mid.pages@[n].owner == pid ==> {
            &&& released(s, mid, n)
            &&& s.procs == mid.procs
            &&& forall|i: int, v: int|
                mid.alive(i) && page_addr(v) ==> #[trigger] s.sees(i, v) == (if mid.sees(i, v)
                    == Some(mid.pages@[n].paddr as int) {
                    None
                } else {
                    mid.sees(i, v)
                })
        },
    ensures
        pages_dropped(s, before, pid, n + 1),
{
    reveal(pages_dropped);
    let old_pages = before.pages@;
    let hit = mid.pages@.dom().contains(n) && mid.pages@[n].owner == pid;
    assert forall|p: int| #[trigger] frees(old_pages, pid, n + 1, p) <==> frees(
        old_pages,
        pid,
        n,
        p,
    ) || (hit && mid.pages@[n].paddr == p) by {
        if frees(old_pages, pid, n + 1, p) {
            let k = choose|k: int| #![trigger old_pages[k]]
                0 <= k < n + 1 && old_pages.dom().contains(k) && old_pages[k].owner == pid
                    && old_pages[k].paddr == p;
            if k < n {
                assert(old_pages[k].paddr == p);
            } else {
                assert(mid.pages@.dom().contains(n));
                assert(mid.pages@[n] == old_pages[n]);
            }
        }
        if frees(old_pages, pid, n, p) {
            let k = choose|k: int| #![trigger old_pages[k]]
                0 <= k < n && old_pages.dom().contains(k) && old_pages[k].owner == pid
                    && old_pages[k].paddr == p;
            assert(old_pages[k].paddr == p);
        }
        if hit && mid.pages@[n].paddr == p {
            assert(mid.pages@[n] == old_pages[n]);
        }
    }
    if hit {
        let root = before.procs@[pid].root as int;
        assert(mid.pages@[n] == old_pages[n]);
        assert forall|k: int| #[trigger] s.pages@.dom().contains(k) <==> old_pages.dom().contains(k)
            && !(k < n + 1 && old_pages[k].owner == pid) by {
            assert(mid.pages@.dom().contains(k) <==> old_pages.dom().contains(k) && !(k < n
                && old_pages[k].owner == pid));
        }
        assert forall|k: int| #![trigger s.pages@[k]] s.pages@.dom().contains(k) implies s.pages@[k]
            == old_pages[k] by {
            assert(mid.pages@.dom().contains(k));
            assert(mid.pages@[k] == old_pages[k]);
        }
        assert forall|r: int, v: int| before.mem.is_root(r) && r != root implies #[trigger] lookup(
            s.mem.ram,
            r,
            v,
        ) == lookup(before.mem.ram, r, v) by {
            assert(mid.mem.is_root(r));
            assert(lookup(mid.mem.ram, r, v) == lookup(before.mem.ram, r, v));
        }
        assert forall|v: int| page_addr(v) implies #[trigger] s.sees(pid, v) == (match before.sees(
            pid,
            v,
        ) {
            Some(p) => if frees(old_pages, pid, n + 1, p) {
                None
            } else {
                Some(p)
            },
            None => None,
        }) by {
            assert(mid.alive(pid));
            let x = mid.sees(pid, v);
        }
        assert forall|p: int, o: int| #[trigger] s.mem.frames@.allocated(p, o)
            <==> before.mem.frames@.allocated(p, o) && !frees(old_pages, pid, n + 1, p) by {
            assert(mid.mem.frames@.allocated(p, o) <==> before.mem.frames@.allocated(p, o)
                && !frees(old_pages, pid, n, p));
        }
    } else {
        assert forall|k: int| #[trigger] s.pages@.dom().contains(k) <==> old_pages.dom().contains(k)
            && !(k < n + 1 && old_pages[k].owner == pid) by {
            assert(mid.pages@.dom().contains(k) <==> old_pages.dom().contains(k) && !(k < n
                && old_pages[k].owner == pid));
            if k == n && mid.pages@.dom().contains(k) {
                assert(mid.pages@[k] == old_pages[k]);
            }
        }
    }
}

/// A page whose capability nobody holds was given back.
proof fn lemma_page_released(s: Spaces, before: Spaces, id: int)
    requires
        before.inv(),
        before.pages@.dom().contains(id),
        forall|i: int, k: int, x: usize| #[trigger] before.holds_page(i, k, x) ==> x != id,
        s.parts_ok(),
        released(s, before, id),
        s.procs == before.procs,
        forall|i: int, v: int|
            before.alive(i) && page_addr(v) ==> #[trigger] s.sees(i, v) == (if before.sees(i, v)
                == Some(before.pages@[id].paddr as int) {
                None
            } else {
                before.sees(i, v)
            }),
        forall|q: int| #[trigger]
            plain(s.mem, q) <==> plain(before.mem, q) && q != before.pages@[id].paddr,
    ensures
        s.inv(),
{
    assert(before.held_ok() && before.caps_ok()) by {
        reveal(Spaces::isolated);
    }
    let p = before.pages@[id].paddr as int;
    assert(!before.is_shared(p)) by {
        assert(before.pages@[id].paddr == p);
    }
    assert(s.same_procs(&before));
    assert(s.caps_ok()) by {
        assert forall|i: int, k: int, x: usize| #[trigger] s.holds_page(
            i,
            k,
            x,
        ) implies s.pages@.dom().contains(x as int) && s.pages@[x as int].owner == i by {
            assert(before.holds_page(i, k, x));
        }
        assert forall|i: int, k: int, j: int, u: int, x: usize|
            #![trigger s.holds_page(i, k, x), s.holds_page(j, u, x)]
            s.holds_page(i, k, x) && s.holds_page(j, u, x) implies i == j && k == u by {
            assert(before.holds_page(i, k, x) && before.holds_page(j, u, x));
        }
    }
    assert(Spaces::only_page_changed(before, s, id, p));
    Spaces::lemma_page_changed(before, s, id, p);
}

/// Give back every page that a process holds; its slots are empty already.
fn drop_pages(s: &mut Spaces, pid: usize)
    requires
        old(s).inv(),
        old(s).alive(pid as int),
        forall|k: int| 0 <= k < MAX_CAPS ==> #[trigger] old(s).procs@[pid as int].caps[k] is None,
    ensures
        final(s).inv(),
        pages_dropped(*final(s), *old(s), pid as int, MAX_PAGE_CAPS as int),
{
    let ghost before = *s;
    proof {
        lemma_pages_dropped_start(before, pid as int);
    }
    let mut i: usize = 0;
    while i < MAX_PAGE_CAPS
        invariant
            i <= MAX_PAGE_CAPS,
            s.inv(),
            before.inv(),
            before.alive(pid as int),
            forall|k: int|
                0 <= k < MAX_CAPS ==> #[trigger] before.procs@[pid as int].caps[k] is None,
            pages_dropped(*s, before, pid as int, i as int),
        decreases MAX_PAGE_CAPS - i,
    {
        let ghost mid = *s;
        let hit: bool = match s.pages.get(i) {
            Some(rec) => rec.owner == pid,
            None => false,
        };
        if hit {
            proof {
                assert(mid.procs == before.procs) by {
                    reveal(pages_dropped);
                }
                reveal(Spaces::isolated);
                assert forall|j: int, k: int, x: usize| #[trigger] mid.holds_page(
                    j,
                    k,
                    x,
                ) implies x != i by {
                    assert(mid.pages@[x as int].owner == j);
                    if x == i {
                        assert(before.procs@[pid as int].caps[k] is None);
                    }
                }
            }
            let _ = crate::pages::revoke(s, i);
            proof {
                lemma_page_released(*s, mid, i as int);
            }
        }
        proof {
            lemma_pages_dropped_more(*s, mid, before, pid as int, i as int);
        }
        i += 1;
    }
}

/// The page at `p` is the process's own: a table of its address space, a page that it sees, or one
/// that it holds.
pub open spec fn belongs(s: Spaces, pid: int, p: int) -> bool {
    ||| s.mem.is_pt(p) && s.mem.root_of(p) == s.procs@[pid].root
    ||| exists|v: int| page_addr(v) && #[trigger] s.sees(pid, v) == Some(p)
    ||| frees(s.pages@, pid, MAX_PAGE_CAPS as int, p)
}

/// Slot `k` of process `i` makes it an owner of the page that it shares with `pid`.
pub open spec fn shares_slot(s: Spaces, pid: int, i: int, k: int) -> bool {
    exists|id: int| #[trigger]
        s.owns_shm(id, pid) && ((s.shms@[id].a.0 == i && s.shms@[id].a.1 == k) || (s.shms@[id].b.0
            == i && s.shms@[id].b.1 == k))
}

/// The address space of `r` belongs to a process that shares a page with `pid`.
pub open spec fn shares_root(s: Spaces, pid: int, r: int) -> bool {
    exists|id: int| #[trigger]
        s.owns_shm(id, pid) && (s.procs@[s.shms@[id].a.0 as int].root == r
            || s.procs@[s.shms@[id].b.0 as int].root == r)
}

/// `s` is `before` without process `pid`: everything that was its own was given back, nobody
/// shares a page with it any more, and all else is as before, with every word of memory outside the
/// tables.
pub open spec fn gone(s: Spaces, before: Spaces, pid: usize) -> bool {
    let x = pid as int;
    &&& forall|i: int| #[trigger] s.procs@.dom().contains(i) <==> before.alive(i) && i != x
    &&& forall|i: int| #![trigger s.procs@[i]]
        s.alive(i) ==> s.procs@[i].root == before.procs@[i].root && s.procs@[i].caps.len()
            == MAX_CAPS
    &&& forall|i: int, k: int|
        s.alive(i) && 0 <= k < MAX_CAPS ==> #[trigger] s.procs@[i].caps[k] == (if shares_slot(
            before,
            x,
            i,
            k,
        ) {
            None
        } else {
            before.procs@[i].caps[k]
        })
    &&& s.procs.pool() == before.procs.pool().given(pid)
    &&& forall|id: int| #[trigger]
        s.shms@.dom().contains(id) <==> before.shms@.dom().contains(id) && !before.owns_shm(id, x)
    &&& forall|id: int| #![trigger s.shms@[id]]
        s.shms@.dom().contains(id) ==> s.shms@[id] == before.shms@[id]
    &&& forall|id: int| #[trigger]
        s.pages@.dom().contains(id) <==> before.pages@.dom().contains(id)
            && before.pages@[id].owner != pid
    &&& forall|id: int| #![trigger s.pages@[id]]
        s.pages@.dom().contains(id) ==> s.pages@[id] == before.pages@[id]
    &&& forall|r: int| #[trigger]
        s.mem.is_root(r) <==> before.mem.is_root(r) && r != before.procs@[x].root
    &&& forall|r: int, v: int|
        s.mem.is_root(r) && page_addr(v) ==> #[trigger] lookup(s.mem.ram, r, v) == (if v == SHM_VA
            && shares_root(before, x, r) {
            None
        } else {
            lookup(before.mem.ram, r, v)
        })
    &&& forall|p: int, o: int| #[trigger]
        s.mem.frames@.allocated(p, o) <==> before.mem.frames@.allocated(p, o) && !belongs(
            before,
            x,
            p,
        )
    &&& s.mem.same_region(&before.mem)
    &&& forall|a: int|
        s.mem.ram.has(a) && !before.mem.is_pt(a - a % 4096) ==> #[trigger] s.mem.ram.word(a)
            == before.mem.ram.word(a)
    &&& forall|id: int| #[trigger]
        before.owns_shm(id, x) ==> s.shms.pool() == before.shms.pool().given(id as usize)
    &&& (forall|id: int| !#[trigger] before.owns_shm(id, x)) ==> s.shms.pool()
        == before.shms.pool()
    &&& s.pages.pool() == ids_given(
        before.pages.pool(),
        before.pages@,
        x,
        MAX_PAGE_CAPS as int,
    )
}

/// What ending the sharing of a page means for the process that is to go.
#[verifier::opaque]
spec fn shared_dropped(s: Spaces, before: Spaces, pid: int) -> bool {
    &&& s.same_procs(&before)
    &&& s.procs.pool() == before.procs.pool()
    &&& forall|i: int, k: int|
        before.alive(i) && i != pid && 0 <= k < MAX_CAPS ==> #[trigger] s.procs@[i].caps[k] == (
        if shares_slot(before, pid, i, k) {
            None
        } else {
            before.procs@[i].caps[k]
        })
    &&& forall|k: int| 0 <= k < MAX_CAPS ==> #[trigger] s.procs@[pid].caps[k] is None
    &&& forall|id: int| #[trigger]
        s.shms@.dom().contains(id) <==> before.shms@.dom().contains(id) && !before.owns_shm(id, pid)
    &&& forall|id: int| #![trigger s.shms@[id]]
        s.shms@.dom().contains(id) ==> s.shms@[id] == before.shms@[id]
    &&& s.pages == before.pages
    &&& s.mem.same_region(&before.mem)
    &&& s.mem.same_data(&before.mem)
    &&& forall|id: int| #[trigger]
        before.owns_shm(id, pid) ==> s.shms.pool() == before.shms.pool().given(id as usize)
    &&& (forall|id: int| !#[trigger] before.owns_shm(id, pid)) ==> s.shms.pool()
        == before.shms.pool()
    &&& s.mem.owner@ == before.mem.owner@
    &&& forall|r: int, v: int|
        before.mem.is_root(r) && page_addr(v) ==> #[trigger] lookup(s.mem.ram, r, v) == (if v
            == SHM_VA && shares_root(before, pid, r) {
            None
        } else {
            lookup(before.mem.ram, r, v)
        })
    &&& forall|v: int|
        page_addr(v) ==> #[trigger] s.sees(pid, v) == (match before.sees(pid, v) {
            Some(p) => if before.is_shared(p) {
                None
            } else {
                Some(p)
            },
            None => None,
        })
    &&& forall|p: int, o: int| #[trigger]
        s.mem.frames@.allocated(p, o) <==> before.mem.frames@.allocated(p, o) && !(before.is_shared(
            p,
        ) && (exists|v: int| page_addr(v) && #[trigger] before.sees(pid, v) == Some(p)))
}

/// The state after the slots were emptied and the shared page, if any, was given up.
proof fn lemma_shared_dropped(s: Spaces, mid: Spaces, before: Spaces, pid: int)
    requires
        before.inv(),
        before.alive(pid),
        mid.inv(),
        mid.procs@ == before.procs@.insert(
            pid,
            ProcView {
                root: before.procs@[pid].root,
                caps: Seq::new(MAX_CAPS as nat, |i: int| None),
            },
        ),
        mid.procs.pool() == before.procs.pool(),
        mid.mem == before.mem,
        mid.shms == before.shms,
        mid.pages == before.pages,
        forall|id: int| #[trigger] mid.owns_shm(id, pid) ==> unshared(s, mid, id),
        (forall|id: int| !#[trigger] mid.owns_shm(id, pid)) ==> s == mid,
    ensures
        shared_dropped(s, before, pid),
{
    reveal(shared_dropped);
    assert(before.shared_ok() && before.private_ok()) by {
        reveal(Spaces::isolated);
    }
    before.procs.lemma_view();
    assert(page_addr(SHM_VA as int));
    assert forall|id: int| #[trigger] mid.owns_shm(id, pid) <==> before.owns_shm(id, pid) by {}
    // A shared page that the process sees is its own.
    assert forall|p: int, v: int| #[trigger] before.is_shared(p) && page_addr(v)
        && #[trigger] before.sees(pid, v) == Some(p) implies v == SHM_VA && exists|id: int|
        #[trigger] before.owns_shm(id, pid) && before.shms@[id].paddr == p by {
        let id = choose|id: int| #![trigger before.shms@[id]]
            before.shms@.dom().contains(id) && before.shms@[id].paddr == p;
        assert(before.shms@[id].paddr == p);
        assert(before.owns_shm(id, pid));
    }
    if exists|id: int| #[trigger] before.owns_shm(id, pid) {
        let id = choose|id: int| #[trigger] before.owns_shm(id, pid);
        assert(mid.owns_shm(id, pid));
        let sp = before.shms@[id];
        let (a, b) = (sp.a.0 as int, sp.b.0 as int);
        let ra = before.procs@[a].root as int;
        let rb = before.procs@[b].root as int;
        assert(before.alive(a) && before.alive(b) && a != b);
        assert(before.sees(pid, SHM_VA as int) == Some(sp.paddr as int));
        assert(before.is_shared(sp.paddr as int));
        assert(mid.procs@[a].root == ra && mid.procs@[b].root == rb);
        assert forall|j: int| #[trigger] before.owns_shm(j, pid) implies j == id by {
            crate::space::law_one_shared_page(before, pid, id, j);
        }
        assert(s.same_procs(&before)) by {
            assert forall|i: int| #![trigger s.procs@[i]] before.alive(i) implies s.procs@[i].root
                == before.procs@[i].root by {}
        }
        assert forall|i: int, k: int|
            before.alive(i) && i != pid && 0 <= k < MAX_CAPS implies #[trigger] s.procs@[i].caps[k]
            == (if shares_slot(before, pid, i, k) {
            None
        } else {
            before.procs@[i].caps[k]
        }) by {
            if sp.a.0 == i && sp.a.1 == k || sp.b.0 == i && sp.b.1 == k {
                assert(before.owns_shm(id, pid));
                assert(shares_slot(before, pid, i, k));
            } else {
                assert(!shares_slot(before, pid, i, k));
            }
        }
        assert forall|k: int| 0 <= k < MAX_CAPS implies #[trigger] s.procs@[pid].caps[k] is None by {}
        assert(forall|r: int| #[trigger] s.mem.is_root(r) <==> before.mem.is_root(r)) by {
            reveal(crate::shm::parted);
        }
        assert forall|r: int, v: int| before.mem.is_root(r) && page_addr(v) implies #[trigger] lookup(
            s.mem.ram,
            r,
            v,
        ) == (if v == SHM_VA && shares_root(before, pid, r) {
            None
        } else {
            lookup(before.mem.ram, r, v)
        }) by {
            reveal(crate::shm::parted);
            crate::sv39::lemma_vpn(v, SHM_VA as int);
            if r == ra || r == rb {
                assert(before.owns_shm(id, pid));
                assert(shares_root(before, pid, r));
            } else {
                assert(!shares_root(before, pid, r));
            }
        }
        assert forall|v: int| page_addr(v) implies #[trigger] s.sees(pid, v) == (
        match before.sees(pid, v) {
            Some(p) => if before.is_shared(p) {
                None
            } else {
                Some(p)
            },
            None => None,
        }) by {
            let r = before.procs@[pid].root as int;
            assert(s.procs@[pid].root == r);
            assert(before.mem.is_root(r));
            assert(lookup(s.mem.ram, r, v) == (if v == SHM_VA && shares_root(before, pid, r) {
                None
            } else {
                lookup(before.mem.ram, r, v)
            }));
            assert(shares_root(before, pid, r)) by {
                assert(before.owns_shm(id, pid));
            }
            assert(s.mem.frames@.base == before.mem.frames@.base && s.mem.frames@.pages
                == before.mem.frames@.pages) by {
                reveal(crate::shm::parted);
            }
            if before.sees(pid, v) is Some {
                let p = before.sees(pid, v)->0;
                let y = before.is_shared(p);
            }
        }
        assert forall|p: int, o: int| #[trigger] s.mem.frames@.allocated(p, o)
            <==> before.mem.frames@.allocated(p, o) && !(before.is_shared(p) && (exists|v: int|
            page_addr(v) && #[trigger] before.sees(pid, v) == Some(p))) by {
            reveal(crate::shm::parted);
            if before.is_shared(p) && (exists|v: int|
                page_addr(v) && #[trigger] before.sees(pid, v) == Some(p)) {
                let v = choose|v: int| page_addr(v) && #[trigger] before.sees(pid, v) == Some(p);
                let z = before.is_shared(p);
                assert(p == sp.paddr);
            }
            if p == sp.paddr {
                assert(page_addr(SHM_VA as int) && before.sees(pid, SHM_VA as int) == Some(p));
            }
        }
        assert(s.mem.owner@ == before.mem.owner@) by {
            reveal(crate::shm::parted);
        }
        assert(s.mem.same_region(&before.mem) && s.mem.same_data(&before.mem)) by {
            reveal(crate::shm::parted);
        }
    } else {
        assert(s == mid);
        assert forall|i: int, k: int| !#[trigger] shares_slot(before, pid, i, k) by {}
        assert forall|r: int| !#[trigger] shares_root(before, pid, r) by {}
        assert forall|p: int, o: int| #[trigger] s.mem.frames@.allocated(p, o)
            <==> before.mem.frames@.allocated(p, o) && !(before.is_shared(p) && (exists|v: int|
            page_addr(v) && #[trigger] before.sees(pid, v) == Some(p))) by {
            let z = before.is_shared(p);
        }
        assert forall|v: int| page_addr(v) implies #[trigger] s.sees(pid, v) == (
        match before.sees(pid, v) {
            Some(p) => if before.is_shared(p) {
                None
            } else {
                Some(p)
            },
            None => None,
        }) by {
            if before.sees(pid, v) is Some {
                let y = before.is_shared(before.sees(pid, v)->0);
            }
        }
    }
}

/// A process that shares nothing and holds nothing owns what it sees.
proof fn lemma_sees_own(s: Spaces, pid: int)
    requires
        s.inv(),
        s.alive(pid),
        forall|id: int| !#[trigger] s.owns_shm(id, pid),
    ensures
        s.mem.is_root(s.procs@[pid].root as int),
        s.mem.owns_pages(s.procs@[pid].root as int),
        forall|p: int| #[trigger]
            s.mem.maps_page(s.procs@[pid].root as int, p) <==> exists|v: int|
                page_addr(v) && #[trigger] s.sees(pid, v) == Some(p),
{
    reveal(Spaces::isolated);
    let root = s.procs@[pid].root as int;
    assert forall|v: int| page_addr(v) implies (#[trigger] user_page(s.mem, root, v) matches Some(p)
        ==> plain(s.mem, p)) by {
        let x = s.sees(pid, v);
    }
    assert forall|v: int, w: int|
        #![trigger user_page(s.mem, root, v), user_page(s.mem, root, w)]
        page_addr(v) && page_addr(w) && user_page(s.mem, root, v) is Some && user_page(
            s.mem,
            root,
            v,
        ) == user_page(s.mem, root, w) implies v == w by {
        let x = s.sees(pid, v);
        let y = s.sees(pid, w);
        if v != w {
            let p = x->0;
            assert(s.is_shared(p));
            let id = choose|id: int| #![trigger s.shms@[id]]
                s.shms@.dom().contains(id) && s.shms@[id].paddr == p;
            assert(s.shms@[id].paddr == p);
            assert(s.owns_shm(id, pid));
        }
    }
    crate::space::lemma_owns(s.mem, root);
    assert forall|p: int| #[trigger] s.mem.maps_page(root, p) <==> exists|v: int|
        page_addr(v) && #[trigger] s.sees(pid, v) == Some(p) by {
        if s.mem.maps_page(root, p) {
            let v = choose|v: int| page_addr(v) && #[trigger] user_page(s.mem, root, v) == Some(p);
            assert(s.sees(pid, v) == Some(p));
        }
        if exists|v: int| page_addr(v) && #[trigger] s.sees(pid, v) == Some(p) {
            let v = choose|v: int| page_addr(v) && #[trigger] s.sees(pid, v) == Some(p);
            crate::space::lemma_va_leaf(s.mem, root, v);
        }
    }
}

/// With its address space gone and its entry taken out, the process is gone.
proof fn lemma_gone_inv(s: Spaces, a: Spaces, pid: int)
    requires
        a.inv(),
        a.alive(pid),
        forall|id: int| !#[trigger] a.owns_shm(id, pid),
        forall|id: int| #![trigger a.pages@[id]]
            a.pages@.dom().contains(id) ==> a.pages@[id].owner != pid,
        s.mem.without_root(&a.mem, a.procs@[pid].root as int),
        s.procs.wf(),
        s.procs@ == a.procs@.remove(pid),
        s.shms == a.shms,
        s.pages == a.pages,
    ensures
        s.inv(),
{
    let root = a.procs@[pid].root as int;
    lemma_sees_own(a, pid);
    assert forall|i: int| #![trigger s.procs@[i]] s.alive(i) implies s.mem.is_root(
        s.procs@[i].root as int,
    ) && small_only(s.mem, s.procs@[i].root as int) by {
        assert(a.alive(i));
        let r = a.procs@[i].root as int;
        assert(a.procs@[i].root != a.procs@[pid].root);
        assert(a.mem.is_root(r));
        assert(s.mem.is_root(r));
        lemma_small(a.mem, s.mem, r);
    }
    assert forall|i: int, j: int|
        #![trigger s.procs@[i], s.procs@[j]]
        s.alive(i) && s.alive(j) && i != j implies s.procs@[i].root != s.procs@[j].root by {
        assert(a.procs@[i].root != a.procs@[j].root);
    }
    assert forall|i: int, v: int| s.alive(i) && page_addr(v) implies #[trigger] s.sees(i, v)
        == a.sees(i, v) by {
        let r = a.procs@[i].root as int;
        assert(s.procs@[i].root == r);
        assert(s.mem.is_root(r));
        assert(lookup(s.mem.ram, r, v) == lookup(a.mem.ram, r, v));
    }
    assert forall|q: int| #[trigger]
        plain(a.mem, q) && (forall|v: int| page_addr(v) ==> a.sees(pid, v) != Some(
            q,
        )) implies plain(s.mem, q) by {
        if a.mem.maps_page(root, q) {
            let v = choose|v: int| page_addr(v) && #[trigger] a.sees(pid, v) == Some(q);
            assert(false);
        }
        assert(s.mem.frames@.allocated(q, 0) <==> a.mem.frames@.allocated(q, 0) && !(a.mem.is_pt(q)
            && a.mem.root_of(q) == root) && !a.mem.maps_page(root, q));
    }
    Spaces::lemma_process_removed(a, s, pid);
}

/// All steps together.
proof fn lemma_gone(s: Spaces, a: Spaces, m: Spaces, before: Spaces, pid: usize)
    requires
        before.inv(),
        before.alive(pid as int),
        shared_dropped(m, before, pid as int),
        m.inv(),
        pages_dropped(a, m, pid as int, MAX_PAGE_CAPS as int),
        a.inv(),
        forall|id: int| !#[trigger] a.owns_shm(id, pid as int),
        s.inv(),
        s.mem.without_root(&a.mem, a.procs@[pid as int].root as int),
        s.procs@ == a.procs@.remove(pid as int),
        s.procs.pool() == a.procs.pool().given(pid),
        s.shms == a.shms,
        s.pages == a.pages,
    ensures
        gone(s, before, pid),
{
    let x = pid as int;
    let root = before.procs@[x].root as int;
    let n = MAX_PAGE_CAPS as int;
    reveal(shared_dropped);
    reveal(pages_dropped);
    assert(m.alive(x) && a.alive(x));
    assert(m.procs@[x].root == root);
    assert(a.procs@ == m.procs@);
    before.pages.lemma_view();
    m.procs.lemma_view();
    assert forall|i: int| #[trigger] s.procs@.dom().contains(i) <==> before.alive(i) && i != x by {
        assert(m.procs@.dom().contains(i) <==> before.alive(i));
    }
    assert forall|i: int| #![trigger s.procs@[i]] s.alive(i) implies s.procs@[i].root
        == before.procs@[i].root && s.procs@[i].caps.len() == MAX_CAPS by {
        assert(m.procs@.dom().contains(i));
        assert(m.procs@[i].root == before.procs@[i].root);
    }
    assert forall|i: int, k: int| s.alive(i) && 0 <= k < MAX_CAPS implies #[trigger] s.procs@[i].caps[k]
        == (if shares_slot(before, x, i, k) {
        None
    } else {
        before.procs@[i].caps[k]
    }) by {
        assert(s.procs@[i] == m.procs@[i]);
        assert(before.alive(i));
        let y = m.procs@[i].caps[k];
    }
    assert forall|id: int| #[trigger] s.pages@.dom().contains(id) <==> before.pages@.dom().contains(
        id,
    ) && before.pages@[id].owner != pid by {
        assert(a.pages@.dom().contains(id) <==> m.pages@.dom().contains(id) && !(id < n
            && m.pages@[id].owner == x));
    }
    assert forall|r: int, v: int|
        s.mem.is_root(r) && page_addr(v) implies #[trigger] lookup(s.mem.ram, r, v) == (if v
        == SHM_VA && shares_root(before, x, r) {
        None
    } else {
        lookup(before.mem.ram, r, v)
    }) by {
        assert(before.mem.is_root(r));
        assert(lookup(s.mem.ram, r, v) == lookup(a.mem.ram, r, v));
        assert(m.mem.is_root(r));
        assert(lookup(a.mem.ram, r, v) == lookup(m.mem.ram, r, v));
    }
    lemma_sees_own(a, x);
    assert forall|p: int, o: int| #[trigger] s.mem.frames@.allocated(p, o)
        <==> before.mem.frames@.allocated(p, o) && !belongs(before, x, p) by {
        assert(s.mem.frames@.allocated(p, o) <==> a.mem.frames@.allocated(p, o) && !(a.mem.is_pt(p)
            && a.mem.root_of(p) == root) && !a.mem.maps_page(root, p));
        assert(a.mem.frames@.allocated(p, o) <==> m.mem.frames@.allocated(p, o) && !frees(
            before.pages@,
            x,
            n,
            p,
        ));
        let seen = exists|v: int| page_addr(v) && #[trigger] before.sees(x, v) == Some(p);
        assert(m.mem.frames@.allocated(p, o) <==> before.mem.frames@.allocated(p, o) && !(
        before.is_shared(p) && seen));
        if seen {
            let v = choose|v: int| page_addr(v) && #[trigger] before.sees(x, v) == Some(p);
            let y = m.sees(x, v);
            let z = a.sees(x, v);
            if !before.is_shared(p) && !frees(before.pages@, x, n, p) {
                assert(a.sees(x, v) == Some(p));
                assert(a.mem.maps_page(root, p));
            }
        }
        if a.mem.maps_page(root, p) {
            let v = choose|v: int| page_addr(v) && #[trigger] a.sees(x, v) == Some(p);
            let y = m.sees(x, v);
            assert(before.sees(x, v) == Some(p));
        }
    }
    assert forall|r: int| #[trigger] s.mem.is_root(r) <==> before.mem.is_root(r) && r != root by {
        assert(a.mem.is_root(r) <==> before.mem.is_root(r));
    }
}

/// Take a process away: the page that it shares, the pages that it holds, its address space with
/// everything mapped there, its claims on devices and its service numbers. A process that does not
/// exist is left alone.
///
/// Some core may run in the address space; it has to leave it before.
pub fn destroy(
    s: &mut Spaces,
    devices: &mut DeviceTable,
    services: &mut ServiceTable,
    pid: usize,
)
    requires
        old(s).inv(),
    ensures
        final(s).inv(),
        !old(s).alive(pid as int) ==> *final(s) == *old(s) && final(devices)@ == old(devices)@
            && final(services)@ == old(services)@,
        old(s).alive(pid as int) ==> {
            &&& gone(*final(s), *old(s), pid)
            &&& final(devices)@.len() == MAX_DEVICES
            &&& forall|i: int|
                0 <= i < MAX_DEVICES ==> #[trigger] final(devices)@[i] == (match old(devices)@[i] {
                    Some((owner, at)) => if owner == pid {
                        None
                    } else {
                        old(devices)@[i]
                    },
                    None => None,
                })
            &&& final(services)@.len() == MAX_SERVICES
            &&& forall|i: int|
                0 <= i < MAX_SERVICES ==> #[trigger] final(services)@[i] == (if old(services)@[i]
                    == Some(pid) {
                    None
                } else {
                    old(services)@[i]
                })
        },
{
    if !s.procs.has(pid) {
        return;
    }
    let ghost before = *s;
    drop_caps(s, pid);
    let ghost mid = *s;
    drop_shared(s, pid);
    let ghost m = *s;
    proof {
        lemma_shared_dropped(m, mid, before, pid as int);
        assert forall|k: int| 0 <= k < MAX_CAPS implies #[trigger] m.procs@[pid as int].caps[k]
            is None by {
            reveal(shared_dropped);
        }
        assert(m.alive(pid as int)) by {
            reveal(shared_dropped);
        }
    }
    drop_pages(s, pid);
    let ghost a = *s;
    proof {
        assert(a.procs == m.procs && a.shms == m.shms) by {
            reveal(pages_dropped);
        }
        assert forall|id: int| !#[trigger] a.owns_shm(id, pid as int) by {
            assert(!m.owns_shm(id, pid as int));
        }
        a.pages.lemma_view();
        assert forall|id: int| #![trigger a.pages@[id]]
            a.pages@.dom().contains(id) implies a.pages@[id].owner != pid by {
            reveal(pages_dropped);
            assert(a.pages@[id] == m.pages@[id]);
        }
        lemma_sees_own(a, pid as int);
    }
    let root: u64 = root(&s.procs, pid);
    destroy_root(&mut s.mem, root);
    s.procs.remove(pid);
    proof {
        lemma_gone_inv(*s, a, pid as int);
        lemma_gone(*s, a, m, before, pid);
    }
    release_all(devices, pid);
    unregister_all_locked(services, pid);
}

/// Law: a capability that was put into a slot is found there, and every other slot of every
/// process holds what it held.
pub proof fn law_grant_then_target(
    t: Map<int, ProcView>,
    pid: int,
    slot: int,
    cap: Cap,
    other: int,
    other_slot: int,
)
    requires
        slot_error(t, pid, slot) is None,
        0 <= slot,
        t[pid].caps.len() == MAX_CAPS,
    ensures
        cap_at(with_slot(t, pid, slot, Some(cap)), pid, slot) == Ok::<Cap, CapError>(cap),
        cap_at(with_slot(t, pid, slot, None), pid, slot) == Err::<Cap, CapError>(
            CapError::NotFound,
        ),
        (other, other_slot) != (pid, slot) && other_slot >= 0 ==> cap_at(
            with_slot(t, pid, slot, Some(cap)),
            other,
            other_slot,
        ) == cap_at(t, other, other_slot),
{
}

/// Law: a copy of a capability outlives the original: clearing the slot that it was copied from
/// leaves it in place.
pub proof fn law_copy_survives_clear(t: Map<int, ProcView>, pid: int, from: int, to: int)
    requires
        dup_error(t, pid, from, to) is None,
        0 <= from,
        0 <= to,
        from != to,
        t[pid].caps.len() == MAX_CAPS,
    ensures
        ({
            let c = cap_at(t, pid, from)->Ok_0;
            let after = with_slot(with_slot(t, pid, to, Some(c)), pid, from, None);
            &&& cap_at(after, pid, to) == Ok::<Cap, CapError>(c)
            &&& cap_at(after, pid, from) == Err::<Cap, CapError>(CapError::NotFound)
        }),
{
}


/// Law: when a process has ended, nothing that was its own stays allocated, and every other process
/// sees the pages that it saw, with what is in them, but for the one it shared with the process.
pub proof fn law_ended_process_leaves_nothing(
    s: Spaces,
    before: Spaces,
    pid: usize,
    p: int,
    order: int,
    i: int,
    v: int,
)
    requires
        before.inv(),
        s.inv(),
        before.alive(pid as int),
        gone(s, before, pid),
        page_addr(v),
    ensures
        !s.alive(pid as int),
        belongs(before, pid as int, p) ==> !s.mem.frames@.allocated(p, order),
        before.alive(i) && i != pid ==> s.alive(i),
        s.alive(i) && !(v == SHM_VA && shares_root(before, pid as int, before.procs@[i].root as int))
            ==> lookup(s.mem.ram, s.procs@[i].root as int, v) == lookup(
            before.mem.ram,
            before.procs@[i].root as int,
            v,
        ),
        before.alive(i) && i != pid && before.sees(i, v) == Some(p) && !(v == SHM_VA && shares_root(
            before,
            pid as int,
            before.procs@[i].root as int,
        )) ==> {
            &&& s.sees(i, v) == Some(p)
            &&& forall|a: int|
                p <= a < p + 4096 && a % 8 == 0 ==> #[trigger] s.mem.ram.word(a)
                    == before.mem.ram.word(a)
        },
{
    if before.alive(i) && i != pid {
        assert(s.alive(i));
    }
    if s.alive(i) {
        assert(s.procs@[i].root == before.procs@[i].root);
        assert(s.mem.is_root(s.procs@[i].root as int));
        if before.sees(i, v) == Some(p) {
            reveal(Spaces::isolated);
            assert(plain(before.mem, p));
            before.mem.lemma_page(p, 0);
            before.mem.frames.lemma_wf();
            assert forall|a: int| p <= a < p + 4096 && a % 8 == 0 implies #[trigger] s.mem.ram.word(a)
                == before.mem.ram.word(a) by {
                assert(a - a % 4096 == p);
            }
        }
    }
}

} // verus!
