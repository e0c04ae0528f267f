//! Named services.
//!
//! A server registers itself under a number; a client that asks for the number gets a capability
//! for the server, and the server gets one for the client.

use vstd::prelude::*;
use crate::process::{
    cap_errno, clear_cap, grant_cap, with_slot, Cap, CapError,
    ProcView, ProcessTable, MAX_CAPS,
};
use crate::syscall::{SYS_ERR_EACCES, SYS_ERR_EEXIST, SYS_ERR_EINVAL, SYS_ERR_ENOENT};

verus! {

/// Service numbers are at least 1 and below this.
pub const MAX_SERVICES: usize = 8;

/// The process behind each service number.
#[derive(Debug, Clone, Copy)]
pub struct ServiceTable {
    pub slots: [Option<usize>; MAX_SERVICES],
}

impl ServiceTable {
    /// The servers, by service number.
    pub open spec fn view(&self) -> Seq<Option<usize>> {
        self.slots@
    }

    /// No service.
    pub fn new() -> (r: ServiceTable)
        ensures
            r@.len() == MAX_SERVICES,
            forall|i: int| 0 <= i < MAX_SERVICES ==> #[trigger] r@[i] is None,
    {
        ServiceTable { slots: [None, None, None, None, None, None, None, None] }
    }
}

/// Why a service cannot be registered.
pub open spec fn register_error(t: Seq<Option<usize>>, id: int) -> Option<u64> {
    if id == 0 || id >= MAX_SERVICES {
        Some(SYS_ERR_EINVAL)
    } else if t[id] is Some {
        Some(SYS_ERR_EEXIST)
    } else {
        None
    }
}

/// Register a process under a number that nobody has.
pub fn register_locked(t: &mut ServiceTable, pid: usize, id: usize) -> (r: Result<(), u64>)
    ensures
        match r {
            Err(e) => register_error(old(t)@, id as int) == Some(e) && final(t)@ == old(t)@,
            Ok(_) => register_error(old(t)@, id as int) is None && final(t)@ == old(t)@.update(
                id as int,
                Some(pid),
            ),
        },
{
    if id == 0 || id >= MAX_SERVICES {
        return Err(SYS_ERR_EINVAL);
    }
    if t.slots[id].is_some() {
        return Err(SYS_ERR_EEXIST);
    }
    t.slots[id] = Some(pid);
    Ok(())
}

/// Take back every number that a process registered under.
pub fn unregister_all_locked(t: &mut ServiceTable, pid: usize)
    ensures
        final(t)@.len() == MAX_SERVICES,
        forall|i: int|
            0 <= i < MAX_SERVICES ==> #[trigger] final(t)@[i] == (if old(t)@[i] == Some(pid) {
                None
            } else {
                old(t)@[i]
            }),
{
    let mut i: usize = 0;
    while i < MAX_SERVICES
        invariant
            i <= MAX_SERVICES,
            t@.len() == MAX_SERVICES,
            forall|k: int|
                0 <= k < MAX_SERVICES ==> #[trigger] t@[k] == (if k < i && old(t)@[k] == Some(pid) {
                    None
                } else {
                    old(t)@[k]
                }),
        decreases MAX_SERVICES - i,
    {
        if let Some(p) = t.slots[i] {
            if p == pid {
                t.slots[i] = None;
            }
        }
        i += 1;
    }
}

/// The process behind a service number.
pub open spec fn server_of(t: Seq<Option<usize>>, id: int) -> Option<usize> {
    if 0 <= id < MAX_SERVICES {
        t[id]
    } else {
        None
    }
}

/// The process behind a service number.
pub fn lookup(t: &ServiceTable, id: usize) -> (r: Option<usize>)
    ensures
        r == server_of(t@, id as int),
{
    if id < MAX_SERVICES {
        t.slots[id]
    } else {
        None
    }
}

/// Why a client cannot be connected.
pub open spec fn connect_error(
    t: Seq<Option<usize>>,
    p: Map<int, ProcView>,
    caller: int,
    id: int,
    client_slot: int,
    server_slot: int,
) -> Option<u64> {
    match server_of(t, id) {
        None => Some(SYS_ERR_ENOENT),
        Some(server) => if server == caller {
            Some(SYS_ERR_EACCES)
        } else if client_slot >= MAX_CAPS || server_slot >= MAX_CAPS {
            Some(SYS_ERR_EINVAL)
        } else if !p.dom().contains(caller) || !p.dom().contains(server as int) {
            Some(SYS_ERR_EACCES)
        } else {
            None
        },
    }
}

/// What connecting to a service does.
pub open spec fn connect_effect(
    t: Seq<Option<usize>>,
    p: Map<int, ProcView>,
    before: Map<int, ProcView>,
    caller: usize,
    id: usize,
    client_slot: usize,
    server_slot: usize,
    r: Result<(), u64>,
) -> bool {
    match r {
        Err(e) => {
            &&& connect_error(
                t,
                before,
                caller as int,
                id as int,
                client_slot as int,
                server_slot as int,
            ) == Some(e)
            &&& p == (if client_slot < MAX_CAPS && server_slot < MAX_CAPS
                && before.dom().contains(caller as int) && (server_of(
                t,
                id as int,
            ) matches Some(server) && server != caller) {
                with_slot(before, caller as int, client_slot as int, None)
            } else {
                before
            })
        },
        Ok(_) => {
            let server = server_of(t, id as int)->0;
            &&& connect_error(
                t,
                before,
                caller as int,
                id as int,
                client_slot as int,
                server_slot as int,
            ) is None
            &&& p == with_slot(
                with_slot(
                    before,
                    caller as int,
                    client_slot as int,
                    Some(Cap::Proc(server)),
                ),
                server as int,
                server_slot as int,
                Some(Cap::Proc(caller)),
            )
        },
    }
}

/// Connect a client to a service: each side gets a capability for the other. A server that is
/// gone leaves the client without a capability in the slot that it named; every other failure
/// changes nothing.
pub fn connect(
    t: &ServiceTable,
    p: &mut ProcessTable,
    caller: usize,
    id: usize,
    client_slot: usize,
    server_slot: usize,
) -> (r: Result<(), u64>)
    requires
        old(p).wf(),
    ensures
        final(p).wf(),
        final(p).pool() == old(p).pool(),
        connect_effect(t@, final(p)@, old(p)@, caller, id, client_slot, server_slot, r),
{
    let server: usize = match lookup(t, id) {
        Some(p) => p,
        None => {
            return Err(SYS_ERR_ENOENT);
        },
    };
    if server == caller {
        return Err(SYS_ERR_EACCES);
    }
    if client_slot >= MAX_CAPS || server_slot >= MAX_CAPS {
        return Err(SYS_ERR_EINVAL);
    }
    let ghost before = p@;
    proof {
        p.lemma_view();
    }
    match grant_cap(p, caller, client_slot, server) {
        Ok(_) => {},
        Err(e) => {
            return Err(cap_errno(e));
        },
    }
    match grant_cap(p, server, server_slot, caller) {
        Ok(_) => Ok(()),
        Err(e) => {
            let _ = clear_cap(p, caller, client_slot);
            proof {
                let b = before[caller as int];
                assert(b.with_cap(client_slot as int, Some(Cap::Proc(server))).with_cap(
                    client_slot as int,
                    None,
                ).caps =~= b.with_cap(client_slot as int, None).caps);
                assert(p@ =~= with_slot(before, caller as int, client_slot as int, None));
            }
            Err(cap_errno(e))
        },
    }
}

/// Law: a number has one server: while it is registered, nobody else can register under it.
pub proof fn law_service_exclusive(t: Seq<Option<usize>>, id: int)
    requires
        0 < id < MAX_SERVICES,
        t[id] is Some,
    ensures
        register_error(t, id) == Some(SYS_ERR_EEXIST),
{
}

/// Law: after a client was connected, each side holds a capability for the other.
pub proof fn law_connected_both_ways(
    p: Map<int, ProcView>,
    caller: usize,
    client_slot: int,
    server: usize,
    server_slot: int,
)
    requires
        p.dom().contains(caller as int),
        p.dom().contains(server as int),
        caller != server,
        0 <= client_slot < MAX_CAPS,
        0 <= server_slot < MAX_CAPS,
        p[caller as int].caps.len() == MAX_CAPS,
        p[server as int].caps.len() == MAX_CAPS,
    ensures
        ({
            let after = with_slot(
                with_slot(p, caller as int, client_slot, Some(Cap::Proc(server))),
                server as int,
                server_slot,
                Some(Cap::Proc(caller)),
            );
            &&& crate::process::cap_at(after, caller as int, client_slot) == Ok::<Cap, CapError>(
                Cap::Proc(server),
            )
            &&& crate::process::cap_at(after, server as int, server_slot) == Ok::<Cap, CapError>(
                Cap::Proc(caller),
            )
        }),
{
}

} // verus!
