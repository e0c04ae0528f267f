//! The memory service: hands out the pages of a pool and takes them back.
//!
//! The server is told what a system call returned and says which call comes next. Its pool is a
//! row of capability slots; a slot counts as full from the moment a client is told to return a
//! page to it.

use vstd::prelude::*;
use crate::user::{
    answer, call, reply, sending, sys_exit, sys_ipc_recv, sys_mem_grant, sys_service_register,
    Call, Words, ERR_ENOMEM, MEMORY_SERVICE_ID, OP_ALLOC, OP_FREE, PROTO_ERR, SERVER_ACCEPT_SLOT,
    SERVER_POOL_START,
};
use crate::syscall::{SYSCALL_EXIT, SYSCALL_IPC_RECV, SYSCALL_MEM_GRANT, SYSCALL_SERVICE_REGISTER};

verus! {

/// Number of slots in the pool.
pub const POOL_PAGES: usize = 4;

/// What the memory server waits for.
#[derive(Debug, Clone, Copy, PartialEq, Eq, Structural)]
pub enum MemoryAt {
    /// The service was offered.
    Registering,
    /// A request may come.
    Receiving,
    /// The page at this place of the pool was handed over.
    Granting(usize),
    /// A request was answered.
    Answering,
    /// The server has ended.
    Ended,
}

/// The memory server: which places of the pool hold a page, and what it waits for.
#[derive(Debug)]
pub struct MemoryServer {
    pub full: Vec<bool>,
    pub at: MemoryAt,
}

/// The first place at or behind `i` that is full, or that is empty, as `want` says; the length of
/// the pool where there is none.
pub open spec fn first_place(full: Seq<bool>, want: bool, i: int) -> int
    decreases full.len() - i,
{
    if i >= full.len() || full[i] == want {
        i
    } else {
        first_place(full, want, i + 1)
    }
}

/// The search ends at the place it is meant to find.
pub proof fn lemma_first_place(full: Seq<bool>, want: bool, i: int)
    requires
        0 <= i <= full.len(),
    ensures
        i <= first_place(full, want, i) <= full.len(),
        first_place(full, want, i) < full.len() ==> full[first_place(full, want, i)] == want,
        forall|k: int| i <= k < first_place(full, want, i) ==> full[k] != want,
    decreases full.len() - i,
{
    if i < full.len() && full[i] != want {
        lemma_first_place(full, want, i + 1);
    }
}

/// The first place that is full, or that is empty, as `want` says.
fn find_place(full: &Vec<bool>, want: bool) -> (r: usize)
    ensures
        r == first_place(full@, want, 0),
        r <= full@.len(),
        r < full@.len() ==> full@[r as int] == want,
{
    let mut i: usize = 0;
    let n: usize = full.len();
    while i < n && full[i] != want
        invariant
            i <= n == full@.len(),
            first_place(full@, want, 0) == first_place(full@, want, i as int),
        decreases n - i,
    {
        i = i + 1;
    }
    i
}

/// What the memory server does when a request has come: the pool, what it waits for, its call.
pub open spec fn requested(full: Seq<bool>, op: u64, arg: u64) -> (Seq<bool>, MemoryAt, Call) {
    if op == OP_ALLOC {
        let i = first_place(full, true, 0);
        if i < full.len() {
            (
                full,
                MemoryAt::Granting(i as usize),
                call(SYSCALL_MEM_GRANT, (SERVER_POOL_START + i) as u64, SERVER_ACCEPT_SLOT, arg),
            )
        } else {
            (full, MemoryAt::Answering, sending(SERVER_ACCEPT_SLOT, reply(op, ERR_ENOMEM, 0)))
        }
    } else if op == OP_FREE {
        let i = first_place(full, false, 0);
        if i < full.len() {
            (
                full.update(i, true),
                MemoryAt::Answering,
                sending(SERVER_ACCEPT_SLOT, reply(op, 0, (SERVER_POOL_START + i) as u64)),
            )
        } else {
            (full, MemoryAt::Answering, sending(SERVER_ACCEPT_SLOT, reply(op, ERR_ENOMEM, 0)))
        }
    } else {
        (full, MemoryAt::Answering, sending(SERVER_ACCEPT_SLOT, reply(op, PROTO_ERR, 0)))
    }
}

/// What the memory server does next, where its last call returned `b`.
pub open spec fn memory_next(full: Seq<bool>, at: MemoryAt, b: Words) -> (
    Seq<bool>,
    MemoryAt,
    Call,
) {
    let listen = (full, MemoryAt::Receiving, call(SYSCALL_IPC_RECV, SERVER_ACCEPT_SLOT, 0, 0));
    let end = (full, MemoryAt::Ended, call(SYSCALL_EXIT, 0, 0, 0));
    match at {
        MemoryAt::Registering => if b.a0 != 0 {
            end
        } else {
            listen
        },
        MemoryAt::Receiving => if b.a0 != 0 {
            listen
        } else {
            requested(full, b.a1, b.a2)
        },
        MemoryAt::Granting(i) => if b.a0 != 0 {
            (full, MemoryAt::Answering, sending(SERVER_ACCEPT_SLOT, reply(OP_ALLOC, b.a0, 0)))
        } else {
            (
                full.update(i as int, false),
                MemoryAt::Answering,
                sending(SERVER_ACCEPT_SLOT, reply(OP_ALLOC, 0, 0)),
            )
        },
        MemoryAt::Answering => listen,
        MemoryAt::Ended => end,
    }
}

impl MemoryServer {
    /// The pool has its places, and a page that is being handed over counts as there.
    pub open spec fn wf(self) -> bool {
        &&& self.full@.len() == POOL_PAGES
        &&& self.at matches MemoryAt::Granting(i) ==> i < POOL_PAGES && self.full@[i as int]
    }

    /// Starts with a full pool, and offers the service.
    pub fn start() -> (r: (MemoryServer, Call))
        ensures
            r.0.wf(),
            r.0.full@ == seq![true, true, true, true],
            r.0.at == MemoryAt::Registering,
            r.1 == call(SYSCALL_SERVICE_REGISTER, MEMORY_SERVICE_ID, 0, 0),
    {
        let full: Vec<bool> = vec![true, true, true, true];
        assert(full@ =~= seq![true, true, true, true]);
        (
            MemoryServer { full, at: MemoryAt::Registering },
            sys_service_register(MEMORY_SERVICE_ID),
        )
    }

    /// Takes a page out of the pool for a client, which gets it in the slot `dst`: the call that
    /// hands it over, or the answer that there is none.
    fn alloc_page(&mut self, dst: u64) -> (r: Call)
        requires
            old(self).wf(),
        ensures
            final(self).wf(),
            (final(self).full@, final(self).at, r) == requested(old(self).full@, OP_ALLOC, dst),
    {
        let i: usize = find_place(&self.full, true);
        if i < POOL_PAGES {
            self.at = MemoryAt::Granting(i);
            sys_mem_grant(SERVER_POOL_START + i as u64, SERVER_ACCEPT_SLOT, dst)
        } else {
            self.at = MemoryAt::Answering;
            answer(OP_ALLOC, ERR_ENOMEM, 0)
        }
    }

    /// Finds a place for a page that a client returns, and counts it as filled.
    fn free_slot(&mut self) -> (r: Call)
        requires
            old(self).wf(),
        ensures
            final(self).wf(),
            forall|arg: u64|
                (final(self).full@, final(self).at, r) == #[trigger] requested(
                    old(self).full@,
                    OP_FREE,
                    arg,
                ),
    {
        let i: usize = find_place(&self.full, false);
        self.at = MemoryAt::Answering;
        if i < POOL_PAGES {
            self.full.set(i, true);
            answer(OP_FREE, 0, SERVER_POOL_START + i as u64)
        } else {
            answer(OP_FREE, ERR_ENOMEM, 0)
        }
    }

    /// Goes on where the last call returned `b`: the call that comes next.
    pub fn step(&mut self, b: Words) -> (r: Call)
        requires
            old(self).wf(),
        ensures
            final(self).wf(),
            (final(self).full@, final(self).at, r) == memory_next(old(self).full@, old(self).at, b),
    {
        match self.at {
            MemoryAt::Registering => {
                if b.a0 != 0 {
                    self.at = MemoryAt::Ended;
                    return sys_exit();
                }
            },
            MemoryAt::Receiving => {
                if b.a0 == 0 {
                    if b.a1 == OP_ALLOC {
                        return self.alloc_page(b.a2);
                    }
                    if b.a1 == OP_FREE {
                        let r = self.free_slot();
                        assert((self.full@, self.at, r) == requested(old(self).full@, OP_FREE, b.a2));
                        return r;
                    }
                    self.at = MemoryAt::Answering;
                    return answer(b.a1, PROTO_ERR, 0);
                }
            },
            MemoryAt::Granting(i) => {
                self.at = MemoryAt::Answering;
                if b.a0 != 0 {
                    return answer(OP_ALLOC, b.a0, 0);
                }
                self.full.set(i, false);
                return answer(OP_ALLOC, 0, 0);
            },
            MemoryAt::Answering => {},
            MemoryAt::Ended => {
                return sys_exit();
            },
        }
        self.at = MemoryAt::Receiving;
        sys_ipc_recv(SERVER_ACCEPT_SLOT)
    }
}

/// Number of full places.
pub open spec fn pages_in(full: Seq<bool>) -> int
    decreases full.len(),
{
    if full.len() == 0 {
        0
    } else {
        pages_in(full.drop_last()) + if full.last() {
            1int
        } else {
            0int
        }
    }
}

/// A place that changes changes the count by one.
proof fn lemma_pages_in(full: Seq<bool>, i: int, b: bool)
    requires
        0 <= i < full.len(),
        full[i] != b,
    ensures
        pages_in(full.update(i, b)) == pages_in(full) + if b {
            1int
        } else {
            -1int
        },
    decreases full.len(),
{
    let f = full.update(i, b);
    if i == full.len() - 1 {
        assert(f.drop_last() =~= full.drop_last());
    } else {
        assert(f.drop_last() =~= full.drop_last().update(i, b));
        lemma_pages_in(full.drop_last(), i, b);
    }
}

/// A page that is handed over leaves the pool, and one that comes back fills an empty place: the
/// first of them. A pool without a page refuses a client that wants one, and a full pool refuses
/// one that returns one; the pool stays as it is then, and where the hand-over fails.
pub proof fn law_pool_is_counted(full: Seq<bool>, arg: u64, rc: u64)
    requires
        full.len() == POOL_PAGES,
    ensures
        ({
            let (f, at, c) = requested(full, OP_ALLOC, arg);
            let i = first_place(full, true, 0);
            let done = memory_next(f, at, Words { a0: rc, a1: 0, a2: 0, a3: 0, a4: 0, a5: 0 });
            if pages_in(full) == 0 {
                f == full && c == sending(SERVER_ACCEPT_SLOT, reply(OP_ALLOC, ERR_ENOMEM, 0))
            } else {
                &&& full[i]
                &&& at == MemoryAt::Granting(i as usize)
                &&& rc == 0 ==> pages_in(done.0) == pages_in(full) - 1 && !done.0[i]
                &&& rc != 0 ==> done.0 == full
            }
        }),
        ({
            let (f, at, c) = requested(full, OP_FREE, arg);
            let i = first_place(full, false, 0);
            if pages_in(full) == POOL_PAGES {
                f == full && c == sending(SERVER_ACCEPT_SLOT, reply(OP_FREE, ERR_ENOMEM, 0))
            } else {
                &&& !full[i] && f[i]
                &&& pages_in(f) == pages_in(full) + 1
            }
        }),
{
    lemma_first_place(full, true, 0);
    lemma_first_place(full, false, 0);
    lemma_all_or_none(full);
    let i = first_place(full, true, 0);
    let j = first_place(full, false, 0);
    if i < full.len() {
        lemma_pages_in(full, i, false);
        if pages_in(full) == 0 {
            assert(full[i]);
        }
    } else {
        assert(forall|k: int| 0 <= k < full.len() ==> !full[k]);
    }
    if j < full.len() {
        lemma_pages_in(full, j, true);
    } else {
        assert(forall|k: int| 0 <= k < full.len() ==> full[k]);
    }
}

/// The count is zero where nothing is full, and the length where everything is.
proof fn lemma_all_or_none(full: Seq<bool>)
    ensures
        0 <= pages_in(full) <= full.len(),
        pages_in(full) == 0 <==> forall|k: int| 0 <= k < full.len() ==> !full[k],
        pages_in(full) == full.len() <==> forall|k: int| 0 <= k < full.len() ==> full[k],
    decreases full.len(),
{
    if full.len() > 0 {
        let f = full.drop_last();
        lemma_all_or_none(f);
        assert(forall|k: int| 0 <= k < f.len() ==> f[k] == full[k]);
        assert(full.last() == full[full.len() - 1]);
    }
}

} // verus!
