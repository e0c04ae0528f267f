//! What the memory service, the list of services and capabilities are for: who gets what, and who
//! keeps what.

use vstd::prelude::*;
use crate::clients::{
    borrow_next, trial_next, trial_passes, trial_request, BorrowAt, BorrowNext, Trial, TrialAt,
    TrialNext,
};
use crate::memory_server::{first_place, lemma_first_place, memory_next, MemoryAt};
use crate::process::{
    cap_at, dup_error, register_effect, slot_error, with_slot, Cap, CapError, ProcView,
};
use crate::ramfs::{fs_next, FileState, FsAt, FsView};
use crate::ramfs_laws::{asked_name, law_open_finds_the_name};
use crate::registry::Pool;
use crate::services::{connect_effect, server_of};
use crate::syscall::{
    SYSCALL_EXIT, SYSCALL_IPC_RECV, SYSCALL_IPC_SEND, SYSCALL_MEM_GRANT, SYSCALL_MEM_MAP,
    SYS_ERR_EACCES, SYS_ERR_EBADF, SYS_ERR_EEXIST, SYS_ERR_EINVAL, SYS_ERR_ENOENT, SYS_ERR_ENOMEM,
};
use crate::user::{Call, Words, OP_ALLOC, OP_FREE};

verus! {

/// The client of slot 0 is told a status and a result, in reply to a request.
pub open spec fn tells(c: Call, op: u64, status: u64, result: u64) -> bool {
    c == (Call {
        num: SYSCALL_IPC_SEND,
        args: Words { a0: 0, a1: op | 0x80, a2: status, a3: result, a4: 0, a5: 0 },
    })
}

/// A system call with up to three arguments.
pub open spec fn calls(c: Call, num: u64, a0: u64, a1: u64, a2: u64) -> bool {
    c == (Call { num, args: Words { a0, a1, a2, a3: 0, a4: 0, a5: 0 } })
}

/// Law: a client that asks for a page gets the first of the pool, in the slot that it names; the page
/// leaves the pool once it was handed over, and no other does. Where that fails the client is told
/// why and the pool stays as it is; where the pool is empty it is told that there is no memory.
pub proof fn law_pool_gives_first_page(
    full: Seq<bool>,
    k: int,
    arg: u64,
    a3: u64,
    a4: u64,
    a5: u64,
    b: Words,
)
    requires
        full.len() == 4,
        0 <= k <= 4,
        forall|j: int| 0 <= j < k ==> !#[trigger] full[j],
        k < 4 ==> full[k],
    ensures
        ({
            let (f, at, c) = memory_next(
                full,
                MemoryAt::Receiving,
                Words { a0: 0, a1: OP_ALLOC, a2: arg, a3, a4, a5 },
            );
            let (g, then, told) = memory_next(f, at, b);
            &&& f == full
            &&& k == 4 ==> tells(c, OP_ALLOC, SYS_ERR_ENOMEM, 0) && at == MemoryAt::Answering
            &&& k < 4 ==> {
                &&& calls(c, SYSCALL_MEM_GRANT, (1 + k) as u64, 0, arg)
                &&& then == MemoryAt::Answering
                &&& tells(told, OP_ALLOC, b.a0, 0)
                &&& b.a0 != 0 ==> g == full
                &&& b.a0 == 0 ==> g.len() == 4 && !g[k] && forall|j: int|
                    0 <= j < 4 && j != k ==> #[trigger] g[j] == full[j]
            }
        }),
{
    lemma_first_place(full, true, 0);
    let i = first_place(full, true, 0);
    if i < k {
        assert(full[i]);
    }
    if k < i {
        assert(full[k]);
    }
}

/// Law: a client that wants to return a page is told the first empty slot of the pool, and the slot
/// counts as full from then on; no other does. A pool without an empty slot refuses.
pub proof fn law_pool_takes_into_first_gap(
    full: Seq<bool>,
    k: int,
    arg: u64,
    a3: u64,
    a4: u64,
    a5: u64,
)
    requires
        full.len() == 4,
        0 <= k <= 4,
        forall|j: int| 0 <= j < k ==> #[trigger] full[j],
        k < 4 ==> !full[k],
    ensures
        ({
            let (f, at, c) = memory_next(
                full,
                MemoryAt::Receiving,
                Words { a0: 0, a1: OP_FREE, a2: arg, a3, a4, a5 },
            );
            &&& at == MemoryAt::Answering
            &&& k == 4 ==> tells(c, OP_FREE, SYS_ERR_ENOMEM, 0) && f == full
            &&& k < 4 ==> {
                &&& tells(c, OP_FREE, 0, (1 + k) as u64)
                &&& f.len() == 4
                &&& f[k]
                &&& forall|j: int| 0 <= j < 4 && j != k ==> #[trigger] f[j] == full[j]
            }
        }),
{
    lemma_first_place(full, false, 0);
    let i = first_place(full, false, 0);
    if i < k {
        assert(!full[i]);
    }
    if k < i {
        assert(!full[k]);
    }
}

/// Law: the memory server refuses what it does not know, waits for the next request once it has
/// answered and after a receive that failed, and ends where its number is taken. The pool stays as it
/// is.
pub proof fn law_memory_server_goes_on(full: Seq<bool>, b: Words)
    ensures
        b.a0 == 0 && b.a1 != OP_ALLOC && b.a1 != OP_FREE ==> ({
            let (f, at, c) = memory_next(full, MemoryAt::Receiving, b);
            f == full && at == MemoryAt::Answering && tells(c, b.a1, SYS_ERR_EINVAL, 0)
        }),
        ({
            let (f, at, c) = memory_next(full, MemoryAt::Answering, b);
            f == full && at == MemoryAt::Receiving && calls(c, SYSCALL_IPC_RECV, 0, 0, 0)
        }),
        b.a0 != 0 ==> ({
            let (f, at, c) = memory_next(full, MemoryAt::Receiving, b);
            f == full && at == MemoryAt::Receiving && calls(c, SYSCALL_IPC_RECV, 0, 0, 0)
        }),
        ({
            let (f, at, c) = memory_next(full, MemoryAt::Registering, b);
            &&& f == full
            &&& b.a0 == 0 ==> at == MemoryAt::Receiving && calls(c, SYSCALL_IPC_RECV, 0, 0, 0)
            &&& b.a0 != 0 ==> at == MemoryAt::Ended && calls(c, SYSCALL_EXIT, 0, 0, 0)
        }),
{
}

/// Law: what the borrowing program asks of the memory service it uses and gives back: it connects,
/// asks for a page in its slot 3, hears the answer, maps the page, tries it out, offers it back,
/// hears where it goes, and hands over the very slot it got to the place it was told. Whatever fails
/// ends it.
pub proof fn law_borrower_gives_back(b: Words, argc: u64)
    ensures
        ({
            let bad = |at: BorrowAt|
                {
                    let (next, n) = borrow_next(at, b, argc);
                    next == BorrowAt::Ended && n is Call && calls(n->Call_0, SYSCALL_EXIT, 0, 0, 0)
                };
            let good = |at: BorrowAt, to: BorrowAt, num: u64, a0: u64, a1: u64, a2: u64|
                {
                    let (next, n) = borrow_next(at, b, argc);
                    next == to && n is Call && calls(n->Call_0, num, a0, a1, a2)
                };
            let alloc = b.a0 == 0 && b.a1 == OP_ALLOC | 0x80 && b.a2 == 0;
            let free = b.a0 == 0 && b.a1 == OP_FREE | 0x80 && b.a2 == 0;
            &&& b.a0 != 0 ==> bad(BorrowAt::Connecting) && bad(BorrowAt::Asking) && bad(
                BorrowAt::Mapping,
            ) && bad(BorrowAt::Offering) && bad(BorrowAt::Returning)
            &&& b.a0 == 0 ==> good(
                BorrowAt::Connecting,
                BorrowAt::Asking,
                SYSCALL_IPC_SEND,
                2,
                OP_ALLOC,
                3,
            )
            &&& b.a0 == 0 ==> good(BorrowAt::Asking, BorrowAt::Awaiting, SYSCALL_IPC_RECV, 2, 0, 0)
            &&& !alloc ==> bad(BorrowAt::Awaiting)
            &&& alloc ==> good(
                BorrowAt::Awaiting,
                BorrowAt::Mapping,
                SYSCALL_MEM_MAP,
                3,
                0x7000_0000,
                0,
            )
            &&& b.a0 == 0 ==> borrow_next(BorrowAt::Mapping, b, argc) == (
                BorrowAt::Trying,
                BorrowNext::Try(0x7000_0000, 0xfeed_face),
            )
            &&& b.a0 != 0xfeed_face ==> bad(BorrowAt::Trying)
            &&& b.a0 == 0xfeed_face ==> good(
                BorrowAt::Trying,
                BorrowAt::Offering,
                SYSCALL_IPC_SEND,
                2,
                OP_FREE,
                3,
            )
            &&& b.a0 == 0 ==> good(BorrowAt::Offering, BorrowAt::Placing, SYSCALL_IPC_RECV, 2, 0, 0)
            &&& !free ==> bad(BorrowAt::Placing)
            &&& free ==> good(
                BorrowAt::Placing,
                BorrowAt::Returning,
                SYSCALL_MEM_GRANT,
                3,
                2,
                b.a3,
            )
            &&& b.a0 == 0 ==> borrow_next(BorrowAt::Returning, b, argc) == (
                BorrowAt::Ended,
                BorrowNext::Finish(0xc0de_0000 | argc),
            )
            &&& bad(BorrowAt::Ended)
        }),
{
}

/// A request as the server receives it.
pub open spec fn as_received(m: Seq<u64>) -> Words {
    Words { a0: 0, a1: m[0], a2: m[1], a3: m[2], a4: m[3], a5: m[4] }
}

/// An answer as the client receives it.
pub open spec fn as_answered(c: Call) -> Words {
    Words { a0: 0, a1: c.args.a1, a2: c.args.a2, a3: c.args.a3, a4: c.args.a4, a5: c.args.a5 }
}

/// Law: the file service answers the program that tries it out as the program expects: the two agree
/// on requests and answers, as long as the program's file is open, empty before it was written and
/// long enough behind.
pub proof fn law_trial_and_service_agree(v: FsView, fd: u64, t: Trial)
    requires
        v.wf(),
        v.at == FsAt::Receiving,
        fd < 4,
        v.files[fd as int].state == FileState::Open,
        v.files[fd as int].name == seq![0x74u8, 0x65, 0x73, 0x74, 0x2e, 0x74, 0x78, 0x74],
        t != Trial::Open && t != Trial::Unlink,
        t == Trial::ReadEmpty ==> v.files[fd as int].size == 0,
        t == Trial::Read ==> v.files[fd as int].size >= 11,
    ensures
        trial_passes(
            t,
            fd,
            as_answered(fs_next(v, as_received(trial_request(t, fd))).1.call),
        ),
{
    if t == Trial::OpenAgain {
        let m = trial_request(t, fd);
        let words = seq![m[2], m[3], m[4]];
        let name = seq![0x74u8, 0x65, 0x73, 0x74, 0x2e, 0x74, 0x78, 0x74];
        let f = crate::user::name_field(name);
        assert(crate::clients::test_name() =~= name);
        assert(m[2] == 0x7478_742e_7473_6574u64);
        assert(asked_name(words, 8) =~= name);
        law_open_finds_the_name(v, 8, words, fd as int);
    }
}

/// Law: a service number from 1 to 7 goes to the first process that asks for it, and to one that
/// exists; the other numbers stay as they are. Whoever looks the number up finds that process.
pub proof fn law_first_to_register(
    t: Map<int, ProcView>,
    after: Seq<Option<usize>>,
    before: Seq<Option<usize>>,
    pid: usize,
    id: usize,
    r: Result<(), u64>,
)
    requires
        before.len() == 8,
        register_effect(t, after, before, pid, id, r),
    ensures
        r is Ok <==> t.dom().contains(pid as int) && 1 <= id < 8 && before[id as int] is None,
        r is Ok ==> {
            &&& after.len() == 8
            &&& after[id as int] == Some(pid)
            &&& server_of(after, id as int) == Some(pid)
            &&& forall|j: int| 0 <= j < 8 && j != id ==> #[trigger] after[j] == before[j]
        },
        r is Err ==> after == before,
        !t.dom().contains(pid as int) ==> r == Err::<(), u64>(SYS_ERR_EACCES),
        t.dom().contains(pid as int) && !(1 <= id < 8) ==> r == Err::<(), u64>(SYS_ERR_EINVAL),
        t.dom().contains(pid as int) && 1 <= id < 8 && before[id as int] is Some ==> r == Err::<
            (),
            u64,
        >(SYS_ERR_EEXIST),
        forall|j: int| 0 <= j < 8 ==> server_of(before, j) == #[trigger] before[j],
        forall|j: int| j >= 8 ==> #[trigger] server_of(before, j) is None,
{
}

/// Two tables of processes are the same but for one slot of one process.
pub open spec fn but_for_slot(
    p: Map<int, ProcView>,
    q: Map<int, ProcView>,
    pid: int,
    slot: int,
) -> bool {
    &&& p.dom() == q.dom()
    &&& forall|i: int| q.dom().contains(i) && i != pid ==> #[trigger] p[i] == q[i]
    &&& q.dom().contains(pid)
    &&& p[pid].root == q[pid].root
    &&& p[pid].caps.len() == q[pid].caps.len()
    &&& forall|k: int|
        0 <= k < q[pid].caps.len() && k != slot ==> #[trigger] p[pid].caps[k] == q[pid].caps[k]
}

/// Law: a client is connected to the process that offers the service, and to no other: the client's
/// slot names that process and the process's slot names the client. No other slot of any process
/// changes. A process is not connected to itself, nor to a service that nobody offers, nor through
/// slots that are not there.
pub proof fn law_connects_to_the_server(
    t: Seq<Option<usize>>,
    p: Map<int, ProcView>,
    before: Map<int, ProcView>,
    caller: usize,
    id: usize,
    client_slot: usize,
    server_slot: usize,
    r: Result<(), u64>,
)
    requires
        t.len() == 8,
        before.dom().contains(caller as int),
        forall|i: int| before.dom().contains(i) ==> (#[trigger] before[i]).caps.len() == 8,
        connect_effect(t, p, before, caller, id, client_slot, server_slot, r),
    ensures
        id >= 8 || t[id as int] is None ==> r == Err::<(), u64>(SYS_ERR_ENOENT) && p == before,
        id < 8 && t[id as int] == Some(caller) ==> r == Err::<(), u64>(SYS_ERR_EACCES) && p
            == before,
        id < 8 && (t[id as int] matches Some(s) && s != caller) ==> {
            let s = t[id as int]->0 as int;
            let slots = client_slot < 8 && server_slot < 8;
            &&& !slots ==> r == Err::<(), u64>(SYS_ERR_EINVAL) && p == before
            &&& slots && !before.dom().contains(s) ==> {
                &&& r == Err::<(), u64>(SYS_ERR_EACCES)
                &&& but_for_slot(p, before, caller as int, client_slot as int)
                &&& p[caller as int].caps[client_slot as int] is None
            }
            &&& slots && before.dom().contains(s) ==> {
                &&& r is Ok
                &&& p.dom() == before.dom()
                &&& p[caller as int].caps[client_slot as int] == Some(Cap::Proc(s as usize))
                &&& p[s].caps[server_slot as int] == Some(Cap::Proc(caller))
                &&& p[caller as int].root == before[caller as int].root
                &&& p[s].root == before[s].root
                &&& forall|k: int|
                    0 <= k < 8 && k != client_slot ==> #[trigger] p[caller as int].caps[k]
                        == before[caller as int].caps[k]
                &&& forall|k: int|
                    0 <= k < 8 && k != server_slot ==> #[trigger] p[s].caps[k] == before[s].caps[k]
                &&& forall|i: int|
                    before.dom().contains(i) && i != caller && i != s ==> #[trigger] p[i]
                        == before[i]
            }
        },
{
    assert(p.dom() =~= before.dom());
}

/// Law: what is put into a slot is what is found there from then on, and nothing else changes. Slots
/// are numbered from 0 to 7; other numbers, and processes that are not there, are refused.
pub proof fn law_slot_holds_what_was_put(
    t: Map<int, ProcView>,
    pid: int,
    slot: int,
    cap: Option<Cap>,
)
    requires
        slot >= 0,
        t.dom().contains(pid) ==> t[pid].caps.len() == 8,
    ensures
        slot >= 8 ==> slot_error(t, pid, slot) == Some(CapError::InvalidSlot) && cap_at(t, pid, slot)
            == Err::<Cap, CapError>(CapError::InvalidSlot),
        slot < 8 && !t.dom().contains(pid) ==> slot_error(t, pid, slot) == Some(CapError::NotFound)
            && cap_at(t, pid, slot) == Err::<Cap, CapError>(CapError::NotFound),
        slot < 8 && t.dom().contains(pid) ==> {
            &&& slot_error(t, pid, slot) is None
            &&& t[pid].caps[slot] is Some ==> cap_at(t, pid, slot) == Ok::<Cap, CapError>(
                t[pid].caps[slot]->0,
            )
            &&& t[pid].caps[slot] is None ==> cap_at(t, pid, slot) == Err::<Cap, CapError>(
                CapError::NotFound,
            )
            &&& but_for_slot(with_slot(t, pid, slot, cap), t, pid, slot)
            &&& with_slot(t, pid, slot, cap)[pid].caps[slot] == cap
        },
{
    if t.dom().contains(pid) {
        assert(with_slot(t, pid, slot, cap).dom() =~= t.dom());
    }
}

/// Law: capabilities for processes and for shared pages can be copied to any slot of the holder; the
/// capability for a page that is held alone cannot, and neither can an empty slot.
pub proof fn law_what_can_be_copied(t: Map<int, ProcView>, pid: int, from: int, to: int)
    requires
        from >= 0,
        to >= 0,
        t.dom().contains(pid),
        t[pid].caps.len() == 8,
    ensures
        from >= 8 || to >= 8 ==> dup_error(t, pid, from, to) == Some(CapError::InvalidSlot),
        from < 8 && to < 8 ==> match t[pid].caps[from] {
            None => dup_error(t, pid, from, to) == Some(CapError::NotFound),
            Some(Cap::Page(_)) => dup_error(t, pid, from, to) == Some(CapError::WrongType),
            Some(_) => dup_error(t, pid, from, to) is None,
        },
{
}

/// Law: numbers are given out again in the order in which they came back, and new ones only when none
/// waits; so long as fewer than `max` are out, there is one.
pub proof fn law_numbers_come_again(p: Pool, id: usize, max: int)
    requires
        p.wf(max),
    ensures
        p.free.len() > 0 ==> {
            &&& p.next(max) == Some(p.free[0] as int)
            &&& p.taken().len == p.len
            &&& p.taken().free.len() == p.free.len() - 1
            &&& forall|k: int|
                0 <= k < p.free.len() - 1 ==> #[trigger] p.taken().free[k] == p.free[k + 1]
        },
        p.free.len() == 0 && p.len < max ==> p.next(max) == Some(p.len) && p.taken().len == p.len + 1
            && p.taken().free.len() == 0,
        p.free.len() == 0 && p.len >= max ==> p.next(max) is None,
        p.given(id).len == p.len,
        p.given(id).free.len() == p.free.len() + 1,
        p.given(id).free[p.free.len() as int] == id,
        forall|k: int| 0 <= k < p.free.len() ==> #[trigger] p.given(id).free[k] == p.free[k],
{
}

/// What a trial asks for: the request, and its arguments.
pub open spec fn trial_asks(t: Trial, fd: u64, m: Seq<u64>) -> bool {
    &&& m.len() == 5
    &&& t == Trial::Open || t == Trial::OpenAgain ==> m[0] == 6 && m[1] == 8 && m[2]
        == 0x7478_742e_7473_6574 && m[3] == 0 && m[4] == 0
    &&& t == Trial::ReadEmpty ==> m[0] == 7 && m[1] == fd && m[2] == 0 && m[3] == 16
    &&& t == Trial::ReadBad ==> m[0] == 7 && m[1] == 99 && m[2] == 0 && m[3] == 1
    &&& t == Trial::WriteFar ==> m[0] == 8 && m[1] == fd && m[2] == 4095 && m[3] == 2
    &&& t == Trial::Write ==> m[0] == 8 && m[1] == fd && m[2] == 0 && m[3] == 11
    &&& t == Trial::Read ==> m[0] == 7 && m[1] == fd && m[2] == 0 && m[3] == 11
    &&& t == Trial::Close ==> m[0] == 9 && m[1] == fd
    &&& t == Trial::Unlink ==> m[0] == 10 && m[1] == fd
}

/// Law: the program that tries the file service out expects each answer to name its request and to
/// tell what the service should: success, with as many bytes as it wrote or may read, or the error
/// that the request asks for.
pub proof fn law_trial_expects(t: Trial, fd: u64, b: Words)
    ensures
        trial_asks(t, fd, trial_request(t, fd)),
        trial_passes(t, fd, b) <==> {
            &&& b.a0 == 0
            &&& b.a1 == trial_request(t, fd)[0] + 0x80
            &&& b.a2 == if t == Trial::OpenAgain {
                SYS_ERR_EEXIST
            } else if t == Trial::ReadBad {
                SYS_ERR_EBADF
            } else if t == Trial::WriteFar {
                SYS_ERR_EINVAL
            } else {
                0
            }
            &&& t == Trial::ReadEmpty ==> b.a3 == 0
            &&& t == Trial::Write || t == Trial::Read ==> b.a3 == 11
        },
{
    let m = trial_request(t, fd);
    let name = seq![0x74u8, 0x65, 0x73, 0x74, 0x2e, 0x74, 0x78, 0x74];
    assert(crate::clients::test_name() =~= name);
    let f = crate::user::name_field(name);
    let op = m[0];
    assert(op < 0x80 ==> op | 0x80 == op + 0x80) by (bit_vector);
}

/// Which trial comes how many places behind the first.
pub open spec fn place_of_trial(t: Trial) -> int {
    match t {
        Trial::Open => 0,
        Trial::ReadEmpty => 1,
        Trial::OpenAgain => 2,
        Trial::ReadBad => 3,
        Trial::WriteFar => 4,
        Trial::Write => 5,
        Trial::Read => 6,
        Trial::Close => 7,
        Trial::Unlink => 8,
    }
}

/// Law: the program goes through all trials in order, on the file that the first has opened, and
/// through slot 2; it shows its mark behind the last and ends without it after an answer that is not
/// the right one.
pub proof fn law_trial_goes_through(t: Trial, fd: u64, argc: u64, b: Words)
    ensures
        ({
            let (at, file, next) = trial_next(TrialAt::Hearing(t), fd, argc, b);
            &&& !trial_passes(t, fd, b) ==> at == TrialAt::Ended && file == fd && (
            next matches TrialNext::Call(c) && calls(c, 1, 0, 0, 0))
            &&& trial_passes(t, fd, b) && t == Trial::Read ==> at == TrialAt::Comparing && file == fd
                && next == TrialNext::Compare
            &&& trial_passes(t, fd, b) && t == Trial::Unlink ==> at == TrialAt::Ended && (
            next matches TrialNext::Finish(w) && w == 0xc0de_0000 | argc)
            &&& trial_passes(t, fd, b) && t != Trial::Read && t != Trial::Unlink ==> {
                &&& at matches TrialAt::Sending(u) && place_of_trial(u) == place_of_trial(t) + 1
                &&& file == if t == Trial::Open {
                    b.a3
                } else {
                    fd
                }
                &&& at matches TrialAt::Sending(u) && {
                    let m = trial_request(u, file);
                    let c = Call {
                        num: 3,
                        args: Words { a0: 2, a1: m[0], a2: m[1], a3: m[2], a4: m[3], a5: m[4] },
                    };
                    if u == Trial::Write {
                        next == TrialNext::Put(c)
                    } else {
                        next == TrialNext::Call(c)
                    }
                }
            }
        }),
        ({
            let (at, file, next) = trial_next(TrialAt::Sending(t), fd, argc, b);
            &&& file == fd
            &&& b.a0 == 0 ==> at == TrialAt::Hearing(t) && (next matches TrialNext::Call(c) && calls(
                c,
                4,
                2,
                0,
                0,
            ))
            &&& b.a0 != 0 ==> at == TrialAt::Ended
        }),
{
}

} // verus!
