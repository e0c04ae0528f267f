//! What the UART service is for: what a client gets for each of its requests.

use vstd::prelude::*;
use crate::syscall::{SYSCALL_EXIT, SYSCALL_IPC_RECV, SYSCALL_IPC_SEND, SYSCALL_SERVICE_REGISTER};
use crate::syscall::SYS_ERR_EINVAL;
use crate::uart_server::{uart_next, UartAt, UartEvent, UartNext};
use crate::user::{Call, Words, OP_PING, OP_READ, OP_WRITE, UART_SERVICE_ID};

verus! {

/// The client of slot 0 is told a status and a length, in reply to a request.
pub open spec fn tells(n: UartNext, op: u64, status: u64, len: u64) -> bool {
    n == UartNext::Call(
        Call {
            num: SYSCALL_IPC_SEND,
            args: Words { a0: 0, a1: op | 0x80, a2: status, a3: len, a4: 0, a5: 0 },
        },
    )
}

/// The server waits for the next request, of its client in slot 0 or of anyone.
pub open spec fn waits(r: (UartAt, UartNext)) -> bool {
    r == (
        UartAt::Receiving,
        UartNext::Call(
            Call {
                num: SYSCALL_IPC_RECV,
                args: Words { a0: 0, a1: 0, a2: 0, a3: 0, a4: 0, a5: 0 },
            },
        ),
    )
}

/// A request that has come.
pub open spec fn asks(op: u64, len: u64, a3: u64, a4: u64, a5: u64) -> UartEvent {
    UartEvent::Back(Words { a0: 0, a1: op, a2: len, a3, a4, a5 })
}

/// The server at work against a device in which `input` waits, with `page` as the shared page, for
/// so many steps, or until it makes a system call: the call, what still waits, and the page.
/// `status` is what the line status reads when so many bytes wait.
pub open spec fn run(
    r: (UartAt, UartNext),
    input: Seq<u8>,
    page: Seq<u8>,
    status: spec_fn(int) -> u8,
    steps: nat,
) -> (UartNext, Seq<u8>, Seq<u8>)
    decreases steps,
{
    if steps == 0 {
        (r.1, input, page)
    } else {
        match r.1 {
            UartNext::Look => run(
                uart_next(r.0, UartEvent::Status(status(input.len() as int))),
                input,
                page,
                status,
                (steps - 1) as nat,
            ),
            UartNext::Take(k) => run(
                uart_next(r.0, UartEvent::Done),
                input.skip(1),
                page.update(k as int, input[0]),
                status,
                (steps - 1) as nat,
            ),
            _ => (r.1, input, page),
        }
    }
}

/// The smallest of the number of bytes that are wanted, that wait, and that the page holds.
pub open spec fn readable(len: u64, waiting: int) -> int {
    if len <= waiting && len <= 4096 {
        len as int
    } else if waiting <= 4096 {
        waiting
    } else {
        4096
    }
}

/// What is left of a read, once `n` bytes were taken.
proof fn lemma_run(
    n: u64,
    max: u64,
    input: Seq<u8>,
    page: Seq<u8>,
    status: spec_fn(int) -> u8,
    steps: nat,
)
    requires
        n < max <= 4096,
        page.len() == 4096,
        forall|k: int| k >= 0 ==> ((#[trigger] status(k)) & 1 != 0 <==> k > 0),
        steps >= 2 * input.len() + 2,
    ensures
        ({
            let m = if input.len() <= max - n {
                input.len() as int
            } else {
                max - n
            };
            let (call, rest, after) = run(
                (UartAt::Polling(n, max), UartNext::Look),
                input,
                page,
                status,
                steps,
            );
            &&& tells(call, OP_READ, 0, (n + m) as u64)
            &&& rest == input.skip(m)
            &&& after.len() == 4096
            &&& forall|k: int|
                0 <= k < 4096 ==> #[trigger] after[k] == if n <= k < n + m {
                    input[k - n]
                } else {
                    page[k]
                }
        }),
    decreases input.len(),
{
    let r = (UartAt::Polling(n, max), UartNext::Look);
    let at = uart_next(UartAt::Polling(n, max), UartEvent::Status(status(input.len() as int)));
    let s1 = (steps - 1) as nat;
    assert(run(r, input, page, status, steps) == run(at, input, page, status, s1));
    if input.len() == 0 {
        assert(tells(at.1, OP_READ, 0, n));
        assert(input.skip(0) =~= input);
    } else {
        let s2 = (steps - 2) as nat;
        assert(at == (UartAt::Taking(n, max), UartNext::Take(n)));
        let done = uart_next(at.0, UartEvent::Done);
        let rest = input.skip(1);
        let next = page.update(n as int, input[0]);
        assert(run(at, input, page, status, s1) == run(done, rest, next, status, s2));
        if n + 1 < max {
            assert(done == (UartAt::Polling((n + 1) as u64, max), UartNext::Look));
            lemma_run((n + 1) as u64, max, rest, next, status, s2);
            let m = if input.len() <= max - n {
                input.len() as int
            } else {
                max - n
            };
            assert(rest.skip(m - 1) =~= input.skip(m));
        } else {
            assert(tells(done.1, OP_READ, 0, (n + 1) as u64));
        }
    }
}

/// Law: a read gives the client the bytes that wait in the device, in their order, as many as it
/// wants and the shared page holds; they stand at the start of the page, they are gone from the
/// device, the others still wait, and the reply tells how many they are. Nothing else in the page
/// changes.
pub proof fn law_read_gives_what_waits(
    len: u64,
    a3: u64,
    a4: u64,
    a5: u64,
    input: Seq<u8>,
    page: Seq<u8>,
    status: spec_fn(int) -> u8,
    steps: nat,
)
    requires
        page.len() == 4096,
        forall|k: int| k >= 0 ==> ((#[trigger] status(k)) & 1 != 0 <==> k > 0),
        steps >= 2 * input.len() + 2,
    ensures
        ({
            let n = readable(len, input.len() as int);
            let (call, rest, after) = run(
                uart_next(UartAt::Receiving, asks(OP_READ, len, a3, a4, a5)),
                input,
                page,
                status,
                steps,
            );
            &&& tells(call, OP_READ, 0, n as u64)
            &&& rest == input.skip(n)
            &&& after.len() == 4096
            &&& forall|k: int|
                0 <= k < 4096 ==> #[trigger] after[k] == if k < n {
                    input[k]
                } else {
                    page[k]
                }
        }),
{
    let max = if len < 4096 {
        len
    } else {
        4096
    };
    if max > 0 {
        lemma_run(0, max, input, page, status, steps);
    } else {
        assert(input.skip(0) =~= input);
    }
}

/// Law: of a byte that was taken the server keeps count: it goes on with one byte more, or tells
/// the client of one byte more, and it stops as soon as it has what is wanted.
pub proof fn law_taken_byte_counts(n: u64, max: u64)
    requires
        n < max,
    ensures
        ({
            let (at, next) = uart_next(UartAt::Taking(n, max), UartEvent::Done);
            &&& n + 1 < max ==> at == UartAt::Polling((n + 1) as u64, max) && next == UartNext::Look
            &&& n + 1 == max ==> at == UartAt::Answering && tells(next, OP_READ, 0, max)
        }),
{
}

/// Law: a write prints the bytes from the start of the shared page, as many as it names and the page
/// holds, and then tells the client how many these were.
pub proof fn law_write_prints(len: u64, a3: u64, a4: u64, a5: u64)
    ensures
        ({
            let (at, next) = uart_next(UartAt::Receiving, asks(OP_WRITE, len, a3, a4, a5));
            let n = if len <= 4096 {
                len
            } else {
                4096u64
            };
            let (end, told) = uart_next(at, UartEvent::Done);
            &&& next == UartNext::Print(n)
            &&& end == UartAt::Answering
            &&& tells(told, OP_WRITE, 0, n)
        }),
{
}

/// Law: a server that is there says so; what it does not know it refuses; and neither touches the
/// device.
pub proof fn law_other_requests(op: u64, len: u64, a3: u64, a4: u64, a5: u64)
    requires
        op != OP_READ && op != OP_WRITE,
    ensures
        ({
            let (at, next) = uart_next(UartAt::Receiving, asks(op, len, a3, a4, a5));
            &&& at == UartAt::Answering
            &&& op == OP_PING ==> tells(next, op, 0, 0)
            &&& op != OP_PING ==> tells(next, op, SYS_ERR_EINVAL, 0)
        }),
{
}

/// Law: once a request was answered, and after a receive that failed, the server waits for the next
/// request; it never ends by itself once it has begun to serve.
pub proof fn law_server_goes_on(b: Words)
    ensures
        waits(uart_next(UartAt::Answering, UartEvent::Back(b))),
        b.a0 != 0 ==> waits(uart_next(UartAt::Receiving, UartEvent::Back(b))),
{
}

/// Law: the server offers its service once it has the device, and serves once the service is its
/// own; without either it ends.
pub proof fn law_server_starts(b: Words)
    ensures
        b.a0 == 0 ==> uart_next(UartAt::Mapping, UartEvent::Back(b)) == (
            UartAt::Registering,
            UartNext::Call(
                Call {
                    num: SYSCALL_SERVICE_REGISTER,
                    args: Words { a0: UART_SERVICE_ID, a1: 0, a2: 0, a3: 0, a4: 0, a5: 0 },
                },
            ),
        ),
        b.a0 == 0 ==> waits(uart_next(UartAt::Registering, UartEvent::Back(b))),
        b.a0 != 0 ==> ({
            let end = (
                UartAt::Ended,
                UartNext::Call(
                    Call {
                        num: SYSCALL_EXIT,
                        args: Words { a0: 0, a1: 0, a2: 0, a3: 0, a4: 0, a5: 0 },
                    },
                ),
            );
            &&& uart_next(UartAt::Mapping, UartEvent::Back(b)) == end
            &&& uart_next(UartAt::Registering, UartEvent::Back(b)) == end
        }),
{
}

} // verus!
