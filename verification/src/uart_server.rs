//! The UART service: prints for its client, and reads for it.
//!
//! The server is told what happened and says what comes next: a system call, bytes to print out of
//! the shared page, a look at the device, or a byte to take from it.

use vstd::prelude::*;
use crate::shm::SHM_LEN;
use crate::syscall::{
    SYSCALL_EXIT, SYSCALL_IPC_RECV, SYSCALL_MAP_DEVICE, SYSCALL_SERVICE_REGISTER,
};
use crate::uart::LSR_EMPTY;
use crate::user::{
    answer, call, reply, sending, sys_exit, sys_ipc_recv, sys_map_device, sys_service_register,
    Call, Words, OP_PING, OP_READ, OP_WRITE, PROTO_ERR, SERVER_ACCEPT_SLOT, UART_MMIO_VA,
    UART_SERVICE_ID,
};

verus! {

/// Number of the UART among the devices.
pub const UART_DEVICE: u64 = 0;

/// Bit of the line status: a byte has come.
pub const LSR_READY: u8 = 0x01;

/// The device takes a byte.
pub fn tx_ready(lsr: u8) -> (r: bool)
    ensures
        r == (lsr & LSR_EMPTY != 0),
{
    lsr & LSR_EMPTY != 0
}

/// The device has a byte.
pub fn rx_ready(lsr: u8) -> (r: bool)
    ensures
        r == (lsr & LSR_READY != 0),
{
    lsr & LSR_READY != 0
}

/// What the UART server waits for.
#[derive(Debug, Clone, Copy, PartialEq, Eq, Structural)]
pub enum UartAt {
    /// The device was asked for.
    Mapping,
    /// The service was offered.
    Registering,
    /// A request may come.
    Receiving,
    /// Bytes are being printed.
    Printing(u64),
    /// The device is looked at: how many bytes were taken, and how many are wanted.
    Polling(u64, u64),
    /// A byte is being taken.
    Taking(u64, u64),
    /// A request was answered.
    Answering,
    /// The server has ended.
    Ended,
}

/// What happened.
#[derive(Debug, Clone, Copy, PartialEq, Eq, Structural)]
pub enum UartEvent {
    /// A system call returned.
    Back(Words),
    /// What was to be printed or taken is done.
    Done,
    /// Line status of the device.
    Status(u8),
}

/// What comes next.
#[derive(Debug, Clone, Copy, PartialEq, Eq, Structural)]
pub enum UartNext {
    /// Make a system call.
    Call(Call),
    /// Print so many bytes from the start of the shared page.
    Print(u64),
    /// Look at the line status.
    Look,
    /// Take a byte, and put it at this place of the shared page.
    Take(u64),
}

/// An answer to the client.
pub open spec fn answers(op: u64, status: u64, len: u64) -> (UartAt, UartNext) {
    (UartAt::Answering, UartNext::Call(sending(SERVER_ACCEPT_SLOT, reply(op, status, len))))
}

/// Waiting for a request.
pub open spec fn listens() -> (UartAt, UartNext) {
    (UartAt::Receiving, UartNext::Call(call(SYSCALL_IPC_RECV, SERVER_ACCEPT_SLOT, 0, 0)))
}

/// The end of the server.
pub open spec fn ends() -> (UartAt, UartNext) {
    (UartAt::Ended, UartNext::Call(call(SYSCALL_EXIT, 0, 0, 0)))
}

/// No more than the shared page holds.
pub open spec fn at_most_page(n: u64) -> u64 {
    if n < SHM_LEN {
        n
    } else {
        SHM_LEN
    }
}

/// Taking the next byte, where more are wanted.
pub open spec fn reads_on(n: u64, max: u64) -> (UartAt, UartNext) {
    if n < max {
        (UartAt::Polling(n, max), UartNext::Look)
    } else {
        answers(OP_READ, 0, n)
    }
}

/// What the UART server does when a system call returned `b`.
pub open spec fn uart_back(at: UartAt, b: Words) -> (UartAt, UartNext) {
    match at {
        UartAt::Mapping => if b.a0 != 0 {
            ends()
        } else {
            (
                UartAt::Registering,
                UartNext::Call(call(SYSCALL_SERVICE_REGISTER, UART_SERVICE_ID, 0, 0)),
            )
        },
        UartAt::Registering => if b.a0 != 0 {
            ends()
        } else {
            listens()
        },
        UartAt::Receiving => if b.a0 != 0 {
            listens()
        } else if b.a1 == OP_WRITE {
            (UartAt::Printing(at_most_page(b.a2)), UartNext::Print(at_most_page(b.a2)))
        } else if b.a1 == OP_READ {
            reads_on(0, at_most_page(b.a2))
        } else if b.a1 == OP_PING {
            answers(b.a1, 0, 0)
        } else {
            answers(b.a1, PROTO_ERR, 0)
        },
        UartAt::Ended => ends(),
        _ => listens(),
    }
}

/// What the UART server does next. What does not fit what it waits for makes it listen again.
pub open spec fn uart_next(at: UartAt, e: UartEvent) -> (UartAt, UartNext) {
    match e {
        UartEvent::Back(b) => uart_back(at, b),
        UartEvent::Done => match at {
            UartAt::Printing(n) => answers(OP_WRITE, 0, n),
            UartAt::Taking(n, max) => if n < max {
                reads_on((n + 1) as u64, max)
            } else {
                answers(OP_READ, 0, n)
            },
            UartAt::Ended => ends(),
            _ => listens(),
        },
        UartEvent::Status(lsr) => match at {
            UartAt::Polling(n, max) => if lsr & LSR_READY != 0 {
                (UartAt::Taking(n, max), UartNext::Take(n))
            } else {
                answers(OP_READ, 0, n)
            },
            UartAt::Ended => ends(),
            _ => listens(),
        },
    }
}

/// The UART server.
#[derive(Debug, Clone, Copy)]
pub struct UartServer {
    pub at: UartAt,
}

impl UartServer {
    /// Starts, and asks for the device.
    pub fn start() -> (r: (UartServer, Call))
        ensures
            r.0.at == UartAt::Mapping,
            r.1 == call(SYSCALL_MAP_DEVICE, UART_DEVICE, UART_MMIO_VA, 0),
    {
        (UartServer { at: UartAt::Mapping }, sys_map_device(UART_DEVICE, UART_MMIO_VA))
    }

    /// Answers the client.
    fn answer(&mut self, op: u64, status: u64, len: u64) -> (r: UartNext)
        ensures
            (final(self).at, r) == answers(op, status, len),
    {
        self.at = UartAt::Answering;
        UartNext::Call(answer(op, status, len))
    }

    /// Waits for a request.
    fn listen(&mut self) -> (r: UartNext)
        ensures
            (final(self).at, r) == listens(),
    {
        self.at = UartAt::Receiving;
        UartNext::Call(sys_ipc_recv(SERVER_ACCEPT_SLOT))
    }

    /// Ends.
    fn end(&mut self) -> (r: UartNext)
        ensures
            (final(self).at, r) == ends(),
    {
        self.at = UartAt::Ended;
        UartNext::Call(sys_exit())
    }

    /// Takes the next byte, where more are wanted.
    fn read_on(&mut self, n: u64, max: u64) -> (r: UartNext)
        ensures
            (final(self).at, r) == reads_on(n, max),
    {
        if n < max {
            self.at = UartAt::Polling(n, max);
            UartNext::Look
        } else {
            self.answer(OP_READ, 0, n)
        }
    }

    /// Goes on after a system call.
    fn back(&mut self, b: Words) -> (r: UartNext)
        ensures
            (final(self).at, r) == uart_back(old(self).at, b),
    {
        match self.at {
            UartAt::Mapping => {
                if b.a0 != 0 {
                    return self.end();
                }
                self.at = UartAt::Registering;
                UartNext::Call(sys_service_register(UART_SERVICE_ID))
            },
            UartAt::Registering => {
                if b.a0 != 0 {
                    return self.end();
                }
                self.listen()
            },
            UartAt::Receiving => {
                if b.a0 != 0 {
                    return self.listen();
                }
                let n: u64 = if b.a2 < SHM_LEN { b.a2 } else { SHM_LEN };
                if b.a1 == OP_WRITE {
                    self.at = UartAt::Printing(n);
                    UartNext::Print(n)
                } else if b.a1 == OP_READ {
                    self.read_on(0, n)
                } else if b.a1 == OP_PING {
                    self.answer(b.a1, 0, 0)
                } else {
                    self.answer(b.a1, PROTO_ERR, 0)
                }
            },
            UartAt::Ended => self.end(),
            _ => self.listen(),
        }
    }

    /// Goes on after what happened: what comes next.
    pub fn step(&mut self, e: UartEvent) -> (r: UartNext)
        ensures
            (final(self).at, r) == uart_next(old(self).at, e),
    {
        match e {
            UartEvent::Back(b) => self.back(b),
            UartEvent::Done => match self.at {
                UartAt::Printing(n) => self.answer(OP_WRITE, 0, n),
                UartAt::Taking(n, max) => if n < max {
                    self.read_on(n + 1, max)
                } else {
                    self.answer(OP_READ, 0, n)
                },
                UartAt::Ended => self.end(),
                _ => self.listen(),
            },
            UartEvent::Status(lsr) => match self.at {
                UartAt::Polling(n, max) => if rx_ready(lsr) {
                    self.at = UartAt::Taking(n, max);
                    UartNext::Take(n)
                } else {
                    self.answer(OP_READ, 0, n)
                },
                UartAt::Ended => self.end(),
                _ => self.listen(),
            },
        }
    }
}

/// The server touches no byte behind the shared page, and takes no more bytes than it was asked
/// for.
pub open spec fn within_page(at: UartAt) -> bool {
    match at {
        UartAt::Printing(n) => n <= SHM_LEN,
        UartAt::Polling(n, max) => n < max <= SHM_LEN,
        UartAt::Taking(n, max) => n < max <= SHM_LEN,
        _ => true,
    }
}

/// Whatever happens, the server stays inside the shared page.
pub proof fn law_server_stays_in_page(at: UartAt, e: UartEvent)
    requires
        within_page(at),
    ensures
        within_page(uart_next(at, e).0),
        uart_next(at, e).1 matches UartNext::Print(n) ==> n <= SHM_LEN,
        uart_next(at, e).1 matches UartNext::Take(n) ==> n < SHM_LEN,
{
}

/// Where the device has nothing, a read ends with what was taken so far: it does not wait.
pub proof fn law_read_does_not_wait(n: u64, max: u64, lsr: u8)
    requires
        lsr & LSR_READY == 0,
    ensures
        uart_next(UartAt::Polling(n, max), UartEvent::Status(lsr)) == answers(OP_READ, 0, n),
{
}

} // verus!
