//! Programs that try the services out: one borrows a page from the memory service, the other goes
//! through the life of a file. Each shows a mark when all of it went as it should, and ends without
//! one when something did not.

use vstd::prelude::*;
use crate::bytes::{le64_at, same};
use crate::shm::SHM_LEN;
use crate::space::MAX_SHMS;
use crate::syscall::{
    SYSCALL_CAP_DUP, SYSCALL_EXIT, SYSCALL_IPC_RECV, SYSCALL_MEM_GRANT, SYSCALL_MEM_MAP,
    SYSCALL_SERVICE_CONNECT, SYSCALL_SHM_MAP,
};
use crate::user::{
    call, is_shared, name_field, name_to_words, reply_op, sending, sys_cap_dup, sys_exit,
    sys_ipc_recv, sys_ipc_send, sys_mem_grant, sys_mem_map, sys_service_connect, sys_shm_map,
    Call, Words, CLIENT_IPC_SLOT, CLIENT_PAGE_SLOT, CLIENT_SHM_SLOT, MAGIC, MARKER,
    MEMORY_SERVICE_ID, MEM_VA, OP_ALLOC, OP_FREE, OP_FS_CLOSE, OP_FS_OPEN, OP_FS_READ,
    OP_FS_UNLINK, OP_FS_WRITE, OP_REPLY_FLAG, RAMFS_SERVICE_ID, SERVER_ACCEPT_SLOT,
    SERVER_SHM_SLOT, USER_ERR_EBADF, USER_ERR_EEXIST, USER_ERR_EINVAL,
};

verus! {

/// What a client of the memory service waits for.
#[derive(Debug, Clone, Copy, PartialEq, Eq, Structural)]
pub enum BorrowAt {
    Connecting,
    Asking,
    Awaiting,
    Mapping,
    Trying,
    Offering,
    Placing,
    Returning,
    Ended,
}

/// What a client of the memory service does next.
#[derive(Debug, Clone, Copy, PartialEq, Eq, Structural)]
pub enum BorrowNext {
    /// Make a system call.
    Call(Call),
    /// Write a word at an address, and read it back.
    Try(u64, u64),
    /// Show a mark, and end.
    Finish(u64),
}

/// What a client does next, where `b` came back. After a trial, `b.a0` is the word that was read.
pub open spec fn borrow_next(at: BorrowAt, b: Words, argc: u64) -> (BorrowAt, BorrowNext) {
    let end = (BorrowAt::Ended, BorrowNext::Call(call(SYSCALL_EXIT, 0, 0, 0)));
    let hear = BorrowNext::Call(call(SYSCALL_IPC_RECV, CLIENT_IPC_SLOT, 0, 0));
    match at {
        BorrowAt::Connecting => if b.a0 != 0 {
            end
        } else {
            (
                BorrowAt::Asking,
                BorrowNext::Call(
                    sending(CLIENT_IPC_SLOT, seq![OP_ALLOC, CLIENT_PAGE_SLOT, 0, 0, 0]),
                ),
            )
        },
        BorrowAt::Asking => if b.a0 != 0 {
            end
        } else {
            (BorrowAt::Awaiting, hear)
        },
        BorrowAt::Awaiting => if b.a0 != 0 || b.a1 != reply_op(OP_ALLOC) || b.a2 != 0 {
            end
        } else {
            (
                BorrowAt::Mapping,
                BorrowNext::Call(call(SYSCALL_MEM_MAP, CLIENT_PAGE_SLOT, MEM_VA, 0)),
            )
        },
        BorrowAt::Mapping => if b.a0 != 0 {
            end
        } else {
            (BorrowAt::Trying, BorrowNext::Try(MEM_VA, MAGIC))
        },
        BorrowAt::Trying => if b.a0 != MAGIC {
            end
        } else {
            (
                BorrowAt::Offering,
                BorrowNext::Call(
                    sending(CLIENT_IPC_SLOT, seq![OP_FREE, CLIENT_PAGE_SLOT, 0, 0, 0]),
                ),
            )
        },
        BorrowAt::Offering => if b.a0 != 0 {
            end
        } else {
            (BorrowAt::Placing, hear)
        },
        BorrowAt::Placing => if b.a0 != 0 || b.a1 != reply_op(OP_FREE) || b.a2 != 0 {
            end
        } else {
            (
                BorrowAt::Returning,
                BorrowNext::Call(call(SYSCALL_MEM_GRANT, CLIENT_PAGE_SLOT, CLIENT_IPC_SLOT, b.a3)),
            )
        },
        BorrowAt::Returning => if b.a0 != 0 {
            end
        } else {
            (BorrowAt::Ended, BorrowNext::Finish(MARKER | argc))
        },
        BorrowAt::Ended => end,
    }
}

/// A client of the memory service.
#[derive(Debug, Clone, Copy)]
pub struct Borrower {
    pub at: BorrowAt,
    pub argc: u64,
}

impl Borrower {
    /// Starts, and connects to the service.
    pub fn start(argc: u64) -> (r: (Borrower, Call))
        ensures
            r.0 == (Borrower { at: BorrowAt::Connecting, argc }),
            r.1 == call(
                SYSCALL_SERVICE_CONNECT,
                MEMORY_SERVICE_ID,
                CLIENT_IPC_SLOT,
                SERVER_ACCEPT_SLOT,
            ),
    {
        (
            Borrower { at: BorrowAt::Connecting, argc },
            sys_service_connect(MEMORY_SERVICE_ID, CLIENT_IPC_SLOT, SERVER_ACCEPT_SLOT),
        )
    }

    /// Ends without a mark.
    fn end(&mut self) -> (r: BorrowNext)
        ensures
            final(self).at == BorrowAt::Ended,
            final(self).argc == old(self).argc,
            r == BorrowNext::Call(call(SYSCALL_EXIT, 0, 0, 0)),
    {
        self.at = BorrowAt::Ended;
        BorrowNext::Call(sys_exit())
    }

    /// Goes on where `b` came back: what comes next.
    pub fn step(&mut self, b: Words) -> (r: BorrowNext)
        ensures
            (final(self).at, r) == borrow_next(old(self).at, b, old(self).argc),
            final(self).argc == old(self).argc,
    {
        match self.at {
            BorrowAt::Connecting => {
                if b.a0 != 0 {
                    return self.end();
                }
                self.at = BorrowAt::Asking;
                BorrowNext::Call(
                    sys_ipc_send(CLIENT_IPC_SLOT, &[OP_ALLOC, CLIENT_PAGE_SLOT, 0, 0, 0]),
                )
            },
            BorrowAt::Asking => {
                if b.a0 != 0 {
                    return self.end();
                }
                self.at = BorrowAt::Awaiting;
                BorrowNext::Call(sys_ipc_recv(CLIENT_IPC_SLOT))
            },
            BorrowAt::Awaiting => {
                if b.a0 != 0 || b.a1 != OP_ALLOC | OP_REPLY_FLAG || b.a2 != 0 {
                    return self.end();
                }
                self.at = BorrowAt::Mapping;
                BorrowNext::Call(sys_mem_map(CLIENT_PAGE_SLOT, MEM_VA))
            },
            BorrowAt::Mapping => {
                if b.a0 != 0 {
                    return self.end();
                }
                self.at = BorrowAt::Trying;
                BorrowNext::Try(MEM_VA, MAGIC)
            },
            BorrowAt::Trying => {
                if b.a0 != MAGIC {
                    return self.end();
                }
                self.at = BorrowAt::Offering;
                BorrowNext::Call(
                    sys_ipc_send(CLIENT_IPC_SLOT, &[OP_FREE, CLIENT_PAGE_SLOT, 0, 0, 0]),
                )
            },
            BorrowAt::Offering => {
                if b.a0 != 0 {
                    return self.end();
                }
                self.at = BorrowAt::Placing;
                BorrowNext::Call(sys_ipc_recv(CLIENT_IPC_SLOT))
            },
            BorrowAt::Placing => {
                if b.a0 != 0 || b.a1 != OP_FREE | OP_REPLY_FLAG || b.a2 != 0 {
                    return self.end();
                }
                self.at = BorrowAt::Returning;
                BorrowNext::Call(sys_mem_grant(CLIENT_PAGE_SLOT, CLIENT_IPC_SLOT, b.a3))
            },
            BorrowAt::Returning => {
                if b.a0 != 0 {
                    return self.end();
                }
                self.at = BorrowAt::Ended;
                BorrowNext::Finish(MARKER | self.argc)
            },
            BorrowAt::Ended => self.end(),
        }
    }
}

/// The client shows its mark only once it has returned the page.
pub proof fn law_mark_means_returned(at: BorrowAt, b: Words, argc: u64)
    ensures
        borrow_next(at, b, argc).1 is Finish <==> at == BorrowAt::Returning && b.a0 == 0,
{
}

/// "test.txt"
pub open spec fn test_name() -> Seq<u8> {
    seq![0x74u8, 0x65, 0x73, 0x74, 0x2e, 0x74, 0x78, 0x74]
}

/// "hello ramfs"
pub open spec fn payload() -> Seq<u8> {
    seq![0x68u8, 0x65, 0x6c, 0x6c, 0x6f, 0x20, 0x72, 0x61, 0x6d, 0x66, 0x73]
}

/// Length of [`payload`].
pub const PAYLOAD_LEN: u64 = 11;

/// A file number that no file has.
pub const BAD_FD: u64 = 99;

/// What a client of the file service asks for, one after the other.
#[derive(Debug, Clone, Copy, PartialEq, Eq, Structural)]
pub enum Trial {
    /// Make the file.
    Open,
    /// Read it while it is empty.
    ReadEmpty,
    /// Open it a second time.
    OpenAgain,
    /// Read a file that is not there.
    ReadBad,
    /// Write behind the end of the page.
    WriteFar,
    /// Write the payload.
    Write,
    /// Read it back.
    Read,
    /// Close the file.
    Close,
    /// Remove the file.
    Unlink,
}

/// What a client of the file service waits for.
#[derive(Debug, Clone, Copy, PartialEq, Eq, Structural)]
pub enum TrialAt {
    Connecting,
    Copying,
    Sharing,
    /// A request was sent.
    Sending(Trial),
    /// Its reply has yet to come.
    Hearing(Trial),
    /// What was read back is in the shared page.
    Comparing,
    Ended,
}

/// What a client of the file service does next.
#[derive(Debug, Clone, Copy, PartialEq, Eq, Structural)]
pub enum TrialNext {
    /// Make a system call.
    Call(Call),
    /// Put the payload at the start of the shared page, and make a system call.
    Put(Call),
    /// Look whether the shared page begins with the payload.
    Compare,
    /// Show a mark, and end.
    Finish(u64),
}

/// A request of the file service, with its arguments.
pub open spec fn trial_request(t: Trial, fd: u64) -> Seq<u64> {
    let f = name_field(test_name());
    let open = seq![
        OP_FS_OPEN,
        8u64,
        le64_at(f, 0) as u64,
        le64_at(f, 8) as u64,
        le64_at(f, 16) as u64,
    ];
    match t {
        Trial::Open => open,
        Trial::ReadEmpty => seq![OP_FS_READ, fd, 0, 16, 0],
        Trial::OpenAgain => open,
        Trial::ReadBad => seq![OP_FS_READ, BAD_FD, 0, 1, 0],
        Trial::WriteFar => seq![OP_FS_WRITE, fd, 4095, 2, 0],
        Trial::Write => seq![OP_FS_WRITE, fd, 0, PAYLOAD_LEN, 0],
        Trial::Read => seq![OP_FS_READ, fd, 0, PAYLOAD_LEN, 0],
        Trial::Close => seq![OP_FS_CLOSE, fd, 0, 0, 0],
        Trial::Unlink => seq![OP_FS_UNLINK, fd, 0, 0, 0],
    }
}

/// The reply is the one that the request should get.
pub open spec fn trial_passes(t: Trial, fd: u64, b: Words) -> bool {
    &&& b.a0 == 0
    &&& b.a1 == reply_op(trial_request(t, fd)[0])
    &&& match t {
        Trial::Open => b.a2 == 0,
        Trial::ReadEmpty => b.a2 == 0 && b.a3 == 0,
        Trial::OpenAgain => b.a2 == USER_ERR_EEXIST,
        Trial::ReadBad => b.a2 == USER_ERR_EBADF,
        Trial::WriteFar => b.a2 == USER_ERR_EINVAL,
        Trial::Write => b.a2 == 0 && b.a3 == PAYLOAD_LEN,
        Trial::Read => b.a2 == 0 && b.a3 == PAYLOAD_LEN,
        Trial::Close => b.a2 == 0,
        Trial::Unlink => b.a2 == 0,
    }
}

/// The request that comes after this one.
pub open spec fn trial_after(t: Trial) -> Option<Trial> {
    match t {
        Trial::Open => Some(Trial::ReadEmpty),
        Trial::ReadEmpty => Some(Trial::OpenAgain),
        Trial::OpenAgain => Some(Trial::ReadBad),
        Trial::ReadBad => Some(Trial::WriteFar),
        Trial::WriteFar => Some(Trial::Write),
        Trial::Write => Some(Trial::Read),
        Trial::Read => Some(Trial::Close),
        Trial::Close => Some(Trial::Unlink),
        Trial::Unlink => None,
    }
}

/// Sending a request.
pub open spec fn trial_sends(t: Trial, fd: u64) -> (TrialAt, TrialNext) {
    let c = sending(CLIENT_IPC_SLOT, trial_request(t, fd));
    (
        TrialAt::Sending(t),
        if t == Trial::Write {
            TrialNext::Put(c)
        } else {
            TrialNext::Call(c)
        },
    )
}

/// The end without a mark.
pub open spec fn trial_ends() -> (TrialAt, TrialNext) {
    (TrialAt::Ended, TrialNext::Call(call(SYSCALL_EXIT, 0, 0, 0)))
}

/// What a client of the file service does next, where `b` came back: what it waits for, the number
/// of its file, and what it does.
pub open spec fn trial_next(at: TrialAt, fd: u64, argc: u64, b: Words) -> (TrialAt, u64, TrialNext) {
    let end = (trial_ends().0, fd, trial_ends().1);
    match at {
        TrialAt::Connecting => if b.a0 != 0 {
            end
        } else {
            (
                TrialAt::Copying,
                fd,
                TrialNext::Call(call(SYSCALL_CAP_DUP, CLIENT_IPC_SLOT, CLIENT_SHM_SLOT, 0)),
            )
        },
        TrialAt::Copying => if b.a0 != 0 {
            end
        } else {
            (
                TrialAt::Sharing,
                fd,
                TrialNext::Call(call(SYSCALL_SHM_MAP, CLIENT_SHM_SLOT, SERVER_SHM_SLOT, SHM_LEN)),
            )
        },
        TrialAt::Sharing => if !is_shared(b.a0) {
            end
        } else {
            let s = trial_sends(Trial::Open, fd);
            (s.0, fd, s.1)
        },
        TrialAt::Sending(t) => if b.a0 != 0 {
            end
        } else {
            (
                TrialAt::Hearing(t),
                fd,
                TrialNext::Call(call(SYSCALL_IPC_RECV, CLIENT_IPC_SLOT, 0, 0)),
            )
        },
        TrialAt::Hearing(t) => if !trial_passes(t, fd, b) {
            end
        } else if t == Trial::Read {
            (TrialAt::Comparing, fd, TrialNext::Compare)
        } else {
            let g = if t == Trial::Open {
                b.a3
            } else {
                fd
            };
            match trial_after(t) {
                Some(u) => (trial_sends(u, g).0, g, trial_sends(u, g).1),
                None => (TrialAt::Ended, g, TrialNext::Finish(MARKER | argc)),
            }
        },
        TrialAt::Comparing => end,
        TrialAt::Ended => end,
    }
}

/// A client of the file service: what it waits for, its file, and its number of arguments.
#[derive(Debug, Clone, Copy)]
pub struct FileTrial {
    pub at: TrialAt,
    pub fd: u64,
    pub argc: u64,
}

impl FileTrial {
    /// Starts, and connects to the service.
    pub fn start(argc: u64) -> (r: (FileTrial, Call))
        ensures
            r.0 == (FileTrial { at: TrialAt::Connecting, fd: 0, argc }),
            r.1 == call(
                SYSCALL_SERVICE_CONNECT,
                RAMFS_SERVICE_ID,
                CLIENT_IPC_SLOT,
                SERVER_ACCEPT_SLOT,
            ),
    {
        (
            FileTrial { at: TrialAt::Connecting, fd: 0, argc },
            sys_service_connect(RAMFS_SERVICE_ID, CLIENT_IPC_SLOT, SERVER_ACCEPT_SLOT),
        )
    }

    /// The words of a request.
    fn words(t: Trial, fd: u64) -> (r: [u64; 5])
        ensures
            r@ == trial_request(t, fd),
    {
        let r: [u64; 5] = match t {
            Trial::Open | Trial::OpenAgain => {
                let name: [u8; 8] = [0x74, 0x65, 0x73, 0x74, 0x2e, 0x74, 0x78, 0x74];
                assert(name@ =~= test_name());
                let (w, n) = name_to_words(&name);
                assert(w@[0] == le64_at(name_field(test_name()), 0));
                assert(w@[1] == le64_at(name_field(test_name()), 8));
                assert(w@[2] == le64_at(name_field(test_name()), 16));
                [OP_FS_OPEN, n, w[0], w[1], w[2]]
            },
            Trial::ReadEmpty => [OP_FS_READ, fd, 0, 16, 0],
            Trial::ReadBad => [OP_FS_READ, BAD_FD, 0, 1, 0],
            Trial::WriteFar => [OP_FS_WRITE, fd, 4095, 2, 0],
            Trial::Write => [OP_FS_WRITE, fd, 0, PAYLOAD_LEN, 0],
            Trial::Read => [OP_FS_READ, fd, 0, PAYLOAD_LEN, 0],
            Trial::Close => [OP_FS_CLOSE, fd, 0, 0, 0],
            Trial::Unlink => [OP_FS_UNLINK, fd, 0, 0, 0],
        };
        assert(r@ =~= trial_request(t, fd));
        r
    }

    /// Sends a request.
    fn fs_request(&mut self, t: Trial) -> (r: TrialNext)
        ensures
            (final(self).at, r) == trial_sends(t, old(self).fd),
            final(self).fd == old(self).fd,
            final(self).argc == old(self).argc,
    {
        self.at = TrialAt::Sending(t);
        let m = Self::words(t, self.fd);
        let c = sys_ipc_send(CLIENT_IPC_SLOT, &m);
        if t == Trial::Write {
            TrialNext::Put(c)
        } else {
            TrialNext::Call(c)
        }
    }

    /// The reply is the one that the request should get.
    fn fs_result(&self, t: Trial, b: Words) -> (r: bool)
        ensures
            r == trial_passes(t, self.fd, b),
    {
        let m = Self::words(t, self.fd);
        if b.a0 != 0 || b.a1 != m[0] | OP_REPLY_FLAG {
            return false;
        }
        match t {
            Trial::Open => b.a2 == 0,
            Trial::ReadEmpty => b.a2 == 0 && b.a3 == 0,
            Trial::OpenAgain => b.a2 == USER_ERR_EEXIST,
            Trial::ReadBad => b.a2 == USER_ERR_EBADF,
            Trial::WriteFar => b.a2 == USER_ERR_EINVAL,
            Trial::Write => b.a2 == 0 && b.a3 == PAYLOAD_LEN,
            Trial::Read => b.a2 == 0 && b.a3 == PAYLOAD_LEN,
            Trial::Close => b.a2 == 0,
            Trial::Unlink => b.a2 == 0,
        }
    }

    /// Ends without a mark.
    fn end(&mut self) -> (r: TrialNext)
        ensures
            (final(self).at, r) == trial_ends(),
            final(self).fd == old(self).fd,
            final(self).argc == old(self).argc,
    {
        self.at = TrialAt::Ended;
        TrialNext::Call(sys_exit())
    }

    /// Goes on where `b` came back: what comes next.
    pub fn step(&mut self, b: Words) -> (r: TrialNext)
        ensures
            (final(self).at, final(self).fd, r) == trial_next(
                old(self).at,
                old(self).fd,
                old(self).argc,
                b,
            ),
            final(self).argc == old(self).argc,
    {
        match self.at {
            TrialAt::Connecting => {
                if b.a0 != 0 {
                    return self.end();
                }
                self.at = TrialAt::Copying;
                TrialNext::Call(sys_cap_dup(CLIENT_IPC_SLOT, CLIENT_SHM_SLOT))
            },
            TrialAt::Copying => {
                if b.a0 != 0 {
                    return self.end();
                }
                self.at = TrialAt::Sharing;
                TrialNext::Call(sys_shm_map(CLIENT_SHM_SLOT, SERVER_SHM_SLOT, SHM_LEN))
            },
            TrialAt::Sharing => {
                if b.a0 >= MAX_SHMS as u64 {
                    return self.end();
                }
                self.fs_request(Trial::Open)
            },
            TrialAt::Sending(t) => {
                if b.a0 != 0 {
                    return self.end();
                }
                self.at = TrialAt::Hearing(t);
                TrialNext::Call(sys_ipc_recv(CLIENT_IPC_SLOT))
            },
            TrialAt::Hearing(t) => {
                if !self.fs_result(t, b) {
                    return self.end();
                }
                match t {
                    Trial::Open => {
                        self.fd = b.a3;
                        self.fs_request(Trial::ReadEmpty)
                    },
                    Trial::ReadEmpty => self.fs_request(Trial::OpenAgain),
                    Trial::OpenAgain => self.fs_request(Trial::ReadBad),
                    Trial::ReadBad => self.fs_request(Trial::WriteFar),
                    Trial::WriteFar => self.fs_request(Trial::Write),
                    Trial::Write => self.fs_request(Trial::Read),
                    Trial::Read => {
                        self.at = TrialAt::Comparing;
                        TrialNext::Compare
                    },
                    Trial::Close => self.fs_request(Trial::Unlink),
                    Trial::Unlink => {
                        self.at = TrialAt::Ended;
                        TrialNext::Finish(MARKER | self.argc)
                    },
                }
            },
            TrialAt::Comparing => self.end(),
            TrialAt::Ended => self.end(),
        }
    }

    /// Goes on once the first bytes of the shared page were looked at.
    pub fn compare(&mut self, window: &[u8]) -> (r: TrialNext)
        ensures
            (final(self).at, r) == if old(self).at == TrialAt::Comparing && window@ == payload() {
                trial_sends(Trial::Close, old(self).fd)
            } else {
                trial_ends()
            },
            final(self).fd == old(self).fd,
            final(self).argc == old(self).argc,
    {
        let want: [u8; 11] = [0x68, 0x65, 0x6c, 0x6c, 0x6f, 0x20, 0x72, 0x61, 0x6d, 0x66, 0x73];
        assert(want@ =~= payload());
        if self.at == TrialAt::Comparing && same(window, &want) {
            self.fs_request(Trial::Close)
        } else {
            self.end()
        }
    }
}

/// The client shows its mark only once its file was removed.
pub proof fn law_mark_means_removed(at: TrialAt, fd: u64, argc: u64, b: Words)
    ensures
        trial_next(at, fd, argc, b).2 is Finish <==> at == TrialAt::Hearing(Trial::Unlink)
            && trial_passes(Trial::Unlink, fd, b),
{
}

} // verus!
