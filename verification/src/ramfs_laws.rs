//! What the file service is for: what a client reads, writes, opens, closes and removes.

use vstd::prelude::*;
use crate::ramfs::{
    free_at, fs_next, lemma_free_at, lemma_named_at, named_at, Copying, FileState, FileView, FsAt,
    FsNext, FsView,
};
use crate::shm::SHM_VA;
use crate::syscall::{
    SYSCALL_IPC_RECV, SYSCALL_IPC_SEND, SYSCALL_MEM_GRANT, SYSCALL_MEM_MAP, SYS_ERR_EBADF,
    SYS_ERR_EEXIST, SYS_ERR_EINVAL, SYS_ERR_ENOMEM,
};
use crate::user::{
    name_in, word_byte, Call, Words, OP_ALLOC, OP_FREE, OP_FS_CLOSE, OP_FS_OPEN, OP_FS_READ,
    OP_FS_UNLINK, OP_FS_WRITE,
};

verus! {

/// The client of slot 0 is told a status and a result, in reply to a request.
pub open spec fn tells(c: Call, op: u64, status: u64, result: u64) -> bool {
    c == (Call {
        num: SYSCALL_IPC_SEND,
        args: Words { a0: 0, a1: op | 0x80, a2: status, a3: result, a4: 0, a5: 0 },
    })
}

/// Address of the page of a file.
pub open spec fn page_of(fd: int) -> int {
    0x7400_0000 + 4096 * fd
}

/// Memory after what is to be copied was copied.
pub open spec fn after(m: spec_fn(int) -> u8, c: Option<Copying>) -> spec_fn(int) -> u8 {
    |a: int|
        if c is Some && c->0.to <= a < c->0.to + c->0.len {
            m(c->0.from + (a - c->0.to))
        } else {
            m(a)
        }
}

/// What a file holds.
pub open spec fn content(f: Seq<FileView>, m: spec_fn(int) -> u8, fd: int) -> Seq<u8> {
    Seq::new(f[fd].size as nat, |k: int| m(page_of(fd) + k))
}

/// A request that has come.
pub open spec fn asks(op: u64, a2: u64, a3: u64, a4: u64, a5: u64) -> Words {
    Words { a0: 0, a1: op, a2, a3, a4, a5 }
}

/// There is a file of this number, and it is open.
pub open spec fn opened_file(v: FsView, fd: u64) -> bool {
    fd < 4 && v.files[fd as int].state == FileState::Open
}

/// Law: a write into an open file puts the client's bytes where they are meant to be and leaves all
/// other bytes of the file as they were; the file gets longer where the bytes reach past its end,
/// and never shorter. The other files keep what they hold, and the client learns how many bytes
/// were taken.
pub proof fn law_write_replaces_bytes(
    v: FsView,
    fd: u64,
    offset: u64,
    len: u64,
    a5: u64,
    m: spec_fn(int) -> u8,
)
    requires
        v.wf(),
        v.at == FsAt::Receiving,
        opened_file(v, fd),
        offset < 4096,
        offset + len <= 4096,
    ensures
        ({
            let (w, n) = fs_next(v, asks(OP_FS_WRITE, fd, offset, len, a5));
            let old = content(v.files, m, fd as int);
            let new = content(w.files, after(m, n.copy), fd as int);
            &&& tells(n.call, OP_FS_WRITE, 0, len)
            &&& w.at == FsAt::Answering
            &&& new.len() == if old.len() < offset + len {
                (offset + len) as nat
            } else {
                old.len()
            }
            &&& forall|k: int|
                0 <= k < len ==> #[trigger] new[offset + k] == m(SHM_VA + k)
            &&& forall|k: int|
                0 <= k < old.len() && !(offset <= k < offset + len) ==> #[trigger] new[k] == old[k]
            &&& w.files[fd as int].name == v.files[fd as int].name
            &&& w.files[fd as int].state == FileState::Open
            &&& w.files.len() == v.files.len()
            &&& forall|j: int|
                0 <= j < 4 && j != fd ==> #[trigger] w.files[j] == v.files[j] && content(
                    w.files,
                    after(m, n.copy),
                    j,
                ) == content(v.files, m, j)
        }),
{
    let (w, n) = fs_next(v, asks(OP_FS_WRITE, fd, offset, len, a5));
    assert(v.files.len() == 4);
    let e = v.files[fd as int];
    assert(e.size <= 4096);
    assert(n.copy == Some(
        Copying { from: SHM_VA, to: (page_of(fd as int) + offset) as u64, len },
    ));
    assert forall|j: int| 0 <= j < 4 && j != fd implies #[trigger] w.files[j] == v.files[j] && content(
        w.files,
        after(m, n.copy),
        j,
    ) == content(v.files, m, j) by {
        assert(v.files[j].size <= 4096);
        assert(content(w.files, after(m, n.copy), j) =~= content(v.files, m, j));
    }
}

/// Law: a read of an open file gives the client the bytes of the file from the offset on, as many as
/// it wants and the file has, at the start of the shared page, and tells it how many these are. The
/// files and what they hold stay.
pub proof fn law_read_gives_content(
    v: FsView,
    fd: u64,
    offset: u64,
    len: u64,
    a5: u64,
    m: spec_fn(int) -> u8,
)
    requires
        v.wf(),
        v.at == FsAt::Receiving,
        opened_file(v, fd),
    ensures
        ({
            let (w, n) = fs_next(v, asks(OP_FS_READ, fd, offset, len, a5));
            let c = content(v.files, m, fd as int);
            let got = if offset >= c.len() {
                0
            } else if len < c.len() - offset {
                len as int
            } else {
                c.len() - offset
            };
            &&& tells(n.call, OP_FS_READ, 0, got as u64)
            &&& w == (FsView { at: FsAt::Answering, ..v })
            &&& forall|k: int| 0 <= k < got ==> (#[trigger] after(m, n.copy)(SHM_VA + k)) == c[offset + k]
            &&& forall|a: int|
                !(SHM_VA <= a < SHM_VA + got) ==> (#[trigger] after(m, n.copy)(a)) == m(a)
            &&& forall|j: int|
                0 <= j < 4 ==> #[trigger] content(w.files, after(m, n.copy), j) == content(
                    v.files,
                    m,
                    j,
                )
        }),
{
    let (w, n) = fs_next(v, asks(OP_FS_READ, fd, offset, len, a5));
    assert(v.files.len() == 4);
    assert(v.files[fd as int].size <= 4096);
    assert forall|j: int| 0 <= j < 4 implies #[trigger] content(w.files, after(m, n.copy), j)
        == content(v.files, m, j) by {
        assert(v.files[j].size <= 4096);
        assert(content(w.files, after(m, n.copy), j) =~= content(v.files, m, j));
    }
}

/// Law: reading, writing and closing need a file that is open, and a write has to fit in the file's
/// page; else the client is told why not, nothing is copied and no file changes.
pub proof fn law_bad_requests_change_nothing(
    v: FsView,
    op: u64,
    fd: u64,
    offset: u64,
    len: u64,
    a5: u64,
)
    requires
        v.wf(),
        v.at == FsAt::Receiving,
    ensures
        ({
            let (w, n) = fs_next(v, asks(op, fd, offset, len, a5));
            &&& (op == OP_FS_READ || op == OP_FS_WRITE || op == OP_FS_CLOSE) && !opened_file(v, fd)
                ==> tells(n.call, op, SYS_ERR_EBADF, 0) && n.copy is None && w.files == v.files
                && w.at == FsAt::Answering
            &&& op == OP_FS_WRITE && opened_file(v, fd) && (offset >= 4096 || offset + len > 4096)
                ==> tells(n.call, op, SYS_ERR_EINVAL, 0) && n.copy is None && w.files == v.files
                && w.at == FsAt::Answering
            &&& op == OP_FS_UNLINK && (fd >= 4 || v.files[fd as int].state == FileState::Free)
                ==> tells(n.call, op, SYS_ERR_EBADF, 0) && n.copy is None && w.files == v.files
                && w.at == FsAt::Answering
            &&& op != OP_FS_OPEN && op != OP_FS_READ && op != OP_FS_WRITE && op != OP_FS_CLOSE && op
                != OP_FS_UNLINK ==> tells(n.call, op, SYS_ERR_EINVAL, 0) && n.copy is None
                && w.files == v.files && w.at == FsAt::Answering
        }),
{
    assert(v.files.len() == 4);
}

/// Law: a file that is closed is not open any more, and keeps its name, its size and its bytes; the
/// other files stay as they are.
pub proof fn law_close_keeps_the_file(v: FsView, fd: u64, a3: u64, a4: u64, a5: u64)
    requires
        v.wf(),
        v.at == FsAt::Receiving,
        opened_file(v, fd),
    ensures
        ({
            let (w, n) = fs_next(v, asks(OP_FS_CLOSE, fd, a3, a4, a5));
            &&& tells(n.call, OP_FS_CLOSE, 0, 0)
            &&& n.copy is None
            &&& w.at == FsAt::Answering
            &&& w.files.len() == v.files.len()
            &&& w.files[fd as int].state == FileState::Closed
            &&& w.files[fd as int].name == v.files[fd as int].name
            &&& w.files[fd as int].size == v.files[fd as int].size
            &&& forall|j: int| 0 <= j < 4 && j != fd ==> #[trigger] w.files[j] == v.files[j]
        }),
{
    assert(v.files.len() == 4);
}

/// The bytes of the name in a request: the first byte is the lowest of the first word.
pub open spec fn asked_name(words: Seq<u64>, len: int) -> Seq<u8> {
    Seq::new(
        len as nat,
        |k: int|
            {
                let w = words[k / 8] as int;
                let p = k % 8;
                (if p == 0 {
                    w % 0x100
                } else if p == 1 {
                    w / 0x100 % 0x100
                } else if p == 2 {
                    w / 0x1_0000 % 0x100
                } else if p == 3 {
                    w / 0x100_0000 % 0x100
                } else if p == 4 {
                    w / 0x1_0000_0000 % 0x100
                } else if p == 5 {
                    w / 0x100_0000_0000 % 0x100
                } else if p == 6 {
                    w / 0x1_0000_0000_0000 % 0x100
                } else {
                    w / 0x100_0000_0000_0000 % 0x100
                }) as u8
            },
    )
}

/// The name that the server reads out of a request is the one that the client put in.
proof fn lemma_asked_name(words: Seq<u64>, len: int)
    requires
        words.len() == 3,
        0 <= len <= 24,
    ensures
        name_in(words, len) == asked_name(words, len),
{
    assert forall|k: int| 0 <= k < len implies name_in(words, len)[k] == #[trigger] asked_name(
        words,
        len,
    )[k] by {
        reveal_with_fuel(word_byte, 9);
        let w = words[k / 8];
        assert(0 <= k % 8 < 8);
    }
    assert(name_in(words, len) =~= asked_name(words, len));
}

/// Law: who opens a file gets the file of that name, with what it holds, if it is there and closed.
/// A file that is open already is refused, and so is a name that is empty or too long.
pub proof fn law_open_finds_the_name(v: FsView, len: u64, words: Seq<u64>, i: int)
    requires
        v.wf(),
        v.at == FsAt::Receiving,
        words.len() == 3,
        len == 0 || len > 24 || (0 <= i < 4 && v.files[i].state != FileState::Free
            && v.files[i].name == asked_name(words, len as int)),
    ensures
        ({
            let (w, n) = fs_next(v, asks(OP_FS_OPEN, len, words[0], words[1], words[2]));
            let good = 0 < len <= 24;
            &&& n.copy is None
            &&& w.at == FsAt::Answering
            &&& w.files.len() == v.files.len()
            &&& !good ==> tells(n.call, OP_FS_OPEN, SYS_ERR_EINVAL, 0) && w.files == v.files
            &&& good && v.files[i].state == FileState::Open ==> tells(
                n.call,
                OP_FS_OPEN,
                SYS_ERR_EEXIST,
                0,
            ) && w.files == v.files
            &&& good && v.files[i].state == FileState::Closed ==> {
                &&& tells(n.call, OP_FS_OPEN, 0, i as u64)
                &&& w.files[i].state == FileState::Open
                &&& w.files[i].name == v.files[i].name
                &&& w.files[i].size == v.files[i].size
                &&& forall|j: int| 0 <= j < 4 && j != i ==> #[trigger] w.files[j] == v.files[j]
            }
        }),
{
    assert(v.files.len() == 4);
    assert(seq![words[0], words[1], words[2]] =~= words);
    if 0 < len <= 24 {
        let name = asked_name(words, len as int);
        lemma_asked_name(words, len as int);
        lemma_named_at(v.files, name, 0);
        let k = named_at(v.files, name, 0);
        if k != i {
            assert(v.files[i].name != v.files[k].name);
        }
    }
}

/// Law: a name that no file has gets the first free place, once the memory service has given a page
/// for it and the page is mapped: an open file of that name, empty. Where no place is free, or no
/// page is to be had, the client is told that there is no memory. No other file changes.
pub proof fn law_new_file_is_made(
    v: FsView,
    len: u64,
    words: Seq<u64>,
    j: int,
    sent: Words,
    got: Words,
    mapped: Words,
)
    requires
        v.wf(),
        v.at == FsAt::Receiving,
        words.len() == 3,
        0 < len <= 24,
        forall|i: int| 0 <= i < 4 ==> (#[trigger] v.files[i]).name != asked_name(words, len as int),
        0 <= j <= 4,
        forall|i: int| 0 <= i < j ==> (#[trigger] v.files[i]).state != FileState::Free,
        j < 4 ==> v.files[j].state == FileState::Free,
    ensures
        ({
            let (w0, n0) = fs_next(v, asks(OP_FS_OPEN, len, words[0], words[1], words[2]));
            let (w1, n1) = fs_next(w0, sent);
            let (w2, n2) = fs_next(w1, got);
            let (w3, n3) = fs_next(w2, mapped);
            let failed = |w: FsView, n: FsNext|
                {
                    &&& tells(n.call, OP_FS_OPEN, SYS_ERR_ENOMEM, 0)
                    &&& n.copy is None
                    &&& w.files == v.files
                    &&& w.at == FsAt::Answering
                };
            &&& j == 4 ==> failed(w0, n0)
            &&& j < 4 ==> {
                &&& n0.copy is None
                &&& w0.files == v.files
                &&& n0.call == (Call {
                    num: SYSCALL_IPC_SEND,
                    args: Words { a0: 2, a1: OP_ALLOC, a2: (3 + j) as u64, a3: 0, a4: 0, a5: 0 },
                })
                &&& sent.a0 != 0 ==> failed(w1, n1)
                &&& sent.a0 == 0 ==> {
                    let ok = got.a0 == 0 && got.a1 == OP_ALLOC | 0x80 && got.a2 == 0;
                    &&& n1.copy is None
                    &&& w1.files == v.files
                    &&& n1.call == (Call {
                        num: SYSCALL_IPC_RECV,
                        args: Words { a0: 2, a1: 0, a2: 0, a3: 0, a4: 0, a5: 0 },
                    })
                    &&& !ok ==> failed(w2, n2)
                    &&& ok ==> {
                        &&& n2.copy is None
                        &&& w2.files == v.files
                        &&& n2.call == (Call {
                            num: SYSCALL_MEM_MAP,
                            args: Words {
                                a0: (3 + j) as u64,
                                a1: page_of(j) as u64,
                                a2: 0,
                                a3: 0,
                                a4: 0,
                                a5: 0,
                            },
                        })
                        &&& mapped.a0 != 0 ==> failed(w3, n3)
                        &&& mapped.a0 == 0 ==> {
                            &&& tells(n3.call, OP_FS_OPEN, 0, j as u64)
                            &&& n3.copy is None
                            &&& w3.at == FsAt::Answering
                            &&& w3.files.len() == 4
                            &&& w3.files[j].state == FileState::Open
                            &&& w3.files[j].name == asked_name(words, len as int)
                            &&& w3.files[j].size == 0
                            &&& forall|i: int|
                                0 <= i < 4 && i != j ==> #[trigger] w3.files[i] == v.files[i]
                        }
                    }
                }
            }
        }),
{
    assert(v.files.len() == 4);
    assert(seq![words[0], words[1], words[2]] =~= words);
    let name = asked_name(words, len as int);
    lemma_asked_name(words, len as int);
    lemma_named_at(v.files, name, 0);
    lemma_free_at(v.files, 0);
    let k = named_at(v.files, name, 0);
    let f = free_at(v.files, 0);
    assert(k == 4) by {
        if k < 4 {
            assert(v.files[k].name == name);
        }
    }
    assert(f == j) by {
        if f < j {
            assert(v.files[f].state == FileState::Free);
        }
        if j < f {
            assert(v.files[j].state != FileState::Free);
        }
    }
}

/// Law: a file that is to be removed, open or closed, is gone once the memory service has said where
/// its page goes and the page was handed over there, and then only. The other files stay, and where
/// that fails so does the file.
pub proof fn law_unlink_gives_the_page_back(
    v: FsView,
    fd: u64,
    a3: u64,
    a4: u64,
    a5: u64,
    sent: Words,
    got: Words,
    granted: Words,
)
    requires
        v.wf(),
        v.at == FsAt::Receiving,
        fd < 4,
        v.files[fd as int].state != FileState::Free,
    ensures
        ({
            let (w0, n0) = fs_next(v, asks(OP_FS_UNLINK, fd, a3, a4, a5));
            let (w1, n1) = fs_next(w0, sent);
            let (w2, n2) = fs_next(w1, got);
            let (w3, n3) = fs_next(w2, granted);
            let failed = |w: FsView, n: FsNext|
                {
                    &&& tells(n.call, OP_FS_UNLINK, SYS_ERR_ENOMEM, 0)
                    &&& n.copy is None
                    &&& w.files == v.files
                    &&& w.at == FsAt::Answering
                };
            &&& n0.copy is None
            &&& w0.files == v.files
            &&& n0.call == (Call {
                num: SYSCALL_IPC_SEND,
                args: Words { a0: 2, a1: OP_FREE, a2: (3 + fd) as u64, a3: 0, a4: 0, a5: 0 },
            })
            &&& sent.a0 != 0 ==> failed(w1, n1)
            &&& sent.a0 == 0 ==> {
                let ok = got.a0 == 0 && got.a1 == OP_FREE | 0x80 && got.a2 == 0;
                &&& n1.copy is None
                &&& w1.files == v.files
                &&& n1.call == (Call {
                    num: SYSCALL_IPC_RECV,
                    args: Words { a0: 2, a1: 0, a2: 0, a3: 0, a4: 0, a5: 0 },
                })
                &&& !ok ==> failed(w2, n2)
                &&& ok ==> {
                    &&& n2.copy is None
                    &&& w2.files == v.files
                    &&& n2.call == (Call {
                        num: SYSCALL_MEM_GRANT,
                        args: Words {
                            a0: (3 + fd) as u64,
                            a1: 2,
                            a2: got.a3,
                            a3: 0,
                            a4: 0,
                            a5: 0,
                        },
                    })
                    &&& granted.a0 != 0 ==> failed(w3, n3)
                    &&& granted.a0 == 0 ==> {
                        &&& tells(n3.call, OP_FS_UNLINK, 0, 0)
                        &&& n3.copy is None
                        &&& w3.at == FsAt::Answering
                        &&& w3.files.len() == 4
                        &&& w3.files[fd as int].state == FileState::Free
                        &&& w3.files[fd as int].name.len() == 0
                        &&& w3.files[fd as int].size == 0
                        &&& forall|i: int|
                            0 <= i < 4 && i != fd ==> #[trigger] w3.files[i] == v.files[i]
                    }
                }
            }
        }),
{
    assert(v.files.len() == 4);
}

/// Law: once a request was answered, and after a receive that failed, the server waits for the next
/// request, with its files as they are.
pub proof fn law_server_goes_on(v: FsView, b: Words)
    requires
        v.at == FsAt::Answering || (v.at == FsAt::Receiving && b.a0 != 0) || (v.at
            == FsAt::Connecting && b.a0 == 0),
    ensures
        fs_next(v, b) == (
            FsView { at: FsAt::Receiving, ..v },
            FsNext {
                copy: None,
                call: Call {
                    num: SYSCALL_IPC_RECV,
                    args: Words { a0: 0, a1: 0, a2: 0, a3: 0, a4: 0, a5: 0 },
                },
            },
        ),
{
}

} // verus!
