//! The file service: a few files of one page each, kept in memory.
//!
//! The server is told what a system call returned and says what comes next: at most one copy
//! between a file's page and the page shared with the client, and then a system call. Pages come
//! from the memory service and go back to it. A file that is closed keeps its place and its page
//! until it is removed; opening it again gives the same number.

use vstd::prelude::*;
use crate::shm::SHM_VA;
use crate::syscall::{
    SYSCALL_EXIT, SYSCALL_IPC_RECV, SYSCALL_MEM_GRANT, SYSCALL_MEM_MAP, SYSCALL_SERVICE_CONNECT,
    SYSCALL_SERVICE_REGISTER,
};
use crate::user::{
    answer, call, name_from_words, name_in, reply, reply_op, sending, sys_exit, sys_ipc_recv,
    sys_ipc_send, sys_mem_grant, sys_mem_map, sys_service_connect, sys_service_register, Call,
    Words, CLIENT_IPC_SLOT, ERR_ENOMEM, MAX_FILES, MEMORY_SERVICE_ID, NAME_MAX, OP_ALLOC,
    OP_FREE, OP_FS_CLOSE, OP_FS_OPEN, OP_FS_READ, OP_FS_UNLINK, OP_FS_WRITE, OP_REPLY_FLAG,
    PROTO_ERR, RAMFS_FILE_PAGE_START, RAMFS_SERVICE_ID, RAMFS_VA, SERVER_ACCEPT_SLOT,
    USER_ERR_EBADF, USER_ERR_EEXIST, USER_ERR_EINVAL,
};

verus! {

/// Bytes of a file's page.
pub const FILE_BYTES: u64 = 4096;

/// What a place for a file is used for.
#[derive(Debug, Clone, Copy, PartialEq, Eq, Structural)]
pub enum FileState {
    /// Nothing; a new file can go there.
    Free,
    /// A file that is open.
    Open,
    /// A file that is closed.
    Closed,
}

/// A place for a file. Only the first `name_len` bytes of `name` count.
#[derive(Debug, Clone, Copy)]
pub struct FileEntry {
    pub state: FileState,
    pub name: [u8; NAME_MAX],
    pub name_len: usize,
    pub size: u64,
}

/// What a place for a file holds.
#[verifier::ext_equal]
pub struct FileView {
    pub state: FileState,
    pub name: Seq<u8>,
    pub size: u64,
}

impl FileEntry {
    /// What the place holds.
    pub open spec fn view(&self) -> FileView {
        FileView {
            state: self.state,
            name: self.name@.take(self.name_len as int),
            size: self.size,
        }
    }

    /// A place without a file, its name all zeros.
    fn free() -> (r: FileEntry)
        ensures
            r@ == no_file(),
            r.name_len == 0,
            forall|i: int| 0 <= i < NAME_MAX ==> #[trigger] r.name@[i] == 0,
    {
        let r = FileEntry { state: FileState::Free, name: [0; NAME_MAX], name_len: 0, size: 0 };
        assert(r@.name =~= Seq::<u8>::empty());
        r
    }
}

/// A place without a file.
pub open spec fn no_file() -> FileView {
    FileView { state: FileState::Free, name: Seq::empty(), size: 0 }
}

/// What the file server waits for.
#[derive(Debug, Clone, Copy, PartialEq, Eq, Structural)]
pub enum FsAt {
    /// The service was offered.
    Registering,
    /// The connection to the memory service was asked for.
    Connecting,
    /// A request may come.
    Receiving,
    /// The memory service was asked for a page for this file.
    Asking(usize),
    /// The memory service has yet to answer.
    Awaiting(usize),
    /// The page of this file is being mapped.
    Mapping(usize),
    /// The memory service was told that the page of this file comes back.
    Offering(usize),
    /// The memory service has yet to say where it goes.
    Placing(usize),
    /// The page of this file was handed over.
    Returning(usize),
    /// A request was answered.
    Answering,
    /// The server has ended.
    Ended,
}

/// Bytes to copy, before the next call is made.
#[derive(Debug, Clone, Copy, PartialEq, Eq, Structural)]
pub struct Copying {
    pub from: u64,
    pub to: u64,
    pub len: u64,
}

/// What the file server does next.
#[derive(Debug, Clone, Copy, PartialEq, Eq, Structural)]
pub struct FsNext {
    pub copy: Option<Copying>,
    pub call: Call,
}

/// The file server: its files, the name of the file that is being made, and what it waits for.
#[derive(Debug)]
pub struct FileServer {
    pub files: Vec<FileEntry>,
    pub making: FileEntry,
    pub at: FsAt,
}

/// The state of the file server.
#[verifier::ext_equal]
pub struct FsView {
    pub files: Seq<FileView>,
    pub making: Seq<u8>,
    pub at: FsAt,
}

/// What the places hold.
pub open spec fn files_of(f: Seq<FileEntry>) -> Seq<FileView> {
    Seq::new(f.len(), |i: int| f[i]@)
}

/// The first place at or behind `i` with a file of this name; the number of places where there is
/// none.
pub open spec fn named_at(f: Seq<FileView>, name: Seq<u8>, i: int) -> int
    decreases f.len() - i,
{
    if i >= f.len() || f[i].name == name {
        i
    } else {
        named_at(f, name, i + 1)
    }
}

/// The first place at or behind `i` without a file; the number of places where there is none.
pub open spec fn free_at(f: Seq<FileView>, i: int) -> int
    decreases f.len() - i,
{
    if i >= f.len() || f[i].state == FileState::Free {
        i
    } else {
        free_at(f, i + 1)
    }
}

/// The files are in order: a place without a file has no name, a name is neither empty nor too
/// long, no file is longer than its page, and no two files have one name.
pub open spec fn in_order(f: Seq<FileView>) -> bool {
    &&& f.len() == MAX_FILES
    &&& forall|i: int|
        #![trigger f[i]]
        0 <= i < f.len() ==> {
            &&& f[i].state == FileState::Free ==> f[i] == no_file()
            &&& f[i].state != FileState::Free ==> 0 < f[i].name.len() <= NAME_MAX
            &&& f[i].size <= FILE_BYTES
        }
    &&& forall|i: int, j: int|
        #![trigger f[i], f[j]]
        0 <= i < f.len() && 0 <= j < f.len() && i != j && f[i].state != FileState::Free
            ==> f[i].name != f[j].name
}

/// The file `fd` is there and open.
pub open spec fn is_open(f: Seq<FileView>, fd: u64) -> bool {
    fd < f.len() && f[fd as int].state == FileState::Open
}

/// Slot with the page of a file.
pub open spec fn page_slot(fd: int) -> u64 {
    (RAMFS_FILE_PAGE_START + fd) as u64
}

/// Address of the page of a file.
pub open spec fn page_va(fd: int) -> int {
    RAMFS_VA + fd * FILE_BYTES
}

/// A call, and nothing to copy.
pub open spec fn only(c: Call) -> FsNext {
    FsNext { copy: None, call: c }
}

/// An answer to the client, and nothing to copy.
pub open spec fn answered(op: u64, status: u64, result: u64) -> FsNext {
    only(sending(SERVER_ACCEPT_SLOT, reply(op, status, result)))
}

/// Opening the file with a name, or making it.
pub open spec fn opened(v: FsView, len: u64, words: Seq<u64>) -> (FsView, FsNext) {
    let name = name_in(words, len as int);
    let i = named_at(v.files, name, 0);
    let j = free_at(v.files, 0);
    let wait = FsView { at: FsAt::Answering, ..v };
    if len == 0 || len > NAME_MAX {
        (wait, answered(OP_FS_OPEN, USER_ERR_EINVAL, 0))
    } else if i < v.files.len() {
        if v.files[i].state == FileState::Open {
            (wait, answered(OP_FS_OPEN, USER_ERR_EEXIST, 0))
        } else {
            (
                FsView {
                    files: v.files.update(i, FileView { state: FileState::Open, ..v.files[i] }),
                    ..wait
                },
                answered(OP_FS_OPEN, 0, i as u64),
            )
        }
    } else if j < v.files.len() {
        (
            FsView { making: name, at: FsAt::Asking(j as usize), ..v },
            only(sending(CLIENT_IPC_SLOT, seq![OP_ALLOC, page_slot(j), 0, 0, 0])),
        )
    } else {
        (wait, answered(OP_FS_OPEN, ERR_ENOMEM, 0))
    }
}

/// Reading a file: what the client gets, and the copy that gives it to the client. At the end of
/// the file and behind it there is nothing to read.
pub open spec fn read_of(f: Seq<FileView>, fd: u64, offset: u64, len: u64) -> FsNext {
    if !is_open(f, fd) {
        answered(OP_FS_READ, USER_ERR_EBADF, 0)
    } else if offset >= f[fd as int].size {
        answered(OP_FS_READ, 0, 0)
    } else {
        let rest = f[fd as int].size - offset;
        let n = if len < rest {
            len
        } else {
            rest as u64
        };
        FsNext {
            copy: Some(
                Copying { from: (page_va(fd as int) + offset) as u64, to: SHM_VA, len: n },
            ),
            ..answered(OP_FS_READ, 0, n)
        }
    }
}

/// Writing a file: its new state, the answer, and the copy that takes the bytes from the client.
pub open spec fn write_of(f: Seq<FileView>, fd: u64, offset: u64, len: u64) -> (
    Seq<FileView>,
    FsNext,
) {
    if !is_open(f, fd) {
        (f, answered(OP_FS_WRITE, USER_ERR_EBADF, 0))
    } else if offset >= FILE_BYTES || offset + len > FILE_BYTES {
        (f, answered(OP_FS_WRITE, USER_ERR_EINVAL, 0))
    } else {
        let e = f[fd as int];
        let end = (offset + len) as u64;
        let size = if e.size < end {
            end
        } else {
            e.size
        };
        (
            f.update(fd as int, FileView { size, ..e }),
            FsNext {
                copy: Some(
                    Copying { from: SHM_VA, to: (page_va(fd as int) + offset) as u64, len },
                ),
                ..answered(OP_FS_WRITE, 0, len)
            },
        )
    }
}

/// Closing a file. It keeps its place, its name, its size and its page.
pub open spec fn close_of(f: Seq<FileView>, fd: u64) -> (Seq<FileView>, FsNext) {
    if !is_open(f, fd) {
        (f, answered(OP_FS_CLOSE, USER_ERR_EBADF, 0))
    } else {
        (
            f.update(fd as int, FileView { state: FileState::Closed, ..f[fd as int] }),
            answered(OP_FS_CLOSE, 0, 0),
        )
    }
}

/// Beginning to remove a file, open or closed.
pub open spec fn unlinked(v: FsView, fd: u64) -> (FsView, FsNext) {
    if fd >= v.files.len() || v.files[fd as int].state == FileState::Free {
        (
            FsView { at: FsAt::Answering, ..v },
            answered(OP_FS_UNLINK, USER_ERR_EBADF, 0),
        )
    } else {
        (
            FsView { at: FsAt::Offering(fd as usize), ..v },
            only(sending(CLIENT_IPC_SLOT, seq![OP_FREE, page_slot(fd as int), 0, 0, 0])),
        )
    }
}

/// What the file server does when a request has come.
pub open spec fn fs_requested(v: FsView, b: Words) -> (FsView, FsNext) {
    let wait = FsView { at: FsAt::Answering, ..v };
    if b.a1 == OP_FS_OPEN {
        opened(v, b.a2, seq![b.a3, b.a4, b.a5])
    } else if b.a1 == OP_FS_READ {
        (wait, read_of(v.files, b.a2, b.a3, b.a4))
    } else if b.a1 == OP_FS_WRITE {
        let (f, n) = write_of(v.files, b.a2, b.a3, b.a4);
        (FsView { files: f, ..wait }, n)
    } else if b.a1 == OP_FS_CLOSE {
        let (f, n) = close_of(v.files, b.a2);
        (FsView { files: f, ..wait }, n)
    } else if b.a1 == OP_FS_UNLINK {
        unlinked(v, b.a2)
    } else {
        (wait, answered(b.a1, PROTO_ERR, 0))
    }
}

/// The memory service has agreed to a request.
pub open spec fn agreed(op: u64, b: Words) -> bool {
    b.a0 == 0 && b.a1 == reply_op(op) && b.a2 == 0
}

/// What the file server does next, where its last call returned `b`.
pub open spec fn fs_next(v: FsView, b: Words) -> (FsView, FsNext) {
    let listen = (
        FsView { at: FsAt::Receiving, ..v },
        only(call(SYSCALL_IPC_RECV, SERVER_ACCEPT_SLOT, 0, 0)),
    );
    let end = (FsView { at: FsAt::Ended, ..v }, only(call(SYSCALL_EXIT, 0, 0, 0)));
    let wait = FsView { at: FsAt::Answering, ..v };
    let hear = only(call(SYSCALL_IPC_RECV, CLIENT_IPC_SLOT, 0, 0));
    match v.at {
        FsAt::Registering => if b.a0 != 0 {
            end
        } else {
            (
                FsView { at: FsAt::Connecting, ..v },
                only(
                    call(
                        SYSCALL_SERVICE_CONNECT,
                        MEMORY_SERVICE_ID,
                        CLIENT_IPC_SLOT,
                        SERVER_ACCEPT_SLOT,
                    ),
                ),
            )
        },
        FsAt::Connecting => if b.a0 != 0 {
            end
        } else {
            listen
        },
        FsAt::Receiving => if b.a0 != 0 {
            listen
        } else {
            fs_requested(v, b)
        },
        FsAt::Asking(fd) => if b.a0 != 0 {
            (wait, answered(OP_FS_OPEN, ERR_ENOMEM, 0))
        } else {
            (FsView { at: FsAt::Awaiting(fd), ..v }, hear)
        },
        FsAt::Awaiting(fd) => if !agreed(OP_ALLOC, b) {
            (wait, answered(OP_FS_OPEN, ERR_ENOMEM, 0))
        } else {
            (
                FsView { at: FsAt::Mapping(fd), ..v },
                only(call(SYSCALL_MEM_MAP, page_slot(fd as int), page_va(fd as int) as u64, 0)),
            )
        },
        FsAt::Mapping(fd) => if b.a0 != 0 {
            (wait, answered(OP_FS_OPEN, ERR_ENOMEM, 0))
        } else {
            (
                FsView {
                    files: v.files.update(
                        fd as int,
                        FileView { state: FileState::Open, name: v.making, size: 0 },
                    ),
                    ..wait
                },
                answered(OP_FS_OPEN, 0, fd as u64),
            )
        },
        FsAt::Offering(fd) => if b.a0 != 0 {
            (wait, answered(OP_FS_UNLINK, ERR_ENOMEM, 0))
        } else {
            (FsView { at: FsAt::Placing(fd), ..v }, hear)
        },
        FsAt::Placing(fd) => if !agreed(OP_FREE, b) {
            (wait, answered(OP_FS_UNLINK, ERR_ENOMEM, 0))
        } else {
            (
                FsView { at: FsAt::Returning(fd), ..v },
                only(call(SYSCALL_MEM_GRANT, page_slot(fd as int), CLIENT_IPC_SLOT, b.a3)),
            )
        },
        FsAt::Returning(fd) => if b.a0 != 0 {
            (wait, answered(OP_FS_UNLINK, ERR_ENOMEM, 0))
        } else {
            (
                FsView { files: v.files.update(fd as int, no_file()), ..wait },
                answered(OP_FS_UNLINK, 0, 0),
            )
        },
        FsAt::Answering => listen,
        FsAt::Ended => end,
    }
}

impl FsView {
    /// The files are in order, and what the server waits for fits them: a file that is being made
    /// has a place and a name that no other file has, and one that is being removed is there.
    pub open spec fn wf(self) -> bool {
        &&& in_order(self.files)
        &&& self.at matches FsAt::Asking(fd) ==> self.makes(fd)
        &&& self.at matches FsAt::Awaiting(fd) ==> self.makes(fd)
        &&& self.at matches FsAt::Mapping(fd) ==> self.makes(fd)
        &&& self.at matches FsAt::Offering(fd) ==> self.removes(fd)
        &&& self.at matches FsAt::Placing(fd) ==> self.removes(fd)
        &&& self.at matches FsAt::Returning(fd) ==> self.removes(fd)
    }

    /// A file is being made at a place.
    pub open spec fn makes(self, fd: usize) -> bool {
        &&& fd < self.files.len()
        &&& self.files[fd as int].state == FileState::Free
        &&& 0 < self.making.len() <= NAME_MAX
        &&& forall|i: int|
            #![trigger self.files[i]]
            0 <= i < self.files.len() ==> self.files[i].name != self.making
    }

    /// A file is being removed from a place.
    pub open spec fn removes(self, fd: usize) -> bool {
        &&& fd < self.files.len()
        &&& self.files[fd as int].state != FileState::Free
    }
}

/// The search for a name ends where it is meant to.
pub proof fn lemma_named_at(f: Seq<FileView>, name: Seq<u8>, i: int)
    requires
        0 <= i <= f.len(),
    ensures
        i <= named_at(f, name, i) <= f.len(),
        named_at(f, name, i) < f.len() ==> f[named_at(f, name, i)].name == name,
        forall|k: int| i <= k < named_at(f, name, i) ==> (#[trigger] f[k]).name != name,
    decreases f.len() - i,
{
    if i < f.len() && f[i].name != name {
        lemma_named_at(f, name, i + 1);
    }
}

/// The search for a free place ends where it is meant to.
pub proof fn lemma_free_at(f: Seq<FileView>, i: int)
    requires
        0 <= i <= f.len(),
    ensures
        i <= free_at(f, i) <= f.len(),
        free_at(f, i) < f.len() ==> f[free_at(f, i)].state == FileState::Free,
        forall|k: int| i <= k < free_at(f, i) ==> (#[trigger] f[k]).state != FileState::Free,
    decreases f.len() - i,
{
    if i < f.len() && f[i].state != FileState::Free {
        lemma_free_at(f, i + 1);
    }
}

/// Every step keeps the files in order.
pub proof fn law_files_stay_in_order(v: FsView, b: Words)
    requires
        v.wf(),
    ensures
        fs_next(v, b).0.wf(),
{
    let f = v.files;
    let (w, n) = fs_next(v, b);
    let name = name_in(seq![b.a3, b.a4, b.a5], b.a2 as int);
    lemma_named_at(f, name, 0);
    lemma_free_at(f, 0);
    assert(name.len() == b.a2);
    if v.at == FsAt::Receiving && b.a0 == 0 && b.a1 == OP_FS_OPEN {
        if w.at matches FsAt::Asking(fd) {
            assert(forall|i: int| 0 <= i < f.len() ==> (#[trigger] f[i]).name != name);
        }
    }
}


/// The first `n` bytes of two names are the same.
fn same_name(a: &[u8; NAME_MAX], b: &[u8; NAME_MAX], n: usize) -> (r: bool)
    requires
        n <= NAME_MAX,
    ensures
        r == (a@.take(n as int) == b@.take(n as int)),
{
    let mut i: usize = 0;
    while i < n
        invariant
            i <= n <= NAME_MAX,
            forall|k: int| 0 <= k < i ==> a@[k] == b@[k],
        decreases n - i,
    {
        if a[i] != b[i] {
            assert(a@.take(n as int)[i as int] != b@.take(n as int)[i as int]);
            return false;
        }
        i = i + 1;
    }
    assert(a@.take(n as int) =~= b@.take(n as int));
    true
}

impl FileServer {
    /// The state of the file server.
    pub open spec fn view(&self) -> FsView {
        FsView { files: files_of(self.files@), making: self.making@.name, at: self.at }
    }

    /// The state is in order, and the lengths of the names fit their fields.
    pub open spec fn wf(self) -> bool {
        &&& self@.wf()
        &&& self.making.name_len <= NAME_MAX
        &&& forall|i: int|
            0 <= i < self.files@.len() ==> (#[trigger] self.files@[i]).name_len <= NAME_MAX
    }

    /// Starts without files, and offers the service.
    pub fn start() -> (r: (FileServer, Call))
        ensures
            r.0.wf(),
            r.0@.files == Seq::new(MAX_FILES as nat, |i: int| no_file()),
            r.0@.at == FsAt::Registering,
            r.1 == call(SYSCALL_SERVICE_REGISTER, RAMFS_SERVICE_ID, 0, 0),
    {
        let mut files: Vec<FileEntry> = Vec::new();
        let mut i: usize = 0;
        while i < MAX_FILES
            invariant
                i <= MAX_FILES,
                files@.len() == i,
                forall|k: int|
                    0 <= k < i ==> (#[trigger] files@[k])@ == no_file() && files@[k].name_len == 0,
            decreases MAX_FILES - i,
        {
            files.push(FileEntry::free());
            i = i + 1;
        }
        let r = FileServer { files, making: FileEntry::free(), at: FsAt::Registering };
        assert(r@.files =~= Seq::new(MAX_FILES as nat, |i: int| no_file()));
        (r, sys_service_register(RAMFS_SERVICE_ID))
    }

    /// Changes one place.
    fn put(&mut self, fd: usize, e: FileEntry)
        requires
            fd < old(self).files@.len(),
        ensures
            final(self).files@ == old(self).files@.update(fd as int, e),
            final(self)@.files == old(self)@.files.update(fd as int, e@),
            final(self).making == old(self).making,
            final(self).at == old(self).at,
    {
        self.files.set(fd, e);
        assert(self@.files =~= old(self)@.files.update(fd as int, e@));
    }

    /// The first place with a file of a name.
    fn find_name(&self, name: &[u8; NAME_MAX], n: usize) -> (r: usize)
        requires
            self.wf(),
            n <= NAME_MAX,
        ensures
            r == named_at(self@.files, name@.take(n as int), 0),
            r <= MAX_FILES,
    {
        let ghost s = name@.take(n as int);
        let mut i: usize = 0;
        while i < MAX_FILES
            invariant
                self.wf(),
                n <= NAME_MAX,
                i <= MAX_FILES,
                s == name@.take(n as int),
                named_at(self@.files, s, 0) == named_at(self@.files, s, i as int),
            decreases MAX_FILES - i,
        {
            let e: FileEntry = self.files[i];
            assert(self@.files[i as int] == e@);
            assert(e@.name.len() == e.name_len);
            if e.name_len == n && same_name(&e.name, name, n) {
                return i;
            }
            i = i + 1;
        }
        i
    }

    /// The first place without a file.
    fn find_free(&self) -> (r: usize)
        requires
            self.wf(),
        ensures
            r == free_at(self@.files, 0),
            r <= MAX_FILES,
    {
        let mut i: usize = 0;
        while i < MAX_FILES
            invariant
                self.wf(),
                i <= MAX_FILES,
                free_at(self@.files, 0) == free_at(self@.files, i as int),
            decreases MAX_FILES - i,
        {
            assert(self@.files[i as int] == self.files@[i as int]@);
            if self.files[i].state == FileState::Free {
                return i;
            }
            i = i + 1;
        }
        i
    }

    /// Opens the file with a name, or begins to make it.
    fn fs_open(&mut self, len: u64, words: [u64; 3]) -> (r: FsNext)
        requires
            old(self).wf(),
        ensures
            final(self).wf_names(),
            (final(self)@, r) == opened(old(self)@, len, words@),
    {
        if len == 0 || len > NAME_MAX as u64 {
            self.at = FsAt::Answering;
            return FsNext { copy: None, call: answer(OP_FS_OPEN, USER_ERR_EINVAL, 0) };
        }
        let n: usize = len as usize;
        let name = name_from_words(&words);
        assert(name@.take(n as int) =~= name_in(words@, len as int));
        proof {
            lemma_named_at(self@.files, name_in(words@, len as int), 0);
            lemma_free_at(self@.files, 0);
        }
        let i: usize = self.find_name(&name, n);
        if i < MAX_FILES {
            self.at = FsAt::Answering;
            let e: FileEntry = self.files[i];
            assert(old(self)@.files[i as int] == e@);
            if e.state == FileState::Open {
                return FsNext { copy: None, call: answer(OP_FS_OPEN, USER_ERR_EEXIST, 0) };
            }
            self.put(i, FileEntry { state: FileState::Open, ..e });
            return FsNext { copy: None, call: answer(OP_FS_OPEN, 0, i as u64) };
        }
        let j: usize = self.find_free();
        if j < MAX_FILES {
            self.making = FileEntry { state: FileState::Open, name, name_len: n, size: 0 };
            self.at = FsAt::Asking(j);
            let c = sys_ipc_send(
                CLIENT_IPC_SLOT,
                &[OP_ALLOC, RAMFS_FILE_PAGE_START + j as u64, 0, 0, 0],
            );
            return FsNext { copy: None, call: c };
        }
        self.at = FsAt::Answering;
        FsNext { copy: None, call: answer(OP_FS_OPEN, ERR_ENOMEM, 0) }
    }

    /// The lengths of the names fit their fields.
    spec fn wf_names(self) -> bool {
        &&& self.making.name_len <= NAME_MAX
        &&& forall|i: int|
            0 <= i < self.files@.len() ==> (#[trigger] self.files@[i]).name_len <= NAME_MAX
    }

    /// Reads an open file.
    fn fs_read(&self, fd: u64, offset: u64, len: u64) -> (r: FsNext)
        requires
            self.wf(),
        ensures
            r == read_of(self@.files, fd, offset, len),
    {
        if fd >= MAX_FILES as u64 || self.files[fd as usize].state != FileState::Open {
            return FsNext { copy: None, call: answer(OP_FS_READ, USER_ERR_EBADF, 0) };
        }
        let e: FileEntry = self.files[fd as usize];
        assert(self@.files[fd as int] == e@);
        if offset >= e.size {
            return FsNext { copy: None, call: answer(OP_FS_READ, 0, 0) };
        }
        let rest: u64 = e.size - offset;
        let n: u64 = if len < rest { len } else { rest };
        FsNext {
            copy: Some(
                Copying { from: RAMFS_VA + fd * FILE_BYTES + offset, to: SHM_VA, len: n },
            ),
            call: answer(OP_FS_READ, 0, n),
        }
    }

    /// Writes an open file.
    fn fs_write(&mut self, fd: u64, offset: u64, len: u64) -> (r: FsNext)
        requires
            old(self).wf(),
        ensures
            final(self).wf_names(),
            final(self)@ == (FsView { files: final(self)@.files, ..old(self)@ }),
            (final(self)@.files, r) == write_of(old(self)@.files, fd, offset, len),
    {
        if fd >= MAX_FILES as u64 || self.files[fd as usize].state != FileState::Open {
            return FsNext { copy: None, call: answer(OP_FS_WRITE, USER_ERR_EBADF, 0) };
        }
        let e: FileEntry = self.files[fd as usize];
        assert(self@.files[fd as int] == e@);
        if offset >= FILE_BYTES || len > FILE_BYTES - offset {
            return FsNext { copy: None, call: answer(OP_FS_WRITE, USER_ERR_EINVAL, 0) };
        }
        let end: u64 = offset + len;
        let size: u64 = if e.size < end { end } else { e.size };
        self.put(fd as usize, FileEntry { size, ..e });
        FsNext {
            copy: Some(
                Copying { from: SHM_VA, to: RAMFS_VA + fd * FILE_BYTES + offset, len },
            ),
            call: answer(OP_FS_WRITE, 0, len),
        }
    }

    /// Closes an open file.
    fn fs_close(&mut self, fd: u64) -> (r: FsNext)
        requires
            old(self).wf(),
        ensures
            final(self).wf_names(),
            final(self)@ == (FsView { files: final(self)@.files, ..old(self)@ }),
            (final(self)@.files, r) == close_of(old(self)@.files, fd),
    {
        if fd >= MAX_FILES as u64 || self.files[fd as usize].state != FileState::Open {
            return FsNext { copy: None, call: answer(OP_FS_CLOSE, USER_ERR_EBADF, 0) };
        }
        let e: FileEntry = self.files[fd as usize];
        assert(self@.files[fd as int] == e@);
        self.put(fd as usize, FileEntry { state: FileState::Closed, ..e });
        FsNext { copy: None, call: answer(OP_FS_CLOSE, 0, 0) }
    }

    /// Begins to remove a file.
    fn fs_unlink(&mut self, fd: u64) -> (r: FsNext)
        requires
            old(self).wf(),
        ensures
            final(self).wf_names(),
            (final(self)@, r) == unlinked(old(self)@, fd),
    {
        if fd >= MAX_FILES as u64 || self.files[fd as usize].state == FileState::Free {
            self.at = FsAt::Answering;
            return FsNext { copy: None, call: answer(OP_FS_UNLINK, USER_ERR_EBADF, 0) };
        }
        self.at = FsAt::Offering(fd as usize);
        let c = sys_ipc_send(CLIENT_IPC_SLOT, &[OP_FREE, RAMFS_FILE_PAGE_START + fd, 0, 0, 0]);
        FsNext { copy: None, call: c }
    }

    /// Answers a request.
    fn request(&mut self, b: Words) -> (r: FsNext)
        requires
            old(self).wf(),
        ensures
            final(self).wf_names(),
            (final(self)@, r) == fs_requested(old(self)@, b),
    {
        if b.a1 == OP_FS_OPEN {
            assert([b.a3, b.a4, b.a5]@ =~= seq![b.a3, b.a4, b.a5]);
            return self.fs_open(b.a2, [b.a3, b.a4, b.a5]);
        }
        if b.a1 == OP_FS_UNLINK {
            return self.fs_unlink(b.a2);
        }
        let r = if b.a1 == OP_FS_READ {
            self.fs_read(b.a2, b.a3, b.a4)
        } else if b.a1 == OP_FS_WRITE {
            self.fs_write(b.a2, b.a3, b.a4)
        } else if b.a1 == OP_FS_CLOSE {
            self.fs_close(b.a2)
        } else {
            FsNext { copy: None, call: answer(b.a1, PROTO_ERR, 0) }
        };
        self.at = FsAt::Answering;
        r
    }

    /// Gives up what was asked for, since there is no memory for it.
    fn refuse(&mut self, op: u64) -> (r: FsNext)
        ensures
            final(self).files == old(self).files,
            final(self).making == old(self).making,
            final(self).at == FsAt::Answering,
            r == answered(op, ERR_ENOMEM, 0),
    {
        self.at = FsAt::Answering;
        FsNext { copy: None, call: answer(op, ERR_ENOMEM, 0) }
    }

    /// Goes on where the last call returned `b`: what comes next.
    pub fn step(&mut self, b: Words) -> (r: FsNext)
        requires
            old(self).wf(),
        ensures
            final(self).wf(),
            (final(self)@, r) == fs_next(old(self)@, b),
    {
        proof {
            law_files_stay_in_order(self@, b);
        }
        match self.at {
            FsAt::Registering => {
                if b.a0 != 0 {
                    self.at = FsAt::Ended;
                    return FsNext { copy: None, call: sys_exit() };
                }
                self.at = FsAt::Connecting;
                let c = sys_service_connect(MEMORY_SERVICE_ID, CLIENT_IPC_SLOT, SERVER_ACCEPT_SLOT);
                return FsNext { copy: None, call: c };
            },
            FsAt::Connecting => {
                if b.a0 != 0 {
                    self.at = FsAt::Ended;
                    return FsNext { copy: None, call: sys_exit() };
                }
            },
            FsAt::Receiving => {
                if b.a0 == 0 {
                    return self.request(b);
                }
            },
            FsAt::Asking(fd) => {
                if b.a0 != 0 {
                    return self.refuse(OP_FS_OPEN);
                }
                self.at = FsAt::Awaiting(fd);
                return FsNext { copy: None, call: sys_ipc_recv(CLIENT_IPC_SLOT) };
            },
            FsAt::Awaiting(fd) => {
                if b.a0 != 0 || b.a1 != OP_ALLOC | OP_REPLY_FLAG || b.a2 != 0 {
                    return self.refuse(OP_FS_OPEN);
                }
                self.at = FsAt::Mapping(fd);
                let va: u64 = RAMFS_VA + fd as u64 * FILE_BYTES;
                return FsNext {
                    copy: None,
                    call: sys_mem_map(RAMFS_FILE_PAGE_START + fd as u64, va),
                };
            },
            FsAt::Mapping(fd) => {
                if b.a0 != 0 {
                    return self.refuse(OP_FS_OPEN);
                }
                let e: FileEntry = self.making;
                self.put(fd, FileEntry { state: FileState::Open, size: 0, ..e });
                self.at = FsAt::Answering;
                return FsNext { copy: None, call: answer(OP_FS_OPEN, 0, fd as u64) };
            },
            FsAt::Offering(fd) => {
                if b.a0 != 0 {
                    return self.refuse(OP_FS_UNLINK);
                }
                self.at = FsAt::Placing(fd);
                return FsNext { copy: None, call: sys_ipc_recv(CLIENT_IPC_SLOT) };
            },
            FsAt::Placing(fd) => {
                if b.a0 != 0 || b.a1 != OP_FREE | OP_REPLY_FLAG || b.a2 != 0 {
                    return self.refuse(OP_FS_UNLINK);
                }
                self.at = FsAt::Returning(fd);
                let c = sys_mem_grant(RAMFS_FILE_PAGE_START + fd as u64, CLIENT_IPC_SLOT, b.a3);
                return FsNext { copy: None, call: c };
            },
            FsAt::Returning(fd) => {
                if b.a0 != 0 {
                    return self.refuse(OP_FS_UNLINK);
                }
                self.put(fd, FileEntry::free());
                self.at = FsAt::Answering;
                return FsNext { copy: None, call: answer(OP_FS_UNLINK, 0, 0) };
            },
            FsAt::Answering => {},
            FsAt::Ended => {
                return FsNext { copy: None, call: sys_exit() };
            },
        }
        self.at = FsAt::Receiving;
        FsNext { copy: None, call: sys_ipc_recv(SERVER_ACCEPT_SLOT) }
    }
}


/// Memory after a copy.
pub open spec fn copied(m: spec_fn(int) -> u8, c: Copying) -> spec_fn(int) -> u8 {
    |a: int|
        if c.to <= a < c.to + c.len {
            m(c.from + (a - c.to))
        } else {
            m(a)
        }
}

/// The bytes at an address.
pub open spec fn bytes_at(m: spec_fn(int) -> u8, a: int, n: int) -> Seq<u8> {
    Seq::new(n as nat, |k: int| m(a + k))
}

/// What is written to an open file is what a later read gives back, as long as the file's page
/// keeps its bytes in between, whatever happens to the shared page.
pub proof fn law_read_gives_what_was_written(
    f: Seq<FileView>,
    fd: u64,
    offset: u64,
    len: u64,
    m: spec_fn(int) -> u8,
    later: spec_fn(int) -> u8,
)
    requires
        in_order(f),
        is_open(f, fd),
        offset < FILE_BYTES,
        offset + len <= FILE_BYTES,
        bytes_at(later, page_va(fd as int), FILE_BYTES as int) == bytes_at(
            copied(m, write_of(f, fd, offset, len).1.copy->0),
            page_va(fd as int),
            FILE_BYTES as int,
        ),
    ensures
        ({
            let r = read_of(write_of(f, fd, offset, len).0, fd, offset, len);
            &&& write_of(f, fd, offset, len).1.call == sending(
                SERVER_ACCEPT_SLOT,
                reply(OP_FS_WRITE, 0, len),
            )
            &&& r.call == sending(SERVER_ACCEPT_SLOT, reply(OP_FS_READ, 0, len))
            &&& len > 0 ==> r.copy is Some && bytes_at(
                copied(later, r.copy->0),
                SHM_VA as int,
                len as int,
            ) == bytes_at(m, SHM_VA as int, len as int)
        }),
{
    let (g, w) = write_of(f, fd, offset, len);
    let r = read_of(g, fd, offset, len);
    let va = page_va(fd as int);
    assert(g[fd as int].size >= offset + len);
    if len > 0 {
        let one = copied(m, w.copy->0);
        let two = copied(later, r.copy->0);
        let pages = bytes_at(later, va, FILE_BYTES as int);
        assert forall|k: int| 0 <= k < len implies #[trigger] two(SHM_VA + k) == m(SHM_VA + k) by {
            assert(two(SHM_VA + k) == later(va + offset + k));
            assert(pages[offset + k] == bytes_at(one, va, FILE_BYTES as int)[offset + k]);
            assert(pages[offset + k] == later(va + (offset + k)));
            assert(one(va + (offset + k)) == m(SHM_VA + k));
        }
        assert(bytes_at(two, SHM_VA as int, len as int) =~= bytes_at(m, SHM_VA as int, len as int));
    }
}

/// A write to one file changes neither the bytes nor the entry of another.
pub proof fn law_files_are_apart(
    f: Seq<FileView>,
    fd: u64,
    offset: u64,
    len: u64,
    m: spec_fn(int) -> u8,
    other: int,
)
    requires
        in_order(f),
        0 <= other < f.len(),
        other != fd,
    ensures
        write_of(f, fd, offset, len).0[other] == f[other],
        write_of(f, fd, offset, len).1.copy matches Some(c) ==> bytes_at(
            copied(m, c),
            page_va(other),
            FILE_BYTES as int,
        ) == bytes_at(m, page_va(other), FILE_BYTES as int),
{
    if let Some(c) = write_of(f, fd, offset, len).1.copy {
        assert(bytes_at(copied(m, c), page_va(other), FILE_BYTES as int) =~= bytes_at(
            m,
            page_va(other),
            FILE_BYTES as int,
        ));
    }
}

/// A request to open a file.
pub open spec fn open_request(len: u64, words: Seq<u64>) -> Words {
    Words { a0: 0, a1: OP_FS_OPEN, a2: len, a3: words[0], a4: words[1], a5: words[2] }
}

/// The file that was closed is the file that opens again under its name: it has the same number
/// and the same size. While it is open, it does not open a second time.
pub proof fn law_closed_file_opens_again(v: FsView, fd: u64, len: u64, words: Seq<u64>)
    requires
        v.wf(),
        v.at == FsAt::Receiving,
        is_open(v.files, fd),
        words.len() == 3,
        v.files[fd as int].name == name_in(words, len as int),
    ensures
        fs_next(v, open_request(len, words)) == (
            FsView { at: FsAt::Answering, ..v },
            answered(OP_FS_OPEN, USER_ERR_EEXIST, 0),
        ),
        fs_next(
            FsView { files: close_of(v.files, fd).0, ..v },
            open_request(len, words),
        ) == (
            FsView { at: FsAt::Answering, ..v },
            answered(OP_FS_OPEN, 0, fd),
        ),
{
    let name = name_in(words, len as int);
    let w = FsView { files: close_of(v.files, fd).0, ..v };
    assert(seq![words[0], words[1], words[2]] =~= words);
    assert(name.len() == len);
    lemma_named_at(v.files, name, 0);
    lemma_named_at(w.files, name, 0);
    let i = named_at(v.files, name, 0);
    let j = named_at(w.files, name, 0);
    assert(w.files[fd as int].name == name);
    assert(forall|k: int|
        #![trigger w.files[k]]
        0 <= k < w.files.len() ==> w.files[k].name == v.files[k].name);
    if i != fd {
        assert(v.files[fd as int].name != v.files[i].name);
    }
    if j != fd {
        assert(v.files[fd as int].name != v.files[j].name);
    }
    assert(w.files.update(j, FileView { state: FileState::Open, ..w.files[j] }) =~= v.files);
}

/// A file that was removed is gone: its number is no file's, its name is free again, and the other
/// files stay.
pub proof fn law_removed_file_is_gone(v: FsView, fd: usize, b: Words)
    requires
        v.wf(),
        v.at == FsAt::Returning(fd),
        b.a0 == 0,
    ensures
        ({
            let (w, n) = fs_next(v, b);
            &&& n == answered(OP_FS_UNLINK, 0, 0)
            &&& !is_open(w.files, fd as u64)
            &&& close_of(w.files, fd as u64).1 == answered(OP_FS_CLOSE, USER_ERR_EBADF, 0)
            &&& named_at(w.files, v.files[fd as int].name, 0) == MAX_FILES
            &&& forall|i: int|
                0 <= i < v.files.len() && i != fd ==> (#[trigger] w.files[i]) == v.files[i]
        }),
{
    let (w, n) = fs_next(v, b);
    let name = v.files[fd as int].name;
    assert(w.files[fd as int] == no_file());
    assert(forall|i: int|
        0 <= i < v.files.len() && i != fd ==> (#[trigger] w.files[i]) == v.files[i]);
    lemma_named_at(w.files, name, 0);
    let i = named_at(w.files, name, 0);
    if i < w.files.len() {
        if i != fd {
            assert(v.files[fd as int].name != v.files[i].name);
        }
    }
}

} // verus!
