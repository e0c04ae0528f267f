//! What every user program shares: the system calls, the layout of slots and addresses, the
//! numbers of the services' protocols, and the client side of the UART service.
//!
//! A system call is a value here: which number goes into `a7` and what goes into `a0` to `a5`.
//! What the registers hold afterwards comes back as [`Words`].

use vstd::prelude::*;
use crate::bytes::{le16_at, le32_at, le64, le64_at};
use crate::logger::{decimal, digits, put};
use crate::shm::SHM_LEN;
use crate::space::MAX_SHMS;
use crate::syscall::{
    SYSCALL_CAP_DUP, SYSCALL_EXIT, SYSCALL_IPC_RECV, SYSCALL_IPC_SEND, SYSCALL_MAP_DEVICE,
    SYSCALL_MEM_GRANT, SYSCALL_MEM_MAP, SYSCALL_SERVICE_CONNECT, SYSCALL_SERVICE_REGISTER,
    SYSCALL_SHM_MAP, SYSCALL_WRITE, SYS_ERR_EBADF, SYS_ERR_EEXIST, SYS_ERR_EINVAL, SYS_ERR_ENOMEM,
};

verus! {

/// Slot through which a server talks to its client.
pub const SERVER_ACCEPT_SLOT: u64 = 0;

/// Slot of a server that holds the shared page.
pub const SERVER_SHM_SLOT: u64 = 1;

/// Slot through which a client talks to its server.
pub const CLIENT_IPC_SLOT: u64 = 2;

/// Slot of a client that holds the shared page.
pub const CLIENT_SHM_SLOT: u64 = 3;

/// Slot in which a client of the memory service gets a page.
pub const CLIENT_PAGE_SLOT: u64 = 3;

/// First slot of the memory server's pool.
pub const SERVER_POOL_START: u64 = 1;

/// Last slot of the memory server's pool.
pub const SERVER_POOL_END: u64 = 4;

/// Address at which the UART server sees the device.
pub const UART_MMIO_VA: u64 = 0x6000_0000;

/// Address at which a client of the memory service sees its page.
pub const MEM_VA: u64 = 0x7000_0000;

/// Address at which the file server sees its first file.
pub const RAMFS_VA: u64 = 0x7400_0000;

/// Address of the page in which a program shows that it has finished.
pub const MARKER_VA: u64 = 0x4000_2000;

/// The UART service.
pub const UART_SERVICE_ID: u64 = 1;

/// The memory service.
pub const MEMORY_SERVICE_ID: u64 = 2;

/// The file service.
pub const RAMFS_SERVICE_ID: u64 = 3;

/// First slot with the page of a file; file `fd` has the slot `fd` places further.
pub const RAMFS_FILE_PAGE_START: u64 = 3;

/// Last slot with the page of a file.
pub const RAMFS_FILE_PAGE_END: u64 = 6;

/// Bytes of the longest file name.
pub const NAME_MAX: usize = 24;

/// Number of files.
pub const MAX_FILES: usize = 4;

/// Write to the UART: length; the bytes are in the shared page.
pub const OP_WRITE: u64 = 0x01;

/// Read from the UART: largest length; the bytes come in the shared page.
pub const OP_READ: u64 = 0x02;

/// Ask whether the UART server is there.
pub const OP_PING: u64 = 0x03;

/// Get a page: slot of the client that gets it.
pub const OP_ALLOC: u64 = 0x04;

/// Give a page back: slot of the client that holds it.
pub const OP_FREE: u64 = 0x05;

/// Open a file: length of the name, three words of the name.
pub const OP_FS_OPEN: u64 = 0x06;

/// Read a file: file, offset, length.
pub const OP_FS_READ: u64 = 0x07;

/// Write a file: file, offset, length.
pub const OP_FS_WRITE: u64 = 0x08;

/// Close a file: file.
pub const OP_FS_CLOSE: u64 = 0x09;

/// Remove a file: file.
pub const OP_FS_UNLINK: u64 = 0x0a;

/// Marks the first word of a reply.
pub const OP_REPLY_FLAG: u64 = 0x80;

/// Status of a request that the server does not know.
pub const PROTO_ERR: u64 = SYS_ERR_EINVAL;

/// Status where pages have run out.
pub const ERR_ENOMEM: u64 = SYS_ERR_ENOMEM;

/// Status of a bad argument.
pub const USER_ERR_EINVAL: u64 = SYS_ERR_EINVAL;

/// Status of a file that is not open.
pub const USER_ERR_EBADF: u64 = SYS_ERR_EBADF;

/// Status of a file that is open already.
pub const USER_ERR_EEXIST: u64 = SYS_ERR_EEXIST;

/// What a read page shows when it was written and read back.
pub const MAGIC: u64 = 0xfeed_face;

/// Mark of a program that has finished, without its number of arguments.
pub const MARKER: u64 = 0xc0de_0000;

/// The registers `a0` to `a5`.
#[derive(Debug, Clone, Copy, PartialEq, Eq, Structural)]
pub struct Words {
    pub a0: u64,
    pub a1: u64,
    pub a2: u64,
    pub a3: u64,
    pub a4: u64,
    pub a5: u64,
}

/// A system call: its number, and the registers it is made with.
#[derive(Debug, Clone, Copy, PartialEq, Eq, Structural)]
pub struct Call {
    pub num: u64,
    pub args: Words,
}

/// A system call.
pub open spec fn call(num: u64, a0: u64, a1: u64, a2: u64) -> Call {
    Call { num, args: Words { a0, a1, a2, a3: 0, a4: 0, a5: 0 } }
}

/// A message on its way: `slot`, then its five words.
pub open spec fn sending(slot: u64, m: Seq<u64>) -> Call {
    Call {
        num: SYSCALL_IPC_SEND,
        args: Words { a0: slot, a1: m[0], a2: m[1], a3: m[2], a4: m[3], a5: m[4] },
    }
}

/// A system call with all six arguments.
pub fn syscall(num: u64, a0: u64, a1: u64, a2: u64, a3: u64, a4: u64, a5: u64) -> (r: Call)
    ensures
        r == (Call { num, args: Words { a0, a1, a2, a3, a4, a5 } }),
{
    Call { num, args: Words { a0, a1, a2, a3, a4, a5 } }
}

/// Ends the thread.
pub fn sys_exit() -> (r: Call)
    ensures
        r == call(SYSCALL_EXIT, 0, 0, 0),
{
    syscall(SYSCALL_EXIT, 0, 0, 0, 0, 0, 0)
}

/// Writes bytes to a file: file, address, length.
pub fn sys_write(fd: u64, buf: u64, len: u64) -> (r: Call)
    ensures
        r == call(SYSCALL_WRITE, fd, buf, len),
{
    syscall(SYSCALL_WRITE, fd, buf, len, 0, 0, 0)
}

/// Sends a message through a slot.
pub fn sys_ipc_send(slot: u64, msg: &[u64; 5]) -> (r: Call)
    ensures
        r == sending(slot, msg@),
{
    syscall(SYSCALL_IPC_SEND, slot, msg[0], msg[1], msg[2], msg[3], msg[4])
}

/// Receives a message through a slot.
pub fn sys_ipc_recv(slot: u64) -> (r: Call)
    ensures
        r == call(SYSCALL_IPC_RECV, slot, 0, 0),
{
    syscall(SYSCALL_IPC_RECV, slot, 0, 0, 0, 0, 0)
}

/// Shares a page with the process behind a slot.
pub fn sys_shm_map(a_slot: u64, b_slot: u64, len: u64) -> (r: Call)
    ensures
        r == call(SYSCALL_SHM_MAP, a_slot, b_slot, len),
{
    syscall(SYSCALL_SHM_MAP, a_slot, b_slot, len, 0, 0, 0)
}

/// Copies a capability to another slot.
pub fn sys_cap_dup(from: u64, to: u64) -> (r: Call)
    ensures
        r == call(SYSCALL_CAP_DUP, from, to, 0),
{
    syscall(SYSCALL_CAP_DUP, from, to, 0, 0, 0, 0)
}

/// Offers a service.
pub fn sys_service_register(id: u64) -> (r: Call)
    ensures
        r == call(SYSCALL_SERVICE_REGISTER, id, 0, 0),
{
    syscall(SYSCALL_SERVICE_REGISTER, id, 0, 0, 0, 0, 0)
}

/// Connects to a service.
pub fn sys_service_connect(id: u64, client_slot: u64, server_slot: u64) -> (r: Call)
    ensures
        r == call(SYSCALL_SERVICE_CONNECT, id, client_slot, server_slot),
{
    syscall(SYSCALL_SERVICE_CONNECT, id, client_slot, server_slot, 0, 0, 0)
}

/// Maps a device.
pub fn sys_map_device(dev_id: u64, va: u64) -> (r: Call)
    ensures
        r == call(SYSCALL_MAP_DEVICE, dev_id, va, 0),
{
    syscall(SYSCALL_MAP_DEVICE, dev_id, va, 0, 0, 0, 0)
}

/// Hands a page to the process behind a slot.
pub fn sys_mem_grant(src_slot: u64, peer_slot: u64, dst_slot: u64) -> (r: Call)
    ensures
        r == call(SYSCALL_MEM_GRANT, src_slot, peer_slot, dst_slot),
{
    syscall(SYSCALL_MEM_GRANT, src_slot, peer_slot, dst_slot, 0, 0, 0)
}

/// Maps a page.
pub fn sys_mem_map(slot: u64, va: u64) -> (r: Call)
    ensures
        r == call(SYSCALL_MEM_MAP, slot, va, 0),
{
    syscall(SYSCALL_MEM_MAP, slot, va, 0, 0, 0, 0)
}

/// First word of the reply to `op`.
pub open spec fn reply_op(op: u64) -> u64 {
    op | OP_REPLY_FLAG
}

/// The five words of a reply.
pub open spec fn reply(op: u64, status: u64, result: u64) -> Seq<u64> {
    seq![reply_op(op), status, result, 0, 0]
}

/// Answers a request through the slot of the client.
pub fn answer(op: u64, status: u64, result: u64) -> (r: Call)
    ensures
        r == sending(SERVER_ACCEPT_SLOT, reply(op, status, result)),
{
    sys_ipc_send(SERVER_ACCEPT_SLOT, &[op | OP_REPLY_FLAG, status, result, 0, 0])
}

/// The words of a name: at most [`NAME_MAX`] bytes of it, and zeros.
pub open spec fn name_field(name: Seq<u8>) -> Seq<u8> {
    Seq::new(NAME_MAX as nat, |k: int| if k < name.len() { name[k] } else { 0 })
}

/// Packs a name into three words, eight bytes each, the first byte lowest. A longer name is cut.
pub fn name_to_words(name: &[u8]) -> (r: ([u64; 3], u64))
    ensures
        r.1 == if name@.len() < NAME_MAX { name@.len() as int } else { NAME_MAX as int },
        forall|i: int|
            0 <= i < 3 ==> #[trigger] r.0@[i] == le64_at(name_field(name@), 8 * i),
{
    let n: usize = name.len();
    let mut field: Vec<u8> = Vec::new();
    let mut k: usize = 0;
    while k < NAME_MAX
        invariant
            k <= NAME_MAX,
            n == name@.len(),
            field@ == name_field(name@).take(k as int),
        decreases NAME_MAX - k,
    {
        if k < n {
            field.push(name[k]);
        } else {
            field.push(0);
        }
        k = k + 1;
        assert(field@ =~= name_field(name@).take(k as int));
    }
    assert(field@ =~= name_field(name@));
    let w0: u64 = le64(&field, 0);
    let w1: u64 = le64(&field, 8);
    let w2: u64 = le64(&field, 16);
    let len: u64 = if n < NAME_MAX { n as u64 } else { NAME_MAX as u64 };
    ([w0, w1, w2], len)
}

/// Byte `j` of a word; byte zero is the lowest.
pub open spec fn word_byte(w: u64, j: int) -> u8
    decreases j,
{
    if j <= 0 {
        (w % 256) as u8
    } else {
        word_byte(w / 256, j - 1)
    }
}

/// The first `n` bytes of the name that three words hold.
pub open spec fn name_in(words: Seq<u64>, n: int) -> Seq<u8> {
    Seq::new(n as nat, |k: int| word_byte(words[k / 8], k % 8))
}

/// The eight bytes of a word, the lowest first.
fn word_bytes(w: u64) -> (r: [u8; 8])
    ensures
        le64_at(r@, 0) == w,
        forall|j: int| 0 <= j < 8 ==> #[trigger] r@[j] == word_byte(w, j),
{
    proof {
        reveal_with_fuel(word_byte, 8);
    }
    let w1: u64 = w / 256;
    let w2: u64 = w1 / 256;
    let w3: u64 = w2 / 256;
    let w4: u64 = w3 / 256;
    let w5: u64 = w4 / 256;
    let w6: u64 = w5 / 256;
    let w7: u64 = w6 / 256;
    [
        (w % 256) as u8,
        (w1 % 256) as u8,
        (w2 % 256) as u8,
        (w3 % 256) as u8,
        (w4 % 256) as u8,
        (w5 % 256) as u8,
        (w6 % 256) as u8,
        (w7 % 256) as u8,
    ]
}

/// Takes a name out of its three words, with the zeros behind it.
pub fn name_from_words(words: &[u64; 3]) -> (r: [u8; NAME_MAX])
    ensures
        forall|i: int| 0 <= i < 3 ==> le64_at(r@, 8 * i) == #[trigger] words@[i],
        r@ == name_in(words@, NAME_MAX as int),
{
    let a = word_bytes(words[0]);
    let b = word_bytes(words[1]);
    let c = word_bytes(words[2]);
    let r: [u8; NAME_MAX] = [
        a[0], a[1], a[2], a[3], a[4], a[5], a[6], a[7],
        b[0], b[1], b[2], b[3], b[4], b[5], b[6], b[7],
        c[0], c[1], c[2], c[3], c[4], c[5], c[6], c[7],
    ];
    assert(le64_at(r@, 0) == words@[0]);
    assert(le64_at(r@, 8) == words@[1]);
    assert(le64_at(r@, 16) == words@[2]);
    assert(r@ =~= name_in(words@, NAME_MAX as int));
    r
}

/// Two bytes that stand for the same number are the same bytes.
proof fn lemma_two_bytes(a: Seq<u8>, b: Seq<u8>, i: int)
    requires
        le16_at(a, i) == le16_at(b, i),
    ensures
        a[i] == b[i],
        a[i + 1] == b[i + 1],
{
}

/// Four bytes that stand for the same number are the same bytes.
proof fn lemma_four_bytes(a: Seq<u8>, b: Seq<u8>, i: int)
    requires
        le32_at(a, i) == le32_at(b, i),
    ensures
        a[i] == b[i],
        a[i + 1] == b[i + 1],
        a[i + 2] == b[i + 2],
        a[i + 3] == b[i + 3],
{
    let x = le16_at(a, i);
    let y = le16_at(b, i);
    let p = le16_at(a, i + 2);
    let q = le16_at(b, i + 2);
    assert(0 <= x < 0x1_0000 && 0 <= y < 0x1_0000);
    assert(x + p * 0x1_0000 == y + q * 0x1_0000);
    lemma_two_bytes(a, b, i);
    lemma_two_bytes(a, b, i + 2);
}

/// Eight bytes that stand for the same word are the same bytes.
proof fn lemma_word_bytes(a: Seq<u8>, b: Seq<u8>, i: int)
    requires
        le64_at(a, i) == le64_at(b, i),
    ensures
        forall|k: int| i <= k < i + 8 ==> a[k] == b[k],
{
    let x = le32_at(a, i);
    let y = le32_at(b, i);
    let p = le32_at(a, i + 4);
    let q = le32_at(b, i + 4);
    assert(0 <= x < 0x1_0000_0000 && 0 <= y < 0x1_0000_0000);
    assert(x + p * 0x1_0000_0000 == y + q * 0x1_0000_0000);
    assert(x == y && p == q) by (nonlinear_arith)
        requires
            0 <= x < 0x1_0000_0000,
            0 <= y < 0x1_0000_0000,
            x + p * 0x1_0000_0000 == y + q * 0x1_0000_0000,
    ;
    lemma_four_bytes(a, b, i);
    lemma_four_bytes(a, b, i + 4);
}

/// A name comes out of its words as it went in: the words that stand for a name stand for no other
/// bytes.
pub proof fn law_name_comes_back(name: Seq<u8>, words: Seq<u64>, out: Seq<u8>)
    requires
        out.len() == NAME_MAX,
        forall|i: int| 0 <= i < 3 ==> #[trigger] words[i] == le64_at(name_field(name), 8 * i),
        forall|i: int| 0 <= i < 3 ==> le64_at(out, 8 * i) == #[trigger] words[i],
    ensures
        out == name_field(name),
        name.len() <= NAME_MAX ==> out.take(name.len() as int) == name,
{
    let f = name_field(name);
    assert(words[0] == le64_at(f, 0) && words[1] == le64_at(f, 8) && words[2] == le64_at(f, 16));
    lemma_word_bytes(out, f, 0);
    lemma_word_bytes(out, f, 8);
    lemma_word_bytes(out, f, 16);
    assert(out =~= f);
    if name.len() <= NAME_MAX {
        assert(out.take(name.len() as int) =~= name);
    }
}


/// A page is shared: what `shm_map` returned is the number of a page, and no error.
pub open spec fn is_shared(rc: u64) -> bool {
    rc < MAX_SHMS
}

/// How far a client is with the channel to the UART server.
#[derive(Debug, Clone, Copy, PartialEq, Eq, Structural)]
pub enum InitStage {
    /// Nothing is done.
    Start,
    /// The connection was asked for.
    Connecting,
    /// The copy of the slot was asked for.
    Copying,
    /// The shared page was asked for.
    Sharing,
}

/// What follows in setting up the channel.
#[derive(Debug, Clone, Copy, PartialEq, Eq, Structural)]
pub enum InitNext {
    /// Make a call, and go on with what it returns.
    Call(InitStage, Call),
    /// The channel is there (zero), or an error came.
    Done(u64),
}

/// What follows in setting up the channel, where the last call returned `rc`.
pub open spec fn init_next(stage: InitStage, rc: u64) -> InitNext {
    match stage {
        InitStage::Start => InitNext::Call(
            InitStage::Connecting,
            call(SYSCALL_SERVICE_CONNECT, UART_SERVICE_ID, CLIENT_IPC_SLOT, SERVER_ACCEPT_SLOT),
        ),
        InitStage::Connecting => if rc != 0 {
            InitNext::Done(rc)
        } else {
            InitNext::Call(
                InitStage::Copying,
                call(SYSCALL_CAP_DUP, CLIENT_IPC_SLOT, CLIENT_SHM_SLOT, 0),
            )
        },
        InitStage::Copying => if rc != 0 {
            InitNext::Done(rc)
        } else {
            InitNext::Call(
                InitStage::Sharing,
                call(SYSCALL_SHM_MAP, CLIENT_SHM_SLOT, SERVER_SHM_SLOT, SHM_LEN),
            )
        },
        InitStage::Sharing => if is_shared(rc) {
            InitNext::Done(0)
        } else {
            InitNext::Done(rc)
        },
    }
}

/// Sets up the channel to the UART server, one call at a time: connects, keeps the slot of the
/// connection by copying it, and turns the copy into a shared page.
pub fn uart_init(stage: InitStage, rc: u64) -> (r: InitNext)
    ensures
        r == init_next(stage, rc),
{
    match stage {
        InitStage::Start => InitNext::Call(
            InitStage::Connecting,
            sys_service_connect(UART_SERVICE_ID, CLIENT_IPC_SLOT, SERVER_ACCEPT_SLOT),
        ),
        InitStage::Connecting => if rc != 0 {
            InitNext::Done(rc)
        } else {
            InitNext::Call(InitStage::Copying, sys_cap_dup(CLIENT_IPC_SLOT, CLIENT_SHM_SLOT))
        },
        InitStage::Copying => if rc != 0 {
            InitNext::Done(rc)
        } else {
            InitNext::Call(InitStage::Sharing, sys_shm_map(CLIENT_SHM_SLOT, SERVER_SHM_SLOT, SHM_LEN))
        },
        InitStage::Sharing => if rc < MAX_SHMS as u64 {
            InitNext::Done(0)
        } else {
            InitNext::Done(rc)
        },
    }
}

/// The channel is ready only where each of the three calls succeeded, and an error that is reported
/// is that of the call that failed first.
pub proof fn law_channel_needs_every_step(connect: u64, copy: u64, share: u64)
    ensures
        init_next(InitStage::Connecting, connect) != InitNext::Done(0),
        init_next(InitStage::Copying, copy) != InitNext::Done(0),
        connect != 0 ==> init_next(InitStage::Connecting, connect) == InitNext::Done(connect),
        copy != 0 ==> init_next(InitStage::Copying, copy) == InitNext::Done(copy),
        init_next(InitStage::Sharing, share) == InitNext::Done(0) <==> is_shared(share),
        !is_shared(share) ==> init_next(InitStage::Sharing, share) == InitNext::Done(share),
{
}

/// A word read as a signed number.
pub open spec fn signed(w: u64) -> int {
    if w < 0x8000_0000_0000_0000 {
        w as int
    } else {
        w - 0x1_0000_0000_0000_0000
    }
}

/// A word read as a signed number.
fn as_signed(w: u64) -> (r: i64)
    ensures
        r == signed(w),
{
    if w < 0x8000_0000_0000_0000 {
        w as i64
    } else {
        -((u64::MAX - w) as i64) - 1
    }
}

/// A request to the UART server.
pub open spec fn uart_request(op: u64, len: int) -> Call {
    sending(CLIENT_IPC_SLOT, seq![op, len as u64, 0, 0, 0])
}

/// How much of a text of `len` bytes goes through the shared page at once.
pub open spec fn window_len(len: int) -> int {
    if len < SHM_LEN {
        len
    } else {
        SHM_LEN as int
    }
}

/// Begins to write to the UART: what the shared page is to hold from its start, and the request.
pub fn uart_write(bytes: &[u8]) -> (r: (Vec<u8>, Call))
    ensures
        r.0@ == bytes@.take(window_len(bytes@.len() as int)),
        r.1 == uart_request(OP_WRITE, window_len(bytes@.len() as int)),
{
    let len: usize = bytes.len();
    let n: usize = if len < SHM_LEN as usize { len } else { SHM_LEN as usize };
    let mut window: Vec<u8> = Vec::new();
    let mut i: usize = 0;
    while i < n
        invariant
            i <= n <= bytes@.len(),
            window@ == bytes@.take(i as int),
        decreases n - i,
    {
        window.push(bytes[i]);
        i = i + 1;
        assert(window@ =~= bytes@.take(i as int));
    }
    (window, sys_ipc_send(CLIENT_IPC_SLOT, &[OP_WRITE, n as u64, 0, 0, 0]))
}

/// Begins to read from the UART into a buffer of `len` bytes.
pub fn uart_read(len: usize) -> (r: Call)
    ensures
        r == uart_request(OP_READ, window_len(len as int)),
{
    let n: usize = if len < SHM_LEN as usize { len } else { SHM_LEN as usize };
    sys_ipc_send(CLIENT_IPC_SLOT, &[OP_READ, n as u64, 0, 0, 0])
}

/// Goes on once the request was sent: waits for the reply, or gives up.
pub fn uart_sent(rc: u64) -> (r: Result<Call, i64>)
    ensures
        r == if rc == 0 {
            Ok::<Call, i64>(call(SYSCALL_IPC_RECV, CLIENT_IPC_SLOT, 0, 0))
        } else {
            Err::<Call, i64>((-1) as i64)
        },
{
    if rc != 0 {
        return Err(-1);
    }
    Ok(sys_ipc_recv(CLIENT_IPC_SLOT))
}

/// Number of bytes that the UART server took, or what went wrong.
pub fn uart_written(r: Words) -> (n: i64)
    ensures
        n == if r.a0 != 0 {
            signed(r.a0)
        } else if r.a2 != 0 {
            signed(r.a2)
        } else {
            signed(r.a3)
        },
{
    if r.a0 != 0 {
        return as_signed(r.a0);
    }
    if r.a2 != 0 {
        return as_signed(r.a2);
    }
    as_signed(r.a3)
}

/// Number of bytes to take out of the shared page into a buffer of `len` bytes, or what went wrong.
pub fn uart_got(r: Words, len: usize) -> (n: Result<usize, i64>)
    ensures
        r.a0 != 0 ==> n == Err::<usize, i64>(signed(r.a0) as i64),
        r.a0 == 0 && r.a2 != 0 ==> n == Err::<usize, i64>(signed(r.a2) as i64),
        r.a0 == 0 && r.a2 == 0 ==> n == Ok::<usize, i64>(
            if r.a3 < len {
                r.a3 as usize
            } else {
                len
            },
        ),
{
    if r.a0 != 0 {
        return Err(as_signed(r.a0));
    }
    if r.a2 != 0 {
        return Err(as_signed(r.a2));
    }
    if r.a3 < len as u64 {
        Ok(r.a3 as usize)
    } else {
        Ok(len)
    }
}

/// A number in decimal digits.
pub fn write_dec(n: u64) -> (r: Vec<u8>)
    ensures
        r@ == digits(n as nat),
{
    decimal(n)
}

/// "hello, ignium!", and a line feed.
pub open spec fn hello_line() -> Seq<u8> {
    seq![
        0x68u8, 0x65, 0x6c, 0x6c, 0x6f, 0x2c, 0x20, 0x69, 0x67, 0x6e, 0x69, 0x75, 0x6d, 0x21, 0x0a,
    ]
}

/// What the greeting program prints: a greeting, the number of its arguments, and the first.
pub open spec fn greeting(argc: u64, arg0: Option<Seq<u8>>) -> Seq<u8> {
    let front = hello_line() + seq![0x61u8, 0x72, 0x67, 0x63, 0x3d] + digits(argc as nat)
        + seq![0x0au8];
    match arg0 {
        Some(s) => front + seq![0x61u8, 0x72, 0x67, 0x76, 0x5b, 0x30, 0x5d, 0x3d] + s + seq![0x0au8],
        None => front,
    }
}

/// What the greeting program prints.
pub fn hello(argc: u64, arg0: Option<&[u8]>) -> (r: Vec<u8>)
    ensures
        r@ == greeting(
            argc,
            match arg0 {
                Some(s) => Some(s@),
                None => None,
            },
        ),
{
    let mut out: Vec<u8> = Vec::new();
    put(
        &mut out,
        &[0x68, 0x65, 0x6c, 0x6c, 0x6f, 0x2c, 0x20, 0x69, 0x67, 0x6e, 0x69, 0x75, 0x6d, 0x21, 0x0a],
    );
    assert(out@ =~= hello_line());
    put(&mut out, &[0x61, 0x72, 0x67, 0x63, 0x3d]);
    assert(out@ =~= hello_line() + seq![0x61u8, 0x72, 0x67, 0x63, 0x3d]);
    let d: Vec<u8> = write_dec(argc);
    put(&mut out, &d);
    put(&mut out, &[0x0a]);
    assert(out@ =~= greeting(argc, None));
    if let Some(s) = arg0 {
        put(&mut out, &[0x61, 0x72, 0x67, 0x76, 0x5b, 0x30, 0x5d, 0x3d]);
        assert(out@ =~= greeting(argc, None)
            + seq![0x61u8, 0x72, 0x67, 0x76, 0x5b, 0x30, 0x5d, 0x3d]);
        put(&mut out, s);
        put(&mut out, &[0x0a]);
        assert(out@ =~= greeting(argc, Some(s@)));
    }
    out
}

/// What a program writes at [`MARKER_VA`] when it has finished.
pub fn marker(argc: u64) -> (r: u64)
    ensures
        r == MARKER | argc,
{
    MARKER | argc
}

} // verus!
