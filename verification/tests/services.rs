//! The services, one request at a time.

use ignium::memory_server::{MemoryAt, MemoryServer};
use ignium::ramfs::{FileServer, FileState, FsAt};
use ignium::shm::SHM_VA;
use ignium::uart_server::{UartEvent, UartNext, UartServer};
use ignium::user::{
    hello, marker, name_from_words, name_to_words, sys_cap_dup, sys_exit, sys_ipc_recv,
    sys_ipc_send, sys_map_device, sys_mem_grant, sys_mem_map, sys_service_connect,
    sys_service_register, sys_shm_map, sys_write, uart_got, uart_init, uart_read, uart_sent, uart_write,
    uart_written, write_dec, Call, InitNext, InitStage, Words, CLIENT_IPC_SLOT, ERR_ENOMEM,
    OP_ALLOC, OP_FREE, OP_FS_CLOSE, OP_FS_OPEN, OP_FS_READ, OP_FS_UNLINK, OP_FS_WRITE, OP_PING,
    OP_READ, OP_REPLY_FLAG, OP_WRITE, PROTO_ERR, RAMFS_VA, USER_ERR_EBADF, USER_ERR_EEXIST,
    USER_ERR_EINVAL,
};

fn ok() -> Words {
    back(0)
}

fn back(a0: u64) -> Words {
    Words { a0, a1: 0, a2: 0, a3: 0, a4: 0, a5: 0 }
}

fn request(op: u64, a: u64, b: u64, c: u64, d: u64) -> Words {
    Words { a0: 0, a1: op, a2: a, a3: b, a4: c, a5: d }
}

fn reply(op: u64, status: u64, result: u64) -> Call {
    sys_ipc_send(0, &[op | OP_REPLY_FLAG, status, result, 0, 0])
}

#[test]
fn names_come_back() {
    let (w, n) = name_to_words(b"test.txt");
    assert_eq!(n, 8);
    assert_eq!(w[0], u64::from_le_bytes(*b"test.txt"));
    assert_eq!((w[1], w[2]), (0, 0));
    assert_eq!(&name_from_words(&w)[..8], b"test.txt");
    let long = b"a name that is longer than it may be";
    let (w, n) = name_to_words(long);
    assert_eq!(n, 24);
    assert_eq!(&name_from_words(&w)[..], &long[..24]);
    assert_eq!(name_to_words(b"").1, 0);
}

#[test]
fn calls_are_registers() {
    let six = |c: Call| (c.num, c.args.a0, c.args.a1, c.args.a2);
    assert_eq!(six(sys_exit()), (1, 0, 0, 0));
    assert_eq!(six(sys_write(1, 0x4000_1000, 5)), (8, 1, 0x4000_1000, 5));
    assert_eq!(six(sys_ipc_recv(4)), (4, 4, 0, 0));
    assert_eq!(six(sys_shm_map(3, 1, 4096)), (5, 3, 1, 4096));
    assert_eq!(six(sys_cap_dup(2, 3)), (7, 2, 3, 0));
    assert_eq!(six(sys_service_register(1)), (10, 1, 0, 0));
    assert_eq!(six(sys_service_connect(1, 2, 0)), (11, 1, 2, 0));
    assert_eq!(six(sys_map_device(0, 0x6000_0000)), (12, 0, 0x6000_0000, 0));
    assert_eq!(six(sys_mem_grant(1, 2, 3)), (13, 1, 2, 3));
    assert_eq!(six(sys_mem_map(3, 0x7000_0000)), (14, 3, 0x7000_0000, 0));
}

#[test]
fn channel_is_set_up_in_steps() {
    let next = |stage, rc| uart_init(stage, rc);
    assert_eq!(
        next(InitStage::Start, 9),
        InitNext::Call(InitStage::Connecting, sys_service_connect(1, 2, 0))
    );
    assert_eq!(next(InitStage::Connecting, 5), InitNext::Done(5));
    assert_eq!(
        next(InitStage::Connecting, 0),
        InitNext::Call(InitStage::Copying, sys_cap_dup(2, 3))
    );
    assert_eq!(next(InitStage::Copying, 6), InitNext::Done(6));
    assert_eq!(
        next(InitStage::Copying, 0),
        InitNext::Call(InitStage::Sharing, sys_shm_map(3, 1, 4096))
    );
    assert_eq!(next(InitStage::Sharing, 0), InitNext::Done(0));
    assert_eq!(next(InitStage::Sharing, 3), InitNext::Done(0));
    assert_eq!(next(InitStage::Sharing, u64::MAX), InitNext::Done(u64::MAX));
}

#[test]
fn uart_client() {
    let (window, c) = uart_write(b"hi");
    assert_eq!(window, b"hi");
    assert_eq!(c, sys_ipc_send(CLIENT_IPC_SLOT, &[OP_WRITE, 2, 0, 0, 0]));
    let (window, c) = uart_write(&[7u8; 5000]);
    assert_eq!(window.len(), 4096);
    assert_eq!(c.args.a2, 4096);
    assert_eq!(uart_read(10), sys_ipc_send(CLIENT_IPC_SLOT, &[OP_READ, 10, 0, 0, 0]));
    assert_eq!(uart_sent(1), Err(-1));
    assert_eq!(uart_sent(0), Ok(sys_ipc_recv(CLIENT_IPC_SLOT)));
    assert_eq!(uart_written(back(u64::MAX)), -1);
    assert_eq!(uart_written(request(0x81, u64::MAX - 2, 9, 0, 0)), -3);
    assert_eq!(uart_written(request(0x81, 0, 9, 0, 0)), 9);
    assert_eq!(uart_got(request(0x82, 0, 9, 0, 0), 4), Ok(4));
    assert_eq!(uart_got(request(0x82, 0, 3, 0, 0), 4), Ok(3));
    assert_eq!(uart_got(request(0x82, u64::MAX, 3, 0, 0), 4), Err(-1));
    assert_eq!(uart_got(back(u64::MAX - 1), 4), Err(-2));
}

#[test]
fn greeting_text() {
    assert_eq!(write_dec(0), b"0");
    assert_eq!(write_dec(1203), b"1203");
    assert_eq!(hello(2, None), b"hello, ignium!\nargc=2\n");
    assert_eq!(hello(2, Some(b"x")), b"hello, ignium!\nargc=2\nargv[0]=x\n");
    assert_eq!(marker(3), 0xc0de_0003);
}

#[test]
fn pool_runs_dry_and_fills_up() {
    let (mut s, c) = MemoryServer::start();
    assert_eq!(c, sys_service_register(2));
    assert_eq!(s.step(ok()), sys_ipc_recv(0));
    for i in 0..4 {
        assert_eq!(s.step(request(OP_ALLOC, 3, 0, 0, 0)), sys_mem_grant(1 + i, 0, 3));
        assert_eq!(s.step(ok()), reply(OP_ALLOC, 0, 0));
        assert_eq!(s.step(ok()), sys_ipc_recv(0));
    }
    assert_eq!(s.step(request(OP_ALLOC, 3, 0, 0, 0)), reply(OP_ALLOC, ERR_ENOMEM, 0));
    s.step(ok());
    for i in 0..4 {
        assert_eq!(s.step(request(OP_FREE, 3, 0, 0, 0)), reply(OP_FREE, 0, 1 + i));
        s.step(ok());
    }
    assert_eq!(s.step(request(OP_FREE, 3, 0, 0, 0)), reply(OP_FREE, ERR_ENOMEM, 0));
    s.step(ok());
    assert_eq!(s.step(request(77, 0, 0, 0, 0)), reply(77, PROTO_ERR, 0));
    s.step(ok());
    // A hand-over that fails leaves the page in the pool.
    s.step(request(OP_ALLOC, 3, 0, 0, 0));
    assert_eq!(s.step(back(u64::MAX - 1)), reply(OP_ALLOC, u64::MAX - 1, 0));
    assert_eq!(s.full, vec![true; 4]);
    s.step(ok());
    // A receive that fails is tried again.
    assert_eq!(s.step(back(1)), sys_ipc_recv(0));
}

#[test]
fn memory_server_that_cannot_register_ends() {
    let (mut s, _) = MemoryServer::start();
    assert_eq!(s.step(back(1)), sys_exit());
    assert_eq!(s.at, MemoryAt::Ended);
    assert_eq!(s.step(ok()), sys_exit());
}

/// A file server that listens.
fn files() -> FileServer {
    let (mut s, c) = FileServer::start();
    assert_eq!(c, sys_service_register(3));
    assert_eq!(s.step(ok()).call, sys_service_connect(2, 2, 0));
    assert_eq!(s.step(ok()).call, sys_ipc_recv(0));
    s
}

fn open(s: &mut FileServer, name: &[u8]) -> Call {
    let (w, n) = name_to_words(name);
    s.step(request(OP_FS_OPEN, n, w[0], w[1], w[2])).call
}

/// Makes a file, with a memory server that agrees.
fn make(s: &mut FileServer, name: &[u8], fd: u64) {
    assert_eq!(open(s, name), sys_ipc_send(2, &[OP_ALLOC, 3 + fd, 0, 0, 0]));
    assert_eq!(s.step(ok()).call, sys_ipc_recv(2));
    let agreed = request(OP_ALLOC | OP_REPLY_FLAG, 0, 0, 0, 0);
    assert_eq!(s.step(agreed).call, sys_mem_map(3 + fd, RAMFS_VA + fd * 4096));
    assert_eq!(s.step(ok()).call, reply(OP_FS_OPEN, 0, fd));
    assert_eq!(s.step(ok()).call, sys_ipc_recv(0));
}

#[test]
fn files_open_close_and_open_again() {
    let mut s = files();
    make(&mut s, b"a", 0);
    make(&mut s, b"b", 1);
    assert_eq!(open(&mut s, b"a"), reply(OP_FS_OPEN, USER_ERR_EEXIST, 0));
    s.step(ok());
    assert_eq!(s.step(request(OP_FS_CLOSE, 0, 0, 0, 0)).call, reply(OP_FS_CLOSE, 0, 0));
    s.step(ok());
    assert_eq!(s.files[0].state, FileState::Closed);
    assert_eq!(s.step(request(OP_FS_CLOSE, 0, 0, 0, 0)).call, reply(OP_FS_CLOSE, USER_ERR_EBADF, 0));
    s.step(ok());
    assert_eq!(open(&mut s, b"a"), reply(OP_FS_OPEN, 0, 0));
    s.step(ok());
    assert_eq!(open(&mut s, b""), reply(OP_FS_OPEN, USER_ERR_EINVAL, 0));
    s.step(ok());
    let long = s.step(request(OP_FS_OPEN, 25, 1, 1, 1)).call;
    assert_eq!(long, reply(OP_FS_OPEN, USER_ERR_EINVAL, 0));
    s.step(ok());
    make(&mut s, b"c", 2);
    make(&mut s, b"d", 3);
    assert_eq!(open(&mut s, b"e"), reply(OP_FS_OPEN, ERR_ENOMEM, 0));
    s.step(ok());
    assert_eq!(s.step(request(99, 0, 0, 0, 0)).call, reply(99, PROTO_ERR, 0));
}

#[test]
fn written_bytes_are_read_back() {
    let mut s = files();
    make(&mut s, b"a", 0);
    make(&mut s, b"b", 1);
    // The shared page at 0, the files behind it.
    let at = |va: u64| {
        if va >= RAMFS_VA {
            (4096 + va - RAMFS_VA) as usize
        } else {
            (va - SHM_VA) as usize
        }
    };
    let mut memory = vec![0u8; 5 * 4096];
    memory[..5].copy_from_slice(b"hello");
    let n = s.step(request(OP_FS_WRITE, 1, 100, 5, 0));
    assert_eq!(n.call, reply(OP_FS_WRITE, 0, 5));
    let c = n.copy.expect("copy");
    assert_eq!((c.from, c.to, c.len), (SHM_VA, RAMFS_VA + 4096 + 100, 5));
    for i in 0..c.len as usize {
        memory[at(c.to) + i] = memory[at(c.from) + i];
    }
    s.step(ok());
    memory[..5].copy_from_slice(b"xxxxx");
    // The read stops at the end of the file.
    let n = s.step(request(OP_FS_READ, 1, 100, 50, 0));
    assert_eq!(n.call, reply(OP_FS_READ, 0, 5));
    let c = n.copy.expect("copy");
    for i in 0..c.len as usize {
        memory[at(c.to) + i] = memory[at(c.from) + i];
    }
    assert_eq!(&memory[..5], b"hello");
    s.step(ok());
    assert_eq!(s.files[1].size, 105);
    assert_eq!(s.files[0].size, 0);
    let n = s.step(request(OP_FS_READ, 1, 105, 1, 0));
    assert_eq!((n.copy, n.call), (None, reply(OP_FS_READ, 0, 0)));
    s.step(ok());
    assert_eq!(s.step(request(OP_FS_READ, 99, 0, 1, 0)).call, reply(OP_FS_READ, USER_ERR_EBADF, 0));
    s.step(ok());
    assert_eq!(s.step(request(OP_FS_WRITE, 2, 0, 1, 0)).call, reply(OP_FS_WRITE, USER_ERR_EBADF, 0));
    s.step(ok());
    assert_eq!(
        s.step(request(OP_FS_WRITE, 1, 4095, 2, 0)).call,
        reply(OP_FS_WRITE, USER_ERR_EINVAL, 0)
    );
    s.step(ok());
    assert_eq!(
        s.step(request(OP_FS_WRITE, 1, 1, u64::MAX, 0)).call,
        reply(OP_FS_WRITE, USER_ERR_EINVAL, 0)
    );
}

#[test]
fn removed_file_is_gone() {
    let mut s = files();
    make(&mut s, b"a", 0);
    assert_eq!(
        s.step(request(OP_FS_UNLINK, 0, 0, 0, 0)).call,
        sys_ipc_send(2, &[OP_FREE, 3, 0, 0, 0])
    );
    assert_eq!(s.step(ok()).call, sys_ipc_recv(2));
    let agreed = request(OP_FREE | OP_REPLY_FLAG, 0, 4, 0, 0);
    assert_eq!(s.step(agreed).call, sys_mem_grant(3, 2, 4));
    assert_eq!(s.step(ok()).call, reply(OP_FS_UNLINK, 0, 0));
    s.step(ok());
    assert_eq!(s.files[0].state, FileState::Free);
    assert_eq!(
        s.step(request(OP_FS_UNLINK, 0, 0, 0, 0)).call,
        reply(OP_FS_UNLINK, USER_ERR_EBADF, 0)
    );
    s.step(ok());
    make(&mut s, b"a", 0);
}

#[test]
fn file_server_without_memory_refuses() {
    let mut s = files();
    open(&mut s, b"a");
    assert_eq!(s.step(back(1)).call, reply(OP_FS_OPEN, ERR_ENOMEM, 0));
    s.step(ok());
    open(&mut s, b"a");
    s.step(ok());
    let refused = request(OP_ALLOC | OP_REPLY_FLAG, ERR_ENOMEM, 0, 0, 0);
    assert_eq!(s.step(refused).call, reply(OP_FS_OPEN, ERR_ENOMEM, 0));
    s.step(ok());
    assert!(s.files.iter().all(|f| f.state == FileState::Free));
    make(&mut s, b"a", 0);
    s.step(request(OP_FS_UNLINK, 0, 0, 0, 0));
    assert_eq!(s.step(back(1)).call, reply(OP_FS_UNLINK, ERR_ENOMEM, 0));
    assert_eq!(s.at, FsAt::Answering);
    assert_eq!(s.files[0].state, FileState::Open);
}

#[test]
fn uart_server_reads_what_is_there() {
    let (mut s, c) = UartServer::start();
    assert_eq!(c, sys_map_device(0, 0x6000_0000));
    let b = |w| UartEvent::Back(w);
    assert_eq!(s.step(b(ok())), UartNext::Call(sys_service_register(1)));
    assert_eq!(s.step(b(ok())), UartNext::Call(sys_ipc_recv(0)));
    assert_eq!(s.step(b(request(OP_READ, 10, 0, 0, 0))), UartNext::Look);
    assert_eq!(s.step(UartEvent::Status(0x61)), UartNext::Take(0));
    assert_eq!(s.step(UartEvent::Done), UartNext::Look);
    assert_eq!(s.step(UartEvent::Status(0x61)), UartNext::Take(1));
    assert_eq!(s.step(UartEvent::Done), UartNext::Look);
    assert_eq!(s.step(UartEvent::Status(0x60)), UartNext::Call(reply(OP_READ, 0, 2)));
    assert_eq!(s.step(b(ok())), UartNext::Call(sys_ipc_recv(0)));
    assert_eq!(s.step(b(request(OP_READ, 0, 0, 0, 0))), UartNext::Call(reply(OP_READ, 0, 0)));
    s.step(b(ok()));
    assert_eq!(s.step(b(request(OP_WRITE, 9999, 0, 0, 0))), UartNext::Print(4096));
    assert_eq!(s.step(UartEvent::Done), UartNext::Call(reply(OP_WRITE, 0, 4096)));
    s.step(b(ok()));
    assert_eq!(s.step(b(request(OP_PING, 1, 0, 0, 0))), UartNext::Call(reply(OP_PING, 0, 0)));
    s.step(b(ok()));
    assert_eq!(s.step(b(request(50, 1, 0, 0, 0))), UartNext::Call(reply(50, PROTO_ERR, 0)));
}

#[test]
fn uart_server_without_device_ends() {
    let (mut s, _) = UartServer::start();
    assert_eq!(s.step(UartEvent::Back(back(1))), UartNext::Call(sys_exit()));
}
