//! Pages, page tables, shared and granted pages, the heap.

use ignium::device;
use ignium::device::DeviceTable;
use ignium::fdt::BoardParams;
use ignium::heap::{self, HeapError, KernelAllocator, KernelHeap};
use ignium::mem::{self, BuddyAllocator, PAGE_SIZE};
use ignium::mmu::{self, KernelLayout, PhysMemory};
use ignium::pages;
use ignium::process::{self, Cap, CapError, MAX_CAPS, MAX_PROCESSES};
use ignium::ram::Ram;
use ignium::services::{self, ServiceTable};
use ignium::shm::{self, SHM_LEN, SHM_VA};
use ignium::space::Spaces;
use ignium::sv39::{pte, pte_leaf, pte_target, pte_user, pte_valid, vpns, PTE_LEAF_RW, PTE_LEAF_RX};
use ignium::syscall::{
    SYS_ERR_EACCES, SYS_ERR_EEXIST, SYS_ERR_EINVAL, SYS_ERR_ENOENT,
};
use ignium::tiling::MAX_ORDER;

const BASE: u64 = 0x8100_0000;
const UART_BASE: u64 = 0x1000_0000;

fn layout() -> KernelLayout {
    KernelLayout {
        ram_start: 0x8000_0000,
        ram_end: 0x8200_0000,
        kernel_start: 0x8020_0000,
        text_start: 0x8020_0000,
        rodata_start: 0x8021_0000,
        data_start: 0x8022_0000,
        kernel_end: 0x8030_0000,
        stack_guard: 0x8022_8000,
        trap_base: 0x8023_0000,
        trap_top: 0x8025_0000,
        idle_base: 0x8026_0000,
        idle_top: 0x8028_0000,
        uart_base: UART_BASE,
    }
}

fn frames() -> BuddyAllocator {
    mem::init(&BoardParams::empty(), 0x8030_0000, 0x8200_0000)
}

fn spaces() -> Spaces {
    Spaces::new(PhysMemory::new(Ram::new(BASE, 4096), frames()))
}

#[test]
fn block_is_used_again() {
    let mut a = frames();
    assert_eq!(mem::base(&a), BASE);
    assert_eq!(mem::page_count(&a), 4096);
    let x = mem::alloc_pages(&mut a, MAX_ORDER).expect("largest");
    assert!(mem::free_pages(&mut a, x).is_ok());
    assert_eq!(mem::alloc_pages(&mut a, MAX_ORDER), Some(x));
    assert!(mem::alloc_pages(&mut a, 0).is_none());
    assert!(mem::free_pages(&mut a, x).is_ok());
}

#[test]
fn memory_of_the_usual_machine() {
    let mut a = mem::init(&BoardParams::empty(), 0x8030_0000, 0x8800_0000);
    assert_eq!(mem::page_count(&a) * 4, 114_688);
    let mut held = Vec::new();
    while let Some(x) = mem::alloc_pages(&mut a, MAX_ORDER) {
        held.push(x);
    }
    let expected: Vec<u64> = (1..=7).rev().map(|i| 0x8000_0000 + i * 0x100_0000).collect();
    assert_eq!(held, expected);
    for x in held {
        assert!(mem::free_pages(&mut a, x).is_ok());
    }
    let root = mem::alloc_pages(&mut a, 0).expect("page");
    assert_eq!(root, 0x8100_0000);
    assert_eq!(mmu::satp_value(root), 0x8000_0000_0008_1000);
}

#[test]
fn pages_merge_when_all_are_free() {
    let mut a = frames();
    let mut held = Vec::new();
    for order in (0..=5).rev() {
        for _ in 0..3 {
            held.push(mem::alloc_pages(&mut a, order).expect("block"));
        }
    }
    while let Some(p) = mem::alloc_pages(&mut a, 0) {
        held.push(p);
    }
    assert_eq!(a.free_page_count(), 0);
    assert!(mem::alloc_pages(&mut a, 0).is_none());
    for p in held {
        assert!(mem::free_pages(&mut a, p).is_ok());
    }
    assert_eq!(a.free_page_count(), 4096);
    assert!(mem::alloc_pages(&mut a, MAX_ORDER).is_some());
}

#[test]
fn pages_come_in_turn() {
    // What an allocator in the same state would hand out.
    let mut twin = frames();
    let mut draw = |n: usize| {
        let first = mem::alloc_pages(&mut twin, 0).expect("page");
        for _ in 1..n {
            mem::alloc_pages(&mut twin, 0);
        }
        first
    };
    let mut s = spaces();
    let mut before = s.mem.frames.free_page_count();
    let mut taken = |s: &Spaces| {
        let n = s.mem.frames.free_page_count();
        let t = before - n;
        before = n;
        t
    };
    let a = process::create(&mut s, &layout()).unwrap();
    let n = taken(&s);
    assert_eq!(process::root(&s.procs, a), draw(n));
    let b = process::create(&mut s, &layout()).unwrap();
    let n = taken(&s);
    assert_eq!(process::root(&s.procs, b), draw(n));
    assert!(process::grant_cap(&mut s.procs, a, 0, b).is_ok());
    let id = shm::mmap_share(&mut s, a, 0, 1, SHM_LEN).unwrap();
    let n = taken(&s);
    assert_eq!(s.shms.get(id).map(|p| p.paddr), Some(draw(n)));
    let id = pages::alloc_page(&mut s, a, 2).unwrap();
    let n = taken(&s);
    assert_eq!(n, 1);
    assert_eq!(s.pages.get(id).map(|p| p.paddr), Some(draw(n)));
}

#[test]
fn blocks_are_aligned() {
    let mut a = frames();
    for order in 0..=MAX_ORDER {
        let x = mem::alloc_pages(&mut a, order).expect("block");
        assert_eq!(x % (PAGE_SIZE << order), 0);
        assert!(mem::free_pages(&mut a, x).is_ok());
    }
    assert!(mem::alloc_pages(&mut a, MAX_ORDER + 1).is_none());
}

#[test]
fn bad_frees_are_refused() {
    let mut a = frames();
    let x = mem::alloc_pages(&mut a, 0).expect("page");
    assert!(mem::free_pages(&mut a, x).is_ok());
    assert!(mem::free_pages(&mut a, x).is_err());
    let y = mem::alloc_pages(&mut a, 2).expect("block");
    assert!(mem::free_pages(&mut a, y + PAGE_SIZE).is_err());
    assert!(mem::free_pages(&mut a, y + 8).is_err());
    assert!(mem::free_pages(&mut a, 0x1000).is_err());
    assert!(mem::free_pages(&mut a, y).is_ok());
    assert!(mem::page_in_range(&a, y));
    assert!(!mem::page_in_range(&a, 0x8200_0000));
}

#[test]
fn reserved_pages_are_never_handed_out() {
    let mut params = BoardParams::empty();
    params.add_reserved(BASE + 0x3000, 0x1800);
    let mut a = mem::init(&params, 0x8030_0000, 0x8200_0000);
    assert_eq!(a.free_page_count(), 4094);
    while let Some(p) = mem::alloc_pages(&mut a, 0) {
        assert!(p != BASE + 0x3000 && p != BASE + 0x4000);
    }
    assert!(mem::free_pages(&mut a, BASE + 0x3000).is_err());
}

#[test]
fn entries_hold_address_and_rights() {
    let e = pte(0x8123_4000, PTE_LEAF_RX);
    assert!(pte_valid(e) && pte_leaf(e) && !pte_user(e));
    assert_eq!(pte_target(e), 0x8123_4000);
    assert_eq!(vpns(0x4020_3000), (1, 1, 3));
    assert_eq!(pte(0x1000, PTE_LEAF_RW) >> 10, 1);
}

#[test]
fn kernel_region_is_mapped() {
    let mut m = PhysMemory::new(Ram::new(BASE, 4096), frames());
    let root = mmu::init(&mut m, &layout());
    let satp = mmu::satp_value(root);
    assert_eq!(satp >> 60, 8);
    assert_eq!((satp & 0xfff_ffff_ffff) << 12, root);
    assert_eq!(mmu::switch_root(satp, root), None);
    assert_eq!(mmu::switch_root(0, root), Some(satp));
    assert!(mmu::is_mapped(&m, root, UART_BASE));
    assert!(mmu::is_mapped(&m, root, 0x8000_0000));
    assert!(mmu::is_mapped(&m, root, 0x81ff_f000));
    assert!(!mmu::is_mapped(&m, root, 0x8022_8000));
    assert!(!mmu::is_mapped(&m, root, 0x8023_0000));
    assert!(mmu::is_mapped(&m, root, 0x8023_4000));
    assert!(!mmu::is_mapped(&m, root, 0x8200_0000));
    assert!(!mmu::is_user_mapped(&m, root, 0x8000_0000));
    // The first entry of the root leads to the table for the UART.
    assert_eq!(m.ram.read(root) & 1, 1);
    let page = m.alloc_page_zeroed().expect("page");
    m.ram.write(page, 0x1234_5678_9abc_def0);
    assert_eq!(m.ram.read(page), 0x1234_5678_9abc_def0);
    assert!(m.free_block(page).is_ok());
}

#[test]
fn user_pages_come_and_go() {
    let mut m = PhysMemory::new(Ram::new(BASE, 4096), frames());
    let root = mmu::create_user_root(&mut m, &layout()).expect("root");
    let before = m.frames.free_page_count();
    let pa = m.alloc_page_zeroed().expect("page");
    assert!(mmu::map_user_page(&mut m, root, 0x4000_0000, pa, 0xc7).is_ok());
    assert!(mmu::is_mapped(&m, root, 0x4000_0fff));
    assert!(mmu::is_user_mapped(&m, root, 0x4000_0000));
    assert!(!mmu::is_mapped(&m, root, 0x4000_1000));
    assert!(mmu::unmap_4k(&mut m, root, 0x4000_0000).is_ok());
    assert!(!mmu::is_mapped(&m, root, 0x4000_0000));
    assert!(mmu::unmap_4k(&mut m, root, 0x4000_0000).is_ok());
    // Large pages are not taken apart.
    assert!(mmu::unmap_4k(&mut m, root, 0x8000_0000).is_err());
    assert!(mmu::map_user_page(&mut m, root, 0x4000_0000, pa, 0xc7).is_ok());
    mmu::destroy_root(&mut m, root);
    assert!(m.frames.free_page_count() > before);
    assert_eq!(m.frames.free_page_count(), 4096);
}

#[test]
fn table_of_processes_fills_up() {
    let mut s = spaces();
    let mut pids = Vec::new();
    while let Ok(p) = process::create(&mut s, &layout()) {
        pids.push(p);
    }
    assert_eq!(pids.len(), MAX_PROCESSES);
    let mut d = DeviceTable::new();
    let mut v = ServiceTable::new();
    process::destroy(&mut s, &mut d, &mut v, pids[3]);
    assert!(process::pid_root(&s.procs, pids[3]).is_none());
    assert_eq!(process::create(&mut s, &layout()), Ok(pids[3]));
}

#[test]
fn capabilities_are_checked() {
    let mut s = spaces();
    let a = process::create(&mut s, &layout()).unwrap();
    let b = process::create(&mut s, &layout()).unwrap();
    let p = &mut s.procs;
    assert_eq!(process::grant_cap(p, a, 0, b), Ok(()));
    assert_eq!(process::cap_target(p, a, 0), Ok(Cap::Proc(b)));
    assert_eq!(process::cap_target(p, a, MAX_CAPS), Err(CapError::InvalidSlot));
    assert_eq!(process::cap_target(p, a, 1), Err(CapError::NotFound));
    assert_eq!(process::grant_cap(p, a, MAX_CAPS, b), Err(CapError::InvalidSlot));
    assert_eq!(process::cap_duplicate(p, a, 0, 5), Ok(()));
    assert_eq!(process::cap_target(p, a, 5), Ok(Cap::Proc(b)));
    assert_eq!(process::cap_duplicate(p, a, 1, 6), Err(CapError::NotFound));
    assert_eq!(process::clear_cap(p, a, 5), Ok(()));
    assert_eq!(process::cap_target(p, a, 5), Err(CapError::NotFound));
    assert_eq!(process::cap_errno(CapError::InvalidSlot), SYS_ERR_EINVAL);
    assert_eq!(process::cap_errno(CapError::NotFound), SYS_ERR_EACCES);
}

#[test]
fn page_has_one_holder() {
    let mut s = spaces();
    let a = process::create(&mut s, &layout()).unwrap();
    let b = process::create(&mut s, &layout()).unwrap();
    let id = pages::alloc_page(&mut s, a, 1).expect("page");
    assert_eq!(process::cap_target(&s.procs, a, 1), Ok(Cap::Page(id)));
    let pa = pages::paddr(&s.pages, id).expect("address");
    assert_eq!(s.mem.ram.read(pa), 0);
    // It cannot be copied.
    assert_eq!(process::cap_duplicate(&mut s.procs, a, 1, 2), Err(CapError::WrongType));
    // It can be mapped once.
    assert_eq!(pages::mem_map(&mut s, a, 1, 0x7000_0000), Ok(()));
    assert!(pages::is_mapped(&s.pages, id));
    assert_eq!(pages::mem_map(&mut s, a, 1, 0x7000_1000), Err(SYS_ERR_EEXIST));
    // It moves only to a process that the holder knows, and is unmapped then.
    assert!(pages::mem_grant(&mut s, a, 1, 0, 4).is_err());
    assert!(process::grant_cap(&mut s.procs, a, 0, b).is_ok());
    assert_eq!(pages::mem_grant(&mut s, a, 1, 0, 4), Ok(()));
    assert_eq!(process::cap_target(&s.procs, a, 1), Err(CapError::NotFound));
    assert_eq!(process::cap_target(&s.procs, b, 4), Ok(Cap::Page(id)));
    let root = process::root(&s.procs, a);
    assert!(!mmu::is_mapped(&s.mem, root, 0x7000_0000));
    assert!(!pages::is_mapped(&s.pages, id));
    let free = s.mem.frames.free_page_count();
    assert_eq!(process::cap_revoke(&mut s, b, 4), Ok(()));
    assert_eq!(s.mem.frames.free_page_count(), free + 1);
    assert!(pages::paddr(&s.pages, id).is_none());
}

#[test]
fn shared_page_is_one() {
    let mut s = spaces();
    let a = process::create(&mut s, &layout()).unwrap();
    let b = process::create(&mut s, &layout()).unwrap();
    assert_eq!(shm::mmap_share(&mut s, a, 0, 1, SHM_LEN), Err(SYS_ERR_EACCES));
    assert!(process::grant_cap(&mut s.procs, a, 0, b).is_ok());
    assert_eq!(shm::mmap_share(&mut s, a, 0, 1, 1), Err(SYS_ERR_EINVAL));
    assert_eq!(shm::mmap_share(&mut s, a, 0, MAX_CAPS, SHM_LEN), Err(SYS_ERR_EINVAL));
    let free = s.mem.frames.free_page_count();
    let id = shm::mmap_share(&mut s, a, 0, 1, SHM_LEN).expect("shared");
    let (ra, rb) = (process::root(&s.procs, a), process::root(&s.procs, b));
    assert!(mmu::is_user_mapped(&s.mem, ra, SHM_VA));
    assert!(mmu::is_user_mapped(&s.mem, rb, SHM_VA));
    assert!(shm::shm_revoke(&mut s, id).is_ok());
    assert!(shm::shm_revoke(&mut s, id).is_err());
    assert!(!mmu::is_mapped(&s.mem, ra, SHM_VA));
    assert!(!mmu::is_mapped(&s.mem, rb, SHM_VA));
    // The tables stay, the page is back.
    assert!(s.mem.frames.free_page_count() <= free);
    assert_eq!(process::cap_target(&s.procs, a, 0), Err(CapError::NotFound));
}

#[test]
fn device_has_one_owner() {
    let mut s = spaces();
    let mut d = DeviceTable::new();
    let a = process::create(&mut s, &layout()).unwrap();
    let b = process::create(&mut s, &layout()).unwrap();
    assert!(device::map(&mut d, &mut s, UART_BASE, a, 1, 0x6000_0000).is_err());
    assert_eq!(device::map(&mut d, &mut s, UART_BASE, a, 0, 0x6000_0000), Ok(()));
    let root = process::root(&s.procs, a);
    assert!(mmu::is_user_mapped(&s.mem, root, 0x6000_0000));
    assert!(device::map(&mut d, &mut s, UART_BASE, b, 0, 0x6000_0000).is_err());
    device::release_all(&mut d, a);
    assert_eq!(device::map(&mut d, &mut s, UART_BASE, b, 0, 0x6000_0000), Ok(()));
}

#[test]
fn services_are_found_by_number() {
    let mut s = spaces();
    let mut v = ServiceTable::new();
    let a = process::create(&mut s, &layout()).unwrap();
    let b = process::create(&mut s, &layout()).unwrap();
    assert_eq!(services::connect(&v, &mut s.procs, b, 2, 2, 0), Err(SYS_ERR_ENOENT));
    assert_eq!(process::register_service(&s.procs, &mut v, a, 0), Err(SYS_ERR_EINVAL));
    assert_eq!(process::register_service(&s.procs, &mut v, a, 2), Ok(()));
    assert_eq!(process::register_service(&s.procs, &mut v, b, 2), Err(SYS_ERR_EEXIST));
    assert_eq!(services::connect(&v, &mut s.procs, b, 2, 2, 0), Ok(()));
    assert_eq!(process::cap_target(&s.procs, b, 2), Ok(Cap::Proc(a)));
    assert_eq!(process::cap_target(&s.procs, a, 0), Ok(Cap::Proc(b)));
    services::unregister_all_locked(&mut v, a);
    assert_eq!(services::lookup(&v, 2), None);
}

#[test]
fn heap_reuses_its_slots() {
    let mut h = heap::init(frames());
    // A slot of the old page is used before a new page is opened.
    let slots = (4096 - 32) / 32;
    let mut ptrs = Vec::new();
    for _ in 0..2 * slots {
        ptrs.push(h.alloc_object(32, 8).expect("slot"));
    }
    assert_eq!(h.dealloc(ptrs[0], 32), Ok(()));
    let extra = h.alloc_object(32, 8).expect("slot");
    assert_eq!(extra & !4095, ptrs[0] & !4095);
    let mut all = ptrs.clone();
    all.sort();
    all.dedup();
    assert_eq!(all.len(), ptrs.len());
    for p in &ptrs[1..] {
        assert_eq!(h.dealloc(*p, 32), Ok(()));
    }
    assert_eq!(h.dealloc(extra, 32), Ok(()));
}

#[test]
fn heap_gives_empty_pages_back() {
    let mut h = heap::init(frames());
    let cap = (4096 - 256) / 256;
    let mut ptrs = Vec::new();
    for _ in 0..3 * cap {
        ptrs.push(h.alloc_object(256, 8).expect("slot"));
    }
    for p in &ptrs {
        assert_eq!(h.dealloc(*p, 256), Ok(()));
    }
    let mid = h.frames.free_page_count();
    let grown = h.alloc_object(1024, 8).expect("slot");
    assert_eq!(h.dealloc(grown, 1024), Ok(()));
    assert!(h.frames.free_page_count() > mid);
    // The first page of a class stays.
    let p = h.alloc_object(256, 8).expect("slot");
    let steady = h.frames.free_page_count();
    assert_eq!(h.dealloc(p, 256), Ok(()));
    assert_eq!(h.frames.free_page_count(), steady);
}

#[test]
fn heap_serves_large_objects() {
    let mut h: KernelAllocator = heap::init(frames());
    let before = h.frames.free_page_count();
    let big = h.alloc_object(4096, 8).expect("page");
    assert_ne!(big, 0);
    assert_eq!(h.dealloc(big, 4096), Ok(()));
    assert_eq!(h.frames.free_page_count(), before);
    let aligned = h.alloc_object(64, 8192).expect("aligned");
    assert_eq!(aligned % 8192, 0);
    assert_eq!(h.dealloc(aligned, 64), Ok(()));
    assert_eq!(h.alloc_object(64 * 1024 * 1024, 8), Err(HeapError::TooLarge));
    assert_eq!(h.dealloc(0x1000, 16), Err(HeapError::InvalidPointer));
    assert_eq!(KernelHeap::class_index(17), Some(1));
    assert_eq!(KernelHeap::class_index(2049), None);
}

#[test]
fn heap_runs_out() {
    let mut h = heap::init(frames());
    let mut n = 0;
    loop {
        match h.alloc_object(1024 * 1024, 8) {
            Ok(_) => n += 1,
            Err(e) => {
                assert_eq!(e, HeapError::OutOfMemory);
                break;
            }
        }
    }
    assert!(n > 0);
}

#[test]
fn heap_bench_is_time_per_object() {
    assert_eq!(heap::bench(100_000, 10_000_000, 100_000), 100);
    assert_eq!(heap::bench(u64::MAX, 10_000_000, 1), u64::MAX);
}
