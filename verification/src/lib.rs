//! Verified core of the Ignium microkernel.

pub mod arch;
pub mod board;
pub mod board_laws;
pub mod boot;
pub mod bytes;
pub mod clients;
pub mod cpu;
pub mod device;
pub mod elf;
pub mod elf_laws;
pub mod fault;
pub mod fdt;
pub mod fdt_laws;
pub mod function_laws;
pub mod heap;
pub mod ipc;
pub mod ipc_laws;
pub mod kernel;
pub mod logger;
pub mod mem;
pub mod memory_laws;
pub mod memory_server;
pub mod mmu;
pub mod outcome_laws;
pub mod page_laws;
pub mod pages;
pub mod paging_laws;
pub mod process;
pub mod ram;
pub mod ramfs;
pub mod ramfs_laws;
pub mod registry;
pub mod runqueue;
pub mod sbi;
pub mod sched;
pub mod sched_laws;
pub mod sched_steps;
pub mod service_laws;
pub mod services;
pub mod shm;
pub mod space;
pub mod sv39;
pub mod sync;
pub mod syscall;
pub mod syscall_laws;
pub mod thread_laws;
pub mod tiling;
pub mod uart;
pub mod uart_laws;
pub mod uart_server;
pub mod user;
pub mod user_laws;
