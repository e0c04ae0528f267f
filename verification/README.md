# Ignium

A microkernel for 64-bit RISC-V, with its logic verified by Verus.

- `src/` is the library: physical memory and page tables, address spaces and capabilities, shared
  and granted pages, scheduling, messages, system calls, traps, the device tree, ELF programs, the
  heap, and the user side with its services. Every item is verified.
- `tests/` runs the library: `system.rs` carries out machine code and user programs on top of the
  kernel, the other files try the parts.
- `app/` is the machine around the library: instructions, registers, the serial device, the trap
  vector's handler, the start of the harts, and the loops of the user programs.

The state of the kernel is a value, and what hardware does is handed in and out: a trap takes the
saved registers and says how the hart goes on, a service takes what a system call returned and says
which call comes next. The laws that the parts keep are proof functions whose names begin with
`law_`.
