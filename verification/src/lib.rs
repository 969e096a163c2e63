//! A multi-process CHIP-8 runtime: each process is a CHIP-8 virtual machine
//! with its own paged virtual address space over one shared physical arena,
//! cooperatively scheduled by a small kernel that serves syscalls out of the
//! reserved `0NNN` opcode range.

pub mod chip8_engine;
pub mod display;
pub mod error;
pub mod kernel;
pub mod proc;
pub mod sandbox;
pub mod shared_memory;
pub mod syscall;
