//! Memory-and-execution substrate of a small x86_64 kernel.
//!
//! The crate covers the physical frame allocator (a bitmap over the chosen
//! usable RAM region), the virtual address-space manager (4-level page
//! tables with a recursive slot), the ELF program loader, the round-robin
//! task scheduler, the syscall dispatch and the cooperative runtime that
//! drains device input queues.  Hardware state (page-table frames, the data
//! frames user programs are loaded into, the pixel framebuffer) is held as
//! plain values, so every rule about it is stated in contracts and proved.

#![verifier::loop_isolation(false)]

pub mod addr;
pub mod frame;
pub mod page_table;
pub mod mem;
pub mod address_space;
pub mod elf;
pub mod queues;
pub mod keyboard;
pub mod mouse;
pub mod executor;
pub mod task;
pub mod scheduler;
pub mod printer;
pub mod syscall;
pub mod boot;
pub mod fs;
pub mod interrupts;
pub mod virt;
