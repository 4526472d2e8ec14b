//! Kernel-wide constants.
use vstd::prelude::*;

verus! {

/// Size of a memory page in bytes.
pub const MEMORY_PAGE_BYTE_SIZE: usize = 4096;
/// Number of address bits that address a byte inside a page.
pub const MEMORY_PAGE_BIT_SITE: usize = 12;
/// Size of a task's user stack in bytes.
pub const USER_TASK_STACK_BYTE_SIZE: usize = 32768;
/// Size of a task's kernel stack in bytes.
pub const KERNEL_TASK_STACK_BYTE_SIZE: usize = 8192;
/// Size of the kernel heap in bytes.
pub const KERNEL_HEAP_BYTE_SIZE: usize = 4194304;
/// Number of guard pages put between stacks.
pub const KERNEL_GUARD_PAGE_COUNT: usize = 1;
/// The highest virtual address.
pub const MAX_VIRTUAL_ADDRESS: usize = usize::MAX;
/// Base virtual address of the trampoline page (the last page).
pub const TRAMPOLINE_VIRTUAL_BASE_ADDR: usize = usize::MAX - 4095;
/// Base virtual address of the first task's trap context page (just below the trampoline).
pub const TRAP_CTX_VIRTUAL_BASE_ADDR: usize = usize::MAX - 8191;
/// Timer interrupts per second.
pub const TICKS_PER_SEC: usize = 100;
/// Frequency of the board clock in Hz.
pub const BOARD_CLOCK_FREQ: usize = 12_500_000;
/// Capacity of a pipe's ring buffer.
pub const PIPE_RING_BUFFER_LENGTH: usize = 32;

} // verus!
