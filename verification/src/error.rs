//! The kernel's error values.
use vstd::prelude::*;

verus! {

/// Errors reported by the kernel's logic.
#[derive(Debug, PartialEq, Eq, Structural)]
pub enum KernelError {
    /// End of a buffer was reached.
    EOB,
    /// A bit index lies outside `[start, end)`.
    IndexOutOfRange { index: usize, start: usize, end: usize },
    /// No more physical frames can be allocated.
    FrameExhausted,
    /// The frame cannot be given back to the allocator.
    FrameNotDeallocable(usize),
    /// The virtual page range `[start, end)` could not be allocated.
    AreaAllocFailed(usize, usize),
    /// The virtual page range `[start, end)` could not be deallocated.
    AreaDeallocFailed(usize, usize),
    /// No area covers `[start, end)`.
    AreaNotExists(usize, usize),
    /// A virtual page number lies outside an area.
    VPNOutOfArea { vpn: usize, start: usize, end: usize },
    /// A physical page number is already used by a page mapper.
    PPNAlreadyMapped(usize),
    /// A physical page number is not the frame of any page mapper.
    PPNNotMapped(usize),
    /// The virtual page number is already mapped.
    VPNAlreadyMapped(usize),
    /// The virtual page number is not mapped.
    VPNNotMapped(usize),
    /// A page mapper with all entries valid was asked for one more.
    AllocFullPageMapper(usize),
    /// A page mapper without valid entries was asked to release one.
    DeallocEmptyPageMapper(usize),
    /// The page table permission flags are not usable.
    InvaidPageTablePerm(usize),
    /// An executable image has no program header table.
    InvalidHeadlessTask,
    /// An executable image has no loadable segment.
    UnloadableTask,
    /// The ELF image could not be parsed.
    ParseElfError,
    /// Bytes that are not valid UTF-8.
    ParseUtf8Error,
    /// The mutex is already held by the current task.
    DoubleLockMutex,
    /// The mutex is held by another task.
    DoubleUnlockMutex,
}

} // verus!
