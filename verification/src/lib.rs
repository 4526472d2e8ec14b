//! FrontierOS kernel logic: bit maps, byte buffers, ring buffers, page-range and
//! frame allocators, Sv39 page tables, memory areas and address spaces, and the
//! decision logic of the kernel's synchronisation primitives.
use vstd::prelude::*;

pub mod allocator;
pub mod area;
pub mod bits;
pub mod bitmap;
pub mod batch;
pub mod board;
pub mod buffer;
pub mod configs;
pub mod context;
pub mod error;
pub mod feature;
pub mod frame;
pub mod loader;
pub mod page_table;
pub mod path;
pub mod pipe;
pub mod sbi;
pub mod space;
pub mod stack;
pub mod sync;
pub mod timer;

verus! {


} // verus!
