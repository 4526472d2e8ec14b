//! Statically sized kernel and user stacks.
use vstd::prelude::*;
use crate::configs::{KERNEL_TASK_STACK_BYTE_SIZE, USER_TASK_STACK_BYTE_SIZE};

verus! {

/// A kernel stack, zeroed at first.
pub struct KernelStack {
    data: Vec<u8>,
}

impl KernelStack {
    /// The bytes of the stack.
    pub closed spec fn view(&self) -> Seq<u8> {
        self.data@
    }

    /// A zeroed kernel stack.
    pub fn new() -> (r: Self)
        ensures
            r@ == Seq::new(KERNEL_TASK_STACK_BYTE_SIZE as nat, |i: int| 0u8),
    {
        let data = vec![0u8; KERNEL_TASK_STACK_BYTE_SIZE];
        assert(data@ =~= Seq::new(KERNEL_TASK_STACK_BYTE_SIZE as nat, |i: int| 0u8));
        Self { data }
    }

    /// The size of the stack in bytes.
    pub fn get_size(&self) -> (r: usize)
        ensures
            r == self@.len(),
    {
        self.data.len()
    }
}

/// A user stack, zeroed at first.
pub struct UserStack {
    data: Vec<u8>,
}

impl UserStack {
    /// The bytes of the stack.
    pub closed spec fn view(&self) -> Seq<u8> {
        self.data@
    }

    /// A zeroed user stack.
    pub fn new() -> (r: Self)
        ensures
            r@ == Seq::new(USER_TASK_STACK_BYTE_SIZE as nat, |i: int| 0u8),
    {
        let data = vec![0u8; USER_TASK_STACK_BYTE_SIZE];
        assert(data@ =~= Seq::new(USER_TASK_STACK_BYTE_SIZE as nat, |i: int| 0u8));
        Self { data }
    }

    /// The size of the stack in bytes.
    pub fn get_size(&self) -> (r: usize)
        ensures
            r == self@.len(),
    {
        self.data.len()
    }
}

} // verus!
