//! The registers saved on a trap, and the context a user program starts with.
use vstd::prelude::*;

verus! {

/// The supervisor-previous-privilege bit of `sstatus`: set for supervisor mode,
/// clear for user mode.
pub const SSTATUS_SPP: usize = 0x100;

/// The registers of a hart saved on a trap: the general purpose registers, the
/// supervisor status register and the supervisor exception program counter.
pub struct TrapContext {
    pub x: [usize; 32],
    pub sstatus: usize,
    pub sepc: usize,
}

impl TrapContext {
    /// Sets the stack pointer, register `x2`.
    pub fn set_sp(&mut self, sp: usize)
        ensures
            final(self).x@ == old(self).x@.update(2, sp),
            final(self).sstatus == old(self).sstatus,
            final(self).sepc == old(self).sepc,
    {
        self.x[2] = sp;
    }

    /// The context a user program starts with at `entry` with its stack at `sp`:
    /// registers clear but the stack pointer, and `sstatus` as read from the hart
    /// with the previous privilege set to user mode, so that returning from the trap
    /// enters the program in user mode.
    pub fn create_app_init_context(entry: usize, sp: usize, sstatus: usize) -> (r: Self)
        ensures
            r.x@ == Seq::new(32, |i: int| if i == 2 { sp } else { 0usize }),
            r.sstatus == sstatus & !SSTATUS_SPP,
            r.sstatus & SSTATUS_SPP == 0,
            r.sstatus | SSTATUS_SPP == sstatus | SSTATUS_SPP,
            r.sepc == entry,
    {
        let mut cx = Self { x: [0usize; 32], sstatus: sstatus & !SSTATUS_SPP, sepc: entry };
        proof {
            assert((sstatus & !0x100usize) & 0x100usize == 0) by (bit_vector);
            assert((sstatus & !0x100usize) | 0x100usize == sstatus | 0x100usize) by (bit_vector);
        }
        cx.set_sp(sp);
        assert(cx.x@ =~= Seq::new(32, |i: int| if i == 2 { sp } else { 0usize }));
        cx
    }
}

} // verus!
