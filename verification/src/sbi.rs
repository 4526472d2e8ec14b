//! Supervisor binary interface calls: which extension number and arguments each
//! service takes. The `ecall` itself is made by the caller.
use vstd::prelude::*;

verus! {

/// The legacy SBI services.
#[derive(Clone, Copy, PartialEq, Eq, Structural, Debug)]
pub enum SBIWhich {
    SetTimer,
    PutcharToConsole,
    GetcharFromConsole,
    ClearIpi,
    SendIpi,
    RemoteFenceI,
    RemoteSfenceVma,
    RemoteSfenceVmaAsid,
    Shutdown,
}

/// The extension number of each service.
pub open spec fn spec_which_id(which: SBIWhich) -> usize {
    match which {
        SBIWhich::SetTimer => 0,
        SBIWhich::PutcharToConsole => 1,
        SBIWhich::GetcharFromConsole => 2,
        SBIWhich::ClearIpi => 3,
        SBIWhich::SendIpi => 4,
        SBIWhich::RemoteFenceI => 5,
        SBIWhich::RemoteSfenceVma => 6,
        SBIWhich::RemoteSfenceVmaAsid => 7,
        SBIWhich::Shutdown => 8,
    }
}

impl SBIWhich {
    /// The extension number, passed in register `a7`.
    pub fn id(&self) -> (r: usize)
        ensures
            r == spec_which_id(*self),
    {
        match self {
            SBIWhich::SetTimer => 0,
            SBIWhich::PutcharToConsole => 1,
            SBIWhich::GetcharFromConsole => 2,
            SBIWhich::ClearIpi => 3,
            SBIWhich::SendIpi => 4,
            SBIWhich::RemoteFenceI => 5,
            SBIWhich::RemoteSfenceVma => 6,
            SBIWhich::RemoteSfenceVmaAsid => 7,
            SBIWhich::Shutdown => 8,
        }
    }
}

/// An `ecall`: the extension number for `a7` and the arguments for `a0`..`a2`;
/// the value left in `a0` is the call's result.
#[derive(Clone, Copy, PartialEq, Eq, Structural, Debug)]
pub struct SBICall {
    pub which: usize,
    pub arg0: usize,
    pub arg1: usize,
    pub arg2: usize,
}

/// The call of service `which` with three arguments.
pub fn sbi_call(which: SBIWhich, arg0: usize, arg1: usize, arg2: usize) -> (r: SBICall)
    ensures
        r == (SBICall { which: spec_which_id(which), arg0, arg1, arg2 }),
{
    SBICall { which: which.id(), arg0, arg1, arg2 }
}

/// Make the timer interrupt fire when the time counter reaches `c`.
pub fn set_timer(c: usize) -> (r: SBICall)
    ensures
        r == (SBICall { which: 0, arg0: c, arg1: 0, arg2: 0 }),
{
    sbi_call(SBIWhich::SetTimer, c, 0, 0)
}

/// Print the byte `c` on the console.
pub fn put_char_to_console(c: usize) -> (r: SBICall)
    ensures
        r == (SBICall { which: 1, arg0: c, arg1: 0, arg2: 0 }),
{
    sbi_call(SBIWhich::PutcharToConsole, c, 0, 0)
}

/// Read a byte from the console; the call's result is the byte.
pub fn get_char_from_console() -> (r: SBICall)
    ensures
        r == (SBICall { which: 2, arg0: 0, arg1: 0, arg2: 0 }),
{
    sbi_call(SBIWhich::GetcharFromConsole, 0, 0, 0)
}

/// Clear the pending inter-processor interrupt.
pub fn clear_ipi() -> (r: SBICall)
    ensures
        r == (SBICall { which: 3, arg0: 0, arg1: 0, arg2: 0 }),
{
    sbi_call(SBIWhich::ClearIpi, 0, 0, 0)
}

/// Send an inter-processor interrupt.
pub fn send_ipi() -> (r: SBICall)
    ensures
        r == (SBICall { which: 4, arg0: 0, arg1: 0, arg2: 0 }),
{
    sbi_call(SBIWhich::SendIpi, 0, 0, 0)
}

/// The remote fence for `vma`; it goes through the `RemoteFenceI` service.
pub fn remote_fence_vma(vma: usize) -> (r: SBICall)
    ensures
        r == (SBICall { which: 5, arg0: vma, arg1: 0, arg2: 0 }),
{
    sbi_call(SBIWhich::RemoteFenceI, vma, 0, 0)
}

/// The remote fence for `vma` in address space `asid`; it goes through the
/// `RemoteFenceI` service.
pub fn remote_fence_vma_asid(vma: usize, asid: usize) -> (r: SBICall)
    ensures
        r == (SBICall { which: 5, arg0: vma, arg1: asid, arg2: 0 }),
{
    sbi_call(SBIWhich::RemoteFenceI, vma, asid, 0)
}

/// Power the machine off.
pub fn shutdown() -> (r: SBICall)
    ensures
        r == (SBICall { which: 8, arg0: 0, arg1: 0, arg2: 0 }),
{
    sbi_call(SBIWhich::Shutdown, 0, 0, 0)
}

} // verus!
