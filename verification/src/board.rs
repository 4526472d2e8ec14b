//! Exiting QEMU through its `sifive_test` device: which word goes to which address.
use vstd::prelude::*;

verus! {

/// Address of the `sifive_test` device of QEMU's `virt` machine.
pub const VIRT_TEST: u64 = 0x100000;

/// Low half of an exit word that carries an exit code.
pub const EXIT_FAILURE_FLAG: u32 = 0x3333;

/// The exit word for exit code `code`: the code in the upper half, the failure flag
/// in the lower half (bits of `code` above 16 are shifted out).
pub open spec fn spec_exit_code_encode(code: u32) -> u32 {
    (code << 16u32) | EXIT_FAILURE_FLAG
}

/// Encodes exit code `code` with the failure flag.
pub fn exit_code_encode(code: u32) -> (r: u32)
    ensures
        r == spec_exit_code_encode(code),
{
    (code << 16u32) | EXIT_FAILURE_FLAG
}

/// The exit words QEMU gives a meaning of its own.
#[derive(Clone, Copy, PartialEq, Eq, Structural, Debug)]
pub enum QEMUExitStatus {
    /// `exit(0)`.
    Success,
    /// A reset of the machine.
    Reset,
    /// `exit(1)`.
    Failure,
}

/// The word of each special status.
pub open spec fn spec_status_code(status: QEMUExitStatus) -> u32 {
    match status {
        QEMUExitStatus::Success => 0x5555,
        QEMUExitStatus::Reset => 0x7777,
        QEMUExitStatus::Failure => spec_exit_code_encode(1),
    }
}

impl QEMUExitStatus {
    /// The word QEMU reads for this status.
    pub fn code(&self) -> (r: u32)
        ensures
            r == spec_status_code(*self),
    {
        match self {
            QEMUExitStatus::Success => 0x5555,
            QEMUExitStatus::Reset => 0x7777,
            QEMUExitStatus::Failure => exit_code_encode(1),
        }
    }
}

/// How to leave QEMU: with a special status or with an exit code.
#[derive(Clone, Copy, PartialEq, Eq, Structural, Debug)]
pub enum ExitStatus {
    QEMU(QEMUExitStatus),
    Other(u32),
}

/// The word written to the device for `status`.
pub open spec fn spec_exit_word(status: ExitStatus) -> u32 {
    match status {
        ExitStatus::QEMU(q) => spec_status_code(q),
        ExitStatus::Other(code) => spec_exit_code_encode(code),
    }
}

/// A write of `code` to the 32-bit device register at `addr`, after which the
/// hart waits for interrupts for ever if the machine is still running.
#[derive(Clone, Copy, PartialEq, Eq, Structural, Debug)]
pub struct ExitRequest {
    pub addr: u64,
    pub code: u32,
}

/// The RISC-V 64 machine with its `sifive_test` device at `addr`.
pub struct RISCV64 {
    addr: u64,
}

impl RISCV64 {
    /// The address of the device.
    pub closed spec fn spec_addr(&self) -> u64 {
        self.addr
    }

    /// A handle for the device at `addr`.
    pub fn new(addr: u64) -> (r: Self)
        ensures
            r.spec_addr() == addr,
    {
        RISCV64 { addr }
    }

    /// The write that leaves QEMU with `status`: an exit code other than the special
    /// ones is encoded with the failure flag.
    pub fn exit(&self, status: ExitStatus) -> (r: ExitRequest)
        ensures
            r == (ExitRequest { addr: self.spec_addr(), code: spec_exit_word(status) }),
    {
        let code = match status {
            ExitStatus::QEMU(q_status) => q_status.code(),
            ExitStatus::Other(o_status) => exit_code_encode(o_status),
        };
        ExitRequest { addr: self.addr, code }
    }
}

/// The ways of leaving the machine; each gives the write that does it.
pub trait Exit {
    /// Leave with success, `exit(0)`.
    fn exit_success(&self) -> ExitRequest;

    /// Leave with failure, `exit(1)`.
    fn exit_failure(&self) -> ExitRequest;

    /// Reset the machine.
    fn exit_reset(&self) -> ExitRequest;

    /// Leave with exit code `code`, of which the low 32 bits count.
    fn exit_other(&self, code: usize) -> ExitRequest;
}

impl Exit for RISCV64 {
    fn exit_success(&self) -> (r: ExitRequest)
        ensures
            r == (ExitRequest { addr: self.spec_addr(), code: 0x5555 }),
    {
        self.exit(ExitStatus::QEMU(QEMUExitStatus::Success))
    }

    fn exit_failure(&self) -> (r: ExitRequest)
        ensures
            r == (ExitRequest { addr: self.spec_addr(), code: spec_exit_code_encode(1) }),
    {
        self.exit(ExitStatus::QEMU(QEMUExitStatus::Failure))
    }

    fn exit_reset(&self) -> (r: ExitRequest)
        ensures
            r == (ExitRequest { addr: self.spec_addr(), code: 0x7777 }),
    {
        self.exit(ExitStatus::QEMU(QEMUExitStatus::Reset))
    }

    fn exit_other(&self, code: usize) -> (r: ExitRequest)
        ensures
            r == (ExitRequest { addr: self.spec_addr(), code: spec_exit_code_encode(code as u32) }),
    {
        self.exit(ExitStatus::Other(code as u32))
    }
}

/// The handle of the `virt` machine's device.
pub fn qemu_exit_handle() -> (r: RISCV64)
    ensures
        r.spec_addr() == VIRT_TEST,
{
    RISCV64::new(VIRT_TEST)
}

/// An exit code of 16 bits survives its encoding: the upper half of the exit word
/// gives the code back and the lower half is the failure flag, so QEMU exits with it.
pub proof fn law_exit_code_roundtrip(code: u32)
    requires
        code < 0x1_0000,
    ensures
        spec_exit_code_encode(code) >> 16u32 == code,
        spec_exit_code_encode(code) & 0xffffu32 == EXIT_FAILURE_FLAG,
{
    assert(((code << 16u32) | 0x3333u32) >> 16u32 == code) by (bit_vector)
        requires
            code < 0x1_0000,
    ;
    assert(((code << 16u32) | 0x3333u32) & 0xffffu32 == 0x3333u32) by (bit_vector);
}

} // verus!
