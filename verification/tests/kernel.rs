use std::collections::{BTreeSet, VecDeque};

use frontier::board::{exit_code_encode, qemu_exit_handle, Exit, ExitRequest, ExitStatus, QEMUExitStatus, RISCV64, VIRT_TEST};
use frontier::buffer::{ByteBuffers, RingBuffer};
use frontier::error::KernelError;
use frontier::feature::{feature_board, feature_word, FeatureBoard, FeatureWord};
use frontier::pipe::{pipe_read_step, pipe_write_step, stdin_read_char, PipeStep, StdinStep};
use frontier::sbi::{
    clear_ipi, get_char_from_console, put_char_to_console, remote_fence_vma, remote_fence_vma_asid, sbi_call,
    send_ipi, set_timer, shutdown, SBICall, SBIWhich,
};
use frontier::stack::{KernelStack, UserStack};
use frontier::sync::{
    wake_first, CondvarBlocking, LockAction, MutexBlocking, MutexSpin, SemaphoreAction, SemaphoreBlocking,
    SemaphoreSpin, WaitAction,
};
use frontier::timer::{get_timer_us, set_next_trigger};

fn alive(ids: &[usize]) -> BTreeSet<usize> {
    ids.iter().copied().collect()
}

#[test]
fn exit_words_of_qemu() {
    assert_eq!(QEMUExitStatus::Success.code(), 0x5555);
    assert_eq!(QEMUExitStatus::Reset.code(), 0x7777);
    assert_eq!(QEMUExitStatus::Failure.code(), 0x13333);
    assert_eq!(exit_code_encode(3), 0x33333);
    let board = RISCV64::new(VIRT_TEST);
    assert_eq!(board.exit(ExitStatus::Other(2)), ExitRequest { addr: VIRT_TEST, code: 0x23333 });
    assert_eq!(board.exit(ExitStatus::QEMU(QEMUExitStatus::Reset)), ExitRequest { addr: VIRT_TEST, code: 0x7777 });
    let handle = qemu_exit_handle();
    assert_eq!(handle.exit_success(), ExitRequest { addr: VIRT_TEST, code: 0x5555 });
    assert_eq!(handle.exit_failure(), ExitRequest { addr: VIRT_TEST, code: 0x13333 });
    assert_eq!(handle.exit_reset(), ExitRequest { addr: VIRT_TEST, code: 0x7777 });
    assert_eq!(handle.exit_other(5), ExitRequest { addr: VIRT_TEST, code: 0x53333 });
}

#[test]
fn sbi_calls_carry_their_ids() {
    assert_eq!(set_timer(42), SBICall { which: 0, arg0: 42, arg1: 0, arg2: 0 });
    assert_eq!(put_char_to_console(65), SBICall { which: 1, arg0: 65, arg1: 0, arg2: 0 });
    assert_eq!(get_char_from_console(), SBICall { which: 2, arg0: 0, arg1: 0, arg2: 0 });
    assert_eq!(clear_ipi(), SBICall { which: 3, arg0: 0, arg1: 0, arg2: 0 });
    assert_eq!(send_ipi(), SBICall { which: 4, arg0: 0, arg1: 0, arg2: 0 });
    assert_eq!(remote_fence_vma(9), SBICall { which: 5, arg0: 9, arg1: 0, arg2: 0 });
    assert_eq!(remote_fence_vma_asid(9, 3), SBICall { which: 5, arg0: 9, arg1: 3, arg2: 0 });
    assert_eq!(shutdown(), SBICall { which: 8, arg0: 0, arg1: 0, arg2: 0 });
    assert_eq!(sbi_call(SBIWhich::RemoteSfenceVmaAsid, 1, 2, 3), SBICall { which: 7, arg0: 1, arg1: 2, arg2: 3 });
    assert_eq!(SBIWhich::RemoteSfenceVma.id(), 6);
}

#[test]
fn timer_arithmetic() {
    assert_eq!(set_next_trigger(1000), 1000 + 125_000);
    assert_eq!(get_timer_us(12_500_000), 1_000_000);
    assert_eq!(get_timer_us(25), 2);
}

#[test]
fn feature_selection() {
    assert_eq!(feature_word().bits(), usize::BITS as usize);
    assert_eq!(FeatureWord::from_width(32), FeatureWord::Word32);
    assert_eq!(FeatureWord::from_width(64).bits(), 64);
    assert_eq!(feature_board(), FeatureBoard::Qemu);
}

#[test]
fn stacks_have_their_sizes() {
    assert_eq!(KernelStack::new().get_size(), 8192);
    assert_eq!(UserStack::new().get_size(), 32768);
}

#[test]
fn wake_first_skips_exited_tasks() {
    let mut q: VecDeque<usize> = vec![4, 5, 6].into();
    assert_eq!(wake_first(&mut q, &alive(&[5, 6])), Some(5));
    assert_eq!(q, VecDeque::from(vec![6]));
    assert_eq!(wake_first(&mut q, &alive(&[])), None);
    assert!(q.is_empty());
}

#[test]
fn mutex_spin_lock_and_unlock() {
    let all = alive(&[1, 2]);
    let mut m = MutexSpin::new();
    assert_eq!(m.lock(1, &all), Ok(LockAction::Acquired));
    assert_eq!(m.lock(1, &all), Err(KernelError::DoubleLockMutex));
    assert_eq!(m.lock(2, &all), Ok(LockAction::Suspend));
    assert_eq!(m.unlock(2, &all), Err(KernelError::DoubleUnlockMutex));
    assert_eq!(m.unlock(1, &all), Ok(()));
    assert_eq!(m.lock(2, &all), Ok(LockAction::Acquired));
    assert_eq!(m.lock(1, &alive(&[1])), Ok(LockAction::Acquired));
}

#[test]
fn mutex_blocking_hands_over_in_order() {
    let all = alive(&[1, 2, 3]);
    let mut m = MutexBlocking::new();
    assert_eq!(m.lock(1, &all), Ok(LockAction::Acquired));
    assert_eq!(m.lock(2, &all), Ok(LockAction::Block));
    assert_eq!(m.lock(3, &all), Ok(LockAction::Block));
    assert_eq!(m.unlock(1, &all), Ok(Some(2)));
    assert_eq!(m.lock(2, &alive(&[2, 3])), Ok(LockAction::Acquired));
    assert_eq!(m.unlock(3, &all), Err(KernelError::DoubleUnlockMutex));
    assert_eq!(m.unlock(2, &all), Ok(Some(3)));
    assert_eq!(m.lock(1, &all), Ok(LockAction::Acquired));
    assert_eq!(m.lock(3, &all), Ok(LockAction::Block));
}

#[test]
fn mutex_blocking_free_lock_goes_to_first_comer() {
    let all = alive(&[1, 2, 3]);
    let mut m = MutexBlocking::new();
    assert_eq!(m.lock(1, &all), Ok(LockAction::Acquired));
    assert_eq!(m.lock(2, &all), Ok(LockAction::Block));
    assert_eq!(m.unlock(1, &all), Ok(Some(2)));
    assert_eq!(m.lock(3, &all), Ok(LockAction::Acquired));
    assert_eq!(m.lock(2, &all), Ok(LockAction::Block));
    assert_eq!(m.unlock(3, &all), Ok(Some(2)));
}

#[test]
fn semaphores_count_and_queue() {
    let mut s = SemaphoreSpin::new(1);
    assert_eq!(s.down(), SemaphoreAction::Taken(0));
    assert_eq!(s.down(), SemaphoreAction::Suspend);
    assert_eq!(s.up(), 1);

    let all = alive(&[7, 8]);
    let mut b = SemaphoreBlocking::new(1);
    assert_eq!(b.down(7), SemaphoreAction::Taken(0));
    assert_eq!(b.down(8), SemaphoreAction::Block);
    assert_eq!(b.count(), -1);
    assert_eq!(b.up(&all), (0, Some(8)));
    assert_eq!(b.up(&all), (1, None));
}

#[test]
fn condvar_wakes_first_live_waiter() {
    let mut c = CondvarBlocking::new();
    assert_eq!(c.wait(3, Ok(())), Ok(WaitAction::BlockThenLock));
    assert_eq!(c.wait(5, Err(KernelError::DoubleUnlockMutex)), Err(KernelError::DoubleUnlockMutex));
    assert_eq!(c.wait(4, Ok(())), Ok(WaitAction::BlockThenLock));
    assert_eq!(c.signal(&alive(&[4, 5])), Some(4));
    assert_eq!(c.signal(&alive(&[4, 5])), None);
}

#[test]
fn pipe_read_moves_waiting_bytes() {
    let mut ring = RingBuffer::new(8);
    for b in [1u8, 2, 3] {
        ring.write_byte(b).unwrap();
    }
    let mut it = ByteBuffers::new(vec![vec![0u8; 2], vec![0u8; 2]], 4).into_iter();
    assert_eq!(pipe_read_step(&mut ring, &mut it, 4, 0, false), Ok(PipeStep::Suspend(3)));
    assert_eq!(ring.len(), 0);
    assert_eq!(pipe_read_step(&mut ring, &mut it, 4, 3, false), Ok(PipeStep::Suspend(3)));
    assert_eq!(pipe_read_step(&mut ring, &mut it, 4, 3, true), Ok(PipeStep::Done(3)));
}

#[test]
fn pipe_rounds_deliver_bytes_in_written_order() {
    let mut ring = RingBuffer::new(8);
    for b in [1u8, 2, 3] {
        ring.write_byte(b).unwrap();
    }
    let mut it = ByteBuffers::new(vec![vec![0u8; 5]], 5).into_iter();
    assert_eq!(pipe_read_step(&mut ring, &mut it, 5, 0, false), Ok(PipeStep::Suspend(3)));
    for b in [4u8, 5, 6] {
        ring.write_byte(b).unwrap();
    }
    assert_eq!(pipe_read_step(&mut ring, &mut it, 5, 3, false), Ok(PipeStep::Suspend(5)));
    assert_eq!(it.into_slices(), vec![vec![1u8, 2, 3, 4, 5]]);
    assert_eq!(ring.read_byte(), Some(6));
}

#[test]
fn pipe_read_stops_at_end_of_buffers() {
    let mut ring = RingBuffer::new(8);
    for b in [1u8, 2, 3] {
        ring.write_byte(b).unwrap();
    }
    let mut it = ByteBuffers::new(vec![vec![0u8; 2]], 2).into_iter();
    assert_eq!(pipe_read_step(&mut ring, &mut it, 5, 0, false), Err(KernelError::EOB));
    assert_eq!(ring.len(), 0);
}

#[test]
fn pipe_write_fills_ring() {
    let mut ring = RingBuffer::new(3);
    let mut it = ByteBuffers::new(vec![vec![9u8, 8, 7, 6]], 4).into_iter();
    assert_eq!(pipe_write_step(&mut ring, &mut it, 4, 0, false), Ok(PipeStep::Suspend(3)));
    assert_eq!(ring.read_byte(), Some(9));
    assert_eq!(ring.read_byte(), Some(8));
    assert_eq!(ring.read_byte(), Some(7));
}

#[test]
fn stdin_read_stops_at_nul() {
    let mut it = ByteBuffers::new(vec![vec![0u8; 3]], 3).into_iter();
    assert_eq!(stdin_read_char(&mut it, b'a', 0, 3), Ok(StdinStep::Continue(1)));
    assert_eq!(stdin_read_char(&mut it, 0, 1, 3), Ok(StdinStep::Done(1)));
}
