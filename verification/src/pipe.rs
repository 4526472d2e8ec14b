//! The decisions of pipe and console transfers: one round of moving bytes between a
//! ring buffer or the console and the caller's byte buffers. Taking the pipe's lock
//! and giving the processor to other tasks between rounds is the caller's part.
use vstd::prelude::*;
use crate::buffer::{ByteBuffersU8Iterator, RingBuffer};
use crate::error::KernelError;

verus! {

/// `s` with the bytes from `at` on replaced by `src`.
pub open spec fn overwrite(s: Seq<u8>, at: int, src: Seq<u8>) -> Seq<u8> {
    Seq::new(s.len(), |i: int| if at <= i < at + src.len() { src[i - at] } else { s[i] })
}

/// What a transfer does after a round.
#[derive(Clone, Copy, PartialEq, Eq, Structural, Debug)]
pub enum PipeStep {
    /// The transfer is over; this many bytes were moved in all.
    Done(u64),
    /// Give the processor away and come back; this many bytes were moved so far.
    Suspend(u64),
}

/// The smaller of `a` and `b`.
pub open spec fn min_int(a: int, b: int) -> int {
    if a < b {
        a
    } else {
        b
    }
}

/// One round of reading a pipe, `already` of `to_read_size` bytes read so far: as
/// many waiting bytes as are still wanted go from `ring` to `iterator`. When none
/// waits, the read is over if every writing end is closed, else it waits.
/// `EOB` when `iterator` runs out of room first (the byte that did not fit is lost).
pub fn pipe_read_step(
    ring: &mut RingBuffer,
    iterator: &mut ByteBuffersU8Iterator,
    to_read_size: u64,
    already: u64,
    all_write_end_closed: bool,
) -> (r: Result<PipeStep, KernelError>)
    requires
        old(ring).wf(),
        old(iterator).wf(),
        already < to_read_size,
    ensures
        final(ring).wf(),
        final(iterator).wf(),
        final(ring).spec_capacity() == old(ring).spec_capacity(),
        final(iterator)@.len() == old(iterator)@.len(),
        ({
            let n = min_int(old(ring)@.len() as int, to_read_size - already);
            let room = old(iterator)@.flatten().len() - old(iterator).pos();
            &&& n == 0 && all_write_end_closed ==> r == Ok::<PipeStep, KernelError>(PipeStep::Done(already))
                && final(ring)@ == old(ring)@ && final(iterator)@ == old(iterator)@
                && final(iterator).pos() == old(iterator).pos()
            &&& n == 0 && !all_write_end_closed ==> r == Ok::<PipeStep, KernelError>(PipeStep::Suspend(already))
                && final(ring)@ == old(ring)@ && final(iterator)@ == old(iterator)@
                && final(iterator).pos() == old(iterator).pos()
            &&& 0 < n <= room ==> {
                &&& r == Ok::<PipeStep, KernelError>(PipeStep::Suspend((already + n) as u64))
                &&& final(ring)@ == old(ring)@.skip(n)
                &&& final(iterator)@.flatten() == overwrite(
                    old(iterator)@.flatten(),
                    old(iterator).pos(),
                    old(ring)@.take(n),
                )
                &&& final(iterator).pos() == old(iterator).pos() + n
            }
            &&& 0 < n && room < n ==> {
                &&& r == Err::<PipeStep, KernelError>(KernelError::EOB)
                &&& final(ring)@ == old(ring)@.skip(room + 1)
                &&& final(iterator)@.flatten() == overwrite(
                    old(iterator)@.flatten(),
                    old(iterator).pos(),
                    old(ring)@.take(room),
                )
            }
        }),
{
    let wait_read_size = to_read_size - already;
    let len = ring.len() as u64;
    let wait_read_size: u64 = if len < wait_read_size {
        len
    } else {
        wait_read_size
    };
    assert(wait_read_size == min_int(old(ring)@.len() as int, to_read_size - already));
    if wait_read_size == 0 {
        if all_write_end_closed {
            return Ok(PipeStep::Done(already));
        }
        return Ok(PipeStep::Suspend(already));
    }
    let ghost r0 = ring@;
    let ghost f0 = iterator@.flatten();
    let ghost p0 = iterator.pos();
    proof {
        iterator.lemma_pos_bound();
    }
    let mut k: u64 = 0;
    while k < wait_read_size
        invariant
            ring.wf(),
            iterator.wf(),
            ring.spec_capacity() == old(ring).spec_capacity(),
            iterator@.len() == old(iterator)@.len(),
            r0 == old(ring)@,
            f0 == old(iterator)@.flatten(),
            p0 == old(iterator).pos(),
            0 <= p0 <= f0.len(),
            wait_read_size <= r0.len(),
            wait_read_size == min_int(old(ring)@.len() as int, to_read_size - already),
            k <= wait_read_size,
            ring@ == r0.skip(k as int),
            iterator@.flatten() == overwrite(f0, p0, r0.take(k as int)),
            iterator.pos() == p0 + k,
            p0 + k <= f0.len(),
        decreases wait_read_size - k,
    {
        let byte = match ring.read_byte() {
            Some(b) => b,
            None => {
                proof {
                    assert(false);
                }
                return Err(KernelError::EOB);
            },
        };
        let ghost pos = iterator.pos();
        let ghost fl = iterator@.flatten();
        proof {
            assert(byte == r0[k as int]);
            assert(overwrite(f0, p0, r0.take(k as int)).len() == f0.len());
        }
        match iterator.next_mut(byte) {
            Ok(()) => {},
            Err(e) => {
                proof {
                    assert(pos >= fl.len());
                    assert(fl.len() == f0.len());
                    assert(k == f0.len() - p0);
                    assert(ring@ =~= r0.skip(k + 1));
                    assert(iterator@.flatten() == overwrite(f0, p0, r0.take(k as int)));
                    assert(f0.len() - p0 < wait_read_size);
                }
                return Err(e);
            },
        }
        proof {
            assert(ring@ =~= r0.skip(k + 1));
            assert(iterator@.flatten() =~= overwrite(f0, p0, r0.take(k + 1)));
        }
        k = k + 1;
    }
    Ok(PipeStep::Suspend(already + wait_read_size))
}

/// One round of writing a pipe, `already` of `to_write_size` bytes written so far:
/// as many bytes as fit and are still to go move from `iterator` to `ring`. When
/// nothing fits, the write is over if every reading end is closed, else it waits.
pub fn pipe_write_step(
    ring: &mut RingBuffer,
    iterator: &mut ByteBuffersU8Iterator,
    to_write_size: u64,
    already: u64,
    all_read_end_closed: bool,
) -> (r: Result<PipeStep, KernelError>)
    requires
        old(ring).wf(),
        old(iterator).wf(),
        already < to_write_size,
        min_int(old(ring).spec_capacity() - old(ring)@.len(), to_write_size - already) <= old(iterator)@.flatten().len() - old(iterator).pos(),
    ensures
        final(ring).wf(),
        final(iterator).wf(),
        final(ring).spec_capacity() == old(ring).spec_capacity(),
        final(iterator)@ == old(iterator)@,
        ({
            let n = min_int(old(ring).spec_capacity() - old(ring)@.len(), to_write_size - already);
            &&& n == 0 && all_read_end_closed ==> r == Ok::<PipeStep, KernelError>(PipeStep::Done(already))
                && final(ring)@ == old(ring)@ && final(iterator).pos() == old(iterator).pos()
            &&& n == 0 && !all_read_end_closed ==> r == Ok::<PipeStep, KernelError>(PipeStep::Suspend(already))
                && final(ring)@ == old(ring)@ && final(iterator).pos() == old(iterator).pos()
            &&& 0 < n ==> {
                &&& r == Ok::<PipeStep, KernelError>(PipeStep::Suspend((already + n) as u64))
                &&& final(ring)@ == old(ring)@ + old(iterator)@.flatten().subrange(
                    old(iterator).pos(),
                    old(iterator).pos() + n,
                )
                &&& final(iterator).pos() == old(iterator).pos() + n
            }
        }),
{
    let wait_write_size = to_write_size - already;
    let free = (ring.capacity() - ring.len()) as u64;
    let wait_write_size: u64 = if free < wait_write_size {
        free
    } else {
        wait_write_size
    };
    if wait_write_size == 0 {
        if all_read_end_closed {
            return Ok(PipeStep::Done(already));
        }
        return Ok(PipeStep::Suspend(already));
    }
    let ghost r0 = ring@;
    let ghost f0 = iterator@.flatten();
    let ghost p0 = iterator.pos();
    proof {
        iterator.lemma_pos_bound();
        assert(r0 + f0.subrange(p0, p0) =~= r0);
    }
    let mut k: u64 = 0;
    while k < wait_write_size
        invariant
            ring.wf(),
            iterator.wf(),
            ring.spec_capacity() == old(ring).spec_capacity(),
            iterator@ == old(iterator)@,
            r0 == old(ring)@,
            f0 == old(iterator)@.flatten(),
            p0 == old(iterator).pos(),
            0 <= p0,
            p0 + wait_write_size <= f0.len(),
            r0.len() + wait_write_size <= ring.spec_capacity(),
            k <= wait_write_size,
            ring@ == r0 + f0.subrange(p0, p0 + k),
            iterator.pos() == p0 + k,
        decreases wait_write_size - k,
    {
        proof {
            iterator.lemma_pos_bound();
            assert(iterator.pos() < iterator@.flatten().len());
        }
        let byte = match iterator.next() {
            Some(b) => b,
            None => {
                proof {
                    assert(false);
                }
                return Err(KernelError::EOB);
            },
        };
        proof {
            assert(byte == f0[p0 + k]);
            assert(ring@.len() == r0.len() + k);
        }
        match ring.write_byte(byte) {
            Ok(()) => {},
            Err(e) => {
                proof {
                    assert(false);
                }
                return Err(e);
            },
        }
        proof {
            assert(ring@ =~= r0 + f0.subrange(p0, p0 + k + 1));
        }
        k = k + 1;
    }
    Ok(PipeStep::Suspend(already + wait_write_size))
}

/// What reading the console does after a character.
#[derive(Clone, Copy, PartialEq, Eq, Structural, Debug)]
pub enum StdinStep {
    /// The read is over; this many bytes were read.
    Done(u64),
    /// Read the next character; this many bytes were read so far.
    Continue(u64),
}

/// Handles character `c` read from the console while reading `length` bytes, `count`
/// read so far: a NUL ends the read, any other byte goes to `iterator`. `EOB` when
/// `iterator` has no room for it.
pub fn stdin_read_char(iterator: &mut ByteBuffersU8Iterator, c: u8, count: u64, length: u64) -> (r: Result<
    StdinStep,
    KernelError,
>)
    requires
        old(iterator).wf(),
        count < length,
    ensures
        final(iterator).wf(),
        final(iterator)@.len() == old(iterator)@.len(),
        c == 0 ==> r == Ok::<StdinStep, KernelError>(StdinStep::Done(count)) && final(iterator)@ == old(iterator)@
            && final(iterator).pos() == old(iterator).pos(),
        c != 0 && old(iterator).pos() >= old(iterator)@.flatten().len() ==> r == Err::<StdinStep, KernelError>(
            KernelError::EOB,
        ),
        c != 0 && old(iterator).pos() < old(iterator)@.flatten().len() ==> {
            &&& final(iterator)@.flatten() == old(iterator)@.flatten().update(old(iterator).pos(), c)
            &&& final(iterator).pos() == old(iterator).pos() + 1
            &&& count + 1 < length ==> r == Ok::<StdinStep, KernelError>(StdinStep::Continue((count + 1) as u64))
            &&& count + 1 == length ==> r == Ok::<StdinStep, KernelError>(StdinStep::Done(length))
        },
{
    if c == 0 {
        return Ok(StdinStep::Done(count));
    }
    iterator.next_mut(c)?;
    let count = count + 1;
    if count < length {
        Ok(StdinStep::Continue(count))
    } else {
        Ok(StdinStep::Done(count))
    }
}

/// Rounds of a pipe keep the bytes in the order they were written: what one round
/// takes from the front of the queue, followed by what the next round takes after
/// `more` bytes were written behind it, is the front of everything written, and
/// what stays queued is the rest. Applied round after round, the bytes a reader
/// gets are the bytes written, in order.
pub proof fn law_rounds_keep_fifo_order(queue: Seq<u8>, n1: int, more: Seq<u8>, n2: int)
    requires
        0 <= n1 <= queue.len(),
        0 <= n2 <= queue.len() - n1 + more.len(),
    ensures
        queue.take(n1) + (queue.skip(n1) + more).take(n2) == (queue + more).take(n1 + n2),
        (queue.skip(n1) + more).skip(n2) == (queue + more).skip(n1 + n2),
{
    assert(queue.take(n1) + (queue.skip(n1) + more).take(n2) =~= (queue + more).take(n1 + n2));
    assert((queue.skip(n1) + more).skip(n2) =~= (queue + more).skip(n1 + n2));
}

} // verus!
