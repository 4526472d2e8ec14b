//! Byte buffers spread over several pieces, read and written as one run, and the
//! ring buffer behind pipes.
use vstd::prelude::*;
use crate::error::KernelError;
use vstd::utf8::{decode_utf8, valid_utf8};

verus! {

/// Appends `c` to `s` with `String::push` of std, which appends the character to
/// the end of the string.
#[verifier::external_body]
pub(crate) fn push_char(s: &mut String, c: char)
    ensures
        final(s)@ == old(s)@.push(c),
{
    s.push(c)
}

/// Reads `bytes` as UTF-8 with `String::from_utf8` of std, which gives the string
/// exactly when the bytes are valid UTF-8, and then the characters they encode.
#[verifier::external_body]
fn utf8_string(bytes: Vec<u8>) -> (r: Option<String>)
    ensures
        r is Some <==> valid_utf8(bytes@),
        r is Some ==> r->0@ == decode_utf8(bytes@),
{
    match String::from_utf8(bytes) {
        Ok(s) => Some(s),
        Err(_) => None,
    }
}

/// The contents of the pieces `s`.
pub open spec fn pieces_view(s: Seq<Vec<u8>>) -> Seq<Seq<u8>> {
    s.map_values(|v: Vec<u8>| v@)
}

/// The number of bytes in the first `i` pieces.
pub open spec fn prefix_len(s: Seq<Seq<u8>>, i: int) -> int {
    s.take(i).flatten().len() as int
}

/// The flat contents split at piece `i`: the first `i` pieces, then piece `i`, then
/// the rest.
proof fn lemma_flatten_split(s: Seq<Seq<u8>>, i: int)
    requires
        0 <= i < s.len(),
    ensures
        s.flatten() == s.take(i).flatten() + s[i] + s.skip(i + 1).flatten(),
        s.take(i + 1).flatten() == s.take(i).flatten() + s[i],
{
    vstd::seq_lib::lemma_flatten_concat(s.take(i), s.skip(i));
    assert(s.take(i) + s.skip(i) =~= s);
    assert(s.skip(i) =~= seq![s[i]] + s.skip(i + 1));
    vstd::seq_lib::lemma_flatten_concat(seq![s[i]], s.skip(i + 1));
    seq![s[i]].lemma_flatten_one_element();
    assert(s.take(i + 1) =~= s.take(i) + seq![s[i]]);
    vstd::seq_lib::lemma_flatten_concat(s.take(i), seq![s[i]]);
}

/// All pieces taken.
proof fn lemma_flatten_all(s: Seq<Seq<u8>>)
    ensures
        s.take(s.len() as int) == s,
{
    assert(s.take(s.len() as int) =~= s);
}

/// Bytes that user space handed to the kernel, in pieces (one per page they span),
/// with the total length they were asked for.
pub struct ByteBuffers {
    inner: Vec<Vec<u8>>,
    length: usize,
}

impl ByteBuffers {
    /// The pieces.
    pub closed spec fn view(&self) -> Seq<Seq<u8>> {
        pieces_view(self.inner@)
    }

    /// The length asked for.
    pub closed spec fn spec_len(&self) -> usize {
        self.length
    }

    /// Buffers of the pieces `inner`, `length` bytes asked for.
    pub fn new(inner: Vec<Vec<u8>>, length: usize) -> (r: Self)
        ensures
            r@ == pieces_view(inner@),
            r.spec_len() == length,
    {
        Self { inner, length }
    }

    /// The length asked for.
    pub fn len(&self) -> (r: usize)
        ensures
            r == self.spec_len(),
    {
        self.length
    }

    /// The pieces themselves.
    pub fn into_slices(self) -> (r: Vec<Vec<u8>>)
        ensures
            pieces_view(r@) == self@,
    {
        self.inner
    }

    /// The bytes of all pieces in order, read as a UTF-8 string; `ParseUtf8Error`
    /// when they are not valid UTF-8.
    pub fn into_utf8_str(self) -> (r: Result<String, KernelError>)
        ensures
            valid_utf8(self@.flatten()) ==> r is Ok && r->Ok_0@ == decode_utf8(self@.flatten()),
            !valid_utf8(self@.flatten()) ==> r == Err::<String, KernelError>(KernelError::ParseUtf8Error),
    {
        let ghost s = self@;
        let mut bytes: Vec<u8> = Vec::new();
        let mut i: usize = 0;
        while i < self.inner.len()
            invariant
                s == pieces_view(self.inner@),
                i <= self.inner@.len(),
                bytes@ == s.take(i as int).flatten(),
            decreases self.inner@.len() - i,
        {
            let slice = &self.inner[i];
            let mut j: usize = 0;
            proof {
                lemma_flatten_split(s, i as int);
            }
            while j < slice.len()
                invariant
                    s == pieces_view(self.inner@),
                    i < self.inner@.len(),
                    *slice == self.inner@[i as int],
                    j <= slice@.len(),
                    bytes@ == s.take(i as int).flatten() + slice@.take(j as int),
                decreases slice@.len() - j,
            {
                bytes.push(slice[j]);
                proof {
                    assert(s.take(i as int).flatten() + slice@.take(j + 1) =~= (s.take(i as int).flatten()
                        + slice@.take(j as int)).push(slice@[j as int]));
                }
                j = j + 1;
            }
            proof {
                assert(slice@.take(j as int) =~= slice@);
                assert(s[i as int] == slice@);
            }
            i = i + 1;
        }
        proof {
            lemma_flatten_all(s);
        }
        match utf8_string(bytes) {
            Some(string) => Ok(string),
            None => Err(KernelError::ParseUtf8Error),
        }
    }

    /// A cursor over all bytes of the pieces in order, from the first.
    pub fn into_iter(self) -> (r: ByteBuffersU8Iterator)
        ensures
            r.wf(),
            r@ == self@,
            r.pos() == 0,
    {
        let r = ByteBuffersU8Iterator { buffer: self.inner, index: 0, offset: 0 };
        assert(r@.take(0) =~= Seq::<Seq<u8>>::empty());
        r
    }
}

/// A cursor that reads or writes the bytes of several pieces as one run.
pub struct ByteBuffersU8Iterator {
    buffer: Vec<Vec<u8>>,
    index: usize,
    offset: usize,
}

impl ByteBuffersU8Iterator {
    /// The pieces.
    pub closed spec fn view(&self) -> Seq<Seq<u8>> {
        pieces_view(self.buffer@)
    }

    /// The number of bytes before the cursor.
    pub closed spec fn pos(&self) -> int {
        prefix_len(self@, self.index as int) + self.offset
    }

    /// The pieces, with what was written through the cursor.
    pub fn into_slices(self) -> (r: Vec<Vec<u8>>)
        ensures
            pieces_view(r@) == self@,
    {
        self.buffer
    }

    /// The cursor stands inside a piece or after the last one.
    pub closed spec fn wf(&self) -> bool {
        &&& self.index <= self.buffer@.len()
        &&& self.index < self.buffer@.len() ==> self.offset <= self.buffer@[self.index as int]@.len()
        &&& self.index == self.buffer@.len() ==> self.offset == 0
    }

    proof fn lemma_pos(&self)
        requires
            self.wf(),
        ensures
            0 <= self.pos() <= self@.flatten().len(),
            self.index < self.buffer@.len() ==> {
                &&& self@.flatten() == self@.take(self.index as int).flatten() + self@[self.index as int]
                    + self@.skip(self.index + 1).flatten()
                &&& self@.take(self.index + 1).flatten() == self@.take(self.index as int).flatten()
                    + self@[self.index as int]
            },
    {
        if self.index < self.buffer@.len() {
            lemma_flatten_split(self@, self.index as int);
        } else {
            lemma_flatten_all(self@);
        }
    }

    /// The cursor never passes the end of the bytes.
    pub proof fn lemma_pos_bound(&self)
        requires
            self.wf(),
        ensures
            0 <= self.pos() <= self@.flatten().len(),
    {
        self.lemma_pos();
    }

    /// The byte under the cursor, which moves past it; `None` after the last byte.
    pub fn next(&mut self) -> (r: Option<u8>)
        requires
            old(self).wf(),
        ensures
            final(self).wf(),
            final(self)@ == old(self)@,
            old(self).pos() < old(self)@.flatten().len() ==> r == Some(old(self)@.flatten()[old(self).pos()])
                && final(self).pos() == old(self).pos() + 1,
            old(self).pos() >= old(self)@.flatten().len() ==> r is None && final(self).pos() == old(self).pos(),
    {
        let ghost p0 = self.pos();
        proof {
            self.lemma_pos();
        }
        loop
            invariant
                self.wf(),
                self@ == old(self)@,
                self.pos() == p0,
                p0 == old(self).pos(),
                0 <= p0 <= self@.flatten().len(),
            decreases self.buffer@.len() - self.index,
        {
            proof {
                self.lemma_pos();
            }
            if self.index >= self.buffer.len() {
                proof {
                    lemma_flatten_all(self@);
                    assert(self.index as int == self@.len());
                    assert(self.pos() == self@.flatten().len());
                }
                return None;
            }
            if self.offset < self.buffer[self.index].len() {
                let value = self.buffer[self.index][self.offset];
                self.offset = self.offset + 1;
                return Some(value);
            }
            self.index = self.index + 1;
            self.offset = 0;
        }
    }

    /// Writes `byte` under the cursor, which moves past it; `EOB` after the last
    /// byte, and then nothing changes.
    pub fn next_mut(&mut self, byte: u8) -> (r: Result<(), KernelError>)
        requires
            old(self).wf(),
        ensures
            final(self).wf(),
            final(self)@.len() == old(self)@.len(),
            old(self).pos() < old(self)@.flatten().len() ==> {
                &&& r is Ok
                &&& final(self)@.flatten() == old(self)@.flatten().update(old(self).pos(), byte)
                &&& final(self).pos() == old(self).pos() + 1
            },
            old(self).pos() >= old(self)@.flatten().len() ==> {
                &&& r == Err::<(), KernelError>(KernelError::EOB)
                &&& final(self)@ == old(self)@
                &&& final(self).pos() == old(self).pos()
            },
    {
        let ghost p0 = self.pos();
        proof {
            self.lemma_pos();
        }
        loop
            invariant
                self.wf(),
                self@ == old(self)@,
                self.pos() == p0,
                p0 == old(self).pos(),
                0 <= p0 <= self@.flatten().len(),
            decreases self.buffer@.len() - self.index,
        {
            proof {
                self.lemma_pos();
            }
            if self.index >= self.buffer.len() {
                proof {
                    lemma_flatten_all(self@);
                    assert(self.index as int == self@.len());
                    assert(self.pos() == self@.flatten().len());
                }
                return Err(KernelError::EOB);
            }
            if self.offset < self.buffer[self.index].len() {
                let ghost s0 = self@;
                let ghost i = self.index as int;
                let mut inner = self.buffer.remove(self.index);
                inner.set(self.offset, byte);
                self.buffer.insert(self.index, inner);
                proof {
                    let s1 = self@;
                    assert(s1 =~= s0.update(i, s0[i].update(self.offset as int, byte)));
                    assert(s1.take(i) =~= s0.take(i));
                    assert(s1.skip(i + 1) =~= s0.skip(i + 1));
                    lemma_flatten_split(s1, i);
                    assert(s1.flatten() =~= s0.flatten().update(p0, byte));
                }
                self.offset = self.offset + 1;
                proof {
                    lemma_flatten_split(self@, i);
                }
                return Ok(());
            }
            self.index = self.index + 1;
            self.offset = 0;
        }
    }
}

/// How full a ring buffer is.
#[derive(Clone, Copy, PartialEq, Eq, Structural, Debug)]
pub enum RingBufferStatus {
    /// No byte is waiting to be read.
    EMPTY,
    /// No room for another byte.
    FULL,
    /// This many bytes are waiting, and there is room for more.
    NORMAL(usize),
}

/// A first-in first-out queue of bytes in a fixed buffer.
pub struct RingBuffer {
    /// Where the next byte is written.
    head: usize,
    /// Where the next byte is read.
    tail: usize,
    status: RingBufferStatus,
    buffer: Vec<u8>,
}

impl RingBuffer {
    /// The number of bytes waiting.
    pub closed spec fn spec_len(&self) -> nat {
        match self.status {
            RingBufferStatus::EMPTY => 0,
            RingBufferStatus::FULL => self.buffer@.len(),
            RingBufferStatus::NORMAL(n) => n as nat,
        }
    }

    /// The number of bytes the buffer holds at most.
    pub closed spec fn spec_capacity(&self) -> nat {
        self.buffer@.len()
    }

    /// The status.
    pub closed spec fn spec_status(&self) -> RingBufferStatus {
        self.status
    }

    /// The bytes waiting, the oldest first.
    pub closed spec fn view(&self) -> Seq<u8> {
        Seq::new(self.spec_len(), |i: int| self.buffer@[(self.tail + i) % (self.buffer@.len() as int)])
    }

    /// The positions and the status agree.
    pub closed spec fn wf(&self) -> bool {
        &&& self.buffer@.len() > 2
        &&& self.head < self.buffer@.len()
        &&& self.tail < self.buffer@.len()
        &&& self.spec_len() <= self.buffer@.len()
        &&& (self.tail + self.spec_len()) % (self.buffer@.len() as int) == self.head
        &&& self.status matches RingBufferStatus::NORMAL(n) ==> 0 < n < self.buffer@.len()
    }

    /// An empty ring buffer of `capacity` bytes.
    pub fn new(capacity: usize) -> (r: Self)
        requires
            capacity > 2,
        ensures
            r.wf(),
            r@ == Seq::<u8>::empty(),
            r.spec_capacity() == capacity,
            r.spec_status() == RingBufferStatus::EMPTY,
    {
        let r = Self { head: 0, tail: 0, status: RingBufferStatus::EMPTY, buffer: vec![0u8; capacity] };
        proof {
            vstd::arithmetic::div_mod::lemma_small_mod(0, capacity as nat);
        }
        assert(r@ =~= Seq::<u8>::empty());
        r
    }

    /// The number of bytes waiting.
    pub fn len(&self) -> (r: usize)
        requires
            self.wf(),
        ensures
            r == self@.len(),
            r <= self.spec_capacity(),
    {
        match self.status {
            RingBufferStatus::EMPTY => 0,
            RingBufferStatus::FULL => self.capacity(),
            RingBufferStatus::NORMAL(size) => size,
        }
    }

    /// How full the buffer is.
    pub fn status(&self) -> (r: RingBufferStatus)
        ensures
            r == self.spec_status(),
    {
        self.status
    }

    /// The number of bytes the buffer holds at most.
    pub fn capacity(&self) -> (r: usize)
        ensures
            r == self.spec_capacity(),
    {
        self.buffer.len()
    }

    /// Takes the oldest byte; `None` when no byte waits.
    pub fn read_byte(&mut self) -> (r: Option<u8>)
        requires
            old(self).wf(),
        ensures
            final(self).wf(),
            final(self).spec_capacity() == old(self).spec_capacity(),
            old(self)@.len() == 0 ==> r is None && final(self)@ == old(self)@,
            old(self)@.len() > 0 ==> r == Some(old(self)@[0]) && final(self)@ == old(self)@.drop_first(),
            final(self)@.len() == 0 <==> final(self).spec_status() == RingBufferStatus::EMPTY,
    {
        let ghost v0 = self@;
        let cap = self.capacity();
        match self.len() {
            0 => None,
            size => {
                let byte = self.buffer[self.tail];
                proof {
                    vstd::arithmetic::div_mod::lemma_small_mod(self.tail as nat, cap as nat);
                    assert(v0[0] == byte);
                }
                if self.tail + 1 == cap {
                    self.tail = 0;
                } else {
                    self.tail = self.tail + 1;
                }
                if self.tail == self.head {
                    self.status = RingBufferStatus::EMPTY;
                } else {
                    self.status = RingBufferStatus::NORMAL(size - 1);
                }
                proof {
                    lemma_mod_step(old(self).tail as int, 0, cap as int);
                    lemma_mod_step(old(self).tail as int, size - 1, cap as int);
                    vstd::arithmetic::div_mod::lemma_small_mod(self.tail as nat, cap as nat);
                    vstd::arithmetic::div_mod::lemma_small_mod(self.head as nat, cap as nat);
                    if self.tail == self.head {
                        lemma_mod_full(old(self).tail as int, size as int, cap as int, self.head as int);
                        assert(self@ =~= v0.drop_first());
                    } else {
                        assert(self.spec_len() == size - 1);
                        assert forall|i: int| 0 <= i < size - 1 implies #[trigger] self@[i] == v0.drop_first()[i] by {
                            assert(self@[i] == self.buffer@[(self.tail + i) % (cap as int)]);
                            assert(v0[i + 1] == self.buffer@[(old(self).tail + i + 1) % (cap as int)]);
                            lemma_mod_step(old(self).tail as int, i, cap as int);
                        }
                        assert(self@ =~= v0.drop_first());
                    }
                }
                Some(byte)
            },
        }
    }

    /// Appends `byte`; `EOB` when the buffer is full, and then nothing changes.
    pub fn write_byte(&mut self, byte: u8) -> (r: Result<(), KernelError>)
        requires
            old(self).wf(),
        ensures
            final(self).wf(),
            final(self).spec_capacity() == old(self).spec_capacity(),
            old(self)@.len() == old(self).spec_capacity() ==> r == Err::<(), KernelError>(KernelError::EOB)
                && final(self)@ == old(self)@,
            old(self)@.len() < old(self).spec_capacity() ==> r is Ok && final(self)@ == old(self)@.push(byte),
            final(self)@.len() == final(self).spec_capacity() <==> final(self).spec_status()
                == RingBufferStatus::FULL,
    {
        let ghost v0 = self@;
        let capacity = self.capacity();
        let size = self.len();
        if size == capacity {
            return Err(KernelError::EOB);
        }
        proof {
            assert(self.head == (self.tail + size) % (capacity as int));
        }
        self.buffer.set(self.head, byte);
        if self.head + 1 == capacity {
            self.head = 0;
        } else {
            self.head = self.head + 1;
        }
        if self.tail == self.head {
            self.status = RingBufferStatus::FULL;
        } else {
            self.status = RingBufferStatus::NORMAL(size + 1);
        }
        proof {
            if self.tail == self.head {
                lemma_mod_wrap(self.tail as int, size as int, capacity as int, old(self).head as int);
            } else {
                lemma_mod_next(self.tail as int, size as int, capacity as int, old(self).head as int);
            }
            assert forall|i: int| 0 <= i < size + 1 implies #[trigger] self@[i] == v0.push(byte)[i] by {
                if i < size {
                    lemma_mod_ne(self.tail as int, i, size as int, capacity as int);
                }
            }
            assert(self@ =~= v0.push(byte));
        }
        Ok(())
    }
}

proof fn lemma_mod_step(t: int, i: int, c: int)
    requires
        0 <= t < c,
        0 <= i,
    ensures
        (if t + 1 == c { 0 } else { t + 1 } + i) % c == (t + i + 1) % c,
{
    if t + 1 == c {
        assert((c + i) % c == i % c) by (nonlinear_arith)
            requires
                c > 0,
                i >= 0,
        ;
    }
}

proof fn lemma_mod_full(t: int, size: int, c: int, h: int)
    requires
        0 <= t < c,
        0 < size <= c,
        (t + size) % c == h,
        (if t + 1 == c { 0 } else { t + 1 }) == h,
    ensures
        size == 1,
{
    let t1 = if t + 1 == c { 0 } else { t + 1 };
    assert((t + size) % c == t1 ==> size == 1 || size == c + 1) by (nonlinear_arith)
        requires
            0 <= t < c,
            0 < size <= c,
            t1 == (if t + 1 == c { 0 } else { t + 1 }),
    ;
}

proof fn lemma_mod_wrap(t: int, size: int, c: int, h0: int)
    requires
        0 <= t < c,
        0 <= size < c,
        (t + size) % c == h0,
        0 <= h0 < c,
        t == (if h0 + 1 == c { 0 } else { h0 + 1 }),
    ensures
        size + 1 == c,
        (t + size + 1) % c == t,
{
    let h1 = if h0 + 1 == c { 0 } else { h0 + 1 };
    assert((t + size) % c == h0 && t == h1 ==> size + 1 == c) by (nonlinear_arith)
        requires
            0 <= t < c,
            0 <= size < c,
            0 <= h0 < c,
            h1 == (if h0 + 1 == c { 0 } else { h0 + 1 }),
    ;
    assert((t + c) % c == t) by (nonlinear_arith)
        requires
            0 <= t < c,
    ;
}

proof fn lemma_mod_next(t: int, size: int, c: int, h0: int)
    requires
        0 <= t < c,
        0 <= size < c,
        (t + size) % c == h0,
        0 <= h0 < c,
        t != (if h0 + 1 == c { 0 } else { h0 + 1 }),
    ensures
        size + 1 < c,
        (t + size + 1) % c == (if h0 + 1 == c { 0 } else { h0 + 1 }),
{
    let h1 = if h0 + 1 == c { 0 } else { h0 + 1 };
    assert((t + size) % c == h0 ==> (t + size + 1) % c == h1) by (nonlinear_arith)
        requires
            0 <= t < c,
            0 <= size < c,
            0 <= h0 < c,
            h1 == (if h0 + 1 == c { 0 } else { h0 + 1 }),
    ;
    assert((t + size + 1) % c == h1 && t != h1 ==> size + 1 != c) by (nonlinear_arith)
        requires
            0 <= t < c,
            c > 0,
    ;
}

proof fn lemma_mod_ne(t: int, i: int, size: int, c: int)
    requires
        0 <= t < c,
        0 <= i < size,
        size < c,
    ensures
        (t + i) % c != (t + size) % c,
{
    assert((t + i) % c != (t + size) % c) by (nonlinear_arith)
        requires
            0 <= t < c,
            0 <= i < size,
            size < c,
    ;
}

/// Bytes leave a ring buffer in the order they came in: on a buffer that holds bytes
/// a write and a read commute and the read gives the oldest byte, and on an empty
/// buffer a written byte is the next one read.
pub proof fn law_fifo(bytes: Seq<u8>, byte: u8)
    ensures
        bytes.len() > 0 ==> bytes.push(byte)[0] == bytes[0] && bytes.push(byte).drop_first() == bytes.drop_first().push(
            byte,
        ),
        bytes.len() == 0 ==> bytes.push(byte)[0] == byte && bytes.push(byte).drop_first() == bytes,
{
    if bytes.len() > 0 {
        assert(bytes.push(byte).drop_first() =~= bytes.drop_first().push(byte));
    } else {
        assert(bytes.push(byte).drop_first() =~= bytes);
    }
}

impl RingBuffer {
    /// The status tells whether the buffer is empty or full.
    pub proof fn lemma_status(&self)
        requires
            self.wf(),
        ensures
            self.spec_status() == RingBufferStatus::EMPTY <==> self@.len() == 0,
            self.spec_status() == RingBufferStatus::FULL <==> self@.len() == self.spec_capacity(),
            self@.len() <= self.spec_capacity(),
    {
    }
}

} // verus!
