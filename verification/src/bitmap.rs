//! A vector of bits packed into bytes.
use vstd::prelude::*;
use crate::error::KernelError;

verus! {

/// Number of bits stored in one byte of the map.
pub const BLOCK_BIT_SIZE: usize = 8;

/// Whether bit `k` (counted from the least significant one) of `b` is set.
pub open spec fn byte_bit(b: u8, k: int) -> bool {
    (b >> (k as u8)) & 1u8 == 1u8
}

proof fn lemma_byte_bit_set(b: u8, k: u8, j: u8)
    requires
        k < 8,
        j < 8,
    ensures
        ((b | (1u8 << k)) >> j) & 1u8 == (if j == k { 1u8 } else { (b >> j) & 1u8 }),
{
    assert(((b | (1u8 << k)) >> j) & 1u8 == (if j == k { 1u8 } else { (b >> j) & 1u8 }))
        by (bit_vector)
        requires
            k < 8,
            j < 8,
    ;
}

proof fn lemma_byte_bit_clear(b: u8, k: u8, j: u8)
    requires
        k < 8,
        j < 8,
    ensures
        1u8 << k <= 255u8,
        ((b & ((255u8 - (1u8 << k)) as u8)) >> j) & 1u8 == (if j == k { 0u8 } else { (b >> j) & 1u8 }),
{
    assert(1u8 << k <= 255u8 && ((b & ((255u8 - (1u8 << k)) as u8)) >> j) & 1u8 == (if j == k {
        0u8
    } else {
        (b >> j) & 1u8
    })) by (bit_vector)
        requires
            k < 8,
            j < 8,
    ;
}

proof fn lemma_zero_byte(k: u8)
    ensures
        (0u8 >> k) & 1u8 == 0u8,
{
    assert((0u8 >> k) & 1u8 == 0u8) by (bit_vector);
}

proof fn lemma_byte_bit_test(b: u8, k: u8)
    requires
        k < 8,
    ensures
        ((b & (1u8 << k)) > 0) == ((b >> k) & 1u8 == 1u8),
{
    assert(((b & (1u8 << k)) > 0) == ((b >> k) & 1u8 == 1u8)) by (bit_vector)
        requires
            k < 8,
    ;
}

/// A fixed number of bits, saved as a vector of bytes; bit `i` is bit `i % 8`
/// of byte `i / 8`.
pub struct BitMap {
    length: usize,
    map: Vec<u8>,
}

impl BitMap {
    /// The byte vector holds exactly the bytes needed for the bits.
    pub closed spec fn wf(&self) -> bool {
        self.map@.len() == (self.length + 7) / 8
    }

    /// The bits of the map, in index order.
    pub closed spec fn view(&self) -> Seq<bool> {
        Seq::new(self.length as nat, |i: int| byte_bit(self.map@[i / 8], i % 8))
    }

    /// The quotient of the bit index divided by 8: the byte holding the bit.
    pub fn offset(index: usize) -> (r: usize)
        ensures
            r == index / 8,
    {
        index / BLOCK_BIT_SIZE
    }

    /// The remainder of the bit index divided by 8: the bit's place in its byte.
    pub fn limit(index: usize) -> (r: usize)
        ensures
            r == index % 8,
    {
        index % BLOCK_BIT_SIZE
    }

    /// The number of bytes that hold the bits.
    pub fn block_size(&self) -> (r: usize)
        requires
            self.wf(),
        ensures
            r == (self@.len() + 7) / 8,
    {
        self.map.len()
    }

    /// A map of `length` bits, all clear.
    pub fn new(length: usize) -> (r: Self)
        requires
            length + 7 <= usize::MAX,
        ensures
            r.wf(),
            r@ == Seq::new(length as nat, |i: int| false),
    {
        let count: usize = (length + (BLOCK_BIT_SIZE - 1)) / 8;
        let map: Vec<u8> = vec![0u8; count];
        let r = Self { length, map };
        assert forall|i: int| 0 <= i < length implies !#[trigger] byte_bit(r.map@[i / 8], i % 8) by {
            assert(r.map@[i / 8] == 0u8);
            lemma_zero_byte(((i % 8) as u8));
        }
        assert(r@ =~= Seq::new(length as nat, |i: int| false));
        r
    }

    /// The bit at `index`, or `IndexOutOfRange` when `index` is not below the
    /// number of bits.
    pub fn get_bit(&self, index: usize) -> (r: Result<bool, KernelError>)
        requires
            self.wf(),
        ensures
            index < self@.len() ==> r == Ok::<bool, KernelError>(self@[index as int]),
            index >= self@.len() ==> r == Err::<bool, KernelError>(
                KernelError::IndexOutOfRange { index, start: 0, end: self@.len() as usize },
            ),
    {
        if index < self.length {
            let block = self.map[Self::offset(index)];
            let k = Self::limit(index);
            proof {
                lemma_byte_bit_test(block, k as u8);
            }
            Ok((block & (1u8 << k)) > 0)
        } else {
            Err(KernelError::IndexOutOfRange { index, start: 0, end: self.length })
        }
    }

    /// Sets the bit at `index` to `value`. Returns `Ok(true)` when the bit changed,
    /// `Ok(false)` when it already held `value`, and `IndexOutOfRange` (leaving the
    /// map as it was) when `index` is not below the number of bits.
    pub fn set_bit(&mut self, index: usize, value: bool) -> (r: Result<bool, KernelError>)
        requires
            old(self).wf(),
        ensures
            final(self).wf(),
            index < old(self)@.len() ==> {
                &&& r == Ok::<bool, KernelError>(old(self)@[index as int] != value)
                &&& final(self)@ == old(self)@.update(index as int, value)
            },
            index >= old(self)@.len() ==> {
                &&& r == Err::<bool, KernelError>(
                    KernelError::IndexOutOfRange { index, start: 0, end: old(self)@.len() as usize },
                )
                &&& final(self)@ == old(self)@
            },
    {
        let per_value = match self.get_bit(index) {
            Ok(v) => v,
            Err(e) => return Err(e),
        };
        if per_value == value {
            assert(self@ =~= old(self)@.update(index as int, value));
            Ok(false)
        } else {
            let offset = Self::offset(index);
            let k = Self::limit(index);
            let old_value = self.map[offset];
            let new_value = if value {
                old_value | 1u8 << k
            } else {
                proof {
                    lemma_byte_bit_clear(old_value, k as u8, 0);
                }
                old_value & (255u8 - (1u8 << k))
            };
            let ghost old_map = self.map@;
            self.map.set(offset, new_value);
            proof {
                assert forall|i: int| 0 <= i < self.length implies #[trigger] byte_bit(self.map@[i / 8], i % 8)
                    == old(self)@.update(index as int, value)[i] by {
                    if i / 8 == offset as int {
                        if value {
                            lemma_byte_bit_set(old_value, k as u8, (i % 8) as u8);
                        } else {
                            lemma_byte_bit_clear(old_value, k as u8, (i % 8) as u8);
                        }
                    }
                }
                assert(self@ =~= old(self)@.update(index as int, value));
            }
            Ok(true)
        }
    }
}

/// Setting a bit and reading it back gives the value set, every other bit keeps its
/// value, and setting the same value once more reports no change and changes nothing.
pub proof fn law_set_then_get(map: &BitMap, index: int, value: bool)
    requires
        map.wf(),
        0 <= index < map@.len(),
    ensures
        map@.update(index, value)[index] == value,
        forall|j: int| 0 <= j < map@.len() && j != index ==> #[trigger] map@.update(index, value)[j] == map@[j],
        !(map@.update(index, value)[index] != value),
        map@.update(index, value).update(index, value) == map@.update(index, value),
        (map@[index] != value) == (map@.update(index, value) != map@),
{
    if map@[index] == value {
        assert(map@.update(index, value) =~= map@);
    }
    assert(map@.update(index, value).update(index, value) =~= map@.update(index, value));
}

} // verus!
