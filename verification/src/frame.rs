//! Physical memory frames and their owners.
use vstd::prelude::*;
use crate::allocator::BTreeSetFrameAllocator;
use crate::configs::MEMORY_PAGE_BYTE_SIZE;
use crate::error::KernelError;

verus! {

/// A zero page.
pub open spec fn zero_page() -> Seq<u8> {
    Seq::new(MEMORY_PAGE_BYTE_SIZE as nat, |i: int| 0u8)
}

/// The owner of one physical frame and of the bytes it holds. The frame goes back
/// to the frame allocator through `dealloc_frame`.
pub struct FrameTracker {
    ppn: usize,
    bytes: Vec<u8>,
}

impl FrameTracker {
    /// The physical page number of the frame.
    pub closed spec fn spec_ppn(&self) -> usize {
        self.ppn
    }

    /// The bytes held by the frame.
    pub closed spec fn view(&self) -> Seq<u8> {
        self.bytes@
    }

    /// A frame holds exactly one page of bytes.
    pub open spec fn wf(&self) -> bool {
        self@.len() == MEMORY_PAGE_BYTE_SIZE
    }

    /// The tracker of frame `ppn`, with all its bytes cleared.
    pub fn new(ppn: usize) -> (r: Self)
        ensures
            r.wf(),
            r.spec_ppn() == ppn,
            r@ == zero_page(),
    {
        let mut tracker = Self { ppn, bytes: vec![0xffu8; MEMORY_PAGE_BYTE_SIZE] };
        tracker.clear();
        tracker
    }

    /// The physical page number of the frame.
    pub fn ppn(&self) -> (r: usize)
        ensures
            r == self.spec_ppn(),
    {
        self.ppn
    }

    /// The physical address of the first byte of the frame.
    pub fn pa(&self) -> (r: usize)
        requires
            self.spec_ppn() * MEMORY_PAGE_BYTE_SIZE <= usize::MAX,
        ensures
            r == self.spec_ppn() * MEMORY_PAGE_BYTE_SIZE,
    {
        self.ppn * MEMORY_PAGE_BYTE_SIZE
    }

    /// The bytes held by the frame.
    pub fn get_byte_array(&self) -> (r: &Vec<u8>)
        ensures
            r@ == self@,
    {
        &self.bytes
    }

    /// Sets every byte of the frame to zero.
    pub fn clear(&mut self)
        ensures
            final(self).spec_ppn() == old(self).spec_ppn(),
            final(self)@ == Seq::new(old(self)@.len(), |i: int| 0u8),
    {
        let n = self.bytes.len();
        let mut i: usize = 0;
        while i < n
            invariant
                n == self.bytes@.len(),
                n == old(self)@.len(),
                i <= n,
                self.ppn == old(self).ppn,
                forall|j: int| 0 <= j < i ==> self.bytes@[j] == 0u8,
            decreases n - i,
        {
            self.bytes.set(i, 0u8);
            i = i + 1;
        }
        assert(self@ =~= Seq::new(old(self)@.len(), |i: int| 0u8));
    }

    /// Copies `data` into the frame, starting at byte `offset`.
    pub fn write_bytes(&mut self, offset: usize, data: &[u8])
        requires
            offset + data@.len() <= old(self)@.len(),
        ensures
            final(self).spec_ppn() == old(self).spec_ppn(),
            final(self)@ == old(self)@.subrange(0, offset as int) + data@ + old(self)@.subrange(
                offset + data@.len(),
                old(self)@.len() as int,
            ),
    {
        let n = self.bytes.len();
        let mut i: usize = 0;
        while i < data.len()
            invariant
                n == old(self)@.len(),
                offset + data@.len() <= old(self)@.len(),
                self.bytes@.len() == old(self)@.len(),
                self.ppn == old(self).ppn,
                i <= data@.len(),
                forall|j: int| 0 <= j < offset ==> self.bytes@[j] == old(self)@[j],
                forall|j: int| offset <= j < offset + i ==> self.bytes@[j] == data@[j - offset],
                forall|j: int| offset + i <= j < old(self)@.len() ==> self.bytes@[j] == old(self)@[j],
            decreases data@.len() - i,
        {
            self.bytes.set(offset + i, data[i]);
            i = i + 1;
        }
        assert(self@ =~= old(self)@.subrange(0, offset as int) + data@ + old(self)@.subrange(
            offset + data@.len(),
            old(self)@.len() as int,
        ));
    }
}

/// Hands out a frame of `allocator` and returns its cleared tracker;
/// `FrameExhausted` when the allocator has no frame left.
pub fn alloc_frame(allocator: &mut BTreeSetFrameAllocator) -> (r: Result<FrameTracker, KernelError>)
    requires
        old(allocator).wf(),
    ensures
        final(allocator).wf(),
        final(allocator).spec_end_ppn() == old(allocator).spec_end_ppn(),
        r is Err <==> old(allocator).available() == 0,
        r is Err ==> r == Err::<FrameTracker, KernelError>(KernelError::FrameExhausted)
            && final(allocator).spec_current_ppn() == old(allocator).spec_current_ppn()
            && final(allocator).recycled() == old(allocator).recycled(),
        r is Ok ==> {
            let t = r->Ok_0;
            &&& t.wf()
            &&& t@ == zero_page()
            &&& !old(allocator).handed_out(t.spec_ppn())
            &&& final(allocator).handed_out(t.spec_ppn())
            &&& forall|p: usize| p != t.spec_ppn() ==> #[trigger] final(allocator).handed_out(p)
                == old(allocator).handed_out(p)
            &&& final(allocator).available() == old(allocator).available() - 1
            &&& old(allocator).recycled() != Set::<usize>::empty() ==> {
                &&& old(allocator).recycled().contains(t.spec_ppn())
                &&& forall|x: usize| #[trigger] old(allocator).recycled().contains(x) ==> t.spec_ppn() <= x
                &&& final(allocator).recycled() == old(allocator).recycled().remove(t.spec_ppn())
                &&& final(allocator).spec_current_ppn() == old(allocator).spec_current_ppn()
            }
            &&& old(allocator).recycled() == Set::<usize>::empty() ==> {
                &&& t.spec_ppn() == old(allocator).spec_current_ppn()
                &&& final(allocator).spec_current_ppn() == old(allocator).spec_current_ppn() + 1
                &&& final(allocator).recycled() == old(allocator).recycled()
            }
        },
{
    let ppn = allocator.alloc_ppn()?;
    Ok(FrameTracker::new(ppn))
}

/// Gives the frame of `tracker` back to `allocator`; `FrameNotDeallocable` when the
/// allocator did not hand it out.
pub fn dealloc_frame(allocator: &mut BTreeSetFrameAllocator, tracker: FrameTracker) -> (r: Result<
    (),
    KernelError,
>)
    requires
        old(allocator).wf(),
    ensures
        final(allocator).wf(),
        final(allocator).spec_end_ppn() == old(allocator).spec_end_ppn(),
        r is Ok <==> old(allocator).handed_out(tracker.spec_ppn()),
        r is Err ==> r == Err::<(), KernelError>(KernelError::FrameNotDeallocable(tracker.spec_ppn())),
        !final(allocator).handed_out(tracker.spec_ppn()),
        forall|p: usize| p != tracker.spec_ppn() ==> #[trigger] final(allocator).handed_out(p)
            == old(allocator).handed_out(p),
        r is Ok ==> final(allocator).available() == old(allocator).available() + 1,
        r is Err ==> final(allocator).available() == old(allocator).available(),
{
    allocator.dealloc(tracker.ppn())
}

} // verus!
