//! The decisions of the kernel's mutexes, semaphores and condition variables. Tasks
//! are named by their ids; `alive` is the set of tasks that still exist (a waiting
//! task that has exited is skipped). Suspending, blocking and waking tasks is the
//! caller's part: each step says which of them to do.
use vstd::prelude::*;
use std::collections::{BTreeSet, VecDeque};
use crate::error::KernelError;

verus! {

broadcast use vstd::laws_cmp::group_laws_cmp;

/// The holder of a lock if it still exists.
pub open spec fn live(t: Option<usize>, alive: Set<usize>) -> Option<usize> {
    match t {
        Some(x) => if alive.contains(x) {
            Some(x)
        } else {
            None
        },
        None => None,
    }
}

/// The index of the first task of `q` that still exists, or the length of `q`.
pub open spec fn first_alive(q: Seq<usize>, alive: Set<usize>) -> int
    decreases q.len(),
{
    if q.len() == 0 {
        0
    } else if alive.contains(q[0]) {
        0
    } else {
        1 + first_alive(q.drop_first(), alive)
    }
}

/// The task woken from `q`: the first that still exists.
pub open spec fn woken_from(q: Seq<usize>, alive: Set<usize>) -> Option<usize> {
    let i = first_alive(q, alive);
    if i < q.len() {
        Some(q[i])
    } else {
        None
    }
}

/// The queue left after waking from `q`: what follows the woken task, or nothing.
pub open spec fn queue_after_wake(q: Seq<usize>, alive: Set<usize>) -> Seq<usize> {
    let i = first_alive(q, alive);
    if i < q.len() {
        q.skip(i + 1)
    } else {
        Seq::empty()
    }
}

proof fn lemma_first_alive(q: Seq<usize>, alive: Set<usize>)
    ensures
        0 <= first_alive(q, alive) <= q.len(),
        first_alive(q, alive) < q.len() ==> alive.contains(q[first_alive(q, alive)]),
        forall|j: int| 0 <= j < first_alive(q, alive) ==> !alive.contains(#[trigger] q[j]),
    decreases q.len(),
{
    if q.len() > 0 && !alive.contains(q[0]) {
        lemma_first_alive(q.drop_first(), alive);
        assert forall|j: int| 0 <= j < first_alive(q, alive) implies !alive.contains(#[trigger] q[j]) by {
            if j > 0 {
                assert(q[j] == q.drop_first()[j - 1]);
            }
        }
    }
}

/// Whether task `t` still exists.
fn is_alive(alive: &BTreeSet<usize>, t: usize) -> (r: bool)
    ensures
        r == alive@.contains(t),
{
    alive.contains(&t)
}

/// The holder `t` if it still exists.
fn live_holder(t: Option<usize>, alive: &BTreeSet<usize>) -> (r: Option<usize>)
    ensures
        r == live(t, alive@),
{
    match t {
        Some(x) => if is_alive(alive, x) {
            Some(x)
        } else {
            None
        },
        None => None,
    }
}

/// Takes tasks off the front of `waiting` up to and including the first that still
/// exists, and returns that one.
pub fn wake_first(waiting: &mut VecDeque<usize>, alive: &BTreeSet<usize>) -> (r: Option<usize>)
    ensures
        r == woken_from(old(waiting)@, alive@),
        final(waiting)@ == queue_after_wake(old(waiting)@, alive@),
{
    let ghost q0 = waiting@;
    proof {
        lemma_first_alive(q0, alive@);
    }
    loop
        invariant
            q0 == old(waiting)@,
            0 <= first_alive(q0, alive@) <= q0.len(),
            first_alive(q0, alive@) < q0.len() ==> alive@.contains(q0[first_alive(q0, alive@)]),
            forall|j: int| 0 <= j < first_alive(q0, alive@) ==> !alive@.contains(#[trigger] q0[j]),
            waiting@.len() <= q0.len(),
            waiting@ == q0.skip(q0.len() - waiting@.len()),
            q0.len() - waiting@.len() <= first_alive(q0, alive@),
        decreases waiting@.len(),
    {
        let ghost done = q0.len() - waiting@.len();
        match waiting.pop_front() {
            Some(other) => {
                proof {
                    assert(other == q0[done]);
                }
                if is_alive(alive, other) {
                    proof {
                        assert(waiting@ =~= q0.skip(done + 1));
                    }
                    return Some(other);
                }
                proof {
                    assert(waiting@ =~= q0.skip(done + 1));
                }
            },
            None => {
                proof {
                    assert(waiting@ =~= Seq::<usize>::empty());
                }
                return None;
            },
        }
    }
}

/// What a task does after trying to take a lock.
#[derive(Clone, Copy, PartialEq, Eq, Structural, Debug)]
pub enum LockAction {
    /// The lock is taken.
    Acquired,
    /// Give the processor away and try again.
    Suspend,
    /// Sleep until woken, then try again.
    Block,
}

/// A mutex whose waiters keep trying.
pub struct MutexSpin {
    locked: Option<usize>,
}

impl MutexSpin {
    /// The task holding the lock, if any.
    pub closed spec fn holder(&self) -> Option<usize> {
        self.locked
    }

    /// An unlocked mutex.
    pub fn new() -> (r: Self)
        ensures
            r.holder() is None,
    {
        Self { locked: None }
    }

    /// Task `current` tries to take the lock. `DoubleLockMutex` when it holds it
    /// already; it waits while another existing task holds it.
    pub fn lock(&mut self, current: usize, alive: &BTreeSet<usize>) -> (r: Result<LockAction, KernelError>)
        ensures
            live(old(self).holder(), alive@) == Some(current) ==> r == Err::<LockAction, KernelError>(
                KernelError::DoubleLockMutex,
            ) && final(self).holder() == old(self).holder(),
            live(old(self).holder(), alive@) matches Some(h) && h != current ==> r == Ok::<
                LockAction,
                KernelError,
            >(LockAction::Suspend) && final(self).holder() == old(self).holder(),
            live(old(self).holder(), alive@) is None ==> r == Ok::<LockAction, KernelError>(LockAction::Acquired)
                && final(self).holder() == Some(current),
    {
        match live_holder(self.locked, alive) {
            Some(prev) => {
                if prev == current {
                    Err(KernelError::DoubleLockMutex)
                } else {
                    Ok(LockAction::Suspend)
                }
            },
            None => {
                self.locked = Some(current);
                Ok(LockAction::Acquired)
            },
        }
    }

    /// Task `current` releases the lock. `DoubleUnlockMutex` when another existing
    /// task holds it.
    pub fn unlock(&mut self, current: usize, alive: &BTreeSet<usize>) -> (r: Result<(), KernelError>)
        ensures
            live(old(self).holder(), alive@) matches Some(h) && h != current ==> r == Err::<(), KernelError>(
                KernelError::DoubleUnlockMutex,
            ) && final(self).holder() == old(self).holder(),
            !(live(old(self).holder(), alive@) matches Some(h) && h != current) ==> r is Ok && final(self).holder() is None,
    {
        if let Some(prev) = live_holder(self.locked, alive) {
            if prev != current {
                return Err(KernelError::DoubleUnlockMutex);
            }
        }
        self.locked = None;
        Ok(())
    }
}

/// A mutex whose waiters sleep in a queue; on release the first waiter that still
/// exists is woken and may take the lock next.
pub struct MutexBlocking {
    locked: Option<usize>,
    next: Option<usize>,
    waiting: VecDeque<usize>,
}

impl MutexBlocking {
    /// The task holding the lock, if any.
    pub closed spec fn holder(&self) -> Option<usize> {
        self.locked
    }

    /// The task woken to take the lock next, if any.
    pub closed spec fn spec_next(&self) -> Option<usize> {
        self.next
    }

    /// The sleeping tasks, the first to wake first.
    pub closed spec fn queue(&self) -> Seq<usize> {
        self.waiting@
    }

    /// An unlocked mutex with no waiter.
    pub fn new() -> (r: Self)
        ensures
            r.holder() is None,
            r.spec_next() is None,
            r.queue() == Seq::<usize>::empty(),
    {
        Self { locked: None, next: None, waiting: VecDeque::new() }
    }

    /// Task `current` tries to take the lock. `DoubleLockMutex` when it holds it
    /// already. While another existing task holds it, the task woken to go next
    /// retries, any other joins the queue and sleeps. A free lock is taken and no
    /// task is next any more.
    pub fn lock(&mut self, current: usize, alive: &BTreeSet<usize>) -> (r: Result<LockAction, KernelError>)
        ensures
            live(old(self).holder(), alive@) == Some(current) ==> r == Err::<LockAction, KernelError>(
                KernelError::DoubleLockMutex,
            ) && *final(self) == *old(self),
            live(old(self).holder(), alive@) matches Some(h) && h != current && live(old(self).spec_next(), alive@)
                == Some(current) ==> r == Ok::<LockAction, KernelError>(LockAction::Suspend) && *final(self)
                == *old(self),
            live(old(self).holder(), alive@) matches Some(h) && h != current && live(old(self).spec_next(), alive@)
                != Some(current) ==> {
                &&& r == Ok::<LockAction, KernelError>(LockAction::Block)
                &&& final(self).holder() == old(self).holder()
                &&& final(self).spec_next() == old(self).spec_next()
                &&& final(self).queue() == old(self).queue().push(current)
            },
            live(old(self).holder(), alive@) is None ==> {
                &&& r == Ok::<LockAction, KernelError>(LockAction::Acquired)
                &&& final(self).holder() == Some(current)
                &&& final(self).spec_next() is None
                &&& final(self).queue() == old(self).queue()
            },
    {
        match live_holder(self.locked, alive) {
            Some(prev) => {
                if prev == current {
                    return Err(KernelError::DoubleLockMutex);
                }
                match live_holder(self.next, alive) {
                    Some(next) => {
                        if next == current {
                            return Ok(LockAction::Suspend);
                        }
                    },
                    None => {},
                }
                self.waiting.push_back(current);
                Ok(LockAction::Block)
            },
            None => {
                self.next = None;
                self.locked = Some(current);
                Ok(LockAction::Acquired)
            },
        }
    }

    /// Task `current` releases the lock and returns the task to wake, if any.
    /// `DoubleUnlockMutex` when another existing task holds it. Unless an existing
    /// task is next already, the first existing waiter becomes next and is woken.
    pub fn unlock(&mut self, current: usize, alive: &BTreeSet<usize>) -> (r: Result<Option<usize>, KernelError>)
        ensures
            live(old(self).holder(), alive@) matches Some(h) && h != current ==> r == Err::<
                Option<usize>,
                KernelError,
            >(KernelError::DoubleUnlockMutex) && *final(self) == *old(self),
            !(live(old(self).holder(), alive@) matches Some(h) && h != current) ==> {
                &&& final(self).holder() is None
                &&& live(old(self).spec_next(), alive@) is Some ==> {
                    &&& r == Ok::<Option<usize>, KernelError>(None)
                    &&& final(self).spec_next() == old(self).spec_next()
                    &&& final(self).queue() == old(self).queue()
                }
                &&& live(old(self).spec_next(), alive@) is None ==> {
                    let w = woken_from(old(self).queue(), alive@);
                    &&& r == Ok::<Option<usize>, KernelError>(w)
                    &&& final(self).queue() == queue_after_wake(old(self).queue(), alive@)
                    &&& w is Some ==> final(self).spec_next() == w
                    &&& w is None ==> final(self).spec_next() == old(self).spec_next()
                }
            },
    {
        if let Some(prev) = live_holder(self.locked, alive) {
            if prev != current {
                return Err(KernelError::DoubleUnlockMutex);
            }
        }
        let mut woken: Option<usize> = None;
        if live_holder(self.next, alive).is_none() {
            woken = wake_first(&mut self.waiting, alive);
            if let Some(other) = woken {
                self.next = Some(other);
            }
        }
        self.locked = None;
        Ok(woken)
    }
}

/// What a task does after trying to take a unit of a semaphore.
#[derive(Clone, Copy, PartialEq, Eq, Structural, Debug)]
pub enum SemaphoreAction {
    /// A unit is taken; the count left.
    Taken(isize),
    /// Give the processor away and try again.
    Suspend,
    /// Sleep until woken; the count is read again then.
    Block,
}

/// A counting semaphore whose waiters keep trying.
pub struct SemaphoreSpin {
    count: isize,
}

impl SemaphoreSpin {
    /// The count.
    pub closed spec fn spec_count(&self) -> isize {
        self.count
    }

    /// A semaphore with `count` units.
    pub fn new(count: isize) -> (r: Self)
        ensures
            r.spec_count() == count,
    {
        Self { count }
    }

    /// Takes a unit if there is one, else the task waits.
    pub fn down(&mut self) -> (r: SemaphoreAction)
        ensures
            old(self).spec_count() <= 0 ==> r == SemaphoreAction::Suspend && final(self).spec_count() == old(self).spec_count(),
            old(self).spec_count() > 0 ==> final(self).spec_count() == old(self).spec_count() - 1 && r
                == SemaphoreAction::Taken(final(self).spec_count()),
    {
        if self.count <= 0 {
            return SemaphoreAction::Suspend;
        }
        self.count = self.count - 1;
        SemaphoreAction::Taken(self.count)
    }

    /// Gives a unit back and returns the new count.
    pub fn up(&mut self) -> (r: isize)
        requires
            old(self).spec_count() < isize::MAX,
        ensures
            final(self).spec_count() == old(self).spec_count() + 1,
            r == final(self).spec_count(),
    {
        self.count = self.count + 1;
        self.count
    }
}

/// A counting semaphore whose waiters sleep in a queue. A negative count is the
/// number of waiters.
pub struct SemaphoreBlocking {
    count: isize,
    waiting: VecDeque<usize>,
}

impl SemaphoreBlocking {
    /// The count.
    pub closed spec fn spec_count(&self) -> isize {
        self.count
    }

    /// The sleeping tasks, the first to wake first.
    pub closed spec fn queue(&self) -> Seq<usize> {
        self.waiting@
    }

    /// A semaphore with `count` units and no waiter.
    pub fn new(count: isize) -> (r: Self)
        ensures
            r.spec_count() == count,
            r.queue() == Seq::<usize>::empty(),
    {
        Self { count, waiting: VecDeque::new() }
    }

    /// Gives a unit back: when the count is still not positive, the first waiter
    /// that still exists is woken. Returns the new count and the woken task.
    pub fn up(&mut self, alive: &BTreeSet<usize>) -> (r: (isize, Option<usize>))
        requires
            old(self).spec_count() < isize::MAX,
        ensures
            final(self).spec_count() == old(self).spec_count() + 1,
            r.0 == final(self).spec_count(),
            final(self).spec_count() <= 0 ==> r.1 == woken_from(old(self).queue(), alive@) && final(self).queue()
                == queue_after_wake(old(self).queue(), alive@),
            final(self).spec_count() > 0 ==> r.1 is None && final(self).queue() == old(self).queue(),
    {
        self.count = self.count + 1;
        let mut woken: Option<usize> = None;
        if self.count <= 0 {
            woken = wake_first(&mut self.waiting, alive);
        }
        (self.count, woken)
    }

    /// Task `current` takes a unit: when none is left it joins the queue and sleeps.
    pub fn down(&mut self, current: usize) -> (r: SemaphoreAction)
        requires
            old(self).spec_count() > isize::MIN,
        ensures
            final(self).spec_count() == old(self).spec_count() - 1,
            final(self).spec_count() < 0 ==> r == SemaphoreAction::Block && final(self).queue() == old(self).queue().push(current),
            final(self).spec_count() >= 0 ==> r == SemaphoreAction::Taken(final(self).spec_count())
                && final(self).queue() == old(self).queue(),
    {
        self.count = self.count - 1;
        if self.count < 0 {
            self.waiting.push_back(current);
            SemaphoreAction::Block
        } else {
            SemaphoreAction::Taken(self.count)
        }
    }

    /// The count, as a woken task reads it.
    pub fn count(&self) -> (r: isize)
        ensures
            r == self.spec_count(),
    {
        self.count
    }
}

/// What a task that waits on a condition variable does next.
#[derive(Clone, Copy, PartialEq, Eq, Structural, Debug)]
pub enum WaitAction {
    /// Sleep until woken, then take the mutex again; its result is the wait's.
    BlockThenLock,
}

/// A condition variable whose waiters sleep in a queue.
pub struct CondvarBlocking {
    waiting: VecDeque<usize>,
}

impl CondvarBlocking {
    /// The sleeping tasks, the first to wake first.
    pub closed spec fn queue(&self) -> Seq<usize> {
        self.waiting@
    }

    /// A condition variable with no waiter.
    pub fn new() -> (r: Self)
        ensures
            r.queue() == Seq::<usize>::empty(),
    {
        Self { waiting: VecDeque::new() }
    }

    /// Wakes the first waiter that still exists, if any, and returns it.
    pub fn signal(&mut self, alive: &BTreeSet<usize>) -> (r: Option<usize>)
        ensures
            r == woken_from(old(self).queue(), alive@),
            final(self).queue() == queue_after_wake(old(self).queue(), alive@),
    {
        wake_first(&mut self.waiting, alive)
    }

    /// Task `current` waits, `unlocked` being what releasing its mutex gave, which
    /// comes first. When the release failed, that error is returned and the task does
    /// not wait. Otherwise it joins the back of the queue and the answer is to sleep
    /// until woken and then take the mutex again, whose result is the wait's.
    pub fn wait(&mut self, current: usize, unlocked: Result<(), KernelError>) -> (r: Result<WaitAction, KernelError>)
        ensures
            unlocked is Err ==> r == Err::<WaitAction, KernelError>(unlocked->Err_0) && final(self).queue() == old(
                self,
            ).queue(),
            unlocked is Ok ==> r == Ok::<WaitAction, KernelError>(WaitAction::BlockThenLock) && final(self).queue()
                == old(self).queue().push(current),
    {
        match unlocked {
            Err(e) => Err(e),
            Ok(()) => {
                self.waiting.push_back(current);
                Ok(WaitAction::BlockThenLock)
            },
        }
    }
}

} // verus!
