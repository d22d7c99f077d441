//! Mutexes of a process: one that spins (yielding while it is held) and one
//! that blocks, queueing its waiters and handing itself over in FIFO order.
//!
//! The methods decide; the caller does what they ask: yield and try again
//! (`Retry`), block the current thread (`Blocked`), or wake the thread the
//! mutex was handed to (`HandedTo`).
use vstd::prelude::*;
use crate::deadlock::DEADLOCK_DETECTED;

verus! {

/// What a lock attempt asks of the caller.
#[derive(PartialEq, Eq, Structural, Clone, Copy)]
pub enum LockStep {
    /// The caller holds the mutex now.
    Acquired,
    /// The mutex is held: yield, then try again.
    Retry,
    /// The caller was queued: block it until the mutex is handed to it.
    Blocked,
    /// The caller already holds the mutex: waiting would never end.
    Deadlock,
}

/// What an unlock asks of the caller.
#[derive(PartialEq, Eq, Structural, Clone, Copy)]
pub enum UnlockStep {
    /// Nobody holds the mutex now.
    Released,
    /// The thread with this id holds the mutex now: wake it.
    HandedTo(usize),
}

impl LockStep {
    /// The value the lock system call returns for this step.
    pub open spec fn code_spec(&self) -> isize {
        if *self == LockStep::Deadlock {
            DEADLOCK_DETECTED
        } else {
            0
        }
    }

    /// The value the lock system call returns for this step.
    pub fn code(&self) -> (r: isize)
        ensures
            r == self.code_spec(),
    {
        match self {
            LockStep::Deadlock => DEADLOCK_DETECTED,
            _ => 0,
        }
    }
}

/// A mutex, as the lock system calls see it.
pub trait Mutex: Sync + Send {
    /// The mutex is held.
    spec fn is_locked(&self) -> bool;

    /// The invariant of the mutex.
    spec fn inv(&self) -> bool;

    /// `unlock` may be called.
    spec fn can_unlock(&self) -> bool;

    /// What `lock(tid)` does: it answers `r` and leaves the mutex `post`.
    spec fn lock_effect(&self, post: &Self, tid: usize, r: LockStep) -> bool;

    /// Tries to take the mutex for thread `tid`.
    fn lock(&mut self, tid: usize) -> (r: LockStep)
        requires
            old(self).inv(),
        ensures
            final(self).inv(),
            old(self).lock_effect(final(self), tid, r),
            (r == LockStep::Acquired) == !old(self).is_locked(),
            r == LockStep::Acquired ==> final(self).is_locked() && final(self).can_unlock(),
            r != LockStep::Deadlock,
    ;

    /// Tries to take the mutex for thread `tid`, refusing, when
    /// `check_deadlock` is set, a wait that could never end. A mutex that
    /// keeps this default does no such check: it locks as `lock` does.
    fn lock_checked(&mut self, tid: usize, check_deadlock: bool) -> (r: LockStep)
        requires
            old(self).inv(),
        ensures
            final(self).inv(),
            (r == LockStep::Acquired) == !old(self).is_locked(),
            r == LockStep::Acquired ==> final(self).is_locked() && final(self).can_unlock(),
            r == LockStep::Deadlock ==> check_deadlock,
        default_ensures
            old(self).lock_effect(final(self), tid, r),
            r != LockStep::Deadlock,
    {
        self.lock(tid)
    }

    /// Gives the mutex up.
    fn unlock(&mut self) -> (r: UnlockStep)
        requires
            old(self).inv(),
            old(self).can_unlock(),
        ensures
            final(self).inv(),
            r == UnlockStep::Released ==> !final(self).is_locked(),
            r is HandedTo ==> final(self).is_locked(),
    ;
}

/// A mutex that makes its waiters yield and try again.
pub struct MutexSpin {
    locked: bool,
}

impl MutexSpin {
    /// A mutex nobody holds.
    pub fn new() -> (m: Self)
        ensures
            m.inv(),
            !m.is_locked(),
    {
        MutexSpin { locked: false }
    }

    /// A spinning mutex has no invariant to keep and may always be unlocked.
    pub proof fn lemma_spin_always_usable(&self)
        ensures
            self.inv(),
            self.can_unlock(),
    {
    }
}

impl Mutex for MutexSpin {
    closed spec fn is_locked(&self) -> bool {
        self.locked
    }

    closed spec fn inv(&self) -> bool {
        true
    }

    open spec fn can_unlock(&self) -> bool {
        true
    }

    /// A free mutex is taken; a held one asks the caller to retry. Either
    /// way it is held afterwards.
    open spec fn lock_effect(&self, post: &Self, tid: usize, r: LockStep) -> bool {
        &&& r == if self.is_locked() {
            LockStep::Retry
        } else {
            LockStep::Acquired
        }
        &&& post.is_locked()
    }

    /// Takes the mutex when it is free; asks the caller to yield and try
    /// again when it is held.
    fn lock(&mut self, tid: usize) -> (r: LockStep)
        ensures
            r == if old(self).is_locked() {
                LockStep::Retry
            } else {
                LockStep::Acquired
            },
            final(self).is_locked(),
    {
        if self.locked {
            LockStep::Retry
        } else {
            self.locked = true;
            LockStep::Acquired
        }
    }

    fn unlock(&mut self) -> (r: UnlockStep)
        ensures
            r == UnlockStep::Released,
            !final(self).is_locked(),
    {
        self.locked = false;
        UnlockStep::Released
    }
}

/// State of a blocking mutex.
pub struct MutexBlockingInner {
    locked: bool,
    owner: Option<usize>,
    wait_queue: std::collections::VecDeque<usize>,
}

/// A mutex that blocks its waiters and hands itself to them in the order
/// they came.
pub struct MutexBlocking {
    inner: MutexBlockingInner,
}

impl MutexBlocking {
    /// Thread that holds the mutex.
    pub closed spec fn owner(&self) -> Option<usize> {
        self.inner.owner
    }

    /// Threads waiting for the mutex, first comer first.
    pub closed spec fn waiters(&self) -> Seq<usize> {
        self.inner.wait_queue@
    }

    /// A mutex nobody holds and nobody waits for.
    pub fn new() -> (m: Self)
        ensures
            m.inv(),
            !m.is_locked(),
            m.owner() == None::<usize>,
            m.waiters() == Seq::<usize>::empty(),
    {
        MutexBlocking {
            inner: MutexBlockingInner {
                locked: false,
                owner: None,
                wait_queue: std::collections::VecDeque::new(),
            },
        }
    }

    /// Thread that holds the mutex, if any.
    pub fn current_owner(&self) -> (r: Option<usize>)
        ensures
            r == self.owner(),
    {
        self.inner.owner
    }
}

/// What `MutexBlocking::lock_checked` does to the mutex and answers.
pub open spec fn lock_checked_step(
    pre: MutexBlocking,
    post: MutexBlocking,
    tid: usize,
    check_deadlock: bool,
    r: LockStep,
) -> bool {
    &&& r == if !pre.is_locked() {
        LockStep::Acquired
    } else if check_deadlock && pre.owner() == Some(tid) {
        LockStep::Deadlock
    } else {
        LockStep::Blocked
    }
    &&& post.is_locked()
    &&& r == LockStep::Acquired ==> post.owner() == Some(tid) && post.waiters() == pre.waiters()
    &&& r == LockStep::Blocked ==> post.owner() == pre.owner() && post.waiters() == pre.waiters().push(tid)
    &&& r == LockStep::Deadlock ==> post.owner() == pre.owner() && post.waiters() == pre.waiters()
}

/// What `MutexBlocking::unlock` does to the mutex and answers.
pub open spec fn unlock_step(pre: MutexBlocking, post: MutexBlocking, r: UnlockStep) -> bool {
    if pre.waiters().len() > 0 {
        &&& r == UnlockStep::HandedTo(pre.waiters()[0])
        &&& post.is_locked()
        &&& post.owner() == Some(pre.waiters()[0])
        &&& post.waiters() == pre.waiters().drop_first()
    } else {
        &&& r == UnlockStep::Released
        &&& !post.is_locked()
        &&& post.owner() == None::<usize>
        &&& post.waiters() == pre.waiters()
    }
}

impl Mutex for MutexBlocking {
    closed spec fn is_locked(&self) -> bool {
        self.inner.locked
    }

    /// The mutex is held exactly when it has an owner, and only a held
    /// mutex has waiters.
    closed spec fn inv(&self) -> bool {
        &&& self.inner.locked == self.inner.owner is Some
        &&& !self.inner.locked ==> self.inner.wait_queue@.len() == 0
    }

    /// Only a held blocking mutex may be unlocked.
    open spec fn can_unlock(&self) -> bool {
        self.is_locked()
    }

    /// `lock` is `lock_checked` with the check off.
    open spec fn lock_effect(&self, post: &Self, tid: usize, r: LockStep) -> bool {
        lock_checked_step(*self, *post, tid, false, r)
    }

    /// Takes a free mutex for `tid`; a held one queues `tid` at the back
    /// (the caller blocks). The answer is never `Deadlock`.
    fn lock(&mut self, tid: usize) -> (r: LockStep)
        ensures
            lock_checked_step(*old(self), *final(self), tid, false, r),
    {
        self.lock_checked(tid, false)
    }

    /// Takes a free mutex for `tid`. A held one queues `tid` at the back
    /// (the caller blocks), unless `check_deadlock` is set and `tid` holds
    /// it already: then nothing changes and the answer is `Deadlock`.
    fn lock_checked(&mut self, tid: usize, check_deadlock: bool) -> (r: LockStep)
        ensures
            lock_checked_step(*old(self), *final(self), tid, check_deadlock, r),
    {
        if self.inner.locked {
            if check_deadlock && self.inner.owner == Some(tid) {
                return LockStep::Deadlock;
            }
            self.inner.wait_queue.push_back(tid);
            LockStep::Blocked
        } else {
            self.inner.locked = true;
            self.inner.owner = Some(tid);
            LockStep::Acquired
        }
    }

    /// Hands the mutex to the first waiter, or frees it when nobody waits.
    fn unlock(&mut self) -> (r: UnlockStep)
        ensures
            unlock_step(*old(self), *final(self), r),
    {
        match self.inner.wait_queue.pop_front() {
            Some(waking) => {
                self.inner.owner = Some(waking);
                UnlockStep::HandedTo(waking)
            },
            None => {
                self.inner.locked = false;
                self.inner.owner = None;
                UnlockStep::Released
            },
        }
    }
}

/// Locking a free blocking mutex and unlocking it again leaves it free,
/// with nobody waiting.
pub proof fn lemma_lock_unlock_frees(
    m0: MutexBlocking,
    m1: MutexBlocking,
    m2: MutexBlocking,
    tid: usize,
    check_deadlock: bool,
    r1: LockStep,
    r2: UnlockStep,
)
    requires
        m0.inv(),
        !m0.is_locked(),
        lock_checked_step(m0, m1, tid, check_deadlock, r1),
        unlock_step(m1, m2, r2),
    ensures
        r1 == LockStep::Acquired,
        m1.owner() == Some(tid),
        r2 == UnlockStep::Released,
        !m2.is_locked(),
        m2.owner() == None::<usize>,
        m2.waiters() == Seq::<usize>::empty(),
{
    assert(m0.waiters().len() == 0);
}

/// A thread that blocks on a mutex nobody else waits for is the one the
/// next unlock hands the mutex to.
pub proof fn lemma_first_waiter_served(
    m0: MutexBlocking,
    m1: MutexBlocking,
    m2: MutexBlocking,
    tid: usize,
    check_deadlock: bool,
    r1: LockStep,
    r2: UnlockStep,
)
    requires
        m0.inv(),
        m0.waiters().len() == 0,
        lock_checked_step(m0, m1, tid, check_deadlock, r1),
        r1 == LockStep::Blocked,
        unlock_step(m1, m2, r2),
    ensures
        r2 == UnlockStep::HandedTo(tid),
        m2.owner() == Some(tid),
        m2.waiters() == Seq::<usize>::empty(),
{
    assert(m1.waiters() =~= seq![tid]);
    assert(m2.waiters() =~= Seq::<usize>::empty());
}

/// A thread that holds a blocking mutex and locks it again with the check
/// on is told so, and the mutex does not change.
pub proof fn lemma_self_lock_detected(m0: MutexBlocking, m1: MutexBlocking, tid: usize, r: LockStep)
    requires
        m0.owner() == Some(tid),
        m0.is_locked(),
        lock_checked_step(m0, m1, tid, true, r),
    ensures
        r == LockStep::Deadlock,
        r.code_spec() == DEADLOCK_DETECTED,
        m1.owner() == m0.owner(),
        m1.waiters() == m0.waiters(),
{
}

/// Only taking a free mutex changes its owner: a lock that blocks or is
/// refused leaves the owner as it was.
pub proof fn lemma_only_acquire_sets_owner(
    m0: MutexBlocking,
    m1: MutexBlocking,
    tid: usize,
    check_deadlock: bool,
    r: LockStep,
)
    requires
        lock_checked_step(m0, m1, tid, check_deadlock, r),
    ensures
        r != LockStep::Acquired ==> m1.owner() == m0.owner(),
        r == LockStep::Acquired <==> !m0.is_locked(),
{
}

/// Waiters do not hide the holder: after another thread queues on a held
/// blocking mutex, the holder that locks it again with the check on is
/// still told it would deadlock.
pub proof fn lemma_holder_relock_detected_past_waiters(
    m0: MutexBlocking,
    m1: MutexBlocking,
    m2: MutexBlocking,
    holder: usize,
    other: usize,
    check_deadlock: bool,
    r1: LockStep,
    r2: LockStep,
)
    requires
        m0.owner() == Some(holder),
        m0.is_locked(),
        lock_checked_step(m0, m1, other, check_deadlock, r1),
        lock_checked_step(m1, m2, holder, true, r2),
    ensures
        r1 != LockStep::Acquired,
        m1.owner() == Some(holder),
        r2 == LockStep::Deadlock,
        m2.owner() == Some(holder),
        m2.waiters() == m1.waiters(),
{
}

} // verus!
