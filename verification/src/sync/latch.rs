//! The counting behind a countdown latch.
//!
//! A latch lets threads wait until a count has come down to zero.  The
//! waiting itself needs a lock and a condition variable; what is decided
//! under the lock is here: how the count changes, when the waiting threads
//! are to be woken, and whether a thread has to wait.
use vstd::prelude::*;

verus! {

/// What a step of the count asks of the one who holds the lock.
#[derive(Debug, Clone, Copy, PartialEq, Eq, Structural)]
pub enum Signal {
    /// The count has just reached zero: wake every waiting thread.
    WakeAll,
    /// Nothing to do.
    Quiet,
}

/// The count of a latch.
#[derive(Debug, Clone, Copy)]
pub struct Countdown {
    count: usize,
}

impl Countdown {
    /// How many steps are left until the latch opens.
    pub closed spec fn left(self) -> nat {
        self.count as nat
    }

    /// A count that opens after `count` steps.
    pub fn new(count: usize) -> (countdown: Self)
        ensures
            countdown.left() == count,
    {
        Countdown { count }
    }

    /// How many steps are left until the latch opens.
    pub fn remaining(&self) -> (n: usize)
        ensures
            n == self.left(),
    {
        self.count
    }

    /// One step down.  A count that is at zero stays there.  The step that
    /// reaches zero, and no other, asks for the waiting threads to be woken.
    pub fn count_down(&mut self) -> (signal: Signal)
        ensures
            old(self).left() > 0 ==> final(self).left() == old(self).left() - 1,
            old(self).left() == 0 ==> final(self).left() == 0,
            signal == (if old(self).left() == 1 {
                Signal::WakeAll
            } else {
                Signal::Quiet
            }),
    {
        if self.count > 0 {
            self.count = self.count - 1;
            if self.count == 0 {
                return Signal::WakeAll;
            }
        }
        Signal::Quiet
    }

    /// Whether a thread that wants to pass the latch has to wait: as long as
    /// steps are left.
    pub fn must_wait(&self) -> (wait: bool)
        ensures
            wait == (self.left() > 0),
    {
        self.count > 0
    }

    /// A count of `n` is open after `n` steps, and not before: after `k` of
    /// them, `n - k` are left.
    pub proof fn lemma_steps(n: nat, k: nat)
        requires
            k <= n,
        ensures
            Self::after_steps(n, k) == n - k,
        decreases k,
    {
        if k > 0 {
            Self::lemma_steps(n, (k - 1) as nat);
        }
    }

    /// What is left of a count of `n` after `k` steps.
    pub open spec fn after_steps(n: nat, k: nat) -> nat
        decreases k,
    {
        if k == 0 {
            n
        } else {
            let before = Self::after_steps(n, (k - 1) as nat);
            if before > 0 {
                (before - 1) as nat
            } else {
                0
            }
        }
    }
}

} // verus!
