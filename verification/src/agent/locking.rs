//! How the records of a table are locked before a rating update: each in
//! turn without waiting, and all given back as soon as one is busy, so that
//! no caller ever waits while it holds a lock.

use vstd::prelude::*;

verus! {

/// What an attempt to lock a record came to.
#[derive(Clone, Copy, Debug, PartialEq, Eq, Structural)]
pub enum LockEvent {
    /// The record is now locked by the caller.
    Acquired,
    /// The record is locked by someone else.
    WouldBlock,
}

/// What the caller is to do next.
#[derive(Clone, Copy, Debug, PartialEq, Eq, Structural)]
pub enum LockStep {
    /// Try to lock the record of this table position, without waiting.
    TryLock(usize),
    /// Unlock every record, wait a moment, and start over.
    ReleaseAndWait,
    /// Every record is locked: update the ratings, then unlock.
    Proceed,
}

/// The progress of one caller: how many records of the table it holds.
/// It holds the records of the positions below `held`, and no other.
#[derive(Clone, Copy, Debug, PartialEq, Eq, Structural)]
pub struct LockPlan {
    pub total: usize,
    pub held: usize,
}

impl LockPlan {
    pub open spec fn wf(&self) -> bool {
        self.held <= self.total
    }

    /// The step that a caller with this progress takes.
    pub open spec fn step(&self) -> LockStep {
        if self.held == self.total {
            LockStep::Proceed
        } else {
            LockStep::TryLock(self.held)
        }
    }

    /// A caller that holds nothing of a table of `total` records.
    pub fn new(total: usize) -> (r: LockPlan)
        ensures
            r.wf(),
            r.total == total,
            r.held == 0,
    {
        LockPlan { total, held: 0 }
    }

    /// The step to take now.
    pub fn next_step(&self) -> (r: LockStep)
        requires
            self.wf(),
        ensures
            r == self.step(),
            r matches LockStep::TryLock(position) ==> position < self.total,
    {
        if self.held == self.total {
            LockStep::Proceed
        } else {
            LockStep::TryLock(self.held)
        }
    }

    /// Takes in what the attempt to lock the record of position `held`
    /// came to, and tells the step to take next. After a lock was got the
    /// caller goes on to the next record; after a busy record it is told to
    /// give everything back, and holds nothing when it waits.
    pub fn on_event(&mut self, event: LockEvent) -> (r: LockStep)
        requires
            old(self).wf(),
            old(self).held < old(self).total,
        ensures
            final(self).wf(),
            final(self).total == old(self).total,
            event == LockEvent::Acquired ==> final(self).held == old(self).held + 1,
            event == LockEvent::Acquired ==> r == final(self).step(),
            event == LockEvent::WouldBlock ==> final(self).held == 0 && r
                == LockStep::ReleaseAndWait,
            r == LockStep::ReleaseAndWait ==> final(self).held == 0,
            r == LockStep::Proceed ==> final(self).held == final(self).total,
    {
        match event {
            LockEvent::Acquired => {
                self.held = self.held + 1;
                self.next_step()
            },
            LockEvent::WouldBlock => {
                self.held = 0;
                LockStep::ReleaseAndWait
            },
        }
    }
}

} // verus!
