//! The change counter behind the periodic snapshot trigger.

use vstd::prelude::*;

verus! {

/// Tracks the number of changes since the last database save.
pub struct ChangeCounter {
    pub changes: u64,
}

impl ChangeCounter {
    /// A counter at zero.
    pub fn new() -> (r: ChangeCounter)
        ensures
            r.changes == 0,
    {
        ChangeCounter { changes: 0 }
    }

    /// Count `count` more changes, saturating at the maximum.
    pub fn incr(&mut self, count: u64)
        ensures
            final(self).changes == if old(self).changes + count > u64::MAX {
                u64::MAX as int
            } else {
                old(self).changes + count
            },
    {
        if count > u64::MAX - self.changes {
            self.changes = u64::MAX;
        } else {
            self.changes = self.changes + count;
        }
    }

    /// The change count.
    pub fn load(&self) -> (r: u64)
        ensures
            r == self.changes,
    {
        self.changes
    }

    /// Reset the counter after a save.
    pub fn reset(&mut self)
        ensures
            final(self).changes == 0,
    {
        self.changes = 0;
    }
}

/// The snapshot trigger: save when enough changes have gathered and enough
/// time has passed since the last save.
pub open spec fn spec_should_save(changes: u64, min_changes: u64, elapsed_secs: u64, interval_secs: u64) -> bool {
    changes >= min_changes && elapsed_secs >= interval_secs
}

/// Decide whether the periodic task should save now.
pub fn should_save(changes: u64, min_changes: u64, elapsed_secs: u64, interval_secs: u64) -> (r:
    bool)
    ensures
        r == spec_should_save(changes, min_changes, elapsed_secs, interval_secs),
{
    changes >= min_changes && elapsed_secs >= interval_secs
}

} // verus!
