//! When to show a report and when to save the statistics.
//!
//! Each of the two has a waiting time, counted from when it last happened,
//! and the waiting times are looked at only when the outcome of a trial
//! arrives: reports and saves come at most as often as their waiting times
//! allow and never more often than outcomes do.  Saving is looked at only
//! when a report is due, so nothing is saved without a report.

use vstd::prelude::*;

verus! {

/// The time that has to pass between two reports, in milliseconds.
pub const REPORT_EVERY_MS: u64 = 200;

/// The time that has to pass between two saves, in milliseconds.
pub const SAVE_EVERY_MS: u64 = 5000;

/// When the last report was shown and when the statistics were last saved, in
/// milliseconds on a clock that does not run backwards.
#[derive(Clone, Copy, Debug, PartialEq, Eq, Structural)]
pub struct Schedule {
    pub last_shown: u64,
    pub last_saved: u64,
}

/// What is to be done on the arrival of an outcome.
#[derive(Clone, Copy, Debug, PartialEq, Eq, Structural)]
pub struct Due {
    pub report: bool,
    pub save: bool,
}

/// The time from `since` to `now`; none if `now` is the earlier.
pub open spec fn elapsed(now: u64, since: u64) -> nat {
    if now >= since {
        (now - since) as nat
    } else {
        0
    }
}

impl Schedule {
    /// Whether a report is due at `now`.
    pub open spec fn report_due(self, now: u64) -> bool {
        elapsed(now, self.last_shown) > REPORT_EVERY_MS
    }

    /// Whether a save is due at `now`: only together with a report.
    pub open spec fn save_due(self, now: u64) -> bool {
        self.report_due(now) && elapsed(now, self.last_saved) > SAVE_EVERY_MS
    }

    /// A schedule that counts both waiting times from `now`.
    pub fn new(now: u64) -> (schedule: Schedule)
        ensures
            schedule == (Schedule { last_shown: now, last_saved: now }),
    {
        Schedule { last_shown: now, last_saved: now }
    }

    /// Looks at the waiting times as an outcome arrives at `now`: says what
    /// is due, and notes for each thing that is due that it happens now.
    pub fn arrive(&mut self, now: u64) -> (due: Due)
        ensures
            due.report == old(self).report_due(now),
            due.save == old(self).save_due(now),
            final(self).last_shown == if due.report {
                now
            } else {
                old(self).last_shown
            },
            final(self).last_saved == if due.save {
                now
            } else {
                old(self).last_saved
            },
    {
        let mut due = Due { report: false, save: false };
        if now.saturating_sub(self.last_shown) > REPORT_EVERY_MS {
            self.last_shown = now;
            due.report = true;
            if now.saturating_sub(self.last_saved) > SAVE_EVERY_MS {
                self.last_saved = now;
                due.save = true;
            }
        }
        due
    }
}

} // verus!
