use vstd::prelude::*;
use crate::store::EntryStore;
use crate::sync::{days_before, SECONDS_PER_DAY};
use crate::table::EntryKey;

verus! {

/// At startup a pass is due unless some entry was confirmed within the last day.
pub open spec fn pass_due(table: crate::table::Table, now: int) -> bool {
    forall|k: EntryKey| #[trigger] table.contains_key(k) ==> table[k].1 <= days_before(now, 1)
}

/// Whether a pass must run at startup: the store is empty, or its most
/// recently confirmed entry is more than one day old.
pub fn update_necessary(store: &EntryStore, now: i64) -> (r: bool)
    requires
        store.wf(),
        now >= i64::MIN + SECONDS_PER_DAY,
    ensures
        r == pass_due(store@, now as int),
{
    let threshold = now - SECONDS_PER_DAY;
    match store.latest_verified() {
        Some(latest) => {
            proof {
                if latest > threshold {
                    let k = choose|k: EntryKey| store@.contains_key(k) && #[trigger] store@[k].1 == latest;
                    assert(store@.contains_key(k));
                }
            }
            latest <= threshold
        },
        None => true,
    }
}

/// Keeps passes single-flight: a trigger that fires while a pass runs does
/// nothing.
pub struct PassGuard {
    running: bool,
}

impl PassGuard {
    pub closed spec fn is_running(&self) -> bool {
        self.running
    }

    /// An idle guard.
    pub fn new() -> (r: PassGuard)
        ensures
            !r.is_running(),
    {
        PassGuard { running: false }
    }

    /// Claims the guard for a pass; says whether the pass may run, which is
    /// exactly when no pass was running.
    pub fn try_start(&mut self) -> (r: bool)
        ensures
            r == !old(self).is_running(),
            final(self).is_running(),
    {
        if self.running {
            false
        } else {
            self.running = true;
            true
        }
    }

    /// Releases the guard when a pass ends.
    pub fn finish(&mut self)
        ensures
            !final(self).is_running(),
    {
        self.running = false;
    }
}

} // verus!
