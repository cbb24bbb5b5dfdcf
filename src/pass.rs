use vstd::prelude::*;
use crate::address::address_text;
use crate::entry::{Blacklist, EntryView};
use crate::store::EntryStore;
use crate::sync::{
    days_before, days_before_fits, snapshot_entries, store_abuseipdb, threshold_days_before, update_old_ip,
    verdict_applied,
};
use crate::table::{entry_views, fresh_part, has_aged, is_aged_selection, key_of, upserted, EntryKey, Table};
use crate::types::BackendType;

verus! {

/// Where a reconciliation pass stands.
#[derive(Debug, Clone, Copy, PartialEq, Eq, Structural)]
pub enum PassStage {
    /// Waiting for the feed's bulk snapshot.
    AwaitSnapshot,
    /// Waiting for the feed's answer on the first pending aged entry.
    AwaitVerdict,
    /// The pass has run to its end.
    Done,
}

/// What the driver of a pass has to do next.
#[derive(Debug)]
pub enum PassStep {
    /// Fetch the bulk snapshot and hand it to `on_snapshot`.
    FetchSnapshot,
    /// Ask the feed about this address and hand the answer to `on_verdict`.
    CheckAddress(String),
    /// Nothing: the pass is over.
    Finished,
}

/// The feed can be asked about an entry with this key: its bytes make an address.
pub open spec fn checkable(k: EntryKey) -> bool {
    address_text(k.0, k.1) is Some
}

/// Every entry of `table` can be asked about.
pub open spec fn all_checkable(table: Table) -> bool {
    forall|k: EntryKey| #[trigger] table.contains_key(k) ==> checkable(k)
}

/// The table after the bulk-ingest step, given what the feed returned.
pub open spec fn ingested(table: Table, snapshot: Option<Seq<char>>, now: int) -> Table {
    match snapshot {
        Some(t) => upserted(table, snapshot_entries(t, BackendType::AbuseIpDb, now)),
        None => table,
    }
}

/// The text of what the feed returned, if anything.
pub open spec fn text_of(snapshot: Option<String>) -> Option<Seq<char>> {
    match snapshot {
        Some(t) => Some(t@),
        None => None,
    }
}

/// One reconciliation pass of the feed: bulk ingest, re-verification of the
/// aged entries oldest first, hard-expiry sweep. It makes no outside call: the
/// driver does what each `PassStep` says and hands back the result.
pub struct SyncPass {
    now: i64,
    expiration_threshold: i64,
    stale_threshold: i64,
    aged: Vec<Blacklist>,
    next: usize,
    stage: PassStage,
}

impl SyncPass {
    /// The time at which the pass started.
    pub closed spec fn now(&self) -> int {
        self.now as int
    }

    /// Entries confirmed before this time are re-verified.
    pub closed spec fn expiration_threshold(&self) -> int {
        self.expiration_threshold as int
    }

    /// Entries confirmed before this time are removed at the end of the pass.
    pub closed spec fn stale_threshold(&self) -> int {
        self.stale_threshold as int
    }

    pub closed spec fn stage(&self) -> PassStage {
        self.stage
    }

    /// The aged entries not yet re-verified, oldest first.
    pub closed spec fn pending(&self) -> Seq<EntryView> {
        entry_views(self.aged@).skip(self.next as int)
    }

    pub closed spec fn wf(&self) -> bool {
        &&& self.next <= self.aged@.len()
        &&& self.stage == PassStage::AwaitVerdict ==> self.next < self.aged@.len()
        &&& self.expiration_threshold <= self.now
    }

    /// The same pass, at another step: start time and thresholds kept.
    pub open spec fn same_pass(&self, other: &SyncPass) -> bool {
        &&& self.now() == other.now()
        &&& self.expiration_threshold() == other.expiration_threshold()
        &&& self.stale_threshold() == other.stale_threshold()
    }

    /// What handing on the first of `pending` does, from store content `before`:
    /// with nothing to ask about, the sweep runs and the pass ends; else the
    /// driver is told to ask about the first pending entry.
    pub open spec fn handed_on(&self, step: &PassStep, before: Table, after: Table, pending: Seq<EntryView>) -> bool {
        if pending.len() == 0 || !checkable(key_of(pending[0])) {
            &&& *step is Finished
            &&& self.stage() == PassStage::Done
            &&& after == fresh_part(before, self.stale_threshold())
        } else {
            &&& *step matches PassStep::CheckAddress(s) && address_text(pending[0].ip, pending[0].ip_type) == Some(s@)
            &&& self.stage() == PassStage::AwaitVerdict
            &&& self.pending() == pending
            &&& after == before
        }
    }

    /// Starts a pass at `now`. Without the feed (no credential), only the
    /// sweep runs.
    pub fn begin(store: &mut EntryStore, now: i64, expiration_days: u32, stale_days: u32, feed_enabled: bool) -> (r: (
        SyncPass,
        PassStep,
    ))
        requires
            old(store).wf(),
            days_before_fits(now as int, expiration_days as int),
            days_before_fits(now as int, stale_days as int),
        ensures
            final(store).wf(),
            r.0.wf(),
            r.0.now() == now,
            r.0.expiration_threshold() == days_before(now as int, expiration_days as int),
            r.0.stale_threshold() == days_before(now as int, stale_days as int),
            feed_enabled ==> r.1 is FetchSnapshot && r.0.stage() == PassStage::AwaitSnapshot && final(store)@ == old(
                store,
            )@,
            !feed_enabled ==> r.1 is Finished && r.0.stage() == PassStage::Done && final(store)@ == fresh_part(
                old(store)@,
                days_before(now as int, stale_days as int),
            ),
    {
        let expiration_threshold = threshold_days_before(now, expiration_days);
        let stale_threshold = threshold_days_before(now, stale_days);
        let mut pass = SyncPass {
            now,
            expiration_threshold,
            stale_threshold,
            aged: Vec::new(),
            next: 0,
            stage: PassStage::AwaitSnapshot,
        };
        if feed_enabled {
            (pass, PassStep::FetchSnapshot)
        } else {
            store.delete_older_than(stale_threshold);
            pass.stage = PassStage::Done;
            (pass, PassStep::Finished)
        }
    }

    /// Hands the first pending entry to the driver, or ends the pass.
    fn hand_on(&mut self, store: &mut EntryStore) -> (r: PassStep)
        requires
            old(self).next <= old(self).aged@.len(),
            old(self).expiration_threshold <= old(self).now,
            old(store).wf(),
        ensures
            final(self).wf(),
            final(store).wf(),
            final(self).same_pass(old(self)),
            final(self).handed_on(&r, old(store)@, final(store)@, old(self).pending()),
    {
        if self.next < self.aged.len() {
            match self.aged[self.next].to_plain() {
                Some(text) => {
                    self.stage = PassStage::AwaitVerdict;
                    return PassStep::CheckAddress(text);
                },
                None => {},
            }
        }
        store.delete_older_than(self.stale_threshold);
        self.stage = PassStage::Done;
        PassStep::Finished
    }

    /// Bulk ingest of what the feed returned (nothing on a failed fetch), then
    /// selection of the aged entries of the feed, oldest first.
    pub fn on_snapshot(&mut self, store: &mut EntryStore, snapshot: Option<String>) -> (r: PassStep)
        requires
            old(self).wf(),
            old(self).stage() == PassStage::AwaitSnapshot,
            old(store).wf(),
        ensures
            final(self).wf(),
            final(store).wf(),
            final(self).same_pass(old(self)),
            final(self).stage() == PassStage::Done ==> r is Finished && final(store)@ == fresh_part(
                ingested(old(store)@, text_of(snapshot), old(self).now()),
                old(self).stale_threshold(),
            ),
            final(self).stage() != PassStage::Done ==> final(self).handed_on(
                &r,
                ingested(old(store)@, text_of(snapshot), old(self).now()),
                final(store)@,
                final(self).pending(),
            ) && is_aged_selection(
                ingested(old(store)@, text_of(snapshot), old(self).now()),
                BackendType::AbuseIpDb,
                old(self).expiration_threshold(),
                final(self).pending(),
            ),
            exists|sel: Seq<EntryView>|
                #[trigger] is_aged_selection(
                    ingested(old(store)@, text_of(snapshot), old(self).now()),
                    BackendType::AbuseIpDb,
                    old(self).expiration_threshold(),
                    sel,
                ) && final(self).handed_on(&r, ingested(old(store)@, text_of(snapshot), old(self).now()), final(store)@, sel),
            !has_aged(ingested(old(store)@, text_of(snapshot), old(self).now()), BackendType::AbuseIpDb, old(self).expiration_threshold()) ==> r is Finished,
            has_aged(ingested(old(store)@, text_of(snapshot), old(self).now()), BackendType::AbuseIpDb, old(self).expiration_threshold()) && all_checkable(
                ingested(old(store)@, text_of(snapshot), old(self).now()),
            ) ==> r is CheckAddress,
    {
        match &snapshot {
            Some(text) => {
                store_abuseipdb(store, text.as_str(), self.now);
            },
            None => {},
        }
        let ghost table = store@;
        let aged = store.select_aged_by_source(BackendType::AbuseIpDb, self.expiration_threshold);
        self.aged = aged;
        self.next = 0;
        proof {
            let sel = entry_views(self.aged@);
            assert(self.pending() =~= sel);
            if has_aged(table, BackendType::AbuseIpDb, self.expiration_threshold as int) {
                let k = choose|k: EntryKey|
                    table.contains_key(k) && crate::table::is_aged(
                        #[trigger] table[k],
                        BackendType::AbuseIpDb,
                        self.expiration_threshold as int,
                    );
                assert(sel.len() > 0);
                assert(table.contains_key(key_of(sel[0])));
            } else if sel.len() > 0 {
                assert(table.contains_key(key_of(sel[0])));
            }
        }
        let ghost sel = self.pending();
        let r = self.hand_on(store);
        assert(is_aged_selection(table, BackendType::AbuseIpDb, self.expiration_threshold as int, sel));
        assert(self.handed_on(&r, table, store@, sel));
        proof {
            let t2 = ingested(old(store)@, text_of(snapshot), old(self).now());
            assert(t2 == table);
            assert(is_aged_selection(t2, BackendType::AbuseIpDb, old(self).expiration_threshold(), sel));
            assert(self.handed_on(&r, t2, store@, sel));
        }
        r
    }

    /// Applies the feed's answer on the first pending entry. No answer stops
    /// the re-verification for this pass: the sweep runs and the pass ends.
    pub fn on_verdict(&mut self, store: &mut EntryStore, verdict: Option<bool>) -> (r: PassStep)
        requires
            old(self).wf(),
            old(self).stage() == PassStage::AwaitVerdict,
            old(store).wf(),
        ensures
            final(self).wf(),
            final(store).wf(),
            final(self).same_pass(old(self)),
            old(self).pending().len() > 0,
            verdict is None ==> r is Finished && final(self).stage() == PassStage::Done && final(store)@ == fresh_part(
                old(store)@,
                old(self).stale_threshold(),
            ),
            verdict is Some ==> final(self).handed_on(
                &r,
                verdict_applied(old(store)@, key_of(old(self).pending()[0]), verdict, old(self).now()),
                final(store)@,
                old(self).pending().drop_first(),
            ),
    {
        let ghost pending = self.pending();
        assert(self.next < self.aged@.len());
        assert(pending[0] == self.aged@[self.next as int]@);
        let current = self.next;
        let go_on = update_old_ip(store, &self.aged[current], verdict, self.now);
        if !go_on {
            store.delete_older_than(self.stale_threshold);
            self.stage = PassStage::Done;
            return PassStep::Finished;
        }
        assert(current < self.aged.len());
        self.next = current + 1;
        assert(self.pending() =~= pending.drop_first());
        self.hand_on(store)
    }
}

} // verus!
