use vstd::prelude::*;
use crate::address::well_formed_address;
use crate::entry::{Blacklist, EntryView, entry_from_text, lemma_entry_from_text_well_formed};
use crate::store::EntryStore;
use crate::table::{
    keys_distinct, entry_views, fresh_part, key_of, lemma_upserted_dom, lemma_upserted_overrides, record_of, table_of, upserted,
    EntryKey, EntryRecord, Table,
};
use crate::types::BackendType;

verus! {

/// Seconds in one day.
pub const SECONDS_PER_DAY: i64 = 86400;

/// The lines of `s` after the characters gathered so far in `cur`: split at
/// each `'\n'`, a `'\r'` before the `'\n'` dropped, no empty line after a
/// final `'\n'`.
pub open spec fn lines_after(s: Seq<char>, cur: Seq<char>) -> Seq<Seq<char>>
    decreases s.len(),
{
    if s.len() == 0 {
        if cur.len() == 0 {
            Seq::empty()
        } else {
            seq![cur]
        }
    } else if s[0] == '\n' {
        let line = if cur.len() > 0 && cur.last() == '\r' { cur.drop_last() } else { cur };
        seq![line] + lines_after(s.drop_first(), Seq::empty())
    } else {
        lines_after(s.drop_first(), cur.push(s[0]))
    }
}

/// The lines of a text.
pub open spec fn lines_of(s: Seq<char>) -> Seq<Seq<char>> {
    lines_after(s, Seq::empty())
}

/// Relies on `str::lines`: the text split at `"\n"` or `"\r\n"`, terminators
/// left out, with no empty line after a final terminator.
#[verifier::external_body]
fn text_lines(text: &str) -> (r: Vec<String>)
    ensures
        r@.map_values(|l: String| l@) == lines_of(text@),
{
    text.lines().map(String::from).collect()
}

/// The entries that a sequence of lines makes, in order; a line that is not an
/// address makes none.
pub open spec fn entries_from_lines(lines: Seq<Seq<char>>, backend: BackendType, at: int) -> Seq<EntryView>
    decreases lines.len(),
{
    if lines.len() == 0 {
        Seq::empty()
    } else {
        let rest = entries_from_lines(lines.drop_last(), backend, at);
        match entry_from_text(lines.last(), backend, at) {
            Some(e) => rest.push(e),
            None => rest,
        }
    }
}

/// The entries that a bulk snapshot makes: one per line that is an address,
/// confirmed by `backend` at `at`.
pub open spec fn snapshot_entries(snapshot: Seq<char>, backend: BackendType, at: int) -> Seq<EntryView> {
    entries_from_lines(lines_of(snapshot), backend, at)
}

/// Every entry that lines make has agreeing bytes and family, comes from
/// `backend` and carries time `at`.
pub proof fn lemma_entries_from_lines_well_formed(lines: Seq<Seq<char>>, backend: BackendType, at: int)
    ensures
        forall|i: int|
            0 <= i < entries_from_lines(lines, backend, at).len() ==> {
                let e = #[trigger] entries_from_lines(lines, backend, at)[i];
                well_formed_address(e.ip, e.ip_type) && record_of(e) == (backend, at)
            },
    decreases lines.len(),
{
    if lines.len() > 0 {
        lemma_entries_from_lines_well_formed(lines.drop_last(), backend, at);
        lemma_entry_from_text_well_formed(lines.last(), backend, at);
    }
}

/// Writing a batch changes only keys of the batch, each to the record of an
/// entry of the batch.
proof fn lemma_upserted_changes(table: Table, batch: Seq<EntryView>, k: EntryKey)
    requires
        upserted(table, batch).contains_key(k),
        !(table.contains_key(k) && table[k] == upserted(table, batch)[k]),
    ensures
        exists|i: int| 0 <= i < batch.len() && key_of(#[trigger] batch[i]) == k && record_of(batch[i]) == upserted(table, batch)[k],
    decreases batch.len(),
{
    let d = batch.drop_last();
    if key_of(batch.last()) == k {
        assert(key_of(batch[batch.len() - 1]) == k);
    } else {
        lemma_upserted_changes(table, d, k);
        let i = choose|i: int| 0 <= i < d.len() && key_of(#[trigger] d[i]) == k && record_of(d[i]) == upserted(table, d)[k];
        assert(batch[i] == d[i]);
    }
}

/// The entries that `snapshot` makes, confirmed by `backend` at `at`.
pub fn parse_snapshot(snapshot: &str, backend: BackendType, at: i64) -> (r: Vec<Blacklist>)
    ensures
        entry_views(r@) == snapshot_entries(snapshot@, backend, at as int),
        forall|i: int|
            0 <= i < r@.len() ==> well_formed_address((#[trigger] r@[i]).ip@, r@[i].ip_type) && r@[i].backend_type
                == backend && r@[i].last_update == at,
{
    let lines = text_lines(snapshot);
    let ghost ls = lines@.map_values(|l: String| l@);
    let mut out: Vec<Blacklist> = Vec::new();
    let mut i: usize = 0;
    while i < lines.len()
        invariant
            i <= lines@.len(),
            ls == lines@.map_values(|l: String| l@),
            entry_views(out@) == entries_from_lines(ls.subrange(0, i as int), backend, at as int),
        decreases lines@.len() - i,
    {
        let ghost before = out@;
        assert(ls.subrange(0, i + 1).drop_last() =~= ls.subrange(0, i as int));
        assert(ls.subrange(0, i + 1).last() == lines@[i as int]@);
        match Blacklist::new_at(lines[i].as_str(), backend, at) {
            Some(e) => {
                out.push(e);
                assert(entry_views(out@) =~= entry_views(before).push(e@));
            },
            None => {},
        }
        i = i + 1;
    }
    assert(ls.subrange(0, i as int) =~= ls);
    proof {
        lemma_entries_from_lines_well_formed(ls, backend, at as int);
        assert(entry_views(out@) == entries_from_lines(ls, backend, at as int));
        assert forall|i: int| 0 <= i < out@.len() implies well_formed_address((#[trigger] out@[i]).ip@, out@[i].ip_type)
            && out@[i].backend_type == backend && out@[i].last_update == at by {
            assert(entry_views(out@)[i] == out@[i]@);
            let e = entries_from_lines(ls, backend, at as int)[i];
            assert(well_formed_address(e.ip, e.ip_type) && record_of(e) == (backend, at as int));
        }
    }
    out
}

/// Key `k` is in `after` with a record it did not have in `before`.
pub open spec fn rewritten(before: Table, after: Table, k: EntryKey) -> bool {
    after.contains_key(k) && !(before.contains_key(k) && before[k] == after[k])
}

/// Bulk ingest: writes every entry that `response` makes, confirmed by the
/// feed at `now`, into the store; returns how many were written.
pub fn store_abuseipdb(store: &mut EntryStore, response: &str, now: i64) -> (r: usize)
    requires
        old(store).wf(),
    ensures
        final(store).wf(),
        final(store)@ == upserted(old(store)@, snapshot_entries(response@, BackendType::AbuseIpDb, now as int)),
        r == snapshot_entries(response@, BackendType::AbuseIpDb, now as int).len(),
        forall|k: EntryKey|
            #[trigger] rewritten(old(store)@, final(store)@, k) ==> well_formed_address(k.0, k.1) && final(store)@[k]
                == (BackendType::AbuseIpDb, now as int),
{
    let entries = parse_snapshot(response, BackendType::AbuseIpDb, now);
    let ghost before = store@;
    let r = store.upsert_many(&entries);
    proof {
        let batch = entry_views(entries@);
        let after = store@;
        assert forall|k: EntryKey| #[trigger] rewritten(before, after, k) implies well_formed_address(k.0, k.1)
            && after[k] == (BackendType::AbuseIpDb, now as int) by {
            lemma_upserted_changes(before, batch, k);
            let i = choose|i: int|
                0 <= i < batch.len() && key_of(#[trigger] batch[i]) == k && record_of(batch[i]) == upserted(before, batch)[k];
            assert(batch[i] == entries@[i]@);
            assert(well_formed_address(entries@[i].ip@, entries@[i].ip_type));
        }
    }
    r
}

/// The time `days` whole days before `now`.
pub open spec fn days_before(now: int, days: int) -> int {
    now - days * SECONDS_PER_DAY
}

/// Whether `days_before(now, days)` is a representable time.
pub open spec fn days_before_fits(now: int, days: int) -> bool {
    days_before(now, days) >= i64::MIN
}

/// The time `days` whole days before `now`.
pub fn threshold_days_before(now: i64, days: u32) -> (r: i64)
    requires
        days_before_fits(now as int, days as int),
    ensures
        r == days_before(now as int, days as int),
{
    now - (days as i64) * SECONDS_PER_DAY
}

/// Hard expiry sweep: removes every entry, from any feed, confirmed more than
/// `stale_days` days before `now`; returns how many were removed.
pub fn delete_old_ips(store: &mut EntryStore, now: i64, stale_days: u32) -> (r: usize)
    requires
        old(store).wf(),
        days_before_fits(now as int, stale_days as int),
    ensures
        final(store).wf(),
        final(store)@ == fresh_part(old(store)@, days_before(now as int, stale_days as int)),
        r == old(store)@.len() - final(store)@.len(),
{
    let threshold = threshold_days_before(now, stale_days);
    store.delete_older_than(threshold)
}

/// The table after the feed's answer `verdict` on the entry with key `k`:
/// still listed refreshes its time to `now`, no longer listed removes it, no
/// answer changes nothing.
pub open spec fn verdict_applied(table: Table, k: EntryKey, verdict: Option<bool>, now: int) -> Table {
    match verdict {
        Some(true) => if table.contains_key(k) { table.insert(k, (table[k].0, now)) } else { table },
        Some(false) => table.remove(k),
        None => table,
    }
}

/// Applies the feed's answer on one aged entry; says whether re-verification
/// goes on with the next entry (it stops when there was no answer).
pub fn update_old_ip(store: &mut EntryStore, entry: &Blacklist, verdict: Option<bool>, now: i64) -> (r: bool)
    requires
        old(store).wf(),
    ensures
        final(store).wf(),
        final(store)@ == verdict_applied(old(store)@, key_of(entry@), verdict, now as int),
        r == verdict is Some,
{
    match verdict {
        Some(true) => {
            store.update_verified_at(entry, now);
            true
        },
        Some(false) => {
            store.delete_by_key(entry);
            true
        },
        None => false,
    }
}

/// Re-verification of an entry confirmed before the expiration threshold:
/// "still listed" strictly advances its time, "no longer listed" removes it,
/// and no answer leaves the table as it was.
pub proof fn lemma_reverification_transitions(table: Table, k: EntryKey, now: int, expiration_threshold: int)
    requires
        table.contains_key(k),
        table[k].1 < expiration_threshold,
        expiration_threshold <= now,
    ensures
        verdict_applied(table, k, Some(true), now).contains_key(k),
        verdict_applied(table, k, Some(true), now)[k].1 > table[k].1,
        verdict_applied(table, k, Some(true), now)[k].0 == table[k].0,
        !verdict_applied(table, k, Some(false), now).contains_key(k),
        verdict_applied(table, k, None, now) == table,
{
}

/// After the sweep at `threshold`, no entry is confirmed before `threshold`,
/// and every entry confirmed at or after it is kept as it was.
pub proof fn lemma_sweep_leaves_no_stale(table: Table, threshold: int)
    ensures
        forall|k: EntryKey| #[trigger] fresh_part(table, threshold).contains_key(k) ==> fresh_part(table, threshold)[k].1 >= threshold,
        forall|k: EntryKey| table.contains_key(k) && table[k].1 >= threshold ==> #[trigger] fresh_part(table, threshold).contains_key(k)
            && fresh_part(table, threshold)[k] == table[k],
{
}

/// The same lines read at two times make entries with the same keys, in the
/// same order, from the same feed.
proof fn lemma_entries_retimed(lines: Seq<Seq<char>>, backend: BackendType, t1: int, t2: int)
    ensures
        entries_from_lines(lines, backend, t1).len() == entries_from_lines(lines, backend, t2).len(),
        forall|i: int|
            0 <= i < entries_from_lines(lines, backend, t1).len() ==> key_of(
                #[trigger] entries_from_lines(lines, backend, t1)[i],
            ) == key_of(entries_from_lines(lines, backend, t2)[i]),
        forall|i: int|
            0 <= i < entries_from_lines(lines, backend, t1).len() ==> record_of(
                #[trigger] entries_from_lines(lines, backend, t1)[i],
            ) == (backend, t1),
    decreases lines.len(),
{
    if lines.len() > 0 {
        lemma_entries_retimed(lines.drop_last(), backend, t1, t2);
        lemma_entries_retimed(lines.drop_last(), backend, t2, t1);
    }
}

/// Every record of a table made from entries that all carry `rec` is `rec`.
proof fn lemma_uniform_records(batch: Seq<EntryView>, rec: EntryRecord)
    requires
        forall|i: int| 0 <= i < batch.len() ==> record_of(#[trigger] batch[i]) == rec,
    ensures
        forall|k: EntryKey| #[trigger] table_of(batch).contains_key(k) ==> table_of(batch)[k] == rec,
    decreases batch.len(),
{
    if batch.len() > 0 {
        let d = batch.drop_last();
        assert forall|i: int| 0 <= i < d.len() implies record_of(#[trigger] d[i]) == rec by {
            assert(d[i] == batch[i]);
        }
        lemma_uniform_records(d, rec);
        assert(record_of(batch[batch.len() - 1]) == rec);
        assert forall|k: EntryKey| #[trigger] table_of(batch).contains_key(k) implies table_of(batch)[k] == rec by {
            if k != key_of(batch.last()) {
                assert(table_of(d).contains_key(k));
            }
        }
    }
}

/// Submitting the same bulk snapshot a second time leaves the store as the
/// second submission alone would: no key is added twice, and every address of
/// the snapshot carries the time of the later submission.
pub proof fn lemma_resubmission_idempotent(
    table: Table,
    snapshot: Seq<char>,
    backend: BackendType,
    t1: int,
    t2: int,
)
    ensures
        upserted(upserted(table, snapshot_entries(snapshot, backend, t1)), snapshot_entries(snapshot, backend, t2))
            == upserted(table, snapshot_entries(snapshot, backend, t2)),
        forall|k: EntryKey|
            #[trigger] table_of(snapshot_entries(snapshot, backend, t2)).contains_key(k) ==> upserted(
                table,
                snapshot_entries(snapshot, backend, t2),
            )[k] == (backend, t2),
{
    let b1 = snapshot_entries(snapshot, backend, t1);
    let b2 = snapshot_entries(snapshot, backend, t2);
    lemma_entries_retimed(lines_of(snapshot), backend, t1, t2);
    lemma_entries_retimed(lines_of(snapshot), backend, t2, t1);
    lemma_upserted_overrides(table, b1);
    lemma_upserted_overrides(upserted(table, b1), b2);
    lemma_upserted_overrides(table, b2);
    lemma_uniform_records(b2, (backend, t2));
    assert forall|k: EntryKey| table_of(b1).contains_key(k) implies table_of(b2).contains_key(k) by {
        lemma_upserted_dom(Map::empty(), b1, k);
        lemma_upserted_dom(Map::empty(), b2, k);
        let i = choose|i: int| 0 <= i < b1.len() && key_of(#[trigger] b1[i]) == k;
        assert(key_of(b2[i]) == k);
    }
    assert(upserted(upserted(table, b1), b2) =~= upserted(table, b2));
}

/// Submitting the same bulk snapshot twice at the same time changes nothing
/// the second time.
pub proof fn lemma_resubmission_same_time(table: Table, snapshot: Seq<char>, backend: BackendType, t: int)
    ensures
        upserted(upserted(table, snapshot_entries(snapshot, backend, t)), snapshot_entries(snapshot, backend, t))
            == upserted(table, snapshot_entries(snapshot, backend, t)),
{
    lemma_resubmission_idempotent(table, snapshot, backend, t, t);
}

/// How many answers come before the first missing one.
pub open spec fn answered(verdicts: Seq<Option<bool>>) -> nat
    decreases verdicts.len(),
{
    if verdicts.len() == 0 || verdicts[0] is None {
        0
    } else {
        1 + answered(verdicts.drop_first())
    }
}

/// The table after re-verifying `pending` in order, the `i`-th entry with the
/// feed's answer `verdicts[i]`, stopping at the first missing answer.
pub open spec fn reverified(table: Table, pending: Seq<EntryView>, verdicts: Seq<Option<bool>>, now: int) -> Table
    decreases pending.len(),
{
    if pending.len() == 0 || verdicts.len() == 0 {
        table
    } else {
        match verdicts[0] {
            None => table,
            Some(v) => reverified(
                verdict_applied(table, key_of(pending[0]), Some(v), now),
                pending.drop_first(),
                verdicts.drop_first(),
                now,
            ),
        }
    }
}

/// Re-verification over a whole run of aged entries, each confirmed before
/// the expiration threshold: up to the first missing answer, "still listed"
/// refreshes an entry to `now`, strictly later than before, and "no longer
/// listed" removes it; the entries from the first missing answer on are left
/// as they were, and so is every entry that is not pending.
pub proof fn lemma_reverification_run(
    table: Table,
    pending: Seq<EntryView>,
    verdicts: Seq<Option<bool>>,
    now: int,
    expiration_threshold: int,
)
    requires
        keys_distinct(pending),
        verdicts.len() == pending.len(),
        expiration_threshold <= now,
        forall|i: int|
            0 <= i < pending.len() ==> table.contains_key(key_of(#[trigger] pending[i])) && table[key_of(
                pending[i],
            )].1 < expiration_threshold,
    ensures
        answered(verdicts) <= pending.len(),
        forall|k: EntryKey|
            (forall|i: int| 0 <= i < pending.len() ==> key_of(#[trigger] pending[i]) != k) ==> (#[trigger] reverified(
                table,
                pending,
                verdicts,
                now,
            ).contains_key(k) == table.contains_key(k) && (table.contains_key(k) ==> reverified(
                table,
                pending,
                verdicts,
                now,
            )[k] == table[k])),
        forall|i: int|
            0 <= i < answered(verdicts) && verdicts[i] == Some(true) ==> {
                let k = key_of(#[trigger] pending[i]);
                let res = reverified(table, pending, verdicts, now);
                res.contains_key(k) && res[k] == (table[k].0, now) && res[k].1 > table[k].1
            },
        forall|i: int|
            0 <= i < answered(verdicts) && verdicts[i] == Some(false) ==> !reverified(
                table,
                pending,
                verdicts,
                now,
            ).contains_key(key_of(#[trigger] pending[i])),
        forall|i: int|
            answered(verdicts) <= i < pending.len() ==> {
                let k = key_of(#[trigger] pending[i]);
                let res = reverified(table, pending, verdicts, now);
                res.contains_key(k) && res[k] == table[k]
            },
    decreases pending.len(),
{
    let res = reverified(table, pending, verdicts, now);
    if pending.len() == 0 || verdicts[0] is None {
        assert(res == table);
    } else {
        let k0 = key_of(pending[0]);
        let v0 = verdicts[0];
        let t1 = verdict_applied(table, k0, v0, now);
        let p2 = pending.drop_first();
        let vs2 = verdicts.drop_first();
        assert(res == reverified(t1, p2, vs2, now));
        assert(keys_distinct(p2)) by {
            assert forall|a: int, b: int| 0 <= a < p2.len() && 0 <= b < p2.len() && a != b implies key_of(p2[a])
                != key_of(p2[b]) by {
                assert(p2[a] == pending[a + 1]);
                assert(p2[b] == pending[b + 1]);
            }
        }
        assert forall|i: int| 0 <= i < p2.len() implies key_of(#[trigger] p2[i]) != k0 by {
            assert(p2[i] == pending[i + 1]);
        }
        assert forall|i: int| 0 <= i < p2.len() implies t1.contains_key(key_of(#[trigger] p2[i])) && t1[key_of(
            p2[i],
        )] == table[key_of(p2[i])] by {
            assert(p2[i] == pending[i + 1]);
        }
        lemma_reverification_run(t1, p2, vs2, now, expiration_threshold);
        assert(answered(verdicts) == 1 + answered(vs2));
        // The first entry: no later step touches its key.
        assert(res.contains_key(k0) == t1.contains_key(k0));
        assert(t1.contains_key(k0) ==> res[k0] == t1[k0]);
        assert forall|k: EntryKey|
            (forall|i: int| 0 <= i < pending.len() ==> key_of(#[trigger] pending[i]) != k) implies (
            #[trigger] res.contains_key(k) == table.contains_key(k) && (table.contains_key(k) ==> res[k] == table[k])) by {
            assert(key_of(pending[0]) != k);
            assert forall|i: int| 0 <= i < p2.len() implies key_of(#[trigger] p2[i]) != k by {
                assert(p2[i] == pending[i + 1]);
            }
        }
        assert forall|i: int| 0 <= i < answered(verdicts) && verdicts[i] == Some(true) implies {
            let k = key_of(#[trigger] pending[i]);
            res.contains_key(k) && res[k] == (table[k].0, now) && res[k].1 > table[k].1
        } by {
            if i > 0 {
                assert(pending[i] == p2[i - 1]);
                assert(verdicts[i] == vs2[i - 1]);
            }
        }
        assert forall|i: int| 0 <= i < answered(verdicts) && verdicts[i] == Some(false) implies !res.contains_key(
            key_of(#[trigger] pending[i]),
        ) by {
            if i > 0 {
                assert(pending[i] == p2[i - 1]);
                assert(verdicts[i] == vs2[i - 1]);
            }
        }
        assert forall|i: int| answered(verdicts) <= i < pending.len() implies {
            let k = key_of(#[trigger] pending[i]);
            res.contains_key(k) && res[k] == table[k]
        } by {
            assert(pending[i] == p2[i - 1]);
        }
    }
}

} // verus!
