use vstd::prelude::*;
use crate::entry::{Blacklist, EntryView};
use crate::types::{BackendType, IpType};

verus! {

/// What identifies an entry: its address bytes and address family.
pub type EntryKey = (Seq<u8>, IpType);

/// What the store holds for a key: the confirming feed and the time of the
/// latest confirmation.
pub type EntryRecord = (BackendType, int);

/// The store's content: one record per key.
pub type Table = Map<EntryKey, EntryRecord>;

pub open spec fn key_of(e: EntryView) -> EntryKey {
    (e.ip, e.ip_type)
}

pub open spec fn record_of(e: EntryView) -> EntryRecord {
    (e.backend_type, e.last_update)
}

/// The views of a sequence of entries.
pub open spec fn entry_views(v: Seq<Blacklist>) -> Seq<EntryView> {
    v.map_values(|e: Blacklist| e@)
}

/// No two entries of `rows` share a key.
pub open spec fn keys_distinct(rows: Seq<EntryView>) -> bool {
    forall|i: int, j: int|
        0 <= i < rows.len() && 0 <= j < rows.len() && i != j ==> key_of(rows[i]) != key_of(rows[j])
}

/// `table` after writing each entry of `batch` in turn: an entry is inserted,
/// or overwrites the feed and time of the one with the same key.
pub open spec fn upserted(table: Table, batch: Seq<EntryView>) -> Table
    decreases batch.len(),
{
    if batch.len() == 0 {
        table
    } else {
        upserted(table, batch.drop_last()).insert(key_of(batch.last()), record_of(batch.last()))
    }
}

/// The table that a sequence of entries with distinct keys stands for.
pub open spec fn table_of(rows: Seq<EntryView>) -> Table {
    upserted(Map::empty(), rows)
}

/// The part of `table` confirmed at or after `threshold`.
pub open spec fn fresh_part(table: Table, threshold: int) -> Table {
    Map::new(|k: EntryKey| table.contains_key(k) && table[k].1 >= threshold, |k: EntryKey| table[k])
}

/// A record from `backend` whose latest confirmation is before `older_than`.
pub open spec fn is_aged(r: EntryRecord, backend: BackendType, older_than: int) -> bool {
    r.0 == backend && r.1 < older_than
}

/// `sel` lists exactly the entries of `table` from `backend` confirmed before
/// `older_than`, each once, oldest first.
pub open spec fn is_aged_selection(table: Table, backend: BackendType, older_than: int, sel: Seq<EntryView>) -> bool {
    &&& keys_distinct(sel)
    &&& forall|a: int, b: int| 0 <= a < b < sel.len() ==> #[trigger] sel[a].last_update <= #[trigger] sel[b].last_update
    &&& forall|a: int|
        0 <= a < sel.len() ==> table.contains_key(key_of(#[trigger] sel[a])) && table[key_of(sel[a])] == record_of(sel[a])
            && is_aged(record_of(sel[a]), backend, older_than)
    &&& forall|k: EntryKey|
        table.contains_key(k) && is_aged(#[trigger] table[k], backend, older_than) ==> exists|a: int|
            0 <= a < sel.len() && key_of(#[trigger] sel[a]) == k
}

/// Some entry of `table` from `backend` is confirmed before `older_than`.
pub open spec fn has_aged(table: Table, backend: BackendType, older_than: int) -> bool {
    exists|k: EntryKey| table.contains_key(k) && is_aged(#[trigger] table[k], backend, older_than)
}

pub proof fn lemma_upserted_dom(table: Table, batch: Seq<EntryView>, k: EntryKey)
    ensures
        upserted(table, batch).contains_key(k) <==> (table.contains_key(k) || exists|i: int|
            0 <= i < batch.len() && key_of(#[trigger] batch[i]) == k),
    decreases batch.len(),
{
    if batch.len() > 0 {
        let d = batch.drop_last();
        lemma_upserted_dom(table, d, k);
        if exists|i: int| 0 <= i < batch.len() && key_of(#[trigger] batch[i]) == k {
            let i = choose|i: int| 0 <= i < batch.len() && key_of(#[trigger] batch[i]) == k;
            if i < batch.len() - 1 {
                assert(d[i] == batch[i]);
            }
        }
        if exists|i: int| 0 <= i < d.len() && key_of(#[trigger] d[i]) == k {
            let i = choose|i: int| 0 <= i < d.len() && key_of(#[trigger] d[i]) == k;
            assert(batch[i] == d[i]);
        }
    }
}

pub proof fn lemma_table_value(rows: Seq<EntryView>, i: int)
    requires
        keys_distinct(rows),
        0 <= i < rows.len(),
    ensures
        table_of(rows).contains_key(key_of(rows[i])),
        table_of(rows)[key_of(rows[i])] == record_of(rows[i]),
    decreases rows.len(),
{
    if i < rows.len() - 1 {
        let d = rows.drop_last();
        assert(keys_distinct(d));
        assert(d[i] == rows[i]);
        lemma_table_value(d, i);
        assert(key_of(rows.last()) != key_of(rows[i]));
    }
}

pub proof fn lemma_table_update(rows: Seq<EntryView>, i: int, e: EntryView)
    requires
        keys_distinct(rows),
        0 <= i < rows.len(),
        key_of(e) == key_of(rows[i]),
    ensures
        keys_distinct(rows.update(i, e)),
        table_of(rows.update(i, e)) == table_of(rows).insert(key_of(e), record_of(e)),
    decreases rows.len(),
{
    let u = rows.update(i, e);
    let d = rows.drop_last();
    assert(keys_distinct(u)) by {
        assert forall|a: int, b: int| 0 <= a < u.len() && 0 <= b < u.len() && a != b implies key_of(u[a])
            != key_of(u[b]) by {
            assert(key_of(u[a]) == key_of(rows[a]));
            assert(key_of(u[b]) == key_of(rows[b]));
        }
    }
    if i == rows.len() - 1 {
        assert(u.drop_last() =~= d);
        assert(table_of(u) =~= table_of(rows).insert(key_of(e), record_of(e)));
    } else {
        assert(keys_distinct(d));
        assert(d[i] == rows[i]);
        lemma_table_update(d, i, e);
        assert(u.drop_last() =~= d.update(i, e));
        assert(key_of(rows.last()) != key_of(rows[i]));
        assert(table_of(u) =~= table_of(rows).insert(key_of(e), record_of(e)));
    }
}

pub proof fn lemma_table_push(rows: Seq<EntryView>, e: EntryView)
    requires
        keys_distinct(rows),
        !table_of(rows).contains_key(key_of(e)),
    ensures
        keys_distinct(rows.push(e)),
        table_of(rows.push(e)) == table_of(rows).insert(key_of(e), record_of(e)),
{
    let p = rows.push(e);
    assert(p.drop_last() =~= rows);
    assert forall|a: int, b: int| 0 <= a < p.len() && 0 <= b < p.len() && a != b implies key_of(p[a])
        != key_of(p[b]) by {
        if a == rows.len() {
            lemma_table_value(rows, b);
        } else if b == rows.len() {
            lemma_table_value(rows, a);
        }
    }
}

pub proof fn lemma_table_remove(rows: Seq<EntryView>, i: int)
    requires
        keys_distinct(rows),
        0 <= i < rows.len(),
    ensures
        keys_distinct(rows.remove(i)),
        table_of(rows.remove(i)) == table_of(rows).remove(key_of(rows[i])),
    decreases rows.len(),
{
    let r = rows.remove(i);
    let d = rows.drop_last();
    let k = key_of(rows[i]);
    assert(keys_distinct(r)) by {
        assert forall|a: int, b: int| 0 <= a < r.len() && 0 <= b < r.len() && a != b implies key_of(r[a])
            != key_of(r[b]) by {
            let a2 = if a < i { a } else { a + 1 };
            let b2 = if b < i { b } else { b + 1 };
            assert(r[a] == rows[a2]);
            assert(r[b] == rows[b2]);
        }
    }
    assert(keys_distinct(d));
    if i == rows.len() - 1 {
        assert(r =~= d);
        lemma_upserted_dom(Map::empty(), d, k);
        assert(table_of(r) =~= table_of(rows).remove(k));
    } else {
        assert(d[i] == rows[i]);
        lemma_table_remove(d, i);
        assert(r.drop_last() =~= d.remove(i));
        assert(r.last() == rows.last());
        assert(key_of(rows.last()) != k);
        assert(table_of(r) =~= table_of(rows).remove(k));
    }
}

pub proof fn lemma_table_len(rows: Seq<EntryView>)
    requires
        keys_distinct(rows),
    ensures
        table_of(rows).dom().finite(),
        table_of(rows).len() == rows.len(),
    decreases rows.len(),
{
    if rows.len() > 0 {
        let d = rows.drop_last();
        assert(keys_distinct(d));
        lemma_table_len(d);
        lemma_upserted_dom(Map::empty(), d, key_of(rows.last()));
        assert forall|j: int| 0 <= j < d.len() implies key_of(#[trigger] d[j]) != key_of(rows.last()) by {
            assert(d[j] == rows[j]);
        }
    }
}

/// Writing a batch into a table overwrites the table with what the batch
/// alone would make.
pub proof fn lemma_upserted_overrides(table: Table, batch: Seq<EntryView>)
    ensures
        upserted(table, batch) == table.union_prefer_right(table_of(batch)),
    decreases batch.len(),
{
    if batch.len() > 0 {
        lemma_upserted_overrides(table, batch.drop_last());
        assert(upserted(table, batch) =~= table.union_prefer_right(table_of(batch)));
    }
}

} // verus!
