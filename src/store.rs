use vstd::prelude::*;
use crate::entry::{Blacklist, EntryView};
use crate::table::{
    entry_views, fresh_part, key_of, keys_distinct, lemma_table_len, lemma_table_push, lemma_table_remove,
    lemma_table_update, lemma_table_value, lemma_upserted_dom, record_of, table_of, upserted, EntryKey, Table, is_aged, is_aged_selection,
};
use crate::types::BackendType;

verus! {

/// The typed repository of blacklist entries: at most one entry per key.
pub struct EntryStore {
    rows: Vec<Blacklist>,
}

impl View for EntryStore {
    type V = Table;

    closed spec fn view(&self) -> Table {
        table_of(self.rows())
    }
}

impl EntryStore {
    /// The stored entries, in storage order.
    pub closed spec fn rows(&self) -> Seq<EntryView> {
        entry_views(self.rows@)
    }

    /// The store holds at most one entry per key.
    pub closed spec fn wf(&self) -> bool {
        keys_distinct(self.rows())
    }

    /// An empty store.
    pub fn new() -> (r: EntryStore)
        ensures
            r.wf(),
            r@ == Table::empty(),
    {
        let r = EntryStore { rows: Vec::new() };
        assert(r.rows() =~= Seq::<EntryView>::empty());
        r
    }

    /// The position of the stored entry with the key of `entry`, if any.
    fn find(&self, entry: &Blacklist) -> (r: Option<usize>)
        ensures
            match r {
                Some(i) => i < self.rows().len() && key_of(self.rows()[i as int]) == key_of(entry@),
                None => forall|i: int| 0 <= i < self.rows().len() ==> key_of(#[trigger] self.rows()[i]) != key_of(entry@),
            },
    {
        let mut i: usize = 0;
        while i < self.rows.len()
            invariant
                i <= self.rows@.len(),
                forall|j: int| 0 <= j < i ==> key_of(#[trigger] self.rows()[j]) != key_of(entry@),
            decreases self.rows@.len() - i,
        {
            if self.rows[i].same_key(entry) {
                return Some(i);
            }
            i = i + 1;
        }
        None
    }

    /// Inserts `entry`, or overwrites the feed and time of the stored entry
    /// with the same key.
    pub fn upsert(&mut self, entry: Blacklist)
        requires
            old(self).wf(),
        ensures
            final(self).wf(),
            final(self)@ == old(self)@.insert(key_of(entry@), record_of(entry@)),
    {
        let ghost rows = self.rows();
        let ghost e = entry@;
        match self.find(&entry) {
            Some(i) => {
                self.rows.set(i, entry);
                proof {
                    lemma_table_update(rows, i as int, e);
                    assert(self.rows() =~= rows.update(i as int, e));
                }
            },
            None => {
                self.rows.push(entry);
                proof {
                    lemma_upserted_dom(Map::empty(), rows, key_of(e));
                    lemma_table_push(rows, e);
                    assert(self.rows() =~= rows.push(e));
                }
            },
        }
    }

    /// Writes each entry of `entries` in turn, as `upsert` does, and returns
    /// how many were written.
    pub fn upsert_many(&mut self, entries: &Vec<Blacklist>) -> (r: usize)
        requires
            old(self).wf(),
        ensures
            final(self).wf(),
            final(self)@ == upserted(old(self)@, entry_views(entries@)),
            r == entries@.len(),
    {
        let ghost start = self@;
        let ghost batch = entry_views(entries@);
        let mut i: usize = 0;
        while i < entries.len()
            invariant
                i <= entries@.len(),
                batch == entry_views(entries@),
                self.wf(),
                self@ == upserted(start, batch.subrange(0, i as int)),
            decreases entries@.len() - i,
        {
            let e = entries[i].duplicate();
            self.upsert(e);
            i = i + 1;
            assert(batch.subrange(0, i as int).drop_last() =~= batch.subrange(0, i - 1));
        }
        assert(batch.subrange(0, i as int) =~= batch);
        i
    }

    /// Sets the time of the stored entry with the key of `entry` to `now`;
    /// does nothing if there is none.
    pub fn update_verified_at(&mut self, entry: &Blacklist, now: i64)
        requires
            old(self).wf(),
        ensures
            final(self).wf(),
            final(self)@ == if old(self)@.contains_key(key_of(entry@)) {
                old(self)@.insert(key_of(entry@), (old(self)@[key_of(entry@)].0, now as int))
            } else {
                old(self)@
            },
    {
        let ghost rows = self.rows();
        let ghost k = key_of(entry@);
        proof {
            lemma_upserted_dom(Map::empty(), rows, k);
        }
        match self.find(entry) {
            Some(i) => {
                let mut row = self.rows[i].duplicate();
                row.last_update = now;
                let ghost e = row@;
                self.rows.set(i, row);
                proof {
                    lemma_table_value(rows, i as int);
                    lemma_table_update(rows, i as int, e);
                    assert(self.rows() =~= rows.update(i as int, e));
                }
            },
            None => {},
        }
    }

    /// Removes the stored entry with the key of `entry`; says whether there was one.
    pub fn delete_by_key(&mut self, entry: &Blacklist) -> (r: bool)
        requires
            old(self).wf(),
        ensures
            final(self).wf(),
            final(self)@ == old(self)@.remove(key_of(entry@)),
            r == old(self)@.contains_key(key_of(entry@)),
    {
        let ghost rows = self.rows();
        let ghost k = key_of(entry@);
        proof {
            lemma_upserted_dom(Map::empty(), rows, k);
        }
        match self.find(entry) {
            Some(i) => {
                self.rows.remove(i);
                proof {
                    lemma_table_remove(rows, i as int);
                    assert(self.rows() =~= rows.remove(i as int));
                }
                true
            },
            None => {
                assert(self@ =~= self@.remove(k));
                false
            },
        }
    }

    /// Removes every entry confirmed before `threshold`, from any feed, and
    /// returns how many were removed.
    pub fn delete_older_than(&mut self, threshold: i64) -> (r: usize)
        requires
            old(self).wf(),
        ensures
            final(self).wf(),
            final(self)@ == fresh_part(old(self)@, threshold as int),
            r == old(self)@.len() - final(self)@.len(),
    {
        let ghost rows = self.rows();
        let mut kept: Vec<Blacklist> = Vec::new();
        let mut removed: usize = 0;
        let mut i: usize = 0;
        while i < self.rows.len()
            invariant
                i <= self.rows@.len(),
                rows == self.rows(),
                keys_distinct(rows),
                keys_distinct(entry_views(kept@)),
                forall|a: int| 0 <= a < kept@.len() ==> exists|j: int| 0 <= j < i && #[trigger] entry_views(kept@)[a] == rows[j],
                table_of(entry_views(kept@)) == fresh_part(table_of(rows.subrange(0, i as int)), threshold as int),
                removed + kept@.len() == i,
            decreases self.rows@.len() - i,
        {
            let ghost before = entry_views(kept@);
            let ghost e = rows[i as int];
            let ghost prefix = rows.subrange(0, i as int);
            assert(rows.subrange(0, i + 1).drop_last() =~= prefix);
            assert(rows.subrange(0, i + 1).last() == e);
            assert(keys_distinct(prefix));
            proof {
                lemma_upserted_dom(Map::empty(), prefix, key_of(e));
                assert forall|j: int| 0 <= j < prefix.len() implies key_of(#[trigger] prefix[j]) != key_of(e) by {
                    assert(prefix[j] == rows[j]);
                }
            }
            if self.rows[i].last_update >= threshold {
                let row = self.rows[i].duplicate();
                kept.push(row);
                proof {
                    assert(entry_views(kept@) =~= before.push(e));
                    lemma_upserted_dom(Map::empty(), before, key_of(e));
                    assert forall|a: int| 0 <= a < before.len() implies key_of(#[trigger] before[a]) != key_of(e) by {
                        let j = choose|j: int| 0 <= j < i && before[a] == rows[j];
                    }
                    lemma_table_push(before, e);
                    assert(table_of(entry_views(kept@)) =~= fresh_part(
                        table_of(rows.subrange(0, i + 1)),
                        threshold as int,
                    ));
                    assert forall|a: int| 0 <= a < kept@.len() implies exists|j: int|
                        0 <= j < i + 1 && #[trigger] entry_views(kept@)[a] == rows[j] by {
                        if a < before.len() {
                            assert(entry_views(kept@)[a] == before[a]);
                        } else {
                            assert(entry_views(kept@)[a] == rows[i as int]);
                        }
                    }
                }
            } else {
                removed = removed + 1;
                proof {
                    assert(table_of(entry_views(kept@)) =~= fresh_part(
                        table_of(rows.subrange(0, i + 1)),
                        threshold as int,
                    ));
                }
            }
            i = i + 1;
        }
        proof {
            assert(rows.subrange(0, i as int) =~= rows);
            lemma_table_len(rows);
            lemma_table_len(entry_views(kept@));
        }
        self.rows = kept;
        removed
    }

    /// The entries from `backend` confirmed before `older_than`, oldest first.
    #[verifier::spinoff_prover]
    #[verifier::rlimit(60)]
    pub fn select_aged_by_source(&self, backend: BackendType, older_than: i64) -> (r: Vec<Blacklist>)
        requires
            self.wf(),
        ensures
            is_aged_selection(self@, backend, older_than as int, entry_views(r@)),
    {
        let ghost rows = self.rows();
        let mut out: Vec<Blacklist> = Vec::new();
        let mut i: usize = 0;
        while i < self.rows.len()
            invariant
                i <= self.rows@.len(),
                rows == self.rows(),
                keys_distinct(rows),
                keys_distinct(entry_views(out@)),
                forall|a: int, b: int|
                    0 <= a < b < out@.len() ==> #[trigger] out@[a].last_update <= #[trigger] out@[b].last_update,
                forall|a: int|
                    0 <= a < out@.len() ==> exists|j: int|
                        0 <= j < i && #[trigger] entry_views(out@)[a] == rows[j] && is_aged(
                            record_of(rows[j]),
                            backend,
                            older_than as int,
                        ),
                forall|j: int|
                    0 <= j < i && is_aged(record_of(#[trigger] rows[j]), backend, older_than as int) ==> exists|a: int|
                        0 <= a < out@.len() && entry_views(out@)[a] == rows[j],
            decreases self.rows@.len() - i,
        {
            let ghost e = rows[i as int];
            if self.rows[i].backend_type == backend && self.rows[i].last_update < older_than {
                let t = self.rows[i].last_update;
                let mut p: usize = 0;
                while p < out.len() && out[p].last_update <= t
                    invariant
                        p <= out@.len(),
                        forall|a: int| 0 <= a < p ==> #[trigger] out@[a].last_update <= t,
                    decreases out@.len() - p,
                {
                    p = p + 1;
                }
                let ghost before = out@;
                let ghost bv = entry_views(before);
                let row = self.rows[i].duplicate();
                out.insert(p, row);
                proof {
                    let nv = entry_views(out@);
                    assert(nv =~= bv.insert(p as int, e));
                    assert forall|a: int| 0 <= a < bv.len() implies key_of(#[trigger] bv[a]) != key_of(e) by {
                        let j = choose|j: int| 0 <= j < i && bv[a] == rows[j] && is_aged(
                            record_of(rows[j]),
                            backend,
                            older_than as int,
                        );
                    }
                    assert forall|a: int, b: int|
                        0 <= a < nv.len() && 0 <= b < nv.len() && a != b implies key_of(nv[a]) != key_of(nv[b]) by {
                        if a != p && b != p {
                            let a2 = if a < p { a } else { a - 1 };
                            let b2 = if b < p { b } else { b - 1 };
                            assert(nv[a] == bv[a2]);
                            assert(nv[b] == bv[b2]);
                        } else if a == p {
                            let b2 = if b < p { b } else { b - 1 };
                            assert(nv[b] == bv[b2]);
                        } else {
                            let a2 = if a < p { a } else { a - 1 };
                            assert(nv[a] == bv[a2]);
                        }
                    }
                    assert forall|a: int, b: int|
                        0 <= a < b < out@.len() implies #[trigger] out@[a].last_update
                        <= #[trigger] out@[b].last_update by {
                        if p < before.len() {
                            assert(before[p as int].last_update > t);
                        }
                        if a < p && b > p {
                            assert(out@[a] == before[a]);
                            assert(out@[b] == before[b - 1]);
                        } else if a < p && b < p {
                            assert(out@[a] == before[a]);
                            assert(out@[b] == before[b]);
                        } else if a > p {
                            assert(out@[a] == before[a - 1]);
                            assert(out@[b] == before[b - 1]);
                        } else if a == p {
                            assert(out@[b] == before[b - 1]);
                        } else {
                            assert(out@[a] == before[a]);
                        }
                    }
                    assert forall|a: int| 0 <= a < out@.len() implies exists|j: int|
                        0 <= j < i + 1 && #[trigger] entry_views(out@)[a] == rows[j] && is_aged(
                            record_of(rows[j]),
                            backend,
                            older_than as int,
                        ) by {
                        if a < p {
                            assert(nv[a] == bv[a]);
                        } else if a > p {
                            assert(nv[a] == bv[a - 1]);
                        } else {
                            assert(nv[a] == rows[i as int]);
                        }
                    }
                    assert forall|j: int|
                        0 <= j < i + 1 && is_aged(record_of(#[trigger] rows[j]), backend, older_than as int) implies exists|
                        a: int,
                    | 0 <= a < out@.len() && entry_views(out@)[a] == rows[j] by {
                        if j == i {
                            assert(nv[p as int] == rows[j]);
                        } else {
                            let a = choose|a: int| 0 <= a < bv.len() && bv[a] == rows[j];
                            if a < p {
                                assert(nv[a] == bv[a]);
                            } else {
                                assert(nv[a + 1] == bv[a]);
                            }
                        }
                    }
                }
            }
            i = i + 1;
        }
        proof {
            let ov = entry_views(out@);
            assert forall|a: int| 0 <= a < out@.len() implies self@.contains_key(key_of(#[trigger] ov[a]))
                && self@[key_of(ov[a])] == record_of(ov[a]) && is_aged(
                record_of(ov[a]),
                backend,
                older_than as int,
            ) by {
                let j = choose|j: int| 0 <= j < i && ov[a] == rows[j] && is_aged(
                    record_of(rows[j]),
                    backend,
                    older_than as int,
                );
                lemma_table_value(rows, j);
            }
            assert forall|k: EntryKey|
                self@.contains_key(k) && is_aged(#[trigger] self@[k], backend, older_than as int) implies exists|a: int|
                0 <= a < out@.len() && key_of(#[trigger] ov[a]) == k by {
                lemma_upserted_dom(Map::empty(), rows, k);
                let j = choose|j: int| 0 <= j < rows.len() && key_of(#[trigger] rows[j]) == k;
                lemma_table_value(rows, j);
                let a = choose|a: int| 0 <= a < out@.len() && ov[a] == rows[j];
                assert(key_of(ov[a]) == k);
            }
        }
        out
    }

    /// The latest confirmation time over all stored entries; nothing if the
    /// store is empty.
    pub fn latest_verified(&self) -> (r: Option<i64>)
        requires
            self.wf(),
        ensures
            r is None <==> self@.len() == 0,
            r is None ==> self@ == Table::empty(),
            r matches Some(t) ==> (exists|k: EntryKey| self@.contains_key(k) && #[trigger] self@[k].1 == t),
            r matches Some(t) ==> (forall|k: EntryKey| self@.contains_key(k) ==> #[trigger] self@[k].1 <= t),
    {
        let ghost rows = self.rows();
        proof {
            lemma_table_len(rows);
        }
        if self.rows.len() == 0 {
            assert(self@ =~= Table::empty());
            return None;
        }
        let mut best: i64 = self.rows[0].last_update;
        assert(rows[0].last_update == best);
        let mut i: usize = 1;
        while i < self.rows.len()
            invariant
                1 <= i <= self.rows@.len(),
                rows == self.rows(),
                exists|j: int| 0 <= j < i && #[trigger] rows[j].last_update == best,
                forall|j: int| 0 <= j < i ==> #[trigger] rows[j].last_update <= best,
            decreases self.rows@.len() - i,
        {
            if self.rows[i].last_update > best {
                best = self.rows[i].last_update;
                assert(rows[i as int].last_update == best);
            }
            i = i + 1;
        }
        proof {
            let j = choose|j: int| 0 <= j < i && #[trigger] rows[j].last_update == best;
            lemma_table_value(rows, j);
            assert(self@[key_of(rows[j])].1 == best);
            assert forall|k: EntryKey| self@.contains_key(k) implies #[trigger] self@[k].1 <= best by {
                lemma_upserted_dom(Map::empty(), rows, k);
                let j2 = choose|j2: int| 0 <= j2 < rows.len() && key_of(#[trigger] rows[j2]) == k;
                lemma_table_value(rows, j2);
            }
        }
        Some(best)
    }

    /// Every stored entry: no two share a key, and together they are the
    /// store's content.
    pub fn list_all(&self) -> (r: Vec<Blacklist>)
        requires
            self.wf(),
        ensures
            keys_distinct(entry_views(r@)),
            table_of(entry_views(r@)) == self@,
    {
        let mut out: Vec<Blacklist> = Vec::new();
        let mut i: usize = 0;
        while i < self.rows.len()
            invariant
                i <= self.rows@.len(),
                entry_views(out@) == self.rows().subrange(0, i as int),
            decreases self.rows@.len() - i,
        {
            let ghost before = out@;
            let row = self.rows[i].duplicate();
            assert(row@ == self.rows()[i as int]);
            out.push(row);
            assert(entry_views(out@) =~= entry_views(before).push(row@));
            i = i + 1;
            assert(entry_views(out@) =~= self.rows().subrange(0, i as int));
        }
        assert(self.rows().subrange(0, i as int) =~= self.rows());
        out
    }

    /// The number of stored entries.
    pub fn count(&self) -> (r: usize)
        requires
            self.wf(),
        ensures
            r == self@.len(),
    {
        proof {
            lemma_table_len(self.rows());
        }
        self.rows.len()
    }
}

/// No two stored entries share an address and family, in every state a store
/// reaches through its operations.
pub proof fn lemma_keys_unique(store: EntryStore)
    requires
        store.wf(),
    ensures
        forall|i: int, j: int|
            0 <= i < store.rows().len() && 0 <= j < store.rows().len() && i != j ==> key_of(#[trigger] store.rows()[i])
                != key_of(#[trigger] store.rows()[j]),
{
}

/// Every stored entry is in the store's content, with its feed and time.
pub proof fn lemma_rows_in_table(store: EntryStore, i: int)
    requires
        store.wf(),
        0 <= i < store.rows().len(),
    ensures
        store@.contains_key(key_of(store.rows()[i])),
        store@[key_of(store.rows()[i])] == record_of(store.rows()[i]),
{
    lemma_table_value(store.rows(), i);
}

} // verus!
