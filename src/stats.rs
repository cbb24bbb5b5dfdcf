use vstd::prelude::*;
use crate::entry::EntryView;
use crate::store::EntryStore;
use crate::sync::SECONDS_PER_DAY;
use crate::table::{
    entry_views, key_of, keys_distinct, lemma_table_len, lemma_table_value, lemma_upserted_dom, table_of, EntryKey,
    Table,
};

verus! {

/// The entries confirmed within one day window.
#[derive(Debug, Clone, Copy)]
pub struct IpsPerTime {
    pub count: usize,
    pub last_update_start: i64,
    pub last_update_end: i64,
}

/// The index of the day window (UTC) that a time falls in.
#[verifier::opaque]
pub open spec fn day_of(t: int) -> int {
    t / SECONDS_PER_DAY as int
}

/// The keys of `table` confirmed within day window `d`.
pub open spec fn keys_on_day(table: Table, d: int) -> Set<EntryKey> {
    table.dom().filter(|k: EntryKey| day_of(table[k].1) == d)
}

/// `b` describes day window `d` of `table`: how many entries fall in it, and
/// the earliest and latest time among them.
pub open spec fn is_day_bucket(table: Table, b: IpsPerTime) -> bool {
    let d = day_of(b.last_update_start as int);
    &&& day_of(b.last_update_end as int) == d
    &&& b.count == keys_on_day(table, d).len()
    &&& exists|k: EntryKey| table.contains_key(k) && #[trigger] table[k].1 == b.last_update_start
    &&& exists|k: EntryKey| table.contains_key(k) && #[trigger] table[k].1 == b.last_update_end
    &&& forall|k: EntryKey|
        #[trigger] table.contains_key(k) && day_of(table[k].1) == d ==> b.last_update_start <= table[k].1
            <= b.last_update_end
}

/// How many of `rows` fall in day window `d`.
pub open spec fn count_on_day(rows: Seq<EntryView>, d: int) -> nat
    decreases rows.len(),
{
    if rows.len() == 0 {
        0
    } else {
        count_on_day(rows.drop_last(), d) + if day_of(rows.last().last_update) == d { 1nat } else { 0nat }
    }
}

proof fn lemma_count_bounded(rows: Seq<EntryView>, d: int)
    ensures
        count_on_day(rows, d) <= rows.len(),
    decreases rows.len(),
{
    if rows.len() > 0 {
        lemma_count_bounded(rows.drop_last(), d);
    }
}

proof fn lemma_count_is_keys(rows: Seq<EntryView>, d: int)
    requires
        keys_distinct(rows),
    ensures
        keys_on_day(table_of(rows), d).finite(),
        keys_on_day(table_of(rows), d).len() == count_on_day(rows, d),
    decreases rows.len(),
{
    lemma_table_len(rows);
    table_of(rows).dom().lemma_len_filter(|k: EntryKey| day_of(table_of(rows)[k].1) == d);
    if rows.len() > 0 {
        let p = rows.drop_last();
        let e = rows.last();
        assert(keys_distinct(p));
        lemma_count_is_keys(p, d);
        lemma_upserted_dom(Map::empty(), p, key_of(e));
        assert forall|j: int| 0 <= j < p.len() implies key_of(#[trigger] p[j]) != key_of(e) by {
            assert(p[j] == rows[j]);
        }
        let before = keys_on_day(table_of(p), d);
        if day_of(e.last_update) == d {
            assert(keys_on_day(table_of(rows), d) =~= before.insert(key_of(e)));
        } else {
            assert(keys_on_day(table_of(rows), d) =~= before);
        }
    }
}

/// The day window of a time.
fn day_index(t: i64) -> (r: i64)
    ensures
        r == day_of(t as int),
{
    reveal(day_of);
    if t >= 0 {
        t / SECONDS_PER_DAY
    } else {
        let q = (-(t + 1)) / SECONDS_PER_DAY;
        proof {
            assert((t as int) / 86400 == -(q as int) - 1) by (nonlinear_arith)
                requires
                    q == (-(t + 1)) / 86400,
                    t < 0,
            ;
        }
        -q - 1
    }
}

/// Some entry of `s` is confirmed at `t`.
#[verifier::opaque]
pub open spec fn has_time(s: Seq<EntryView>, t: int) -> bool {
    exists|j: int| 0 <= j < s.len() && #[trigger] s[j].last_update == t
}

/// `b` describes day window `day_of(start)` of the entries `s`.
pub open spec fn bucket_of(b: IpsPerTime, s: Seq<EntryView>) -> bool {
    let d = day_of(b.last_update_start as int);
    &&& day_of(b.last_update_end as int) == d
    &&& b.count == count_on_day(s, d)
    &&& has_time(s, b.last_update_start as int)
    &&& has_time(s, b.last_update_end as int)
    &&& forall|j: int|
        0 <= j < s.len() && day_of(#[trigger] s[j].last_update) == d ==> b.last_update_start <= s[j].last_update
            <= b.last_update_end
}

/// The bucket's day window.
pub open spec fn bucket_day(b: IpsPerTime) -> int {
    day_of(b.last_update_start as int)
}

/// `bs` summarises the entries `s`: one bucket per occupied day window,
/// newest window first.
#[verifier::opaque]
pub open spec fn summarises(bs: Seq<IpsPerTime>, s: Seq<EntryView>) -> bool {
    &&& forall|a: int, b: int| 0 <= a < b < bs.len() ==> bucket_day(#[trigger] bs[a]) > bucket_day(#[trigger] bs[b])
    &&& forall|a: int| 0 <= a < bs.len() ==> bucket_of(#[trigger] bs[a], s)
    &&& forall|d: int|
        (forall|a: int| 0 <= a < bs.len() ==> bucket_day(#[trigger] bs[a]) != d) ==> #[trigger] count_on_day(s, d) == 0
    &&& covers(bs, s)
}

/// Every entry of `s` falls in the day window of some bucket of `bs`.
#[verifier::opaque]
pub open spec fn covers(bs: Seq<IpsPerTime>, s: Seq<EntryView>) -> bool {
    forall|j: int|
        0 <= j < s.len() ==> exists|a: int| 0 <= a < bs.len() && bucket_day(bs[a]) == day_of(#[trigger] s[j].last_update)
}

/// The bucket `b` with one more entry, confirmed at `t`.
pub open spec fn merged(b: IpsPerTime, t: i64) -> IpsPerTime {
    IpsPerTime {
        count: (b.count + 1) as usize,
        last_update_start: if t < b.last_update_start { t } else { b.last_update_start },
        last_update_end: if t > b.last_update_end { t } else { b.last_update_end },
    }
}

/// A bucket holding one entry, confirmed at `t`.
pub open spec fn single(t: i64) -> IpsPerTime {
    IpsPerTime { count: 1, last_update_start: t, last_update_end: t }
}

proof fn lemma_summary_empty()
    ensures
        summarises(Seq::empty(), Seq::empty()),
{
    reveal(summarises);
    reveal(covers);
}

proof fn lemma_has_time_push(s: Seq<EntryView>, e: EntryView, t: int)
    ensures
        has_time(s, t) ==> has_time(s.push(e), t),
        e.last_update == t ==> has_time(s.push(e), t),
{
    reveal(has_time);
    if has_time(s, t) {
        let j = choose|j: int| 0 <= j < s.len() && #[trigger] s[j].last_update == t;
        assert(s.push(e)[j] == s[j]);
    }
    if e.last_update == t {
        assert(s.push(e)[s.len() as int] == e);
    }
}

proof fn lemma_step_merge(bs: Seq<IpsPerTime>, s: Seq<EntryView>, e: EntryView, t: i64, p: int)
    requires
        summarises(bs, s),
        0 <= p < bs.len(),
        e.last_update == t,
        bucket_day(bs[p]) == day_of(t as int),
        bs[p].count + 1 <= usize::MAX,
    ensures
        summarises(bs.update(p, merged(bs[p], t)), s.push(e)),
{
    reveal(summarises);
    reveal(covers);
    let n = s.push(e);
    let nb = bs.update(p, merged(bs[p], t));
    assert(n.drop_last() =~= s);
    assert forall|a: int| 0 <= a < nb.len() implies bucket_day(#[trigger] nb[a]) == bucket_day(bs[a]) by {}
    assert forall|a: int| 0 <= a < nb.len() implies bucket_of(#[trigger] nb[a], n) by {
        let b = bs[a];
        assert(bucket_of(b, s));
        lemma_has_time_push(s, e, b.last_update_start as int);
        lemma_has_time_push(s, e, b.last_update_end as int);
        lemma_has_time_push(s, e, t as int);
        assert forall|j: int| 0 <= j < n.len() && day_of(#[trigger] n[j].last_update) == bucket_day(nb[a]) implies nb[a].last_update_start
            <= n[j].last_update <= nb[a].last_update_end by {
            if j < s.len() {
                assert(n[j] == s[j]);
            }
        }
    }
    assert forall|d: int|
        (forall|a: int| 0 <= a < nb.len() ==> bucket_day(#[trigger] nb[a]) != d) implies #[trigger] count_on_day(n, d) == 0 by {
        assert(bucket_day(nb[p]) != d);
        assert(bucket_day(nb[p]) == day_of(t as int));
        assert forall|a: int| 0 <= a < bs.len() implies bucket_day(#[trigger] bs[a]) != d by {
            assert(bucket_day(nb[a]) != d);
        }
        assert(count_on_day(s, d) == 0);
        assert(n.last() == e);
    }
    assert forall|j: int| 0 <= j < n.len() implies exists|a: int| 0 <= a < nb.len() && bucket_day(nb[a]) == day_of(#[trigger] n[j].last_update) by {
        if j == s.len() {
            assert(bucket_day(nb[p]) == day_of(n[j].last_update));
        } else {
            assert(n[j] == s[j]);
            let a = choose|a: int| 0 <= a < bs.len() && bucket_day(bs[a]) == day_of(s[j].last_update);
            assert(bucket_day(nb[a]) == day_of(n[j].last_update));
        }
    }
}

proof fn lemma_step_insert(bs: Seq<IpsPerTime>, s: Seq<EntryView>, e: EntryView, t: i64, p: int)
    requires
        summarises(bs, s),
        0 <= p <= bs.len(),
        e.last_update == t,
        forall|a: int| 0 <= a < p ==> bucket_day(#[trigger] bs[a]) > day_of(t as int),
        p < bs.len() ==> bucket_day(bs[p]) < day_of(t as int),
    ensures
        summarises(bs.insert(p, single(t)), s.push(e)),
{
    reveal(summarises);
    reveal(covers);
    let n = s.push(e);
    let nb = bs.insert(p, single(t));
    let d = day_of(t as int);
    assert(n.drop_last() =~= s);
    assert forall|a: int| 0 <= a < bs.len() implies bucket_day(#[trigger] bs[a]) != d by {
        if a > p {
            assert(bucket_day(bs[p]) > bucket_day(bs[a]));
        }
    }
    assert(count_on_day(s, d) == 0);
    assert forall|a: int, b: int| 0 <= a < b < nb.len() implies bucket_day(#[trigger] nb[a]) > bucket_day(#[trigger] nb[b]) by {
        if a < p && b > p {
            assert(nb[b] == bs[b - 1]);
            if b - 1 > p {
                assert(bucket_day(bs[p]) > bucket_day(bs[b - 1]));
            }
        } else if a < p && b < p {
        } else if a > p {
            assert(nb[a] == bs[a - 1]);
            assert(nb[b] == bs[b - 1]);
        } else if a == p {
            assert(nb[b] == bs[b - 1]);
            if b - 1 > p {
                assert(bucket_day(bs[p]) > bucket_day(bs[b - 1]));
            }
        }
    }
    assert forall|a: int| 0 <= a < nb.len() implies bucket_of(#[trigger] nb[a], n) by {
        if a == p {
            lemma_has_time_push(s, e, t as int);
            assert forall|j: int| 0 <= j < n.len() && day_of(#[trigger] n[j].last_update) == d implies j == s.len() by {
                if j < s.len() {
                    assert(n[j] == s[j]);
                    let a2 = choose|a2: int| 0 <= a2 < bs.len() && bucket_day(bs[a2]) == day_of(s[j].last_update);
                }
            }
        } else {
            let b = if a < p { bs[a] } else { bs[a - 1] };
            assert(nb[a] == b);
            assert(bucket_of(b, s));
            lemma_has_time_push(s, e, b.last_update_start as int);
            lemma_has_time_push(s, e, b.last_update_end as int);
            assert(bucket_day(b) != d);
            assert forall|j: int| 0 <= j < n.len() && day_of(#[trigger] n[j].last_update) == bucket_day(b) implies b.last_update_start
                <= n[j].last_update <= b.last_update_end by {
                if j < s.len() {
                    assert(n[j] == s[j]);
                }
            }
        }
    }
    assert forall|dd: int|
        (forall|a: int| 0 <= a < nb.len() ==> bucket_day(#[trigger] nb[a]) != dd) implies #[trigger] count_on_day(n, dd) == 0 by {
        assert(bucket_day(nb[p]) != dd);
        assert(bucket_day(nb[p]) == d);
        assert forall|a: int| 0 <= a < bs.len() implies bucket_day(#[trigger] bs[a]) != dd by {
            if a < p {
                assert(bucket_day(nb[a]) != dd);
            } else {
                assert(bucket_day(nb[a + 1]) != dd);
            }
        }
        assert(count_on_day(s, dd) == 0);
        assert(n.last() == e);
    }
    assert forall|j: int| 0 <= j < n.len() implies exists|a: int| 0 <= a < nb.len() && bucket_day(nb[a]) == day_of(#[trigger] n[j].last_update) by {
        if j == s.len() {
            assert(bucket_day(nb[p]) == day_of(n[j].last_update));
        } else {
            assert(n[j] == s[j]);
            let a = choose|a: int| 0 <= a < bs.len() && bucket_day(bs[a]) == day_of(s[j].last_update);
            if a < p {
                assert(bucket_day(nb[a]) == day_of(n[j].last_update));
            } else {
                assert(bucket_day(nb[a + 1]) == day_of(n[j].last_update));
            }
        }
    }
}

proof fn lemma_day_monotone(x: int, y: int)
    requires
        x <= y,
    ensures
        day_of(x) <= day_of(y),
{
    reveal(day_of);
    vstd::arithmetic::div_mod::lemma_div_is_ordered(x, y, SECONDS_PER_DAY as int);
}

proof fn lemma_bucket_describes_table(b: IpsPerTime, rows: Seq<EntryView>)
    requires
        bucket_of(b, rows),
        keys_distinct(rows),
    ensures
        is_day_bucket(table_of(rows), b),
{
    let table = table_of(rows);
    let d = bucket_day(b);
    reveal(has_time);
    lemma_count_is_keys(rows, d);
    let j1 = choose|j: int| 0 <= j < rows.len() && #[trigger] rows[j].last_update == b.last_update_start;
    let j2 = choose|j: int| 0 <= j < rows.len() && #[trigger] rows[j].last_update == b.last_update_end;
    lemma_table_value(rows, j1);
    lemma_table_value(rows, j2);
    assert(table[key_of(rows[j1])].1 == b.last_update_start);
    assert(table[key_of(rows[j2])].1 == b.last_update_end);
    assert forall|k: EntryKey| #[trigger] table.contains_key(k) && day_of(table[k].1) == d implies b.last_update_start
        <= table[k].1 <= b.last_update_end by {
        lemma_upserted_dom(Map::empty(), rows, k);
        let j = choose|j: int| 0 <= j < rows.len() && key_of(#[trigger] rows[j]) == k;
        lemma_table_value(rows, j);
    }
}

proof fn lemma_covers_table(bs: Seq<IpsPerTime>, rows: Seq<EntryView>)
    requires
        covers(bs, rows),
        keys_distinct(rows),
    ensures
        forall|k: EntryKey|
            #[trigger] table_of(rows).contains_key(k) ==> exists|a: int|
                0 <= a < bs.len() && day_of(#[trigger] bs[a].last_update_start as int) == day_of(table_of(rows)[k].1),
{
    reveal(covers);
    let table = table_of(rows);
    assert forall|k: EntryKey| #[trigger] table.contains_key(k) implies exists|a: int|
        0 <= a < bs.len() && day_of(#[trigger] bs[a].last_update_start as int) == day_of(table[k].1) by {
        lemma_upserted_dom(Map::empty(), rows, k);
        let j = choose|j: int| 0 <= j < rows.len() && key_of(#[trigger] rows[j]) == k;
        lemma_table_value(rows, j);
        let a = choose|a: int| 0 <= a < bs.len() && bucket_day(bs[a]) == day_of(rows[j].last_update);
        assert(day_of(bs[a].last_update_start as int) == day_of(table[k].1));
    }
}

proof fn lemma_summary_describes_table(bs: Seq<IpsPerTime>, rows: Seq<EntryView>)
    requires
        summarises(bs, rows),
        keys_distinct(rows),
    ensures
        forall|a: int| 0 <= a < bs.len() ==> is_day_bucket(table_of(rows), #[trigger] bs[a]),
        forall|a: int, b: int|
            0 <= a < b < bs.len() ==> #[trigger] bs[a].last_update_start > #[trigger] bs[b].last_update_start,
        forall|k: EntryKey|
            #[trigger] table_of(rows).contains_key(k) ==> exists|a: int|
                0 <= a < bs.len() && day_of(#[trigger] bs[a].last_update_start as int) == day_of(table_of(rows)[k].1),
{
    reveal(summarises);
    assert forall|a: int| 0 <= a < bs.len() implies is_day_bucket(table_of(rows), #[trigger] bs[a]) by {
        lemma_bucket_describes_table(bs[a], rows);
    }
    assert forall|a: int, b: int| 0 <= a < b < bs.len() implies #[trigger] bs[a].last_update_start
        > #[trigger] bs[b].last_update_start by {
        assert(bucket_day(bs[a]) > bucket_day(bs[b]));
        if bs[a].last_update_start <= bs[b].last_update_start {
            lemma_day_monotone(bs[a].last_update_start as int, bs[b].last_update_start as int);
        }
    }
    lemma_covers_table(bs, rows);
}

/// The grouped aggregate of the store: one bucket per day window that holds
/// entries, newest window first.
pub fn count_per_day(store: &EntryStore) -> (r: Vec<IpsPerTime>)
    requires
        store.wf(),
    ensures
        forall|a: int| 0 <= a < r@.len() ==> is_day_bucket(store@, #[trigger] r@[a]),
        forall|a: int, b: int|
            0 <= a < b < r@.len() ==> #[trigger] r@[a].last_update_start > #[trigger] r@[b].last_update_start,
        forall|k: EntryKey|
            #[trigger] store@.contains_key(k) ==> exists|a: int|
                0 <= a < r@.len() && day_of(#[trigger] r@[a].last_update_start as int) == day_of(store@[k].1),
{
    let all = store.list_all();
    let ghost rows = entry_views(all@);
    let mut buckets: Vec<IpsPerTime> = Vec::new();
    let mut i: usize = 0;
    proof {
        lemma_summary_empty();
        assert(rows.subrange(0, 0) =~= Seq::<EntryView>::empty());
    }
    while i < all.len()
        invariant
            i <= all@.len(),
            rows == entry_views(all@),
            summarises(buckets@, rows.subrange(0, i as int)),
        decreases all@.len() - i,
    {
        let t = all[i].last_update;
        let d = day_index(t);
        let ghost prefix = rows.subrange(0, i as int);
        let ghost e = rows[i as int];
        assert(rows.subrange(0, i + 1) =~= prefix.push(e));
        let mut p: usize = 0;
        while p < buckets.len() && day_index(buckets[p].last_update_start) > d
            invariant
                p <= buckets@.len(),
                forall|a: int| 0 <= a < p ==> bucket_day(#[trigger] buckets@[a]) > d,
            decreases buckets@.len() - p,
        {
            p = p + 1;
        }
        let ghost before = buckets@;
        if p < buckets.len() && day_index(buckets[p].last_update_start) == d {
            let old_b = buckets[p];
            proof {
                reveal(summarises);
                assert(bucket_of(before[p as int], prefix));
                lemma_count_bounded(prefix, d as int);
            }
            let start = if t < old_b.last_update_start { t } else { old_b.last_update_start };
            let end = if t > old_b.last_update_end { t } else { old_b.last_update_end };
            buckets.set(p, IpsPerTime { count: old_b.count + 1, last_update_start: start, last_update_end: end });
            proof {
                lemma_step_merge(before, prefix, e, t, p as int);
                assert(buckets@ =~= before.update(p as int, merged(before[p as int], t)));
            }
        } else {
            buckets.insert(p, IpsPerTime { count: 1, last_update_start: t, last_update_end: t });
            proof {
                lemma_step_insert(before, prefix, e, t, p as int);
                assert(buckets@ =~= before.insert(p as int, single(t)));
            }
        }
        i = i + 1;
    }
    proof {
        assert(rows.subrange(0, i as int) =~= rows);
        lemma_summary_describes_table(buckets@, rows);
    }
    buckets
}

} // verus!
