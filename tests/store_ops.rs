use ipblacklist::entry::Blacklist;
use ipblacklist::store::EntryStore;
use ipblacklist::sync::{delete_old_ips, parse_snapshot, store_abuseipdb, threshold_days_before, update_old_ip};
use ipblacklist::types::{BackendType, IpType};

const DAY: i64 = 86400;
const NOW: i64 = 1_700_000_000;

fn entry(ip: &str, backend: BackendType, at: i64) -> Blacklist {
    Blacklist::new_at(ip, backend, at).unwrap()
}

fn time_of(store: &EntryStore, ip: &str) -> Option<i64> {
    let probe = entry(ip, BackendType::AbuseIpDb, 0);
    store.list_all().into_iter().find(|e| e.same_key(&probe)).map(|e| e.last_update)
}

#[test]
fn snapshot_skips_malformed_lines() {
    let entries = parse_snapshot("9.9.9.9\ngarbage-line\n::1", BackendType::AbuseIpDb, NOW);
    assert_eq!(entries.len(), 2);
    assert_eq!(entries[0].ip, vec![9, 9, 9, 9]);
    assert_eq!(entries[0].ip_type, IpType::Ipv4);
    assert_eq!(entries[1].ip_type, IpType::Ipv6);
    assert_eq!(entries[1].ip.len(), 16);
    assert_eq!(entries[1].last_update, NOW);
}

#[test]
fn snapshot_ingest_two_of_three() {
    let mut store = EntryStore::new();
    let written = store_abuseipdb(&mut store, "9.9.9.9\ngarbage-line\n::1", NOW);
    assert_eq!(written, 2);
    assert_eq!(store.count(), 2);
    assert_eq!(time_of(&store, "9.9.9.9"), Some(NOW));
    assert_eq!(time_of(&store, "::1"), Some(NOW));
}

#[test]
fn snapshot_lines_with_crlf_and_trailing_newline() {
    let entries = parse_snapshot("1.1.1.1\r\n2.2.2.2\r\n\n", BackendType::AbuseIpDb, NOW);
    assert_eq!(entries.len(), 2);
    assert_eq!(entries[1].ip, vec![2, 2, 2, 2]);
    assert_eq!(parse_snapshot("", BackendType::AbuseIpDb, NOW).len(), 0);
}

#[test]
fn resubmitting_snapshot_is_idempotent() {
    let text = "1.1.1.1\n2.2.2.2\n1.1.1.1\nbad\n::2";
    let mut store = EntryStore::new();
    store_abuseipdb(&mut store, text, NOW);
    let first = store.count();
    store_abuseipdb(&mut store, text, NOW + 60);
    assert_eq!(store.count(), first);
    assert_eq!(first, 3);
    assert_eq!(time_of(&store, "1.1.1.1"), Some(NOW + 60));
    assert_eq!(time_of(&store, "2.2.2.2"), Some(NOW + 60));
    assert_eq!(time_of(&store, "::2"), Some(NOW + 60));
}

#[test]
fn upsert_overwrites_same_key() {
    let mut store = EntryStore::new();
    store.upsert(entry("4.4.4.4", BackendType::Unknown(2), 10));
    store.upsert(entry("4.4.4.4", BackendType::AbuseIpDb, 20));
    store.upsert(entry("4.4.4.5", BackendType::AbuseIpDb, 30));
    let all = store.list_all();
    assert_eq!(all.len(), 2);
    for (i, a) in all.iter().enumerate() {
        for b in all.iter().skip(i + 1) {
            assert!(!a.same_key(b));
        }
    }
    let e = all.iter().find(|e| e.ip == vec![4, 4, 4, 4]).unwrap();
    assert_eq!(e.backend_type, BackendType::AbuseIpDb);
    assert_eq!(e.last_update, 20);
}

#[test]
fn upsert_many_counts_entries() {
    let mut store = EntryStore::new();
    let batch = vec![entry("1.0.0.1", BackendType::AbuseIpDb, 1), entry("1.0.0.1", BackendType::AbuseIpDb, 2)];
    assert_eq!(store.upsert_many(&batch), 2);
    assert_eq!(store.count(), 1);
    assert_eq!(time_of(&store, "1.0.0.1"), Some(2));
}

#[test]
fn aged_selection_is_oldest_first() {
    let mut store = EntryStore::new();
    store.upsert(entry("3.3.3.3", BackendType::AbuseIpDb, 300));
    store.upsert(entry("1.1.1.1", BackendType::AbuseIpDb, 100));
    store.upsert(entry("5.5.5.5", BackendType::AbuseIpDb, 900));
    store.upsert(entry("2.2.2.2", BackendType::AbuseIpDb, 200));
    store.upsert(entry("6.6.6.6", BackendType::Unknown(4), 50));
    let aged = store.select_aged_by_source(BackendType::AbuseIpDb, 500);
    let ips: Vec<Vec<u8>> = aged.iter().map(|e| e.ip.clone()).collect();
    assert_eq!(ips, vec![vec![1, 1, 1, 1], vec![2, 2, 2, 2], vec![3, 3, 3, 3]]);
    assert!(aged.windows(2).all(|w| w[0].last_update <= w[1].last_update));
    assert_eq!(store.select_aged_by_source(BackendType::AbuseIpDb, 100).len(), 0);
    assert_eq!(store.select_aged_by_source(BackendType::Unknown(4), 51).len(), 1);
}

#[test]
fn delete_older_than_keeps_fresh() {
    let mut store = EntryStore::new();
    store.upsert(entry("1.1.1.1", BackendType::AbuseIpDb, 100));
    store.upsert(entry("2.2.2.2", BackendType::Unknown(1), 200));
    store.upsert(entry("3.3.3.3", BackendType::AbuseIpDb, 300));
    assert_eq!(store.delete_older_than(200), 1);
    assert!(store.list_all().iter().all(|e| e.last_update >= 200));
    assert_eq!(store.count(), 2);
    assert_eq!(store.delete_older_than(200), 0);
}

#[test]
fn hard_expiry_sweep_by_days() {
    let mut store = EntryStore::new();
    store.upsert(entry("1.1.1.1", BackendType::AbuseIpDb, NOW - 29 * DAY));
    store.upsert(entry("2.2.2.2", BackendType::AbuseIpDb, NOW - 27 * DAY));
    assert_eq!(delete_old_ips(&mut store, NOW, 28), 1);
    assert_eq!(time_of(&store, "1.1.1.1"), None);
    assert_eq!(time_of(&store, "2.2.2.2"), Some(NOW - 27 * DAY));
}

#[test]
fn threshold_is_whole_days() {
    assert_eq!(threshold_days_before(NOW, 14), NOW - 14 * DAY);
    assert_eq!(threshold_days_before(NOW, 0), NOW);
}

#[test]
fn verdict_transitions() {
    let mut store = EntryStore::new();
    let old = NOW - 20 * DAY;
    store.upsert(entry("1.1.1.1", BackendType::AbuseIpDb, old));
    store.upsert(entry("2.2.2.2", BackendType::AbuseIpDb, old));
    store.upsert(entry("3.3.3.3", BackendType::AbuseIpDb, old));
    assert!(update_old_ip(&mut store, &entry("1.1.1.1", BackendType::AbuseIpDb, old), Some(true), NOW));
    assert_eq!(time_of(&store, "1.1.1.1"), Some(NOW));
    assert!(update_old_ip(&mut store, &entry("2.2.2.2", BackendType::AbuseIpDb, old), Some(false), NOW));
    assert_eq!(time_of(&store, "2.2.2.2"), None);
    assert!(!update_old_ip(&mut store, &entry("3.3.3.3", BackendType::AbuseIpDb, old), None, NOW));
    assert_eq!(time_of(&store, "3.3.3.3"), Some(old));
}

#[test]
fn single_row_operations() {
    let mut store = EntryStore::new();
    store.upsert(entry("8.8.8.8", BackendType::AbuseIpDb, 5));
    store.update_verified_at(&entry("8.8.4.4", BackendType::AbuseIpDb, 0), 99);
    assert_eq!(store.count(), 1);
    store.update_verified_at(&entry("8.8.8.8", BackendType::AbuseIpDb, 0), 99);
    assert_eq!(time_of(&store, "8.8.8.8"), Some(99));
    assert!(!store.delete_by_key(&entry("8.8.4.4", BackendType::AbuseIpDb, 0)));
    assert!(store.delete_by_key(&entry("8.8.8.8", BackendType::AbuseIpDb, 0)));
    assert_eq!(store.count(), 0);
}

#[test]
fn latest_verified_is_maximum() {
    let mut store = EntryStore::new();
    assert_eq!(store.latest_verified(), None);
    store.upsert(entry("1.1.1.1", BackendType::AbuseIpDb, 100));
    store.upsert(entry("2.2.2.2", BackendType::Unknown(1), 700));
    store.upsert(entry("3.3.3.3", BackendType::AbuseIpDb, 300));
    assert_eq!(store.latest_verified(), Some(700));
}
