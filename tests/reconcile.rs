use ipblacklist::entry::Blacklist;
use ipblacklist::pass::{PassStep, SyncPass};
use ipblacklist::schedule::{update_necessary, PassGuard};
use ipblacklist::store::EntryStore;
use ipblacklist::types::BackendType;

const DAY: i64 = 86400;
const NOW: i64 = 1_700_000_000;

fn entry(ip: &str, backend: BackendType, at: i64) -> Blacklist {
    Blacklist::new_at(ip, backend, at).unwrap()
}

fn has(store: &EntryStore, ip: &str) -> bool {
    let probe = entry(ip, BackendType::AbuseIpDb, 0);
    store.list_all().iter().any(|e| e.same_key(&probe))
}

fn time_of(store: &EntryStore, ip: &str) -> Option<i64> {
    let probe = entry(ip, BackendType::AbuseIpDb, 0);
    store.list_all().into_iter().find(|e| e.same_key(&probe)).map(|e| e.last_update)
}

#[test]
fn pass_without_snapshot_removes_refuted_and_stale() {
    let mut store = EntryStore::new();
    store.upsert(entry("1.2.3.4", BackendType::AbuseIpDb, NOW - 20 * DAY));
    store.upsert(entry("5.6.7.8", BackendType::Unknown(7), NOW - 40 * DAY));
    let (mut pass, step) = SyncPass::begin(&mut store, NOW, 14, 28, true);
    assert!(matches!(step, PassStep::FetchSnapshot));
    let step = pass.on_snapshot(&mut store, None);
    match step {
        PassStep::CheckAddress(addr) => assert_eq!(addr, "1.2.3.4"),
        other => panic!("unexpected step {:?}", other),
    }
    assert!(has(&store, "1.2.3.4"));
    let step = pass.on_verdict(&mut store, Some(false));
    assert!(matches!(step, PassStep::Finished));
    assert!(!has(&store, "1.2.3.4"));
    assert!(!has(&store, "5.6.7.8"));
    assert_eq!(store.count(), 0);
}

#[test]
fn pass_sweeps_stale_even_when_refreshed_entry_is_checked_first() {
    let mut store = EntryStore::new();
    store.upsert(entry("5.6.7.8", BackendType::AbuseIpDb, NOW - 40 * DAY));
    store.upsert(entry("1.2.3.4", BackendType::AbuseIpDb, NOW - 20 * DAY));
    let (mut pass, _) = SyncPass::begin(&mut store, NOW, 14, 28, true);
    let step = pass.on_snapshot(&mut store, None);
    match step {
        PassStep::CheckAddress(addr) => assert_eq!(addr, "5.6.7.8"),
        other => panic!("unexpected step {:?}", other),
    }
    let step = pass.on_verdict(&mut store, Some(false));
    match step {
        PassStep::CheckAddress(addr) => assert_eq!(addr, "1.2.3.4"),
        other => panic!("unexpected step {:?}", other),
    }
    let step = pass.on_verdict(&mut store, Some(false));
    assert!(matches!(step, PassStep::Finished));
    assert_eq!(store.count(), 0);
}

#[test]
fn pass_ingests_snapshot_then_refreshes() {
    let mut store = EntryStore::new();
    store.upsert(entry("7.7.7.7", BackendType::AbuseIpDb, NOW - 15 * DAY));
    let (mut pass, _) = SyncPass::begin(&mut store, NOW, 14, 28, true);
    let step = pass.on_snapshot(&mut store, Some(String::from("9.9.9.9\ngarbage-line\n::1")));
    assert_eq!(store.count(), 3);
    match step {
        PassStep::CheckAddress(addr) => assert_eq!(addr, "7.7.7.7"),
        other => panic!("unexpected step {:?}", other),
    }
    let step = pass.on_verdict(&mut store, Some(true));
    assert!(matches!(step, PassStep::Finished));
    assert_eq!(time_of(&store, "7.7.7.7"), Some(NOW));
    assert_eq!(time_of(&store, "9.9.9.9"), Some(NOW));
}

#[test]
fn missing_answer_halts_reverification() {
    let mut store = EntryStore::new();
    store.upsert(entry("1.1.1.1", BackendType::AbuseIpDb, NOW - 20 * DAY));
    store.upsert(entry("2.2.2.2", BackendType::AbuseIpDb, NOW - 19 * DAY));
    let (mut pass, _) = SyncPass::begin(&mut store, NOW, 14, 28, true);
    let step = pass.on_snapshot(&mut store, None);
    assert!(matches!(step, PassStep::CheckAddress(_)));
    let step = pass.on_verdict(&mut store, None);
    assert!(matches!(step, PassStep::Finished));
    assert_eq!(time_of(&store, "1.1.1.1"), Some(NOW - 20 * DAY));
    assert_eq!(time_of(&store, "2.2.2.2"), Some(NOW - 19 * DAY));
}

#[test]
fn pass_without_credential_only_sweeps() {
    let mut store = EntryStore::new();
    store.upsert(entry("1.1.1.1", BackendType::AbuseIpDb, NOW - 20 * DAY));
    store.upsert(entry("2.2.2.2", BackendType::AbuseIpDb, NOW - 30 * DAY));
    let (_, step) = SyncPass::begin(&mut store, NOW, 14, 28, false);
    assert!(matches!(step, PassStep::Finished));
    assert!(has(&store, "1.1.1.1"));
    assert!(!has(&store, "2.2.2.2"));
}

#[test]
fn startup_pass_decision() {
    let mut store = EntryStore::new();
    assert!(update_necessary(&store, NOW));
    store.upsert(entry("1.1.1.1", BackendType::AbuseIpDb, NOW - 2 * DAY));
    assert!(update_necessary(&store, NOW));
    store.upsert(entry("2.2.2.2", BackendType::AbuseIpDb, NOW - DAY + 1));
    assert!(!update_necessary(&store, NOW));
}

#[test]
fn guard_is_single_flight() {
    let mut guard = PassGuard::new();
    assert!(guard.try_start());
    assert!(!guard.try_start());
    guard.finish();
    assert!(guard.try_start());
}

#[test]
fn run_stops_at_first_missing_answer() {
    let mut store = EntryStore::new();
    store.upsert(entry("1.1.1.1", BackendType::AbuseIpDb, NOW - 30 * DAY + 10));
    store.upsert(entry("2.2.2.2", BackendType::AbuseIpDb, NOW - 20 * DAY));
    store.upsert(entry("3.3.3.3", BackendType::AbuseIpDb, NOW - 16 * DAY));
    store.upsert(entry("4.4.4.4", BackendType::AbuseIpDb, NOW - 15 * DAY));
    let (mut pass, _) = SyncPass::begin(&mut store, NOW, 14, 40, true);
    let step = pass.on_snapshot(&mut store, None);
    assert!(matches!(step, PassStep::CheckAddress(ref a) if a == "1.1.1.1"));
    let step = pass.on_verdict(&mut store, Some(true));
    assert!(matches!(step, PassStep::CheckAddress(ref a) if a == "2.2.2.2"));
    let step = pass.on_verdict(&mut store, Some(false));
    assert!(matches!(step, PassStep::CheckAddress(ref a) if a == "3.3.3.3"));
    let step = pass.on_verdict(&mut store, None);
    assert!(matches!(step, PassStep::Finished));
    assert_eq!(time_of(&store, "1.1.1.1"), Some(NOW));
    assert!(!has(&store, "2.2.2.2"));
    assert_eq!(time_of(&store, "3.3.3.3"), Some(NOW - 16 * DAY));
    assert_eq!(time_of(&store, "4.4.4.4"), Some(NOW - 15 * DAY));
}
