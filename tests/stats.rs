use ipblacklist::entry::Blacklist;
use ipblacklist::stats::count_per_day;
use ipblacklist::store::EntryStore;
use ipblacklist::listing::plain_listing;
use ipblacklist::types::{BackendType, IpType};

const DAY: i64 = 86400;

fn put(store: &mut EntryStore, ip: &str, at: i64) {
    store.upsert(Blacklist::new_at(ip, BackendType::AbuseIpDb, at).unwrap());
}

#[test]
fn buckets_per_day_newest_first() {
    let mut store = EntryStore::new();
    put(&mut store, "1.1.1.1", 10 * DAY + 100);
    put(&mut store, "1.1.1.2", 12 * DAY + 5);
    put(&mut store, "1.1.1.3", 10 * DAY + 50);
    put(&mut store, "1.1.1.4", 10 * DAY + 900);
    put(&mut store, "1.1.1.5", 12 * DAY + 7);
    let buckets = count_per_day(&store);
    assert_eq!(buckets.len(), 2);
    assert_eq!(buckets[0].count, 2);
    assert_eq!(buckets[0].last_update_start, 12 * DAY + 5);
    assert_eq!(buckets[0].last_update_end, 12 * DAY + 7);
    assert_eq!(buckets[1].count, 3);
    assert_eq!(buckets[1].last_update_start, 10 * DAY + 50);
    assert_eq!(buckets[1].last_update_end, 10 * DAY + 900);
}

#[test]
fn buckets_of_empty_store() {
    assert!(count_per_day(&EntryStore::new()).is_empty());
}

#[test]
fn buckets_before_epoch() {
    let mut store = EntryStore::new();
    put(&mut store, "2.2.2.1", -1);
    put(&mut store, "2.2.2.2", -DAY);
    put(&mut store, "2.2.2.3", 0);
    let buckets = count_per_day(&store);
    assert_eq!(buckets.len(), 2);
    assert_eq!((buckets[0].count, buckets[0].last_update_start), (1, 0));
    assert_eq!((buckets[1].count, buckets[1].last_update_start, buckets[1].last_update_end), (2, -DAY, -1));
}

#[test]
fn plain_listing_one_address_per_line() {
    let entries = vec![
        Blacklist::new_at("1.2.3.4", BackendType::AbuseIpDb, 0).unwrap(),
        Blacklist { ip: vec![1], ip_type: IpType::Ipv4, backend_type: BackendType::AbuseIpDb, last_update: 0 },
        Blacklist::new_at("::1", BackendType::AbuseIpDb, 0).unwrap(),
    ];
    assert_eq!(plain_listing(&entries), "1.2.3.4\n::1");
    assert_eq!(plain_listing(&Vec::new()), "");
}
