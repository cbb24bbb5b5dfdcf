use ipblacklist::address::convert_ip;
use ipblacklist::entry::Blacklist;
use ipblacklist::types::{BackendType, IpType};

#[test]
fn ip_type_codes() {
    assert_eq!(IpType::Ipv4.to_sql(), 0);
    assert_eq!(IpType::Ipv6.to_sql(), 1);
    assert_eq!(IpType::Unknown(7).to_sql(), 7);
    assert_eq!(IpType::from_sql(0), IpType::Ipv4);
    assert_eq!(IpType::from_sql(1), IpType::Ipv6);
    assert_eq!(IpType::from_sql(-3), IpType::Unknown(-3));
    assert_eq!(i16::from(IpType::Ipv6), 1);
}

#[test]
fn backend_type_codes() {
    assert_eq!(BackendType::AbuseIpDb.to_sql(), 0);
    assert_eq!(BackendType::Unknown(5).to_sql(), 5);
    assert_eq!(BackendType::from_sql(0), BackendType::AbuseIpDb);
    assert_eq!(BackendType::from_sql(9), BackendType::Unknown(9));
    assert_eq!(i16::from(BackendType::AbuseIpDb), 0);
}

#[test]
fn parse_ipv4_entry() {
    let e = Blacklist::new_at("9.9.9.9", BackendType::AbuseIpDb, 1000).unwrap();
    assert_eq!(e.ip, vec![9, 9, 9, 9]);
    assert_eq!(e.ip_type, IpType::Ipv4);
    assert_eq!(e.backend_type, BackendType::AbuseIpDb);
    assert_eq!(e.last_update, 1000);
}

#[test]
fn parse_ipv6_entry() {
    let e = Blacklist::new_at("::1", BackendType::AbuseIpDb, 5).unwrap();
    let mut expected = vec![0u8; 16];
    expected[15] = 1;
    assert_eq!(e.ip, expected);
    assert_eq!(e.ip_type, IpType::Ipv6);
}

#[test]
fn parse_rejects_garbage() {
    assert!(Blacklist::new_at("garbage-line", BackendType::AbuseIpDb, 0).is_none());
    assert!(Blacklist::new_at("", BackendType::AbuseIpDb, 0).is_none());
    assert!(Blacklist::new_at("1.2.3.256", BackendType::AbuseIpDb, 0).is_none());
    assert!(Blacklist::new_at(" 1.2.3.4", BackendType::AbuseIpDb, 0).is_none());
}

#[test]
fn new_uses_current_time() {
    let e = Blacklist::new("10.0.0.1", BackendType::AbuseIpDb).unwrap();
    assert!(e.last_update > 1_500_000_000);
    assert!(Blacklist::new("nope", BackendType::AbuseIpDb).is_none());
}

#[test]
fn plain_text_of_entries() {
    let v4 = Blacklist::new_at("1.2.3.4", BackendType::AbuseIpDb, 0).unwrap();
    assert_eq!(v4.to_plain(), Some(String::from("1.2.3.4")));
    let v6 = Blacklist::new_at("2001:db8:0:0:0:0:0:1", BackendType::AbuseIpDb, 0).unwrap();
    assert_eq!(v6.to_plain(), Some(String::from("2001:db8::1")));
    let unknown = Blacklist { ip: vec![1, 2, 3, 4], ip_type: IpType::Unknown(4), backend_type: BackendType::AbuseIpDb, last_update: 0 };
    assert_eq!(unknown.to_plain(), None);
}

#[test]
fn convert_ip_takes_prefix() {
    assert_eq!(convert_ip(&[1, 2, 3, 4, 5], IpType::Ipv4), Some(vec![1, 2, 3, 4]));
    assert_eq!(convert_ip(&[1, 2, 3], IpType::Ipv4), None);
    assert_eq!(convert_ip(&[0; 15], IpType::Ipv6), None);
    assert_eq!(convert_ip(&[7; 16], IpType::Ipv6), Some(vec![7; 16]));
    assert_eq!(convert_ip(&[1, 2, 3, 4], IpType::Unknown(2)), None);
}

#[test]
fn same_key_and_duplicate() {
    let a = Blacklist::new_at("1.2.3.4", BackendType::AbuseIpDb, 1).unwrap();
    let b = Blacklist::new_at("1.2.3.4", BackendType::Unknown(3), 2).unwrap();
    let c = Blacklist::new_at("1.2.3.5", BackendType::AbuseIpDb, 1).unwrap();
    assert!(a.same_key(&b));
    assert!(!a.same_key(&c));
    let d = a.duplicate();
    assert_eq!(d.ip, a.ip);
    assert_eq!(d.last_update, a.last_update);
}
