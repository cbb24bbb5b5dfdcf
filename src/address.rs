use vstd::prelude::*;
use crate::types::IpType;

verus! {

/// The octets that the standard address parser reads from a text: four for an
/// IPv4 address, sixteen for an IPv6 address, nothing for any other text.
pub uninterp spec fn parsed_octets(text: Seq<char>) -> Option<Seq<u8>>;

/// The decimal digit character for `d < 10`.
pub open spec fn digit_char(d: int) -> char {
    seq!['0', '1', '2', '3', '4', '5', '6', '7', '8', '9'][d]
}

/// The decimal text of `n`, without leading zeros.
pub open spec fn decimal_text(n: nat) -> Seq<char>
    decreases n,
{
    if n < 10 {
        seq![digit_char(n as int)]
    } else {
        decimal_text(n / 10).push(digit_char((n % 10) as int))
    }
}

/// Dotted decimal notation of four octets.
pub open spec fn ipv4_text(octets: Seq<u8>) -> Seq<char> {
    decimal_text(octets[0] as nat) + seq!['.'] + decimal_text(octets[1] as nat) + seq!['.'] + decimal_text(
        octets[2] as nat,
    ) + seq!['.'] + decimal_text(octets[3] as nat)
}

/// The text that the standard library writes for an IPv6 address.
pub uninterp spec fn ipv6_text(octets: Seq<u8>) -> Seq<char>;

/// Stored address bytes and family that agree: four bytes for IPv4, sixteen
/// for IPv6.
pub open spec fn well_formed_address(ip: Seq<u8>, ip_type: IpType) -> bool {
    (ip_type == IpType::Ipv4 && ip.len() == 4) || (ip_type == IpType::Ipv6 && ip.len() == 16)
}

/// Relies on `FromStr for core::net::IpAddr`: the address that a text spells,
/// as its octets, which are four for `V4` and sixteen for `V6`.
#[verifier::external_body]
pub(crate) fn parse_octets(text: &str) -> (r: Option<Vec<u8>>)
    ensures
        match r {
            Some(v) => parsed_octets(text@) == Some(v@) && (v@.len() == 4 || v@.len() == 16),
            None => parsed_octets(text@) is None,
        },
{
    match text.parse::<core::net::IpAddr>() {
        Ok(core::net::IpAddr::V4(a)) => Some(a.octets().to_vec()),
        Ok(core::net::IpAddr::V6(a)) => Some(a.octets().to_vec()),
        Err(_) => None,
    }
}

/// Relies on `Display for core::net::Ipv4Addr`: the address in dotted
/// decimal notation.
#[verifier::external_body]
fn format_ipv4(octets: [u8; 4]) -> (r: String)
    ensures
        r@ == ipv4_text(octets@),
{
    core::net::Ipv4Addr::from(octets).to_string()
}

/// Relies on `Display for core::net::Ipv6Addr`: the text of the address.
#[verifier::external_body]
fn format_ipv6(octets: [u8; 16]) -> (r: String)
    ensures
        r@ == ipv6_text(octets@),
{
    core::net::Ipv6Addr::from(octets).to_string()
}

/// The octets of an address of the given family, taken from the front of the
/// stored bytes; nothing if the family is unknown or the bytes are too few.
pub open spec fn address_octets(raw: Seq<u8>, ip_type: IpType) -> Option<Seq<u8>> {
    match ip_type {
        IpType::Ipv4 => if raw.len() >= 4 { Some(raw.subrange(0, 4)) } else { None },
        IpType::Ipv6 => if raw.len() >= 16 { Some(raw.subrange(0, 16)) } else { None },
        IpType::Unknown(_) => None,
    }
}

/// The display text of a stored address, if its bytes make one.
pub open spec fn address_text(raw: Seq<u8>, ip_type: IpType) -> Option<Seq<char>> {
    match address_octets(raw, ip_type) {
        Some(o) => Some(if o.len() == 4 { ipv4_text(o) } else { ipv6_text(o) }),
        None => None,
    }
}

/// Copies the first `n` bytes of `raw`.
fn prefix(raw: &[u8], n: usize) -> (r: Vec<u8>)
    requires
        n <= raw@.len(),
    ensures
        r@ == raw@.subrange(0, n as int),
{
    let mut r: Vec<u8> = Vec::new();
    let mut i: usize = 0;
    while i < n
        invariant
            i <= n <= raw@.len(),
            r@ == raw@.subrange(0, i as int),
        decreases n - i,
    {
        r.push(raw[i]);
        i = i + 1;
        assert(r@ =~= raw@.subrange(0, i as int));
    }
    r
}

/// The octets of the address stored as `raw` with family `ip_type`.
pub fn convert_ip(raw: &[u8], ip_type: IpType) -> (r: Option<Vec<u8>>)
    ensures
        match r {
            Some(v) => address_octets(raw@, ip_type) == Some(v@),
            None => address_octets(raw@, ip_type) is None,
        },
{
    match ip_type {
        IpType::Ipv4 => if raw.len() >= 4 { Some(prefix(raw, 4)) } else { None },
        IpType::Ipv6 => if raw.len() >= 16 { Some(prefix(raw, 16)) } else { None },
        IpType::Unknown(_) => None,
    }
}

/// The display text of the address stored as `raw` with family `ip_type`.
pub fn address_to_text(raw: &[u8], ip_type: IpType) -> (r: Option<String>)
    ensures
        match r {
            Some(s) => address_text(raw@, ip_type) == Some(s@),
            None => address_text(raw@, ip_type) is None,
        },
{
    match convert_ip(raw, ip_type) {
        Some(o) => {
            if o.len() == 4 {
                let a: [u8; 4] = [o[0], o[1], o[2], o[3]];
                assert(a@ =~= o@);
                Some(format_ipv4(a))
            } else {
                let a: [u8; 16] = [
                    o[0], o[1], o[2], o[3], o[4], o[5], o[6], o[7],
                    o[8], o[9], o[10], o[11], o[12], o[13], o[14], o[15],
                ];
                assert(a@ =~= o@);
                Some(format_ipv6(a))
            }
        },
        None => None,
    }
}

} // verus!
