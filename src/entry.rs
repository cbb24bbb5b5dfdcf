use vstd::prelude::*;
use crate::address::{address_text, address_to_text, parse_octets, parsed_octets, well_formed_address};
use crate::types::{BackendType, IpType};

verus! {

/// One stored blacklist entry. `last_update` is the time of the latest
/// confirmation, in whole seconds since the Unix epoch (UTC).
#[derive(Debug, Clone, Hash)]
pub struct Blacklist {
    pub ip: Vec<u8>,
    pub ip_type: IpType,
    pub backend_type: BackendType,
    pub last_update: i64,
}

/// The mathematical content of an entry.
pub struct EntryView {
    pub ip: Seq<u8>,
    pub ip_type: IpType,
    pub backend_type: BackendType,
    pub last_update: int,
}

impl View for Blacklist {
    type V = EntryView;

    open spec fn view(&self) -> EntryView {
        EntryView {
            ip: self.ip@,
            ip_type: self.ip_type,
            backend_type: self.backend_type,
            last_update: self.last_update as int,
        }
    }
}

/// The entry that an address text makes, confirmed by `backend` at time `at`:
/// four octets make an IPv4 entry, sixteen an IPv6 one; nothing if the text
/// is not an IPv4 or IPv6 address.
pub open spec fn entry_from_text(text: Seq<char>, backend: BackendType, at: int) -> Option<EntryView> {
    match parsed_octets(text) {
        Some(o) => if o.len() == 4 {
            Some(EntryView { ip: o, ip_type: IpType::Ipv4, backend_type: backend, last_update: at })
        } else if o.len() == 16 {
            Some(EntryView { ip: o, ip_type: IpType::Ipv6, backend_type: backend, last_update: at })
        } else {
            None
        },
        None => None,
    }
}

/// An entry made from text has agreeing bytes and family, and a display text.
pub proof fn lemma_entry_from_text_well_formed(text: Seq<char>, backend: BackendType, at: int)
    ensures
        entry_from_text(text, backend, at) matches Some(e) ==> well_formed_address(e.ip, e.ip_type)
            && address_text(e.ip, e.ip_type) is Some && e.backend_type == backend && e.last_update == at,
{
    if let Some(e) = entry_from_text(text, backend, at) {
        assert(e.ip.subrange(0, e.ip.len() as int) =~= e.ip);
    }
}

/// Relies on chrono's `Utc::now`, read as whole seconds since the Unix epoch.
#[verifier::external_body]
pub(crate) fn now_timestamp() -> (r: i64) {
    chrono::Utc::now().timestamp()
}

impl Blacklist {
    /// The entry for the address spelled by `ip`, confirmed now by `backend_type`.
    pub fn new(ip: &str, backend_type: BackendType) -> (r: Option<Self>)
        ensures
            r is Some <==> parsed_octets(ip@) is Some,
            r matches Some(e) ==> exists|t: int| entry_from_text(ip@, backend_type, t) == Some(e@),
            r matches Some(e) ==> well_formed_address(e.ip@, e.ip_type) && address_text(e.ip@, e.ip_type) is Some,
    {
        let now = now_timestamp();
        Self::new_at(ip, backend_type, now)
    }

    /// The entry for the address spelled by `ip`, confirmed at `at` by `backend_type`.
    pub fn new_at(ip: &str, backend_type: BackendType, at: i64) -> (r: Option<Self>)
        ensures
            match r {
                Some(e) => entry_from_text(ip@, backend_type, at as int) == Some(e@),
                None => entry_from_text(ip@, backend_type, at as int) is None,
            },
            r is Some <==> parsed_octets(ip@) is Some,
            r matches Some(e) ==> well_formed_address(e.ip@, e.ip_type) && address_text(e.ip@, e.ip_type) is Some,
    {
        proof {
            lemma_entry_from_text_well_formed(ip@, backend_type, at as int);
        }
        match parse_octets(ip) {
            Some(octets) => {
                let ip_type = if octets.len() == 4 { IpType::Ipv4 } else { IpType::Ipv6 };
                Some(Blacklist { ip: octets, ip_type, backend_type, last_update: at })
            },
            None => None,
        }
    }

    /// The display text of the entry's address, if its bytes make one.
    pub fn to_plain(&self) -> (r: Option<String>)
        ensures
            match r {
                Some(s) => address_text(self.ip@, self.ip_type) == Some(s@),
                None => address_text(self.ip@, self.ip_type) is None,
            },
    {
        address_to_text(self.ip.as_slice(), self.ip_type)
    }

    /// A copy of the entry.
    pub fn duplicate(&self) -> (r: Blacklist)
        ensures
            r@ == self@,
    {
        let mut ip: Vec<u8> = Vec::new();
        let mut i: usize = 0;
        while i < self.ip.len()
            invariant
                i <= self.ip@.len(),
                ip@ == self.ip@.subrange(0, i as int),
            decreases self.ip@.len() - i,
        {
            ip.push(self.ip[i]);
            i = i + 1;
            assert(ip@ =~= self.ip@.subrange(0, i as int));
        }
        assert(ip@ =~= self.ip@);
        Blacklist {
            ip,
            ip_type: self.ip_type,
            backend_type: self.backend_type,
            last_update: self.last_update,
        }
    }

    /// Whether two entries have the same key: the same address bytes and family.
    pub fn same_key(&self, other: &Blacklist) -> (r: bool)
        ensures
            r == (self.ip@ == other.ip@ && self.ip_type == other.ip_type),
    {
        if self.ip_type != other.ip_type || self.ip.len() != other.ip.len() {
            return false;
        }
        let mut i: usize = 0;
        while i < self.ip.len()
            invariant
                i <= self.ip@.len() == other.ip@.len(),
                forall|j: int| 0 <= j < i ==> self.ip@[j] == other.ip@[j],
            decreases self.ip@.len() - i,
        {
            if self.ip[i] != other.ip[i] {
                return false;
            }
            i = i + 1;
        }
        assert(self.ip@ =~= other.ip@);
        true
    }
}

} // verus!
