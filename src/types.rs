use vstd::prelude::*;

verus! {

/// Address family of a stored entry; `Unknown` keeps an unrecognised on-wire
/// code without loss.
#[derive(Debug, Clone, Copy, PartialEq, Eq, Hash, Structural)]
pub enum IpType {
    Unknown(i16),
    Ipv4,
    Ipv6,
}

/// Feed that produced or last confirmed an entry; `Unknown` keeps an
/// unrecognised on-wire code without loss.
#[derive(Debug, Clone, Copy, PartialEq, Eq, Hash, Structural)]
pub enum BackendType {
    Unknown(i16),
    AbuseIpDb,
}

/// The column code stored for an address family.
pub open spec fn ip_type_code(t: IpType) -> i16 {
    match t {
        IpType::Ipv4 => 0,
        IpType::Ipv6 => 1,
        IpType::Unknown(n) => n,
    }
}

/// The address family that a column code reads back as.
pub open spec fn ip_type_of_code(n: i16) -> IpType {
    if n == 0 {
        IpType::Ipv4
    } else if n == 1 {
        IpType::Ipv6
    } else {
        IpType::Unknown(n)
    }
}

/// The column code stored for a feed.
pub open spec fn backend_code(b: BackendType) -> i16 {
    match b {
        BackendType::AbuseIpDb => 0,
        BackendType::Unknown(n) => n,
    }
}

/// The feed that a column code reads back as.
pub open spec fn backend_of_code(n: i16) -> BackendType {
    if n == 0 {
        BackendType::AbuseIpDb
    } else {
        BackendType::Unknown(n)
    }
}

impl IpType {
    /// The code written to the store for this family.
    pub fn to_sql(&self) -> (r: i16)
        ensures
            r == ip_type_code(*self),
    {
        match self {
            IpType::Ipv4 => 0,
            IpType::Ipv6 => 1,
            IpType::Unknown(n) => *n,
        }
    }

    /// The family that a stored code stands for.
    pub fn from_sql(n: i16) -> (r: IpType)
        ensures
            r == ip_type_of_code(n),
    {
        if n == 0 {
            IpType::Ipv4
        } else if n == 1 {
            IpType::Ipv6
        } else {
            IpType::Unknown(n)
        }
    }
}

impl BackendType {
    /// The code written to the store for this feed.
    pub fn to_sql(&self) -> (r: i16)
        ensures
            r == backend_code(*self),
    {
        match self {
            BackendType::AbuseIpDb => 0,
            BackendType::Unknown(n) => *n,
        }
    }

    /// The feed that a stored code stands for.
    pub fn from_sql(n: i16) -> (r: BackendType)
        ensures
            r == backend_of_code(n),
    {
        if n == 0 {
            BackendType::AbuseIpDb
        } else {
            BackendType::Unknown(n)
        }
    }
}

impl From<IpType> for i16 {
    fn from(t: IpType) -> (r: i16) {
        t.to_sql()
    }
}

impl vstd::std_specs::convert::FromSpecImpl<IpType> for i16 {
    open spec fn obeys_from_spec() -> bool {
        true
    }

    open spec fn from_spec(t: IpType) -> i16 {
        ip_type_code(t)
    }
}

impl From<BackendType> for i16 {
    fn from(b: BackendType) -> (r: i16) {
        b.to_sql()
    }
}

impl vstd::std_specs::convert::FromSpecImpl<BackendType> for i16 {
    open spec fn obeys_from_spec() -> bool {
        true
    }

    open spec fn from_spec(b: BackendType) -> i16 {
        backend_code(b)
    }
}

/// Reading back a written family code gives the code again, for every code.
pub proof fn lemma_ip_type_code_round_trip(n: i16)
    ensures
        ip_type_code(ip_type_of_code(n)) == n,
{
}

/// A family survives being written and read back, unless it is an unknown
/// code that collides with a known one.
pub proof fn lemma_ip_type_round_trip(t: IpType)
    requires
        t != IpType::Unknown(0),
        t != IpType::Unknown(1),
    ensures
        ip_type_of_code(ip_type_code(t)) == t,
{
}

/// Reading back a written feed code gives the code again, for every code.
pub proof fn lemma_backend_code_round_trip(n: i16)
    ensures
        backend_code(backend_of_code(n)) == n,
{
}

/// A feed survives being written and read back, unless it is an unknown code
/// that collides with the known one.
pub proof fn lemma_backend_round_trip(b: BackendType)
    requires
        b != BackendType::Unknown(0),
    ensures
        backend_of_code(backend_code(b)) == b,
{
}

} // verus!
