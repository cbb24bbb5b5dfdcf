use vstd::prelude::*;

verus! {

/// Port the query API listens on when none is given.
pub const DEFAULT_PORT: u16 = 8080;

/// Days after which an entry is re-verified, when none is given.
pub const DEFAULT_EXPIRATION_DAYS: u32 = 14;

/// Days after which an entry is removed unconditionally, when none is given.
pub const DEFAULT_STALE_DAYS: u32 = 28;

/// Severity threshold of the process log.
#[derive(Debug, Clone, Copy, PartialEq, Eq, Structural)]
pub enum LogLevel {
    Error,
    Warn,
    Info,
    Debug,
    Trace,
}

/// The three interchangeable database engines.
#[derive(Debug, Clone, Copy, PartialEq, Eq, Structural)]
pub enum DbType {
    Postgres,
    Mysql,
    Sqlite,
}

/// The engine's name, as given on the command line and used as URL scheme.
pub open spec fn db_type_name(t: DbType) -> Seq<char> {
    match t {
        DbType::Postgres => seq!['p', 'o', 's', 't', 'g', 'r', 'e', 's'],
        DbType::Mysql => seq!['m', 'y', 's', 'q', 'l'],
        DbType::Sqlite => seq!['s', 'q', 'l', 'i', 't', 'e'],
    }
}

impl DbType {
    /// The engine's name.
    pub fn name(&self) -> (r: String)
        ensures
            r@ == db_type_name(*self),
    {
        match self {
            DbType::Postgres => {
                proof {
                    reveal_strlit("postgres");
                }
                String::from_str("postgres")
            },
            DbType::Mysql => {
                proof {
                    reveal_strlit("mysql");
                }
                String::from_str("mysql")
            },
            DbType::Sqlite => {
                proof {
                    reveal_strlit("sqlite");
                }
                String::from_str("sqlite")
            },
        }
    }

    /// The engine that a name stands for.
    pub fn parse(name: &str) -> (r: Option<DbType>)
        ensures
            match r {
                Some(t) => db_type_name(t) == name@,
                None => forall|t: DbType| db_type_name(t) != name@,
            },
    {
        let given = String::from_str(name);
        let candidates = [DbType::Postgres, DbType::Mysql, DbType::Sqlite];
        let mut i: usize = 0;
        while i < 3
            invariant
                i <= 3,
                given@ == name@,
                candidates@ == seq![DbType::Postgres, DbType::Mysql, DbType::Sqlite],
                forall|j: int| 0 <= j < i ==> db_type_name(#[trigger] candidates@[j]) != name@,
            decreases 3 - i,
        {
            let t = candidates[i];
            if t.name() == given {
                return Some(t);
            }
            i = i + 1;
        }
        proof {
            assert forall|t: DbType| db_type_name(t) != name@ by {
                match t {
                    DbType::Postgres => assert(candidates@[0] == t),
                    DbType::Mysql => assert(candidates@[1] == t),
                    DbType::Sqlite => assert(candidates@[2] == t),
                }
            }
        }
        None
    }
}

/// The log level that `-s` given `silent` times and `-v` given `verbose`
/// times select: one `-v` debug, more trace; one `-s` warn, two error, more
/// nothing; info otherwise.
pub open spec fn level_for_flags(silent: u64, verbose: u64) -> Option<LogLevel> {
    if silent == 0 && verbose == 1 {
        Some(LogLevel::Debug)
    } else if silent == 0 && verbose > 1 {
        Some(LogLevel::Trace)
    } else if silent == 1 && verbose == 0 {
        Some(LogLevel::Warn)
    } else if silent == 2 && verbose == 0 {
        Some(LogLevel::Error)
    } else if silent > 2 && verbose == 0 {
        None
    } else {
        Some(LogLevel::Info)
    }
}

/// The log level for the counts of the silent and verbose flags.
pub fn log_level_from_flags(silent: u64, verbose: u64) -> (r: Option<LogLevel>)
    ensures
        r == level_for_flags(silent, verbose),
{
    if silent == 0 && verbose == 1 {
        Some(LogLevel::Debug)
    } else if silent == 0 && verbose > 1 {
        Some(LogLevel::Trace)
    } else if silent == 1 && verbose == 0 {
        Some(LogLevel::Warn)
    } else if silent == 2 && verbose == 0 {
        Some(LogLevel::Error)
    } else if silent > 2 && verbose == 0 {
        None
    } else {
        Some(LogLevel::Info)
    }
}

/// The process configuration, fixed for the lifetime of the process.
#[derive(Debug, Clone)]
pub struct CliArguments {
    pub listen: String,
    pub port: u16,
    pub log_level: Option<LogLevel>,
    pub expiration_days: u32,
    pub stale_days: u32,
    pub db_type: DbType,
    pub db_host: String,
    pub db_port: u16,
    pub db_name: String,
    pub db_user: String,
    pub db_pass: String,
    pub db_path: String,
    pub api_abuseipdb: Option<String>,
}

impl CliArguments {
    /// The feed is reconciled only when a credential for it is configured.
    pub fn feed_enabled(&self) -> (r: bool)
        ensures
            r == self.api_abuseipdb is Some,
    {
        self.api_abuseipdb.is_some()
    }

    /// The configuration sweeps entries away no later than it re-verifies
    /// them, so that re-verification never gets to act.
    pub fn thresholds_misordered(&self) -> (r: bool)
        ensures
            r == (self.stale_days <= self.expiration_days),
    {
        self.stale_days <= self.expiration_days
    }
}

} // verus!
