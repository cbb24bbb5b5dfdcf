//! Verified core of a service that keeps a synchronised set of malicious IP
//! addresses: the typed entry store, the reconciliation pass against the
//! threat feed, and the scheduling decisions around it.

pub mod types;
pub mod address;
pub mod entry;
pub mod table;
pub mod store;
pub mod sync;
pub mod pass;
pub mod feed;
pub mod schedule;
pub mod config;
pub mod logger;
pub mod stats;
pub mod listing;
