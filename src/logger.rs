use vstd::prelude::*;

verus! {

/// Request logger of the query API: one value runs before each request, the
/// other after it.
#[derive(Debug)]
pub struct Logger {}

impl Logger {
    /// The pair of request-logging stages.
    pub fn new() -> (Logger, Logger) {
        (Logger {}, Logger {})
    }
}

} // verus!
