//! What the broker says of its health.

use vstd::prelude::*;

verus! {

/// What a health check is answered.
#[derive(Debug, Clone)]
pub struct HealthStatus {
    pub status: &'static str,
    pub version: &'static str,
}

impl Default for HealthStatus {
    /// All is well.
    fn default() -> (r: Self)
        ensures
            r.status@ == "ok"@,
            r.version@ == "0.1.0"@,
    {
        HealthStatus { status: "ok", version: "0.1.0" }
    }
}

} // verus!
