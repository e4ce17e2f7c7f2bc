//! Errors of the dashboard back end.

use vstd::prelude::*;

verus! {

/// What can go wrong between the dashboard and its data sources.
#[derive(Debug)]
pub enum DashboardError {
    WriteFailed(String),
    QueryFailed(String),
    Config(String),
    Storage(String),
}

impl DashboardError {
    /// The human-readable message of the error.
    pub open spec fn message(&self) -> Seq<char> {
        match self {
            DashboardError::WriteFailed(s) => "InfluxDB write failed: "@ + s@,
            DashboardError::QueryFailed(s) => "InfluxDB query failed: "@ + s@,
            DashboardError::Config(s) => "Configuration error: "@ + s@,
            DashboardError::Storage(s) => "Storage error: "@ + s@,
        }
    }

    /// Renders the error as its message, e.g. "Storage error: lock poisoned".
    pub fn to_string(&self) -> (m: String)
        ensures
            m@ == self.message(),
    {
        let (prefix, detail) = match self {
            DashboardError::WriteFailed(s) => ("InfluxDB write failed: ", s),
            DashboardError::QueryFailed(s) => ("InfluxDB query failed: ", s),
            DashboardError::Config(s) => ("Configuration error: ", s),
            DashboardError::Storage(s) => ("Storage error: ", s),
        };
        let mut m = String::from_str(prefix);
        m.append(detail.as_str());
        m
    }
}

} // verus!
