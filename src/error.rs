use vstd::prelude::*;

verus! {

/// The two kinds of failure the runtime reports.
#[derive(Debug, PartialEq, Eq)]
pub enum RtsError {
    /// Misuse of the info table.
    InfoTable(String),
    /// A failure during collection.
    Gc(String),
}

impl RtsError {
    /// The human-readable message carried by the error.
    pub fn description(&self) -> (r: &str)
        ensures
            r@ == match self {
                RtsError::InfoTable(m) => m@,
                RtsError::Gc(m) => m@,
            },
    {
        match self {
            RtsError::InfoTable(m) => m.as_str(),
            RtsError::Gc(m) => m.as_str(),
        }
    }
}

/// An info-table error carrying `msg`.
pub fn info_table_error(msg: &str) -> (r: RtsError)
    ensures
        r is InfoTable,
        r->InfoTable_0@ == msg@,
{
    RtsError::InfoTable(msg.to_string())
}

/// A collection error carrying `msg`.
pub fn gc_error(msg: &str) -> (r: RtsError)
    ensures
        r is Gc,
        r->Gc_0@ == msg@,
{
    RtsError::Gc(msg.to_string())
}

} // verus!
