//! A task-tracking core: tasks form a directed graph of nodes (parent -> child
//! edges), kept in an in-memory store that can be serialized as one snapshot,
//! walked depth-first, and searched by approximate title match.

use vstd::prelude::*;

pub mod db;
pub mod find;
pub mod node;
pub mod snapshot;
pub mod traverse;
pub mod ui;

verus! {

/// The failure kinds a store operation can report.
///
/// `NotFound`: a node or edge endpoint referenced by identifier does not
/// exist. `StorageIO`: the persistence medium failed (reported by callers
/// that do the actual file or connection work). `Malformed`: stored data
/// cannot be parsed back into the typed model.
#[derive(Clone, Copy, Debug, PartialEq, Eq, Structural)]
pub enum Error {
    NotFound,
    StorageIO,
    Malformed,
}

impl Error {
    /// A short human-readable description of the failure.
    pub fn message(&self) -> (r: &'static str)
        ensures
            r@ == match *self {
                Error::NotFound => "node not found"@,
                Error::StorageIO => "storage failure"@,
                Error::Malformed => "malformed stored data"@,
            },
    {
        match *self {
            Error::NotFound => "node not found",
            Error::StorageIO => "storage failure",
            Error::Malformed => "malformed stored data",
        }
    }
}

} // verus!
