use vstd::prelude::*;
use vstd::string::StringExecFns;

verus! {

/// The error surface of the store: backend-level corruption or unsupported
/// backend selection, malformed queries, snapshot encode/decode failures, and
/// file-system failures reported by the unverified shell around the library.
#[derive(Debug, Clone)]
pub enum DatabaseError {
    StorageError(String),
    QueryError(String),
    SerializationError(String),
    IOError(String),
}

impl DatabaseError {
    /// A readable rendering of the error: a category prefix followed by the
    /// carried description.
    pub fn message(&self) -> (r: String)
        ensures
            r@ == match self {
                DatabaseError::StorageError(m) => "storage error: "@ + m@,
                DatabaseError::QueryError(m) => "query error: "@ + m@,
                DatabaseError::SerializationError(m) => "serialization error: "@ + m@,
                DatabaseError::IOError(m) => "io error: "@ + m@,
            },
    {
        match self {
            DatabaseError::StorageError(m) => {
                let mut s = String::from_str("storage error: ");
                s.append(m.as_str());
                s
            },
            DatabaseError::QueryError(m) => {
                let mut s = String::from_str("query error: ");
                s.append(m.as_str());
                s
            },
            DatabaseError::SerializationError(m) => {
                let mut s = String::from_str("serialization error: ");
                s.append(m.as_str());
                s
            },
            DatabaseError::IOError(m) => {
                let mut s = String::from_str("io error: ");
                s.append(m.as_str());
                s
            },
        }
    }
}

} // verus!
