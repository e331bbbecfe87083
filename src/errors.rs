use vstd::prelude::*;

verus! {

/// The one failure kind shared by every component of the library.
#[derive(Debug)]
pub enum EBError {
    /// Dictionary parse, missing required field, unknown property type,
    /// duplicate label or missing `$ref` target.
    BuildError(String),
    /// The external source could not be reached.
    ConnectionError(String),
    /// The external source answered with a query or row-shape failure.
    SourceError(String),
    /// A dictionary file could not be read.
    IoError(String),
    /// A structured document was malformed.
    ParseError(String),
    /// An edge named an endpoint that is not a cached node.
    ReferentialError(String),
}

pub type EBResult<T> = Result<T, EBError>;

impl EBError {
    /// The message carried by the error.
    pub fn message(&self) -> (r: &String)
        ensures
            r == match self {
                EBError::BuildError(m) => m,
                EBError::ConnectionError(m) => m,
                EBError::SourceError(m) => m,
                EBError::IoError(m) => m,
                EBError::ParseError(m) => m,
                EBError::ReferentialError(m) => m,
            },
    {
        match self {
            EBError::BuildError(m) => m,
            EBError::ConnectionError(m) => m,
            EBError::SourceError(m) => m,
            EBError::IoError(m) => m,
            EBError::ParseError(m) => m,
            EBError::ReferentialError(m) => m,
        }
    }
}

} // verus!
