use vstd::prelude::*;
use vstd::string::StringExecFns;

verus! {

/// Errors of the catalog, each with a human-readable detail.
#[derive(Debug, Clone, PartialEq, Eq)]
pub enum AureaCoreError {
    /// A version-control operation failed.
    Git(String),
    /// A file-system operation failed.
    Io(String),
    /// A configuration could not be read or parsed.
    Config(String),
    /// A service operation failed.
    Service(String),
    /// A validation rule was broken.
    ValidationError(String),
    /// A structural schema could not be compiled.
    SchemaCompilationError(String),
    /// A schema version is incompatible with the current one.
    IncompatibleVersion(String),
    /// The feature is not available.
    NotImplemented(String),
    /// A requested service is not in the catalog.
    ServiceNotFound(String),
    /// An ordering was requested over services that depend on each other in a cycle.
    CircularDependency(String),
}

impl AureaCoreError {
    /// The error as text: its kind, then its detail.
    pub open spec fn text(&self) -> Seq<char> {
        match self {
            AureaCoreError::Git(m) => "Git error: "@ + m@,
            AureaCoreError::Io(m) => "IO error: "@ + m@,
            AureaCoreError::Config(m) => "Configuration error: "@ + m@,
            AureaCoreError::Service(m) => "Service error: "@ + m@,
            AureaCoreError::ValidationError(m) => "Validation error: "@ + m@,
            AureaCoreError::SchemaCompilationError(m) => "Schema compilation error: "@ + m@,
            AureaCoreError::IncompatibleVersion(m) => "Incompatible version: "@ + m@,
            AureaCoreError::NotImplemented(m) => "Not implemented: "@ + m@,
            AureaCoreError::ServiceNotFound(m) => "Service not found: "@ + m@,
            AureaCoreError::CircularDependency(m) => "Circular dependency: "@ + m@,
        }
    }

    /// The error as text: its kind, then its detail.
    pub fn message(&self) -> (r: String)
        ensures
            r@ == self.text(),
    {
        let (kind, detail) = match self {
            AureaCoreError::Git(m) => ("Git error: ", m),
            AureaCoreError::Io(m) => ("IO error: ", m),
            AureaCoreError::Config(m) => ("Configuration error: ", m),
            AureaCoreError::Service(m) => ("Service error: ", m),
            AureaCoreError::ValidationError(m) => ("Validation error: ", m),
            AureaCoreError::SchemaCompilationError(m) => ("Schema compilation error: ", m),
            AureaCoreError::IncompatibleVersion(m) => ("Incompatible version: ", m),
            AureaCoreError::NotImplemented(m) => ("Not implemented: ", m),
            AureaCoreError::ServiceNotFound(m) => ("Service not found: ", m),
            AureaCoreError::CircularDependency(m) => ("Circular dependency: ", m),
        };
        let mut r = String::from_str(kind);
        r.append(detail.as_str());
        r
    }
}

} // verus!
