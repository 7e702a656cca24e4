//! The error taxonomy.
//!
//! Every fallible operation reports one of four kinds: a configuration
//! definition fault (an unregistered bundle name), a missing or invalid
//! environment value, a filesystem failure, or a JSON parse/serialize/decode
//! failure.  The kind is carried beside a human-readable message.

use vstd::prelude::*;

verus! {

/// The kind of a configuration failure.
#[derive(Clone, Copy, PartialEq, Eq, Structural, Debug)]
pub enum ErrorKind {
    /// A bundle name was requested that is not registered, or a definition is invalid.
    ConfigDefinition,
    /// A required environment value is missing or invalid.
    EnvVar,
    /// A file could not be opened, read, or written.
    Io,
    /// JSON text could not be parsed, or a document could not be serialized or decoded.
    SerdeJson,
}

/// An invalid configuration definition, described by a message.
#[derive(Debug)]
pub struct ConfigDefinitionError {
    pub err: String,
}

impl ConfigDefinitionError {
    /// A definition error carrying `err` as its description.
    pub fn new(err: String) -> (r: ConfigDefinitionError)
        ensures
            r.err@ == err@,
    {
        ConfigDefinitionError { err }
    }

    /// The description of this definition error.
    pub fn message(&self) -> (r: &str)
        ensures
            r@ == self.err@,
    {
        self.err.as_str()
    }
}

/// A configuration failure: its kind and a human-readable message.
#[derive(Debug)]
pub struct JsonConfigError {
    pub kind: ErrorKind,
    pub message: String,
}

impl JsonConfigError {
    /// An error of kind `kind` carrying `message`.
    pub fn new(kind: ErrorKind, message: String) -> (r: JsonConfigError)
        ensures
            r.kind == kind,
            r.message@ == message@,
    {
        JsonConfigError { kind, message }
    }

    /// The kind of this error.
    pub fn kind(&self) -> (r: ErrorKind)
        ensures
            r == self.kind,
    {
        self.kind
    }

    /// The message of this error.
    pub fn message(&self) -> (r: &str)
        ensures
            r@ == self.message@,
    {
        self.message.as_str()
    }
}

impl From<ConfigDefinitionError> for JsonConfigError {
    /// A definition error becomes a `ConfigDefinition`-kind configuration error.
    fn from(err: ConfigDefinitionError) -> (r: JsonConfigError) {
        JsonConfigError { kind: ErrorKind::ConfigDefinition, message: err.err }
    }
}

impl vstd::std_specs::convert::FromSpecImpl<ConfigDefinitionError> for JsonConfigError {
    open spec fn obeys_from_spec() -> bool {
        true
    }

    open spec fn from_spec(err: ConfigDefinitionError) -> JsonConfigError {
        JsonConfigError { kind: ErrorKind::ConfigDefinition, message: err.err }
    }
}

} // verus!
