//! The library's error values, as plain data.

use vstd::prelude::*;

verus! {

/// What went wrong, with a human-readable payload per variant.
#[derive(Debug)]
pub enum Error {
    /// A version-control command failed or misbehaved.
    Git(String),
    /// The package-manager command could not be executed.
    CargoExecution(String),
    /// The package-manager command exited with a failure.
    CargoCommand(String),
    /// The package metadata document did not parse.
    CargoJsonParse(String),
    /// The configuration file could not be read.
    ConfigRead(String),
    /// The configuration file did not parse.
    ConfigParse(String),
    /// An interchange file could not be read or decoded.
    JsonFileRead { file: String, msg: String },
    /// An interchange file did not parse.
    JsonFileParse { file: String, msg: String },
    /// A source file did not parse.
    SynError(String),
    /// Anything else.
    Other(String),
}

impl Error {
    /// Whether this error is the catch-all variant.
    pub fn is_other(&self) -> (r: bool)
        ensures
            r == (self is Other),
    {
        matches!(self, Error::Other(_))
    }
}

impl From<&str> for Error {
    /// A bare message becomes the catch-all variant.
    fn from(msg: &str) -> (r: Self)
        ensures
            r is Other,
    {
        Error::Other(msg.to_owned())
    }
}

impl vstd::std_specs::convert::FromSpecImpl<&str> for Error {
    /// The exact `String` value inside the built variant is not pinned, so
    /// nothing is promised through the generic `From` specification.
    open spec fn obeys_from_spec() -> bool {
        false
    }

    open spec fn from_spec(msg: &str) -> Self {
        arbitrary()
    }
}

} // verus!
