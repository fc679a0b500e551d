//! The failures the public API reports.

use vstd::prelude::*;

verus! {

#[verifier::external_type_specification]
#[verifier::external_body]
pub struct ExIoError(std::io::Error);

#[derive(Debug)]
pub enum Error {
    ClientNotFound,
    Mutex,
    Empty,
    IO(std::io::Error),
}

/// Relies on `std::io::Error`'s `description`: the text it gives for itself.
#[verifier::external_body]
#[allow(deprecated)]
fn io_description(err: &std::io::Error) -> &str {
    std::error::Error::description(err)
}

impl Error {
    pub fn description(&self) -> (r: &str)
        ensures
            self is ClientNotFound ==> r@ == "Client not found."@,
            (self is Mutex || self is Empty) ==> r@ == "Unknown error."@,
    {
        match self {
            Error::ClientNotFound => "Client not found.",
            Error::IO(err) => io_description(err),
            _ => "Unknown error.",
        }
    }

    /// The lower-level error behind this one; none is kept.
    pub fn cause(&self) -> (r: Option<&std::io::Error>)
        ensures
            r is None,
    {
        None
    }
}

impl From<std::io::Error> for Error {
    fn from(error: std::io::Error) -> (r: Error) {
        Error::IO(error)
    }
}

impl vstd::std_specs::convert::FromSpecImpl<std::io::Error> for Error {
    open spec fn obeys_from_spec() -> bool {
        true
    }

    open spec fn from_spec(error: std::io::Error) -> Error {
        Error::IO(error)
    }
}

} // verus!
