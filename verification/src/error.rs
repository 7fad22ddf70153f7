//! Error types.

use vstd::prelude::*;

verus! {

/// error type for infrahub-erd
#[derive(Debug)]
pub enum Error {
    Config(String),
    Parse(String),
}

/// library result type
pub type Result<T> = std::result::Result<T, Error>;

impl Error {
    /// The message of the error, in words: `config error: ...` or
    /// `schema parse error: ...`.
    pub fn message(&self) -> (res: String)
        ensures
            res@ == match self {
                Error::Config(m) => "config error: "@ + m@,
                Error::Parse(m) => "schema parse error: "@ + m@,
            },
    {
        let mut out = String::new();
        match self {
            Error::Config(m) => {
                out.append("config error: ");
                out.append(m.as_str());
            },
            Error::Parse(m) => {
                out.append("schema parse error: ");
                out.append(m.as_str());
            },
        }
        out
    }
}

} // verus!
