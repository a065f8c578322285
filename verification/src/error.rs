//! The one error this library raises: an update that cannot make its path
//! exist.

use vstd::prelude::*;

verus! {

/// Raised only by `update_or_create`, when synthesis of the missing part of
/// a path meets an array whose next segment does not read as an index. It
/// carries the full offending path.
#[derive(Debug, PartialEq)]
pub enum Error {
    InvalidDataPath(String),
}

impl Error {
    /// The offending path the error carries.
    pub fn data_path(&self) -> (r: &String)
        ensures
            self matches Error::InvalidDataPath(p) && r@ == p@,
    {
        match self {
            Error::InvalidDataPath(p) => p,
        }
    }
}

} // verus!
