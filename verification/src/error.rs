//! The error kinds shared by the whole crate.

use vstd::prelude::*;

verus! {

/// Everything that can go wrong while hashing a status list.
///
/// `Io` covers failure to decode the compressed input; `Unexpected` stands
/// for a hash-backend failure, which the supplied backends never produce,
/// and is kept for extensibility.
#[derive(Clone, Copy, Debug, PartialEq, Eq, Structural)]
pub enum Error {
    Io,
    Unexpected,
}

} // verus!
