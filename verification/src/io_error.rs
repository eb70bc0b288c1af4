//! The error type of std's input and output, carried through unchanged.

use vstd::prelude::*;

verus! {

/// `std::io::Error`, which the fallible operations of the daemon return.
#[verifier::external_type_specification]
#[verifier::external_body]
pub struct ExIoError(std::io::Error);

} // verus!
