use vstd::prelude::*;

verus! {

/// Failure to decode text into a `Letter` or a `Word`: the input had the
/// wrong length or held a character outside the ASCII alphabet.
#[derive(Copy, Clone, Debug, PartialEq, Eq, Structural)]
pub struct ParseError;

} // verus!
