//! The parser state of the receive loop, under the name `Parser`.
use vstd::prelude::*;

verus! {

/// The state of a parser fed from a stream of byte chunks; see
/// [`crate::parse::ReceiveParser`].
pub type Parser = crate::parse::ReceiveParser;

} // verus!
