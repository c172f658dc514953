//! HTTP/1 recognition on a stream: the same rules as the request parser.
use vstd::prelude::*;
use crate::grammar::Step;
use crate::parse::http1::{response_begin, response_begin_outcome};

pub use crate::parse::http1::RequestBegin;

verus! {

/// Reads a status line and describes it; see [`response_begin`].
pub fn respnose_begin(input: &[u8]) -> (r: Step<String>)
    ensures
        r@ == response_begin_outcome(input@),
{
    response_begin(input)
}

} // verus!
