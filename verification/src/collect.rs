//! Where finished records go.
use vstd::prelude::*;

verus! {

/// Writes each record on its own line after a fixed prefix.
pub struct StdoutCollector<S> {
    prefix: S,
}

impl<S> StdoutCollector<S> {
    pub closed spec fn prefix_spec(&self) -> S {
        self.prefix
    }

    /// A collector whose lines start with `prefix`.
    pub fn new(prefix: S) -> (r: Self)
        ensures
            r.prefix_spec() == prefix,
    {
        Self { prefix }
    }

    /// The prefix of every line.
    pub fn prefix(&self) -> (r: &S)
        ensures
            *r == self.prefix_spec(),
    {
        &self.prefix
    }
}

} // verus!
