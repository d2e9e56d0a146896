//! A one-shot reply holder: carries the closure (or any payload) that
//! builds a response, handed over exactly once when the response starts.

use vstd::prelude::*;

verus! {

/// Holds what a bodyless request's response is built from, until the
/// response starts; taking it a second time yields nothing.
#[derive(Debug)]
pub struct QuickReply<F> {
    pub inner: Option<F>,
}

impl<F> QuickReply<F> {
    /// Wrap a reply builder.
    pub fn new(f: F) -> (r: QuickReply<F>)
        ensures
            r.inner == Some(f),
    {
        QuickReply { inner: Some(f) }
    }

    /// Whether the reply builder is still here.
    pub fn is_pending(&self) -> (r: bool)
        ensures
            r == (self.inner is Some),
    {
        self.inner.is_some()
    }

    /// Hand the reply builder out; afterwards the holder is empty.
    pub fn take(&mut self) -> (r: Option<F>)
        ensures
            r == old(self).inner,
            final(self).inner is None,
    {
        self.inner.take()
    }
}

} // verus!
