use vstd::prelude::*;

verus! {

/// The outcome of a request to the queue: whether it succeeded.
pub struct Signal {
    result: bool,
}

impl Signal {
    /// Whether the request succeeded.
    pub closed spec fn spec_result(&self) -> bool {
        self.result
    }

    /// A request not (yet) known to have succeeded.
    pub fn new() -> (r: Signal)
        ensures
            !r.spec_result(),
    {
        Signal { result: false }
    }

    /// Marks the request as successful.
    pub fn ok(&mut self)
        ensures
            final(self).spec_result(),
    {
        self.result = true;
    }

    /// Whether the request succeeded.
    pub fn check(&self) -> (r: bool)
        ensures
            r == self.spec_result(),
    {
        self.result
    }
}

} // verus!
