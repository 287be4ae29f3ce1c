//! Options of throughput operations.
use vstd::prelude::*;

verus! {

/// Options to be passed to operations related to throughput offers.
#[derive(Clone, Debug, Default)]
pub struct ThroughputOptions {}

impl ThroughputOptions {
    /// Creates a builder of [`ThroughputOptions`].
    pub fn builder() -> (r: ThroughputOptionsBuilder)
        ensures
            r.0 == (ThroughputOptions {}),
    {
        ThroughputOptionsBuilder(ThroughputOptions {})
    }
}

/// Builder used to construct a [`ThroughputOptions`].
#[derive(Default)]
pub struct ThroughputOptionsBuilder(pub ThroughputOptions);

impl ThroughputOptionsBuilder {
    /// Builds the options; the builder stays usable.
    pub fn build(&self) -> (r: ThroughputOptions)
        ensures
            r == self.0,
    {
        ThroughputOptions {}
    }
}

} // verus!
