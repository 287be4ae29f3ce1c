//! Small identifier types shared by the session and query modules.
use vstd::prelude::*;

verus! {

/// A logical sequence number: replication progress at one replica set.
#[derive(Debug, Clone, Copy, PartialEq, Eq, PartialOrd, Ord, Hash)]
pub struct Lsn(pub u64);

impl Lsn {
    /// Creates a new LSN from a `u64` value.
    pub fn new(value: u64) -> (r: Lsn)
        ensures
            r.0 == value,
    {
        Lsn(value)
    }

    /// Returns the inner `u64` value.
    pub fn value(&self) -> (r: u64)
        ensures
            r == self.0,
    {
        self.0
    }
}

/// A region identifier used in multi-region operations.
#[derive(Debug, Clone, Copy, PartialEq, Eq, Hash)]
pub struct RegionId(pub u32);

impl RegionId {
    /// Creates a new region identifier from a `u32` value.
    pub fn new(value: u32) -> (r: RegionId)
        ensures
            r.0 == value,
    {
        RegionId(value)
    }

    /// Returns the inner `u32` value.
    pub fn value(&self) -> (r: u32)
        ensures
            r == self.0,
    {
        self.0
    }
}

/// The identifier of a partition key range.
#[derive(Debug, Clone, PartialEq, Eq, Hash)]
pub struct PartitionKeyRangeId(pub String);

impl PartitionKeyRangeId {
    /// Creates a partition key range identifier.
    pub fn new(value: String) -> (r: PartitionKeyRangeId)
        ensures
            r.0@ == value@,
    {
        PartitionKeyRangeId(value)
    }

    /// Returns the identifier's text.
    pub fn value(&self) -> (r: &str)
        ensures
            r@ == self.0@,
    {
        self.0.as_str()
    }
}

/// The resource identifier of a container.
#[derive(Debug, Clone, PartialEq, Eq, Hash)]
pub struct ResourceId(pub String);

impl ResourceId {
    /// Creates a container resource identifier.
    pub fn new(value: String) -> (r: ResourceId)
        ensures
            r.0@ == value@,
    {
        ResourceId(value)
    }

    /// Returns the identifier's text.
    pub fn value(&self) -> (r: &str)
        ensures
            r@ == self.0@,
    {
        self.0.as_str()
    }
}

} // verus!
