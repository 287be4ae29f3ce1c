//! The values exchanged between the query driver and a query pipeline.
use vstd::prelude::*;

verus! {

/// A request, produced by a query pipeline, for the driver to query one
/// partition.
#[derive(Debug, Clone, PartialEq)]
pub struct QueryRequest {
    /// The partition key range ID to query.
    pub partition_key_range_id: String,
    /// The continuation token to send, if any.
    pub continuation: Option<String>,
}

/// The page that answers a [`QueryRequest`].
#[derive(Debug, Clone, PartialEq)]
pub struct QueryResult {
    /// The partition key range ID these results are from.
    pub partition_key_range_id: String,
    /// The next continuation token to use for the query, if any.
    pub next_continuation: Option<String>,
    /// The data returned by the query.
    pub data: Vec<u8>,
}

/// The result of one turn of a query pipeline.
#[derive(Debug, Clone, PartialEq)]
pub struct PipelineResult {
    /// Whether the pipeline is done, after emitting the items of this result.
    pub completed: bool,
    /// Items to be returned to the user.
    pub items: Vec<Vec<u8>>,
    /// Requests that must be served before the pipeline can continue.
    pub requests: Vec<QueryRequest>,
}

/// One item of a partition's page, with the key that orders items across
/// partitions.
#[derive(Debug, Clone, PartialEq)]
pub struct QueryItem {
    /// The merge order key.
    pub order_key: u64,
    /// The item as it will be handed to the user.
    pub payload: Vec<u8>,
}

/// The mathematical value of a [`QueryItem`].
pub struct ItemView {
    pub order_key: u64,
    pub payload: Seq<u8>,
}

impl View for QueryItem {
    type V = ItemView;

    open spec fn view(&self) -> ItemView {
        ItemView { order_key: self.order_key, payload: self.payload@ }
    }
}

pub open spec fn option_view(o: Option<String>) -> Option<Seq<char>> {
    match o {
        Some(s) => Some(s@),
        None => None,
    }
}

impl View for QueryRequest {
    type V = (Seq<char>, Option<Seq<char>>);

    open spec fn view(&self) -> (Seq<char>, Option<Seq<char>>) {
        (self.partition_key_range_id@, option_view(self.continuation))
    }
}

} // verus!
