//! Session-consistency tokens and cross-partition query fan-out for a
//! partitioned, multi-region document database client.
pub mod container;
pub mod driver;
pub mod error;
pub mod ids;
pub mod models;
pub mod options;
pub mod partition;
pub mod pipeline;
pub mod query_engine;
pub mod session;
pub mod text;
pub mod vector;

pub use container::ContainerSession;
pub use driver::{next_phase, next_step, DriverStep, PhaseEvent, QueryPhase};
pub use error::Error;
pub use ids::{Lsn, PartitionKeyRangeId, RegionId, ResourceId};
pub use options::{ThroughputOptions, ThroughputOptionsBuilder};
pub use partition::PartitionSessionToken;
pub use pipeline::{PipelineError, ReferencePipeline};
pub use query_engine::{PipelineResult, QueryItem, QueryRequest, QueryResult};
pub use session::Session;
pub use text::{parse_u32_from_slice, parse_u64_from_slice};
pub use vector::VectorSessionToken;
