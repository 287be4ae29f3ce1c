//! Resource models exchanged with the service, as plain data.
use vstd::prelude::*;

verus! {

/// The throughput offer of a database or container.
#[derive(Clone, Default, Debug)]
pub struct ThroughputProperties {
    pub resource: String,
    pub offer: Offer,
    pub offer_id: String,
    pub offer_resource_id: String,
    pub offer_type: String,
    pub offer_version: String,
}

/// The content of a throughput offer.
#[derive(Clone, Default, Debug)]
pub struct Offer {
    pub offer_throughput: i32,
    pub offer_autopilot_settings: Option<AutoscaleSettings>,
}

/// Autoscale settings of an offer.
#[derive(Clone, Default, Debug)]
pub struct AutoscaleSettings {
    pub max_throughput: i32,
    pub auto_upgrade_policy: Option<AutoscaleAutoUpgradePolicy>,
}

/// The upgrade policy of autoscale settings.
#[derive(Clone, Default, Debug)]
pub struct AutoscaleAutoUpgradePolicy {
    pub throughput_policy: Option<AutoscaleThroughputPolicy>,
}

/// The throughput increment of an autoscale upgrade policy.
#[derive(Clone, Default, Debug)]
pub struct AutoscaleThroughputPolicy {
    pub increment_percent: i32,
}

/// The common properties of a resource.
#[derive(Clone, Debug, PartialEq)]
pub struct Resource {
    pub id: Option<String>,
    pub name: Option<String>,
    pub type_: Option<String>,
}

/// The health state of a monitor.
#[derive(Clone, Debug, PartialEq)]
pub enum HealthState {
    Healthy,
    Critical,
    Warning,
    Unknown,
    Disabled,
    /// The state that the service writes `None`.
    NoneState,
}

/// A page of operations.
#[derive(Clone, Debug, PartialEq)]
pub struct OperationList {
    pub value: Vec<Operation>,
    pub next_link: Option<String>,
}

/// An operation that the service offers.
#[derive(Clone, Debug, PartialEq)]
pub struct Operation {
    pub name: String,
    pub display: Display,
    pub origin: String,
}

/// How an operation is shown.
#[derive(Clone, Debug, PartialEq)]
pub struct Display {
    pub provider: String,
    pub resource: String,
    pub operation: String,
    pub description: String,
}

/// An error reply of the service.
#[derive(Clone, Debug, PartialEq)]
pub struct ErrorResponse {
    pub error: Option<Error>,
}

/// The error of an error reply.
#[derive(Clone, Debug, PartialEq)]
pub struct Error {
    pub code: Option<String>,
    pub message: Option<String>,
    pub details: Vec<ErrorDetails>,
}

/// One detail of an error.
#[derive(Clone, Debug, PartialEq)]
pub struct ErrorDetails {
    pub code: Option<String>,
    pub message: Option<String>,
}

} // verus!
