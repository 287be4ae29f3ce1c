//! The decisions of the query driver: what to do with each turn of a
//! pipeline. The driver itself, which performs the fetches, runs outside.
use vstd::prelude::*;

use crate::query_engine::PipelineResult;

verus! {

/// What the driver does after one turn of a pipeline.
#[derive(Debug, Clone, Copy, PartialEq, Eq)]
pub enum DriverStep {
    /// Hand the turn's items to the caller as one page. Outstanding
    /// requests come back on the next turn.
    EmitPage,
    /// Fetch each requested partition page, provide it to the pipeline,
    /// then take another turn.
    FetchData,
    /// The pipeline is complete and nothing remains: end the sequence.
    Finish,
    /// Nothing to emit or fetch yet, and not complete: take another turn.
    StepAgain,
}

/// The driver's next step for a turn's result, given whether the pipeline
/// reports itself complete.
pub fn next_step(result: &PipelineResult, pipeline_complete: bool) -> (r: DriverStep)
    ensures
        result.items.len() > 0 ==> r == DriverStep::EmitPage,
        result.items.len() == 0 && result.requests.len() > 0 ==> r == DriverStep::FetchData,
        result.items.len() == 0 && result.requests.len() == 0 && (pipeline_complete
            || result.completed) ==> r == DriverStep::Finish,
        result.items.len() == 0 && result.requests.len() == 0 && !pipeline_complete
            && !result.completed ==> r == DriverStep::StepAgain,
{
    if result.items.len() > 0 {
        DriverStep::EmitPage
    } else if result.requests.len() > 0 {
        DriverStep::FetchData
    } else if pipeline_complete || result.completed {
        DriverStep::Finish
    } else {
        DriverStep::StepAgain
    }
}

/// The phase of a query's page sequence.
#[derive(Debug, Clone, Copy, PartialEq, Eq)]
pub enum QueryPhase {
    /// No pipeline yet: the plan and partition map are still to be fetched.
    Initial,
    /// A pipeline exists and is being driven.
    Running,
    /// The sequence has ended, after its last page or an error.
    Done,
}

/// What happened while producing the next element of the sequence.
#[derive(Debug, Clone, Copy, PartialEq, Eq)]
pub enum PhaseEvent {
    /// A page was produced.
    PageReady,
    /// The pipeline finished without a further page.
    Finished,
    /// A fetch or the pipeline failed; the error ends the sequence.
    Failed,
}

/// The phase after an event. A produced page keeps the query running;
/// finishing or failing ends it, and an ended query stays ended.
pub fn next_phase(phase: QueryPhase, event: PhaseEvent) -> (r: QueryPhase)
    ensures
        phase == QueryPhase::Done ==> r == QueryPhase::Done,
        phase != QueryPhase::Done && event == PhaseEvent::PageReady ==> r == QueryPhase::Running,
        event == PhaseEvent::Finished ==> r == QueryPhase::Done,
        event == PhaseEvent::Failed ==> r == QueryPhase::Done,
{
    match (phase, event) {
        (QueryPhase::Done, _) => QueryPhase::Done,
        (_, PhaseEvent::PageReady) => QueryPhase::Running,
        (_, PhaseEvent::Finished) => QueryPhase::Done,
        (_, PhaseEvent::Failed) => QueryPhase::Done,
    }
}

} // verus!
