use azure_data_cosmos::{
    next_phase, next_step, DriverStep, PhaseEvent, PipelineError, PipelineResult, QueryItem,
    QueryPhase, QueryRequest, ReferencePipeline,
};

const PARTITIONS: usize = 3;
const ITEMS_PER_PARTITION: usize = 10;
const PAGE_SIZE: usize = 4;

fn item(key: u64) -> QueryItem {
    QueryItem {
        order_key: key,
        payload: key.to_le_bytes().to_vec(),
    }
}

fn key_of(payload: &[u8]) -> u64 {
    let mut b = [0u8; 8];
    b.copy_from_slice(payload);
    u64::from_le_bytes(b)
}

/// The page that partition `p` returns for a continuation: items with the
/// round-robin merge order `p + j * PARTITIONS`, `PAGE_SIZE` at a time.
fn page(p: usize, continuation: &Option<String>) -> (Vec<QueryItem>, Option<String>) {
    let start: usize = match continuation {
        Some(c) => c.parse().unwrap(),
        None => 0,
    };
    let end = (start + PAGE_SIZE).min(ITEMS_PER_PARTITION);
    let items = (start..end)
        .map(|j| item((p + j * PARTITIONS) as u64))
        .collect();
    let next = if end < ITEMS_PER_PARTITION {
        Some(end.to_string())
    } else {
        None
    };
    (items, next)
}

fn ids() -> Vec<String> {
    (0..PARTITIONS).map(|p| p.to_string()).collect()
}

#[test]
fn pipeline_merges_partitions_in_order() {
    let mut pipeline = ReferencePipeline::new("SELECT * FROM c".to_string(), ids());
    assert_eq!(pipeline.query(), "SELECT * FROM c");
    let mut seen: Vec<u64> = Vec::new();
    let mut turns = 0;
    loop {
        turns += 1;
        assert!(turns < 100);
        assert!(!pipeline.complete());
        let result = pipeline.next_batch();
        for payload in &result.items {
            seen.push(key_of(payload));
        }
        if result.completed {
            assert!(result.items.is_empty());
            assert!(result.requests.is_empty());
            break;
        }
        for req in &result.requests {
            let p: usize = req.partition_key_range_id.parse().unwrap();
            let (items, next) = page(p, &req.continuation);
            pipeline
                .provide_items(&req.partition_key_range_id, items, next)
                .unwrap();
        }
    }
    assert!(pipeline.complete());
    assert_eq!(seen.len(), PARTITIONS * ITEMS_PER_PARTITION);
    for w in seen.windows(2) {
        assert!(w[0] < w[1]);
    }
    let expected: Vec<u64> = (0..(PARTITIONS * ITEMS_PER_PARTITION) as u64).collect();
    assert_eq!(seen, expected);
}

#[test]
fn unstarted_partition_holds_back_all_items() {
    let mut pipeline = ReferencePipeline::new("q".to_string(), vec!["a".to_string(), "b".to_string()]);
    pipeline
        .provide_items(&"b".to_string(), vec![item(1), item(2)], None)
        .unwrap();
    let result = pipeline.next_batch();
    assert!(result.items.is_empty());
    assert!(!result.completed);
    assert_eq!(
        result.requests,
        vec![
            QueryRequest {
                partition_key_range_id: "a".to_string(),
                continuation: None
            },
            QueryRequest {
                partition_key_range_id: "b".to_string(),
                continuation: None
            },
        ]
    );
    // Asking again gives the same demand.
    let again = pipeline.next_batch();
    assert!(again.items.is_empty());
    assert_eq!(again.requests, result.requests);

    // An empty page starts the partition.
    pipeline
        .provide_items(&"a".to_string(), Vec::new(), None)
        .unwrap();
    let result = pipeline.next_batch();
    let keys: Vec<u64> = result.items.iter().map(|p| key_of(p)).collect();
    assert_eq!(keys, vec![1, 2]);
    assert!(result.requests.is_empty());
    assert!(!result.completed);
    let last = pipeline.next_batch();
    assert!(last.completed);
    assert!(pipeline.complete());
}

#[test]
fn ties_go_to_the_first_partition() {
    let mut pipeline = ReferencePipeline::new("q".to_string(), vec!["a".to_string(), "b".to_string()]);
    pipeline
        .provide_items(
            &"b".to_string(),
            vec![QueryItem { order_key: 5, payload: vec![2] }],
            None,
        )
        .unwrap();
    pipeline
        .provide_items(
            &"a".to_string(),
            vec![QueryItem { order_key: 5, payload: vec![1] }],
            Some("next".to_string()),
        )
        .unwrap();
    let result = pipeline.next_batch();
    assert_eq!(result.items, vec![vec![1], vec![2]]);
    assert_eq!(
        result.requests,
        vec![QueryRequest {
            partition_key_range_id: "a".to_string(),
            continuation: Some("next".to_string())
        }]
    );
}

#[test]
fn data_for_unknown_partition_fails() {
    let mut pipeline = ReferencePipeline::new("q".to_string(), vec!["a".to_string()]);
    let result = pipeline.provide_items(&"z".to_string(), vec![item(1)], None);
    assert_eq!(result, Err(PipelineError::PartitionNotFound("z".to_string())));
}

#[test]
fn pipeline_without_partitions_completes_at_once() {
    let mut pipeline = ReferencePipeline::new("q".to_string(), Vec::new());
    let result = pipeline.next_batch();
    assert!(result.completed);
    assert!(pipeline.complete());
}

#[test]
fn driver_steps() {
    let req = QueryRequest {
        partition_key_range_id: "0".to_string(),
        continuation: None,
    };
    let emit = PipelineResult {
        completed: false,
        items: vec![vec![1]],
        requests: vec![req.clone()],
    };
    assert_eq!(next_step(&emit, false), DriverStep::EmitPage);
    let fetch = PipelineResult {
        completed: false,
        items: Vec::new(),
        requests: vec![req],
    };
    assert_eq!(next_step(&fetch, false), DriverStep::FetchData);
    let done = PipelineResult {
        completed: true,
        items: Vec::new(),
        requests: Vec::new(),
    };
    assert_eq!(next_step(&done, false), DriverStep::Finish);
    let idle = PipelineResult {
        completed: false,
        items: Vec::new(),
        requests: Vec::new(),
    };
    assert_eq!(next_step(&idle, false), DriverStep::StepAgain);
    assert_eq!(next_step(&idle, true), DriverStep::Finish);
}

#[test]
fn query_phases() {
    assert_eq!(
        next_phase(QueryPhase::Initial, PhaseEvent::PageReady),
        QueryPhase::Running
    );
    assert_eq!(
        next_phase(QueryPhase::Running, PhaseEvent::PageReady),
        QueryPhase::Running
    );
    assert_eq!(
        next_phase(QueryPhase::Running, PhaseEvent::Finished),
        QueryPhase::Done
    );
    assert_eq!(
        next_phase(QueryPhase::Initial, PhaseEvent::Failed),
        QueryPhase::Done
    );
    assert_eq!(
        next_phase(QueryPhase::Done, PhaseEvent::PageReady),
        QueryPhase::Done
    );
}
