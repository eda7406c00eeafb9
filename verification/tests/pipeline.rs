use cosmos_driver::pipeline::PartitionState;
use cosmos_driver::pipeline::ReadStrategy;
use cosmos_driver::Error;
use cosmos_driver::Pipeline;
use cosmos_driver::PipelineItem;
use std::collections::VecDeque;

fn item(order: usize, id: u64) -> PipelineItem {
    PipelineItem {
        order,
        payload: format!("{{\"id\":{}}}", id).into_bytes(),
    }
}

fn payload_id(payload: &[u8]) -> u64 {
    let v: serde_json::Value = serde_json::from_slice(payload).unwrap();
    v.get("id").unwrap().as_u64().unwrap()
}

#[test]
fn ordered_greedy_merge() {
    let mut pipeline = Pipeline::new(vec!["p1".to_string(), "p2".to_string()]);
    pipeline
        .enqueue_items(
            "p1",
            vec![item(2, 1), item(1, 2), item(2, 3), item(1, 4), item(2, 5)],
        )
        .unwrap();
    pipeline
        .enqueue_items(
            "p2",
            vec![item(1, 6), item(2, 7), item(1, 8), item(2, 9), item(1, 10)],
        )
        .unwrap();
    let mut ids = Vec::new();
    while let Some(i) = pipeline.next_item() {
        ids.push(payload_id(&i.payload));
    }
    assert_eq!(ids, vec![6, 1, 2, 3, 4, 5, 7, 8, 9, 10]);
}

#[test]
fn unknown_partition_fails_and_changes_nothing() {
    let mut pipeline = Pipeline::new(vec!["p1".to_string()]);
    pipeline.enqueue_items("p1", vec![item(1, 1)]).unwrap();
    let r = pipeline.enqueue_items("p2", vec![item(1, 2)]);
    assert_eq!(r, Err(Error::PartitionDoesNotExist));
    let first = pipeline.next_item().unwrap();
    assert_eq!(payload_id(&first.payload), 1);
    assert!(pipeline.next_item().is_none());
}

#[test]
fn fifo_within_partition() {
    let mut pipeline = Pipeline::new(vec!["solo".to_string()]);
    pipeline
        .enqueue_items("solo", vec![item(5, 1), item(3, 2), item(4, 3)])
        .unwrap();
    let mut ids = Vec::new();
    while let Some(i) = pipeline.next_item() {
        ids.push(payload_id(&i.payload));
    }
    // a single partition drains in enqueue order, not in order-value order
    assert_eq!(ids, vec![1, 2, 3]);
}

#[test]
fn empty_pipeline_yields_nothing() {
    let mut none_at_all = Pipeline::new(vec![]);
    assert!(none_at_all.next_item().is_none());
    assert_eq!(none_at_all.next_item_raw(), Ok(None));

    let mut empty_partitions = Pipeline::new(vec!["a".to_string(), "b".to_string()]);
    assert!(empty_partitions.next_item().is_none());
    assert_eq!(empty_partitions.next_item_raw(), Ok(None));
}

#[test]
fn encode_decode_round_trip() {
    let payload_text = "{\"id\":1,\"title\":\"Partition 1 / Item 1 / Order 2\",\"tags\":[true,null,2.5]}";
    let original: serde_json::Value = serde_json::from_str(payload_text).unwrap();
    let mut pipeline = Pipeline::new(vec!["p1".to_string()]);
    pipeline
        .enqueue_items(
            "p1",
            vec![PipelineItem {
                order: 7,
                payload: serde_json::to_vec(&original).unwrap(),
            }],
        )
        .unwrap();
    let bytes = pipeline.next_item_raw().unwrap().unwrap();
    let decoded: serde_json::Value = serde_json::from_slice(&bytes).unwrap();
    assert_eq!(decoded.get("order").unwrap().as_u64().unwrap(), 7);
    assert_eq!(decoded.get("payload").unwrap(), &original);
}

#[test]
fn next_item_raw_exact_bytes() {
    let mut pipeline = Pipeline::new(vec!["p".to_string()]);
    pipeline
        .enqueue_items(
            "p",
            vec![PipelineItem {
                order: 12,
                payload: b"true".to_vec(),
            }],
        )
        .unwrap();
    let bytes = pipeline.next_item_raw().unwrap().unwrap();
    assert_eq!(bytes, b"{\"order\":12,\"payload\":true}".to_vec());
}

#[test]
fn round_robin_skips_nothing_but_still_advances() {
    let mut strategy = ReadStrategy::RoundRobin { next: 0 };
    let mut partitions = vec![
        PartitionState {
            partition_id: "a".to_string(),
            buffer: VecDeque::new(),
        },
        PartitionState {
            partition_id: "b".to_string(),
            buffer: VecDeque::from(vec![item(1, 9)]),
        },
    ];
    // the cursor partition is empty: the call yields nothing even though
    // another partition has an item, and the cursor still advances
    assert!(strategy.select(&mut partitions).is_none());
    assert_eq!(strategy, ReadStrategy::RoundRobin { next: 1 });
    let got = strategy.select(&mut partitions).unwrap();
    assert_eq!(payload_id(&got.payload), 9);
    assert_eq!(strategy, ReadStrategy::RoundRobin { next: 0 });
}

#[test]
fn ordered_tie_breaks_on_earliest_partition() {
    // keys are reordered lexicographically at construction, so "a" comes
    // first and wins the tie even though it was supplied last
    let mut pipeline = Pipeline::new(vec!["b".to_string(), "a".to_string()]);
    pipeline.enqueue_items("b", vec![item(1, 1)]).unwrap();
    pipeline.enqueue_items("a", vec![item(1, 2)]).unwrap();
    assert_eq!(payload_id(&pipeline.next_item().unwrap().payload), 2);
    assert_eq!(payload_id(&pipeline.next_item().unwrap().payload), 1);
}

#[test]
fn duplicate_keys_collapse() {
    let mut pipeline = Pipeline::new(vec!["a".to_string(), "a".to_string()]);
    pipeline.enqueue_items("a", vec![item(1, 1)]).unwrap();
    assert_eq!(payload_id(&pipeline.next_item().unwrap().payload), 1);
    assert!(pipeline.next_item().is_none());
}

#[test]
fn largest_order_value_is_still_selectable() {
    let mut pipeline = Pipeline::new(vec!["p".to_string()]);
    pipeline.enqueue_items("p", vec![item(usize::MAX, 1)]).unwrap();
    assert_eq!(payload_id(&pipeline.next_item().unwrap().payload), 1);
}
