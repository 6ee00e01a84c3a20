use bowties::node_id::NodeId;
use bowties::snapshot::{
    canonical_node_filename, capture_status_from_missing, flatten_config, insert_config_leaf, missing_detail,
    update_snapshot_baseline, update_snapshot_baseline_and_capture_time, CaptureStatus, CdiReference, ConfigTree,
    NodeSnapshot, SnapshotLeafValue, SnapshotValueNode, SnipSnapshot,
};

fn leaf(value: &str, space: u8, offset: &str) -> SnapshotLeafValue {
    SnapshotLeafValue { value: value.to_string(), space: Some(space), offset: Some(offset.to_string()) }
}

fn make_snapshot() -> NodeSnapshot {
    let mut config = ConfigTree::new();
    insert_config_leaf(&mut config, &["Main".to_string()], leaf("10", 253, "0x00000010"));
    NodeSnapshot {
        node_id: NodeId::new([0x05, 0x02, 0x01, 0x02, 0x03, 0x00]),
        captured_at: "2026-04-20T00:00:00Z".to_string(),
        capture_status: CaptureStatus::Complete,
        missing: Vec::new(),
        snip: SnipSnapshot::default_value(),
        cdi_ref: CdiReference { cache_key: "cache".to_string(), version: "1.0".to_string(), fingerprint: "fp".to_string() },
        config,
        producer_identified_events: Vec::new(),
    }
}

#[test]
fn updates_baseline_and_capture_time_when_leaf_matches() {
    let mut snapshot = make_snapshot();
    let updated =
        update_snapshot_baseline_and_capture_time(&mut snapshot, 253, "0x00000010", "20", "2026-04-25T12:34:56Z");
    assert!(updated);
    assert_eq!(snapshot.captured_at, "2026-04-25T12:34:56Z");
    match snapshot.config.top_level().get("Main") {
        Some(SnapshotValueNode::Leaf(leaf)) => assert_eq!(leaf.value, "20"),
        _ => panic!("expected matching snapshot leaf"),
    }
}

#[test]
fn leaves_capture_time_unchanged_when_no_leaf_matches() {
    let mut snapshot = make_snapshot();
    let updated =
        update_snapshot_baseline_and_capture_time(&mut snapshot, 253, "0x00000099", "20", "2026-04-25T12:34:56Z");
    assert!(!updated);
    assert_eq!(snapshot.captured_at, "2026-04-20T00:00:00Z");
}

#[test]
fn nested_leaves_are_stored_flattened_and_read_back() {
    let mut tree = ConfigTree::new();
    insert_config_leaf(&mut tree, &["Port".to_string(), "Line".to_string(), "Name".to_string()], leaf("a", 253, "0x00000000"));
    insert_config_leaf(&mut tree, &["Port".to_string(), "Line".to_string(), "Event".to_string()], leaf("b", 253, "0x00000010"));
    insert_config_leaf(&mut tree, &["Alpha".to_string()], leaf("c", 251, "0x00000001"));
    let flat = flatten_config(&tree);
    let paths: Vec<String> = flat.iter().map(|e| e.path.join("/")).collect();
    assert_eq!(paths, vec!["Alpha", "Port/Line/Event", "Port/Line/Name"]);
    assert_eq!(flat[1].leaf.value, "b");
    assert!(update_snapshot_baseline(&mut tree, 253, "0x00000000", "z"));
    let flat = flatten_config(&tree);
    assert_eq!(flat[2].leaf.value, "z");
    assert!(!update_snapshot_baseline(&mut tree, 252, "0x00000000", "z"));
}

#[test]
fn inserting_over_a_branch_replaces_it() {
    let mut tree = ConfigTree::new();
    insert_config_leaf(&mut tree, &["A".to_string(), "B".to_string()], leaf("1", 253, "0x1"));
    insert_config_leaf(&mut tree, &["A".to_string()], leaf("2", 253, "0x2"));
    let flat = flatten_config(&tree);
    assert_eq!(flat.len(), 1);
    assert_eq!(flat[0].path, vec!["A"]);
    assert_eq!(flat[0].leaf.value, "2");
}

#[test]
fn capture_helpers() {
    assert!(capture_status_from_missing(&[]) == CaptureStatus::Complete);
    assert!(capture_status_from_missing(&["x".to_string()]) == CaptureStatus::Partial);
    assert_eq!(
        missing_detail(253, "0x00000010", &["Port".to_string(), "Line".to_string()]),
        "space=253 offset=0x00000010 path=Port/Line"
    );
    assert_eq!(canonical_node_filename("05020102abcd"), "05020102ABCD.yaml");
}
