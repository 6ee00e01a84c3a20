use bowties::catalog_overlay::{pending_event_overlays, EventField};
use bowties::offline::{OfflineChange, OfflineChangeKind, OfflineChangeStatus};

fn change(kind: OfflineChangeKind, status: OfflineChangeStatus, offset: &str, planned: &str) -> OfflineChange {
    OfflineChange {
        change_id: "c".to_string(),
        kind,
        node_id: Some("NODE".to_string()),
        space: Some(253),
        offset: Some(offset.to_string()),
        baseline_value: String::new(),
        planned_value: planned.to_string(),
        status,
        error: None,
        updated_at: "t0".to_string(),
    }
}

fn field(addr: u32, path: &str) -> EventField {
    EventField { node_key: "NODE".to_string(), space: 253, address: addr, path: path.to_string() }
}

#[test]
fn pending_event_edits_overlay_their_fields() {
    let fields = vec![field(0x10, "seg:0/elem:1"), field(0x18, "seg:0/elem:2"), field(0x10, "seg:0/elem:9")];
    let changes = vec![
        change(OfflineChangeKind::Config, OfflineChangeStatus::Pending, "0x10", "05.01.01.01.22.00.00.07"),
        change(OfflineChangeKind::Config, OfflineChangeStatus::Pending, "0x0x18", "0501010122000008"),
        change(OfflineChangeKind::Config, OfflineChangeStatus::Applied, "0x18", "0501010122000009"),
        change(OfflineChangeKind::Config, OfflineChangeStatus::Pending, "0x20", "0501010122000009"),
        change(OfflineChangeKind::Config, OfflineChangeStatus::Pending, "0x18", "not hex"),
        change(OfflineChangeKind::BowtieMetadata, OfflineChangeStatus::Pending, "0x18", "0501010122000009"),
    ];
    let o = pending_event_overlays(&changes, &fields);
    assert_eq!(o.len(), 2);
    assert_eq!(o[0].node_key, "NODE");
    assert_eq!(o[0].path, "seg:0/elem:9");
    assert_eq!(o[0].event_id, [5, 1, 1, 1, 0x22, 0, 0, 7]);
    assert_eq!(o[1].path, "seg:0/elem:2");
    assert_eq!(o[1].event_id, [5, 1, 1, 1, 0x22, 0, 0, 8]);
    // an unreadable offset names address 0
    let z = pending_event_overlays(
        &vec![change(OfflineChangeKind::Config, OfflineChangeStatus::Pending, "zz", "0501010122000001")],
        &vec![field(0, "seg:0/elem:0")],
    );
    assert_eq!(z.len(), 1);
    assert_eq!(z[0].path, "seg:0/elem:0");
}
