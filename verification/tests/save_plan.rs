use bowties::layout_types::{LayoutEditDelta, LayoutFile, RoleClassification};
use bowties::save_plan::{compose_layout_save, merge_discovered_roles, plan_layout_save, SavePick, SnapshotInfo};
use bowties::snapshot::CaptureStatus;

fn snap(key: &str, complete: bool, fp: &str) -> SnapshotInfo {
    SnapshotInfo {
        node_key: key.to_string(),
        capture_status: if complete { CaptureStatus::Complete } else { CaptureStatus::Partial },
        fingerprint: fp.to_string(),
    }
}

#[test]
fn save_keeps_layout_nodes_and_prefers_complete_snapshots() {
    let previous = vec![snap("AAA", true, "f1"), snap("BBB", true, "f2"), snap("CCC", true, "f3")];
    let deltas = vec![LayoutEditDelta::AddNode { node_id_hex: "dd.d".to_string() }];
    let removed = vec!["CCC".to_string()];
    let live = vec![
        snap("AAA", false, "f1"),   // partial, previous complete: keep previous
        snap("DDD", true, "f4"),    // promoted
        snap("EEE", true, "f5"),    // not in layout
        snap("CCC", true, "f3"),    // removed
    ];
    let plan = plan_layout_save(&previous, &deltas, &removed, &live);
    assert!(plan == vec![SavePick::Previous(0), SavePick::Fresh(1), SavePick::Previous(1)]);
}

#[test]
fn save_drops_snapshots_without_description_data() {
    let previous = vec![snap("AAA", true, "missing"), snap("BBB", true, "not_supported"), snap("CCC", false, "f")];
    let plan = plan_layout_save(&previous, &vec![], &vec![], &vec![]);
    assert!(plan == vec![SavePick::Previous(2)]);
    let live = vec![snap("AAA", true, "f"), snap("CCC", false, "missing")];
    let plan = plan_layout_save(&previous, &vec![], &vec![], &live);
    assert!(plan == vec![SavePick::Fresh(0)]);
}

#[test]
fn discovered_roles_do_not_override_classifications() {
    let mut layout = LayoutFile::default_layout();
    layout.role_classifications.insert("k1".to_string(), RoleClassification { role: "Consumer".to_string() });
    let found = vec![
        ("k1".to_string(), RoleClassification { role: "Producer".to_string() }),
        ("k2".to_string(), RoleClassification { role: "Producer".to_string() }),
        ("k2".to_string(), RoleClassification { role: "Consumer".to_string() }),
    ];
    merge_discovered_roles(&mut layout, &found);
    assert_eq!(layout.role_classifications.get("k1").unwrap().role, "Consumer");
    assert_eq!(layout.role_classifications.get("k2").unwrap().role, "Producer");
}

#[test]
fn save_without_bus_nodes_drops_removed_nodes() {
    let previous = vec![snap("K", true, "f"), snap("L", true, "g")];
    let plan = plan_layout_save(&previous, &vec![], &vec!["K".to_string()], &vec![]);
    assert!(plan == vec![SavePick::Previous(1)]);
}

#[test]
fn composed_save_applies_edits_and_warns_of_partial_snapshots() {
    let previous = vec![snap("AAA", true, "f1"), snap("BBB", false, "f2")];
    let live = vec![snap("CCC", false, "f3")];
    let deltas = vec![
        LayoutEditDelta::CreateBowtie { event_id_hex: "05.01.01.01.FF.00.00.01".to_string(), name: Some("Yard".to_string()) },
        LayoutEditDelta::AddNode { node_id_hex: "ccc".to_string() },
    ];
    let roles = vec![("k1".to_string(), RoleClassification { role: "Producer".to_string() })];
    let s = compose_layout_save(LayoutFile::default_layout(), deltas, &roles, &previous, &vec![], &live).ok().unwrap();
    assert!(s.picks == vec![SavePick::Fresh(0), SavePick::Previous(0), SavePick::Previous(1)]);
    assert_eq!(s.persisted_node_ids, vec!["CCC", "AAA", "BBB"]);
    assert_eq!(s.warnings, vec!["CCC", "BBB"]);
    assert_eq!(s.layout.bowties.get("05.01.01.01.FF.00.00.01").unwrap().name.as_deref(), Some("Yard"));
    assert_eq!(s.layout.role_classifications.get("k1").unwrap().role, "Producer");

    let bad = vec![("k2".to_string(), RoleClassification { role: "Both".to_string() })];
    let err = compose_layout_save(LayoutFile::default_layout(), vec![], &bad, &previous, &vec![], &live).err().unwrap();
    assert_eq!(err, "Invalid role 'Both' for classification 'k2': must be 'Producer' or 'Consumer'");
}
