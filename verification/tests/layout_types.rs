use bowties::layout_types::{
    apply_layout_deltas, is_valid_bowtie_key, is_valid_event_id_hex, validate_node_key, BowtieMetadata,
    ConnectorSelectionRecord, ConnectorSelectionStatus, LayoutEditDelta, LayoutFile, NodeHardwareSelectionSet,
    RoleClassification,
};
use bowties::layout_io::validate_schema;
use bowties::strmap::StrMap;

#[test]
fn default_layout_validates() {
    let layout = LayoutFile::default();
    assert!(layout.validate().is_ok());
}

#[test]
fn invalid_schema_version() {
    let layout = LayoutFile { schema_version: "2.0".to_string(), ..Default::default() };
    assert!(layout.validate().unwrap_err().contains("Unsupported"));
}

#[test]
fn invalid_bowtie_key() {
    let mut layout = LayoutFile::default();
    layout.bowties.insert("not-hex".to_string(), BowtieMetadata { name: None, tags: vec![] });
    assert!(layout.validate().unwrap_err().contains("Invalid bowtie key"));
}

#[test]
fn planning_bowtie_key_is_valid() {
    let mut layout = LayoutFile::default();
    layout.bowties.insert(
        "planning-1774043332542".to_string(),
        BowtieMetadata { name: Some("My planning bowtie".to_string()), tags: vec![] },
    );
    assert!(layout.validate().is_ok());
}

#[test]
fn invalid_role_classification() {
    let mut layout = LayoutFile::default();
    layout
        .role_classifications
        .insert("05.02.01.02.03.00:path".to_string(), RoleClassification { role: "Both".to_string() });
    assert!(layout.validate().unwrap_err().contains("Invalid role"));
}

#[test]
fn apply_deltas_create_bowtie() {
    let mut layout = LayoutFile::default();
    apply_layout_deltas(
        &mut layout,
        vec![LayoutEditDelta::CreateBowtie {
            event_id_hex: "05.01.01.01.FF.00.00.01".to_string(),
            name: Some("Yard Entry".to_string()),
        }],
    );
    assert_eq!(layout.bowties.len(), 1);
    let entry = layout.bowties.get("05.01.01.01.FF.00.00.01").unwrap();
    assert_eq!(entry.name.as_deref(), Some("Yard Entry"));
    assert!(entry.tags.is_empty());
}

#[test]
fn apply_deltas_create_bowtie_noop_if_exists() {
    let mut layout = LayoutFile::default();
    layout.bowties.insert(
        "05.01.01.01.FF.00.00.01".to_string(),
        BowtieMetadata { name: Some("Original".to_string()), tags: vec!["yard".to_string()] },
    );
    apply_layout_deltas(
        &mut layout,
        vec![LayoutEditDelta::CreateBowtie {
            event_id_hex: "05.01.01.01.FF.00.00.01".to_string(),
            name: Some("Overwrite Attempt".to_string()),
        }],
    );
    assert_eq!(layout.bowties.get("05.01.01.01.FF.00.00.01").unwrap().name.as_deref(), Some("Original"));
}

#[test]
fn apply_deltas_delete_bowtie() {
    let mut layout = LayoutFile::default();
    layout
        .bowties
        .insert("05.01.01.01.FF.00.00.01".to_string(), BowtieMetadata { name: Some("Doomed".to_string()), tags: vec![] });
    apply_layout_deltas(
        &mut layout,
        vec![LayoutEditDelta::DeleteBowtie { event_id_hex: "05.01.01.01.FF.00.00.01".to_string() }],
    );
    assert!(layout.bowties.is_empty());
}

#[test]
fn apply_deltas_rename_bowtie() {
    let mut layout = LayoutFile::default();
    layout.bowties.insert(
        "05.01.01.01.FF.00.00.01".to_string(),
        BowtieMetadata { name: Some("Old Name".to_string()), tags: vec!["yard".to_string()] },
    );
    apply_layout_deltas(
        &mut layout,
        vec![LayoutEditDelta::RenameBowtie {
            event_id_hex: "05.01.01.01.FF.00.00.01".to_string(),
            new_name: "New Name".to_string(),
        }],
    );
    let entry = layout.bowties.get("05.01.01.01.FF.00.00.01").unwrap();
    assert_eq!(entry.name.as_deref(), Some("New Name"));
    assert_eq!(entry.tags, vec!["yard"]);
}

#[test]
fn apply_deltas_rename_creates_if_absent() {
    let mut layout = LayoutFile::default();
    apply_layout_deltas(
        &mut layout,
        vec![LayoutEditDelta::RenameBowtie {
            event_id_hex: "05.01.01.01.FF.00.00.01".to_string(),
            new_name: "Created via rename".to_string(),
        }],
    );
    assert_eq!(
        layout.bowties.get("05.01.01.01.FF.00.00.01").unwrap().name.as_deref(),
        Some("Created via rename")
    );
}

#[test]
fn apply_deltas_add_and_remove_tag() {
    let mut layout = LayoutFile::default();
    layout
        .bowties
        .insert("05.01.01.01.FF.00.00.01".to_string(), BowtieMetadata { name: None, tags: vec!["yard".to_string()] });
    apply_layout_deltas(
        &mut layout,
        vec![
            LayoutEditDelta::AddTag { event_id_hex: "05.01.01.01.FF.00.00.01".to_string(), tag: "signals".to_string() },
            LayoutEditDelta::RemoveTag { event_id_hex: "05.01.01.01.FF.00.00.01".to_string(), tag: "yard".to_string() },
        ],
    );
    assert_eq!(layout.bowties.get("05.01.01.01.FF.00.00.01").unwrap().tags, vec!["signals"]);
}

#[test]
fn apply_deltas_add_tag_deduplicates() {
    let mut layout = LayoutFile::default();
    layout
        .bowties
        .insert("05.01.01.01.FF.00.00.01".to_string(), BowtieMetadata { name: None, tags: vec!["yard".to_string()] });
    apply_layout_deltas(
        &mut layout,
        vec![LayoutEditDelta::AddTag { event_id_hex: "05.01.01.01.FF.00.00.01".to_string(), tag: "yard".to_string() }],
    );
    assert_eq!(layout.bowties.get("05.01.01.01.FF.00.00.01").unwrap().tags, vec!["yard"]);
}

#[test]
fn apply_deltas_classify_role() {
    let mut layout = LayoutFile::default();
    apply_layout_deltas(
        &mut layout,
        vec![LayoutEditDelta::ClassifyRole {
            key: "05.02.01.02.03.00:Port/Line/Event".to_string(),
            role: "Producer".to_string(),
        }],
    );
    assert_eq!(layout.role_classifications.get("05.02.01.02.03.00:Port/Line/Event").unwrap().role, "Producer");
}

#[test]
fn apply_deltas_set_connector_selection() {
    let mut layout = LayoutFile::default();
    let mut slot_selections = StrMap::new();
    slot_selections.insert(
        "serial-a".to_string(),
        ConnectorSelectionRecord {
            selected_daughterboard_id: Some("BOD4-CP".to_string()),
            status: ConnectorSelectionStatus::Selected,
            source_profile_version: None,
        },
    );
    apply_layout_deltas(
        &mut layout,
        vec![LayoutEditDelta::SetConnectorSelection {
            node_id: "020157000001".to_string(),
            selection: NodeHardwareSelectionSet {
                carrier_key: "rr-cirkits::tower-lcc".to_string(),
                slot_selections,
                updated_at: None,
            },
        }],
    );
    let stored = layout.connector_selections.get("020157000001").unwrap();
    assert_eq!(stored.carrier_key, "rr-cirkits::tower-lcc");
}

#[test]
fn apply_deltas_adopt_event_id() {
    let mut layout = LayoutFile::default();
    layout.bowties.insert(
        "planning-123".to_string(),
        BowtieMetadata { name: Some("My Bowtie".to_string()), tags: vec!["yard".to_string()] },
    );
    apply_layout_deltas(
        &mut layout,
        vec![LayoutEditDelta::AdoptEventId {
            old_event_id_hex: "planning-123".to_string(),
            new_event_id_hex: "05.01.01.01.FF.00.00.01".to_string(),
        }],
    );
    assert!(!layout.bowties.contains_key("planning-123"));
    let moved = layout.bowties.get("05.01.01.01.FF.00.00.01").unwrap();
    assert_eq!(moved.name.as_deref(), Some("My Bowtie"));
    assert_eq!(moved.tags, vec!["yard"]);
}

#[test]
fn apply_deltas_preserves_existing_roles_not_in_deltas() {
    let mut layout = LayoutFile::default();
    layout
        .role_classifications
        .insert("existing:path".to_string(), RoleClassification { role: "Consumer".to_string() });
    apply_layout_deltas(
        &mut layout,
        vec![LayoutEditDelta::ClassifyRole { key: "new:path".to_string(), role: "Producer".to_string() }],
    );
    assert_eq!(layout.role_classifications.get("existing:path").unwrap().role, "Consumer");
    assert_eq!(layout.role_classifications.get("new:path").unwrap().role, "Producer");
}

#[test]
fn apply_deltas_multiple_operations_in_sequence() {
    let mut layout = LayoutFile::default();
    apply_layout_deltas(
        &mut layout,
        vec![
            LayoutEditDelta::CreateBowtie {
                event_id_hex: "05.01.01.01.FF.00.00.01".to_string(),
                name: Some("Signal A".to_string()),
            },
            LayoutEditDelta::AddTag { event_id_hex: "05.01.01.01.FF.00.00.01".to_string(), tag: "yard".to_string() },
            LayoutEditDelta::RenameBowtie {
                event_id_hex: "05.01.01.01.FF.00.00.01".to_string(),
                new_name: "Signal A (renamed)".to_string(),
            },
            LayoutEditDelta::ClassifyRole { key: "node:path".to_string(), role: "Producer".to_string() },
        ],
    );
    let entry = layout.bowties.get("05.01.01.01.FF.00.00.01").unwrap();
    assert_eq!(entry.name.as_deref(), Some("Signal A (renamed)"));
    assert_eq!(entry.tags, vec!["yard"]);
    assert_eq!(layout.role_classifications.len(), 1);
}

#[test]
fn apply_deltas_empty_vec_is_noop() {
    let mut layout = LayoutFile::default();
    layout.bowties.insert(
        "05.01.01.01.FF.00.00.01".to_string(),
        BowtieMetadata { name: Some("Untouched".to_string()), tags: vec![] },
    );
    apply_layout_deltas(&mut layout, vec![]);
    assert_eq!(layout.bowties.get("05.01.01.01.FF.00.00.01").unwrap().name.as_deref(), Some("Untouched"));
}

#[test]
fn apply_deltas_add_node_is_noop_on_layout_file() {
    let mut layout = LayoutFile::default();
    layout.bowties.insert(
        "05.01.01.01.FF.00.00.01".to_string(),
        BowtieMetadata { name: Some("Existing".to_string()), tags: vec!["yard".to_string()] },
    );
    let bowties_before: Vec<String> = layout.bowties.key_list();
    let roles_before = layout.role_classifications.len();
    let selections_before = layout.connector_selections.len();
    apply_layout_deltas(&mut layout, vec![LayoutEditDelta::AddNode { node_id_hex: "020157000001".to_string() }]);
    let bowties_after: Vec<String> = layout.bowties.key_list();
    assert_eq!(bowties_after, bowties_before);
    assert_eq!(layout.role_classifications.len(), roles_before);
    assert_eq!(layout.connector_selections.len(), selections_before);
    let bw = layout.bowties.get("05.01.01.01.FF.00.00.01").expect("bowtie kept");
    assert_eq!(bw.name.as_deref(), Some("Existing"));
    assert_eq!(bw.tags, vec!["yard".to_string()]);
}

#[test]
fn add_node_delta_as_add_node_returns_id() {
    let d = LayoutEditDelta::AddNode { node_id_hex: "020157000001".to_string() };
    assert_eq!(d.as_add_node(), Some("020157000001".to_string()));
    let dotted = LayoutEditDelta::AddNode { node_id_hex: "02.01.57.00.ab.01".to_string() };
    assert_eq!(dotted.as_add_node(), Some("02015700AB01".to_string()));

    let other = LayoutEditDelta::DeleteBowtie { event_id_hex: "05.01.01.01.FF.00.00.01".to_string() };
    assert_eq!(other.as_add_node(), None);
}

#[test]
fn set_node_mode_selection_validates_both_node_key_shapes() {
    assert!(validate_node_key("050101010001").is_ok());
    assert!(validate_node_key("placeholder:11111111-2222-4333-8444-555555555555").is_ok());
    assert!(validate_node_key("garbage").is_err());
}

#[test]
fn node_key_rejects_malformed_placeholders() {
    assert!(validate_node_key("placeholder:11111111-2222-4333-8444-55555555555").is_err());
    assert!(validate_node_key("placeholder:11111111x2222-4333-8444-555555555555").is_err());
    assert!(validate_node_key("Placeholder:11111111-2222-4333-8444-555555555555").is_err());
    assert_eq!(validate_node_key("05.01.01.01.00").unwrap_err(), "InvalidNodeKey: '05.01.01.01.00'");
    assert!(validate_node_key("05.01.01.01.00.01").is_ok());
}

#[test]
fn event_id_and_bowtie_key_shapes() {
    assert!(is_valid_event_id_hex("05.01.01.01.FF.00.00.01"));
    assert!(is_valid_event_id_hex("05.01.01.01.ff.00.00.01"));
    assert!(!is_valid_event_id_hex("05.01.01.01.FF.00.00"));
    assert!(!is_valid_event_id_hex("05010101FF000001"));
    assert!(is_valid_bowtie_key("planning-0"));
    assert!(is_valid_bowtie_key("planning-"));
    assert!(!is_valid_bowtie_key("planning-12a"));
}

#[test]
fn validation_reports_incomplete_connector_selection() {
    let mut layout = LayoutFile::default();
    let mut slot_selections = StrMap::new();
    slot_selections.insert(
        "serial-a".to_string(),
        ConnectorSelectionRecord {
            selected_daughterboard_id: None,
            status: ConnectorSelectionStatus::Selected,
            source_profile_version: None,
        },
    );
    layout.connector_selections.insert(
        "0501010112345678".to_string(),
        NodeHardwareSelectionSet { carrier_key: "k".to_string(), slot_selections, updated_at: None },
    );
    assert_eq!(
        layout.validate().unwrap_err(),
        "Invalid connector selection for node '0501010112345678' slot 'serial-a': selected status requires selectedDaughterboardId"
    );
    assert!(validate_schema(&layout).is_err());
}

#[test]
fn schema_error_names_both_versions() {
    let layout = LayoutFile { schema_version: "2.0".to_string(), ..Default::default() };
    assert_eq!(layout.validate().unwrap_err(), "Unsupported layout schema version: 2.0 (expected 1.0)");
}

#[test]
fn removing_a_tag_twice_and_deleting_missing_bowtie_are_harmless() {
    let mut layout = LayoutFile::default();
    apply_layout_deltas(
        &mut layout,
        vec![
            LayoutEditDelta::RemoveTag { event_id_hex: "05.01.01.01.FF.00.00.09".to_string(), tag: "x".to_string() },
            LayoutEditDelta::DeleteBowtie { event_id_hex: "05.01.01.01.FF.00.00.09".to_string() },
        ],
    );
    assert!(layout.bowties.is_empty());
}

#[test]
fn edits_of_absent_bowties_change_nothing() {
    let mut layout = LayoutFile::default();
    layout
        .bowties
        .insert("05.01.01.01.FF.00.00.01".to_string(), BowtieMetadata { name: None, tags: vec!["yard".to_string()] });
    apply_layout_deltas(
        &mut layout,
        vec![
            LayoutEditDelta::AddTag { event_id_hex: "05.01.01.01.FF.00.00.09".to_string(), tag: "x".to_string() },
            LayoutEditDelta::RemoveTag { event_id_hex: "05.01.01.01.FF.00.00.09".to_string(), tag: "x".to_string() },
            LayoutEditDelta::AdoptEventId {
                old_event_id_hex: "05.01.01.01.FF.00.00.09".to_string(),
                new_event_id_hex: "05.01.01.01.FF.00.00.01".to_string(),
            },
            LayoutEditDelta::AddTag { event_id_hex: "05.01.01.01.FF.00.00.01".to_string(), tag: "yard".to_string() },
        ],
    );
    assert_eq!(layout.bowties.len(), 1);
    assert_eq!(layout.bowties.get("05.01.01.01.FF.00.00.01").unwrap().tags, vec!["yard"]);
    assert!(layout.bowties.get("05.01.01.01.FF.00.00.09").is_none());
}
