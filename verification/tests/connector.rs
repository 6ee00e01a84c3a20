use bowties::layout_types::LayoutFile;

#[test]
fn connector_profile_view_default_selection_document_removed_in_v2() {
    // Default mode selections are derived when the profile is annotated; a fresh
    // layout therefore carries no stored connector selections.
    let layout = LayoutFile::default();
    assert!(layout.connector_selections.is_empty());
}

#[test]
fn connector_selection_document_roundtrip_removed_in_v2() {
    // Selection persistence lives in the layout file itself; a default layout
    // starts with nothing stored for any node.
    let layout = LayoutFile::default();
    assert_eq!(layout.connector_selections.len(), 0);
}

use bowties::connector::{
    connector_profile_view, preview_connector_compatibility, CompatibilityPreviewRequest, ConnectorConstraint,
    ConnectorConstraintEffect, ConnectorConstraintView, ConnectorProfile, ConnectorProfileView, ConnectorScalarValue,
    ConnectorScalarValueView, ConnectorSlot, EmptyConnectorBehavior, EmptyConnectorBehaviorView,
    EmptyConnectorConstraintEffect, FilterEffect, SlotSupportedDaughterboard, SupportedDaughterboard,
};

#[test]
fn connector_profile_view_converts_from_node_tree_payload() {
    let profile = ConnectorProfileView::from(ConnectorProfile {
        node_id: "05.02.01.02.03.00".to_string(),
        carrier_key: "rr-cirkits::tower-lcc".to_string(),
        slots: vec![ConnectorSlot {
            slot_id: "connector-a".to_string(),
            label: "Connector A".to_string(),
            order: 0,
            allow_none_installed: true,
            supported_daughterboard_ids: vec!["BOD4-CP".to_string()],
            affected_paths: vec!["Port I/O/Line".to_string()],
            resolved_affected_paths: vec![vec!["seg:2".to_string(), "elem:0#1".to_string()]],
            base_behavior_when_empty: None,
            supported_daughterboard_constraints: vec![],
        }],
        supported_daughterboards: vec![SupportedDaughterboard {
            daughterboard_id: "BOD4-CP".to_string(),
            display_name: "BOD4-CP".to_string(),
            kind: Some("detector".to_string()),
            description: Some("Tower-compatible input board".to_string()),
        }],
    });

    assert_eq!(profile.node_id, "05.02.01.02.03.00");
    assert_eq!(profile.slots.len(), 1);
    assert_eq!(profile.supported_daughterboards.len(), 1);
    assert_eq!(profile.supported_daughterboards[0].daughterboard_id, "BOD4-CP");
}

fn rule(effect: ConnectorConstraintEffect) -> ConnectorConstraint {
    ConnectorConstraint {
        target_path: "Port I/O/Line/Output Function".to_string(),
        resolved_path: vec!["seg:2".to_string()],
        effect,
        line_ordinals: vec![1, 2],
        replication_ordinals: vec![],
        allowed_values: vec![ConnectorScalarValue::Integer(0), ConnectorScalarValue::String("on".to_string())],
        allowed_value_labels: vec!["Off".to_string()],
        denied_values: vec![ConnectorScalarValue::Integer(7)],
        explanation: Some("inputs only".to_string()),
    }
}

#[test]
fn rule_effects_map_one_to_one() {
    let cases = [
        (ConnectorConstraintEffect::Show, FilterEffect::Show),
        (ConnectorConstraintEffect::Hide, FilterEffect::Hide),
        (ConnectorConstraintEffect::Disable, FilterEffect::Disable),
        (ConnectorConstraintEffect::AllowValues, FilterEffect::AllowValues),
        (ConnectorConstraintEffect::DenyValues, FilterEffect::DenyValues),
        (ConnectorConstraintEffect::ReadOnly, FilterEffect::ReadOnly),
    ];
    for (from, to) in cases {
        let v = ConnectorConstraintView::from(rule(from));
        assert!(v.effect == to);
        assert_eq!(v.line_ordinals, vec![1, 2]);
        assert_eq!(v.allowed_values.len(), 2);
        assert!(matches!(v.allowed_values[0], ConnectorScalarValueView::Integer(0)));
        assert!(matches!(&v.allowed_values[1], ConnectorScalarValueView::String(s) if s == "on"));
        assert!(matches!(v.denied_values[0], ConnectorScalarValueView::Integer(7)));
        assert_eq!(v.explanation.as_deref(), Some("inputs only"));
    }
}

#[test]
fn empty_slot_behavior_and_nested_rules_are_kept() {
    let b = EmptyConnectorBehaviorView::from(EmptyConnectorBehavior {
        effect: EmptyConnectorConstraintEffect::AllowValues,
        allowed_values: vec![ConnectorScalarValue::Integer(3)],
    });
    assert!(b.effect == FilterEffect::AllowValues);
    assert_eq!(b.allowed_values.len(), 1);

    let view = connector_profile_view(Some(ConnectorProfile {
        node_id: "n".to_string(),
        carrier_key: "c".to_string(),
        slots: vec![ConnectorSlot {
            slot_id: "a".to_string(),
            label: "A".to_string(),
            order: 2,
            allow_none_installed: false,
            supported_daughterboard_ids: vec![],
            affected_paths: vec![],
            resolved_affected_paths: vec![],
            base_behavior_when_empty: Some(EmptyConnectorBehavior {
                effect: EmptyConnectorConstraintEffect::Hide,
                allowed_values: vec![],
            }),
            supported_daughterboard_constraints: vec![SlotSupportedDaughterboard {
                daughterboard_id: "d".to_string(),
                validity_rules: vec![rule(ConnectorConstraintEffect::ReadOnly)],
            }],
        }],
        supported_daughterboards: vec![],
    }))
    .unwrap();
    let slot = &view.slots[0];
    assert_eq!(slot.order, 2);
    assert!(slot.base_behavior_when_empty.as_ref().unwrap().effect == FilterEffect::Hide);
    assert!(slot.supported_daughterboard_constraints[0].validity_rules[0].effect == FilterEffect::ReadOnly);
    assert!(connector_profile_view(None).is_none());
}

#[test]
fn compatibility_preview_is_not_offered_yet() {
    let req = CompatibilityPreviewRequest { node_id: "n".to_string(), changed_slot_id: "a".to_string(), slot_selections: vec![] };
    assert_eq!(
        preview_connector_compatibility(&req).err().unwrap(),
        "Connector compatibility preview is not implemented yet"
    );
}
