//! Connector daughterboards: the connector profile of a carrier board as the
//! node tree states it, and the view of it shown to the user.
//!
//! A carrier board has connector slots; each slot can hold one of several
//! daughterboards, and each daughterboard brings rules that show, hide,
//! disable or restrict configuration fields. The view carries the same data,
//! with every rule effect expressed as a [`FilterEffect`].

use vstd::prelude::*;
use crate::text::string_of;

verus! {

// ── The connector profile of a node tree ──────────────────────────────────

/// A value a rule allows or denies: text or an integer.
pub enum ConnectorScalarValue {
    String(String),
    Integer(i64),
}

/// What an empty slot does to the fields it affects.
#[derive(Clone, Copy, PartialEq, Eq, Structural)]
pub enum EmptyConnectorConstraintEffect {
    Hide,
    Disable,
    AllowValues,
}

/// The behavior of a slot with no daughterboard installed.
pub struct EmptyConnectorBehavior {
    pub effect: EmptyConnectorConstraintEffect,
    pub allowed_values: Vec<ConnectorScalarValue>,
}

/// What a daughterboard rule does to its target field.
#[derive(Clone, Copy, PartialEq, Eq, Structural)]
pub enum ConnectorConstraintEffect {
    Show,
    Hide,
    Disable,
    AllowValues,
    DenyValues,
    ReadOnly,
}

/// One rule of a daughterboard.
pub struct ConnectorConstraint {
    pub target_path: String,
    pub resolved_path: Vec<String>,
    pub effect: ConnectorConstraintEffect,
    pub line_ordinals: Vec<u32>,
    pub replication_ordinals: Vec<u32>,
    pub allowed_values: Vec<ConnectorScalarValue>,
    pub allowed_value_labels: Vec<String>,
    pub denied_values: Vec<ConnectorScalarValue>,
    pub explanation: Option<String>,
}

/// A daughterboard a slot supports, with the rules it brings there.
pub struct SlotSupportedDaughterboard {
    pub daughterboard_id: String,
    pub validity_rules: Vec<ConnectorConstraint>,
}

/// One connector slot of a carrier board.
pub struct ConnectorSlot {
    pub slot_id: String,
    pub label: String,
    pub order: u32,
    pub allow_none_installed: bool,
    pub supported_daughterboard_ids: Vec<String>,
    pub affected_paths: Vec<String>,
    pub resolved_affected_paths: Vec<Vec<String>>,
    pub base_behavior_when_empty: Option<EmptyConnectorBehavior>,
    pub supported_daughterboard_constraints: Vec<SlotSupportedDaughterboard>,
}

/// A daughterboard that fits the carrier.
pub struct SupportedDaughterboard {
    pub daughterboard_id: String,
    pub display_name: String,
    pub kind: Option<String>,
    pub description: Option<String>,
}

/// The connector profile of a carrier board.
pub struct ConnectorProfile {
    pub node_id: String,
    pub carrier_key: String,
    pub slots: Vec<ConnectorSlot>,
    pub supported_daughterboards: Vec<SupportedDaughterboard>,
}

// ── The view shown to the user ────────────────────────────────────────────

/// What a rule does to a field, for display.
#[derive(Clone, Copy, PartialEq, Eq, Structural)]
pub enum FilterEffect {
    Show,
    Hide,
    Disable,
    AllowValues,
    DenyValues,
    ReadOnly,
}

/// A value a rule allows or denies.
pub enum ConnectorScalarValueView {
    String(String),
    Integer(i64),
}

/// The behavior of an empty slot.
pub struct EmptyConnectorBehaviorView {
    pub effect: FilterEffect,
    pub allowed_values: Vec<ConnectorScalarValueView>,
}

/// One rule of a daughterboard.
pub struct ConnectorConstraintView {
    pub target_path: String,
    pub resolved_path: Vec<String>,
    pub effect: FilterEffect,
    pub line_ordinals: Vec<u32>,
    pub replication_ordinals: Vec<u32>,
    pub allowed_values: Vec<ConnectorScalarValueView>,
    pub allowed_value_labels: Vec<String>,
    pub denied_values: Vec<ConnectorScalarValueView>,
    pub explanation: Option<String>,
}

/// A daughterboard a slot supports, with its rules.
pub struct SlotSupportedDaughterboardView {
    pub daughterboard_id: String,
    pub validity_rules: Vec<ConnectorConstraintView>,
}

/// One connector slot.
pub struct ConnectorSlotView {
    pub slot_id: String,
    pub label: String,
    pub order: u32,
    pub allow_none_installed: bool,
    pub supported_daughterboard_ids: Vec<String>,
    pub affected_paths: Vec<String>,
    pub resolved_affected_paths: Vec<Vec<String>>,
    pub base_behavior_when_empty: Option<EmptyConnectorBehaviorView>,
    pub supported_daughterboard_constraints: Vec<SlotSupportedDaughterboardView>,
}

/// A daughterboard that fits the carrier.
pub struct DaughterboardView {
    pub daughterboard_id: String,
    pub display_name: String,
    pub kind: Option<String>,
    pub description: Option<String>,
}

/// The connector profile of a node.
pub struct ConnectorProfileView {
    pub node_id: String,
    pub carrier_key: String,
    pub slots: Vec<ConnectorSlotView>,
    pub supported_daughterboards: Vec<DaughterboardView>,
}

// ── Selections and compatibility previews ─────────────────────────────────

/// Whether a slot has a daughterboard selected.
#[derive(Clone, Copy, PartialEq, Eq, Structural)]
pub enum ConnectorSelectionStatus {
    Selected,
    /// The slot is known to be empty.
    NoneInstalled,
    Unknown,
}

/// The daughterboard chosen for one slot.
pub struct ConnectorSelection {
    pub slot_id: String,
    pub selected_daughterboard_id: Option<String>,
    pub status: ConnectorSelectionStatus,
}

/// A request to preview what a change of selection would do.
pub struct CompatibilityPreviewRequest {
    pub node_id: String,
    pub changed_slot_id: String,
    pub slot_selections: Vec<ConnectorSelection>,
}

/// A field a selection filters.
pub struct FilteredTarget {
    pub target_path: String,
    pub effect: FilterEffect,
    pub allowed_values: Vec<String>,
}

/// A value change a selection would stage to keep a field valid.
pub struct StagedRepair {
    pub target_path: String,
    pub space: Option<u8>,
    pub offset: Option<String>,
    pub baseline_value: String,
    pub planned_value: String,
    pub reason: String,
    pub origin_slot_id: String,
}

/// What a change of selection would filter and repair.
pub struct CompatibilityPreviewResponse {
    pub node_id: String,
    pub changed_slot_id: String,
    pub filtered_targets: Vec<FilteredTarget>,
    pub staged_repairs: Vec<StagedRepair>,
    pub warnings: Vec<String>,
}

// ── Conversion ────────────────────────────────────────────────────────────

/// A scalar value as shown.
pub open spec fn scalar_shown(v: ConnectorScalarValue) -> ConnectorScalarValueView {
    match v {
        ConnectorScalarValue::String(s) => ConnectorScalarValueView::String(s),
        ConnectorScalarValue::Integer(i) => ConnectorScalarValueView::Integer(i),
    }
}

/// The effect of an empty slot as shown.
pub open spec fn empty_effect_shown(e: EmptyConnectorConstraintEffect) -> FilterEffect {
    match e {
        EmptyConnectorConstraintEffect::Hide => FilterEffect::Hide,
        EmptyConnectorConstraintEffect::Disable => FilterEffect::Disable,
        EmptyConnectorConstraintEffect::AllowValues => FilterEffect::AllowValues,
    }
}

/// The effect of a rule as shown.
pub open spec fn effect_shown(e: ConnectorConstraintEffect) -> FilterEffect {
    match e {
        ConnectorConstraintEffect::Show => FilterEffect::Show,
        ConnectorConstraintEffect::Hide => FilterEffect::Hide,
        ConnectorConstraintEffect::Disable => FilterEffect::Disable,
        ConnectorConstraintEffect::AllowValues => FilterEffect::AllowValues,
        ConnectorConstraintEffect::DenyValues => FilterEffect::DenyValues,
        ConnectorConstraintEffect::ReadOnly => FilterEffect::ReadOnly,
    }
}

/// `v` lists the scalar values `s` as shown, in order.
pub open spec fn scalars_shown(v: Seq<ConnectorScalarValueView>, s: Seq<ConnectorScalarValue>) -> bool {
    v == s.map_values(|x: ConnectorScalarValue| scalar_shown(x))
}

/// `v` shows the behavior `b` of an empty slot.
pub open spec fn behavior_shown(v: EmptyConnectorBehaviorView, b: EmptyConnectorBehavior) -> bool {
    v.effect == empty_effect_shown(b.effect) && scalars_shown(v.allowed_values@, b.allowed_values@)
}

/// `v` shows the rule `c`.
pub open spec fn constraint_shown(v: ConnectorConstraintView, c: ConnectorConstraint) -> bool {
    &&& v.target_path == c.target_path
    &&& v.resolved_path == c.resolved_path
    &&& v.effect == effect_shown(c.effect)
    &&& v.line_ordinals == c.line_ordinals
    &&& v.replication_ordinals == c.replication_ordinals
    &&& scalars_shown(v.allowed_values@, c.allowed_values@)
    &&& v.allowed_value_labels == c.allowed_value_labels
    &&& scalars_shown(v.denied_values@, c.denied_values@)
    &&& v.explanation == c.explanation
}

/// `v` shows the supported daughterboard `s` and each of its rules.
pub open spec fn supported_shown(v: SlotSupportedDaughterboardView, s: SlotSupportedDaughterboard) -> bool {
    &&& v.daughterboard_id == s.daughterboard_id
    &&& v.validity_rules@.len() == s.validity_rules@.len()
    &&& forall|i: int| 0 <= i < s.validity_rules@.len()
        ==> constraint_shown(#[trigger] v.validity_rules@[i], s.validity_rules@[i])
}

/// `v` shows the slot `s`.
pub open spec fn slot_shown(v: ConnectorSlotView, s: ConnectorSlot) -> bool {
    &&& v.slot_id == s.slot_id
    &&& v.label == s.label
    &&& v.order == s.order
    &&& v.allow_none_installed == s.allow_none_installed
    &&& v.supported_daughterboard_ids == s.supported_daughterboard_ids
    &&& v.affected_paths == s.affected_paths
    &&& v.resolved_affected_paths == s.resolved_affected_paths
    &&& match (v.base_behavior_when_empty, s.base_behavior_when_empty) {
        (Some(a), Some(b)) => behavior_shown(a, b),
        (None, None) => true,
        _ => false,
    }
    &&& v.supported_daughterboard_constraints@.len() == s.supported_daughterboard_constraints@.len()
    &&& forall|i: int| 0 <= i < s.supported_daughterboard_constraints@.len()
        ==> supported_shown(#[trigger] v.supported_daughterboard_constraints@[i], s.supported_daughterboard_constraints@[i])
}

/// `v` shows the daughterboard `d`.
pub open spec fn daughterboard_shown(v: DaughterboardView, d: SupportedDaughterboard) -> bool {
    &&& v.daughterboard_id == d.daughterboard_id
    &&& v.display_name == d.display_name
    &&& v.kind == d.kind
    &&& v.description == d.description
}

/// `v` shows the profile `p`: its node, carrier, slots and daughterboards.
pub open spec fn profile_shown(v: ConnectorProfileView, p: ConnectorProfile) -> bool {
    &&& v.node_id == p.node_id
    &&& v.carrier_key == p.carrier_key
    &&& v.slots@.len() == p.slots@.len()
    &&& forall|i: int| 0 <= i < p.slots@.len() ==> slot_shown(#[trigger] v.slots@[i], p.slots@[i])
    &&& v.supported_daughterboards@.len() == p.supported_daughterboards@.len()
    &&& forall|i: int| 0 <= i < p.supported_daughterboards@.len()
        ==> daughterboard_shown(#[trigger] v.supported_daughterboards@[i], p.supported_daughterboards@[i])
}

impl ConnectorScalarValueView {
    /// The view of a scalar value.
    pub fn from(value: ConnectorScalarValue) -> (r: Self)
        ensures
            r == scalar_shown(value),
    {
        match value {
            ConnectorScalarValue::String(s) => ConnectorScalarValueView::String(s),
            ConnectorScalarValue::Integer(i) => ConnectorScalarValueView::Integer(i),
        }
    }
}

/// The views of scalar values, in order.
fn scalars_from(values: Vec<ConnectorScalarValue>) -> (r: Vec<ConnectorScalarValueView>)
    ensures
        scalars_shown(r@, values@),
{
    let ghost orig = values@;
    let mut rest = values;
    let mut out: Vec<ConnectorScalarValueView> = Vec::new();
    while rest.len() > 0
        invariant
            out@.len() + rest@.len() == orig.len(),
            rest@ == orig.subrange(out@.len() as int, orig.len() as int),
            out@ == orig.subrange(0, out@.len() as int).map_values(|x: ConnectorScalarValue| scalar_shown(x)),
        decreases rest@.len(),
    {
        let ghost k = out@.len() as int;
        let x = rest.remove(0);
        out.push(ConnectorScalarValueView::from(x));
        assert(rest@ =~= orig.subrange(k + 1, orig.len() as int));
        assert(out@ =~= orig.subrange(0, k + 1).map_values(|x: ConnectorScalarValue| scalar_shown(x)));
    }
    assert(orig.subrange(0, orig.len() as int) =~= orig);
    out
}

impl EmptyConnectorBehaviorView {
    /// The view of an empty slot's behavior.
    pub fn from(value: EmptyConnectorBehavior) -> (r: Self)
        ensures
            behavior_shown(r, value),
    {
        let effect = match value.effect {
            EmptyConnectorConstraintEffect::Hide => FilterEffect::Hide,
            EmptyConnectorConstraintEffect::Disable => FilterEffect::Disable,
            EmptyConnectorConstraintEffect::AllowValues => FilterEffect::AllowValues,
        };
        EmptyConnectorBehaviorView { effect, allowed_values: scalars_from(value.allowed_values) }
    }
}

impl ConnectorConstraintView {
    /// The view of a daughterboard rule.
    pub fn from(value: ConnectorConstraint) -> (r: Self)
        ensures
            constraint_shown(r, value),
    {
        let effect = match value.effect {
            ConnectorConstraintEffect::Show => FilterEffect::Show,
            ConnectorConstraintEffect::Hide => FilterEffect::Hide,
            ConnectorConstraintEffect::Disable => FilterEffect::Disable,
            ConnectorConstraintEffect::AllowValues => FilterEffect::AllowValues,
            ConnectorConstraintEffect::DenyValues => FilterEffect::DenyValues,
            ConnectorConstraintEffect::ReadOnly => FilterEffect::ReadOnly,
        };
        ConnectorConstraintView {
            target_path: value.target_path,
            resolved_path: value.resolved_path,
            effect,
            line_ordinals: value.line_ordinals,
            replication_ordinals: value.replication_ordinals,
            allowed_values: scalars_from(value.allowed_values),
            allowed_value_labels: value.allowed_value_labels,
            denied_values: scalars_from(value.denied_values),
            explanation: value.explanation,
        }
    }
}

impl SlotSupportedDaughterboardView {
    /// The view of a supported daughterboard and its rules.
    pub fn from(value: SlotSupportedDaughterboard) -> (r: Self)
        ensures
            supported_shown(r, value),
    {
        let ghost orig = value.validity_rules@;
        let mut rest = value.validity_rules;
        let mut out: Vec<ConnectorConstraintView> = Vec::new();
        while rest.len() > 0
            invariant
                out@.len() + rest@.len() == orig.len(),
                rest@ == orig.subrange(out@.len() as int, orig.len() as int),
                forall|i: int| 0 <= i < out@.len() ==> constraint_shown(#[trigger] out@[i], orig[i]),
            decreases rest@.len(),
        {
            let ghost k = out@.len() as int;
            let x = rest.remove(0);
            out.push(ConnectorConstraintView::from(x));
            assert(rest@ =~= orig.subrange(k + 1, orig.len() as int));
        }
        SlotSupportedDaughterboardView { daughterboard_id: value.daughterboard_id, validity_rules: out }
    }
}

impl ConnectorSlotView {
    /// The view of a connector slot.
    pub fn from(value: ConnectorSlot) -> (r: Self)
        ensures
            slot_shown(r, value),
    {
        let base = match value.base_behavior_when_empty {
            Some(b) => Some(EmptyConnectorBehaviorView::from(b)),
            None => None,
        };
        let ghost orig = value.supported_daughterboard_constraints@;
        let mut rest = value.supported_daughterboard_constraints;
        let mut out: Vec<SlotSupportedDaughterboardView> = Vec::new();
        while rest.len() > 0
            invariant
                out@.len() + rest@.len() == orig.len(),
                rest@ == orig.subrange(out@.len() as int, orig.len() as int),
                forall|i: int| 0 <= i < out@.len() ==> supported_shown(#[trigger] out@[i], orig[i]),
            decreases rest@.len(),
        {
            let ghost k = out@.len() as int;
            let x = rest.remove(0);
            out.push(SlotSupportedDaughterboardView::from(x));
            assert(rest@ =~= orig.subrange(k + 1, orig.len() as int));
        }
        ConnectorSlotView {
            slot_id: value.slot_id,
            label: value.label,
            order: value.order,
            allow_none_installed: value.allow_none_installed,
            supported_daughterboard_ids: value.supported_daughterboard_ids,
            affected_paths: value.affected_paths,
            resolved_affected_paths: value.resolved_affected_paths,
            base_behavior_when_empty: base,
            supported_daughterboard_constraints: out,
        }
    }
}

impl DaughterboardView {
    /// The view of a daughterboard.
    pub fn from(value: SupportedDaughterboard) -> (r: Self)
        ensures
            daughterboard_shown(r, value),
    {
        DaughterboardView {
            daughterboard_id: value.daughterboard_id,
            display_name: value.display_name,
            kind: value.kind,
            description: value.description,
        }
    }
}

impl ConnectorProfileView {
    /// The view of a connector profile: every slot and daughterboard, in order.
    pub fn from(value: ConnectorProfile) -> (r: Self)
        ensures
            profile_shown(r, value),
    {
        let ghost slots0 = value.slots@;
        let mut rest = value.slots;
        let mut slots: Vec<ConnectorSlotView> = Vec::new();
        while rest.len() > 0
            invariant
                slots@.len() + rest@.len() == slots0.len(),
                rest@ == slots0.subrange(slots@.len() as int, slots0.len() as int),
                forall|i: int| 0 <= i < slots@.len() ==> slot_shown(#[trigger] slots@[i], slots0[i]),
            decreases rest@.len(),
        {
            let ghost k = slots@.len() as int;
            let x = rest.remove(0);
            slots.push(ConnectorSlotView::from(x));
            assert(rest@ =~= slots0.subrange(k + 1, slots0.len() as int));
        }
        let ghost boards0 = value.supported_daughterboards@;
        let mut rest_b = value.supported_daughterboards;
        let mut boards: Vec<DaughterboardView> = Vec::new();
        while rest_b.len() > 0
            invariant
                boards@.len() + rest_b@.len() == boards0.len(),
                rest_b@ == boards0.subrange(boards@.len() as int, boards0.len() as int),
                forall|i: int| 0 <= i < boards@.len() ==> daughterboard_shown(#[trigger] boards@[i], boards0[i]),
            decreases rest_b@.len(),
        {
            let ghost k = boards@.len() as int;
            let x = rest_b.remove(0);
            boards.push(DaughterboardView::from(x));
            assert(rest_b@ =~= boards0.subrange(k + 1, boards0.len() as int));
        }
        ConnectorProfileView { node_id: value.node_id, carrier_key: value.carrier_key, slots, supported_daughterboards: boards }
    }
}

/// The connector profile of a node tree, as shown; none when the tree has none.
pub fn connector_profile_view(profile: Option<ConnectorProfile>) -> (r: Option<ConnectorProfileView>)
    ensures
        match (r, profile) {
            (Some(v), Some(p)) => profile_shown(v, p),
            (None, None) => true,
            _ => false,
        },
{
    match profile {
        Some(p) => Some(ConnectorProfileView::from(p)),
        None => None,
    }
}

/// The text of a compatibility preview, which is not offered yet.
pub open spec fn preview_unavailable() -> Seq<char> {
    "Connector compatibility preview is not implemented yet"@
}

/// Previews what a change of selection would do: not offered yet, so every
/// request is answered with the same error.
pub fn preview_connector_compatibility(request: &CompatibilityPreviewRequest) -> (r: Result<CompatibilityPreviewResponse, String>)
    ensures
        r matches Err(m) && m@ == preview_unavailable(),
{
    Err(string_of("Connector compatibility preview is not implemented yet"))
}

} // verus!
