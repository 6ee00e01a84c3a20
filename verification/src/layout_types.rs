//! Layout file documents (`.bowties.yaml`): bowtie metadata, role
//! classifications and connector selections, the edit deltas the frontend
//! sends, and schema validation.

use vstd::prelude::*;
use crate::stamps::now_rfc3339;
use crate::text::{ascii_upper, remove_char, chars_of, char_is_hex, char_is_digit, is_hex_char, is_digit_char, opt_str, strs, string_of};
use crate::strmap::{StrMap, str_eq, lemma_view_insert, lemma_view_remove};
use crate::node_id::{NodeId, parses_as_node_id};
use crate::sync::{node_key, normalize_node_key};

verus! {

/// Current schema version for layout files.
pub const SCHEMA_VERSION: &'static str = "1.0";

/// The transport/protocol variant for a connection.
#[derive(Clone, Copy, Debug, PartialEq, Eq, Structural)]
pub enum AdapterType {
    /// Network hub (JMRI, standalone TCP/IP bridge). Default LCC port 12021.
    Tcp,
    /// GridConnect framing over USB serial.
    GridConnectSerial,
    /// SLCAN (Lawicel) framing over USB serial.
    SlcanSerial,
}

/// Hardware flow control mode for serial connections.
#[derive(Clone, Copy, Debug, PartialEq, Eq, Structural)]
pub enum FlowControl {
    /// No hardware flow control (default for most adapters).
    NoFlow,
    /// RTS/CTS hardware flow control.
    RtsCts,
}

impl FlowControl {
    /// The default flow control: none.
    pub fn default_value() -> (r: FlowControl)
        ensures
            r == FlowControl::NoFlow,
    {
        FlowControl::NoFlow
    }
}

/// A saved connection configuration entry.
#[derive(Debug)]
pub struct ConnectionConfig {
    /// Unique identifier (UUID v4)
    pub id: String,
    /// User-visible label for this connection
    pub name: String,
    /// Protocol / adapter type
    pub adapter_type: AdapterType,
    /// TCP hostname or IP (TCP only)
    pub host: Option<String>,
    /// TCP port number (TCP only)
    pub port: Option<u16>,
    /// Serial port path (serial only)
    pub serial_port: Option<String>,
    /// Serial baud rate (serial only)
    pub baud_rate: Option<u32>,
    /// Hardware flow control mode (GridConnect serial only)
    pub flow_control: FlowControl,
}

/// Status of one persisted connector selection.
#[derive(Clone, Copy, Debug, PartialEq, Eq, Structural)]
pub enum ConnectorSelectionStatus {
    Selected,
    /// The slot is known to be empty.
    NoneInstalled,
    Unknown,
}

/// One persisted connector selection for a specific slot.
#[derive(Debug)]
pub struct ConnectorSelectionRecord {
    pub selected_daughterboard_id: Option<String>,
    pub status: ConnectorSelectionStatus,
    pub source_profile_version: Option<String>,
}

/// Abstract value of a [`ConnectorSelectionRecord`].
pub struct SelectionRecordView {
    pub selected_daughterboard_id: Option<Seq<char>>,
    pub status: ConnectorSelectionStatus,
    pub source_profile_version: Option<Seq<char>>,
}

impl View for ConnectorSelectionRecord {
    type V = SelectionRecordView;

    open spec fn view(&self) -> SelectionRecordView {
        SelectionRecordView {
            selected_daughterboard_id: opt_str(self.selected_daughterboard_id),
            status: self.status,
            source_profile_version: opt_str(self.source_profile_version),
        }
    }
}

/// Saved per-node connector daughterboard assumptions for one layout context.
#[derive(Debug)]
pub struct NodeHardwareSelectionSet {
    pub carrier_key: String,
    pub slot_selections: StrMap<ConnectorSelectionRecord>,
    pub updated_at: Option<String>,
}

/// Abstract value of a [`NodeHardwareSelectionSet`].
pub struct SelectionSetView {
    pub carrier_key: Seq<char>,
    pub slot_selections: Map<Seq<char>, SelectionRecordView>,
    pub updated_at: Option<Seq<char>>,
}

impl View for NodeHardwareSelectionSet {
    type V = SelectionSetView;

    open spec fn view(&self) -> SelectionSetView {
        SelectionSetView {
            carrier_key: self.carrier_key@,
            slot_selections: self.slot_selections@,
            updated_at: opt_str(self.updated_at),
        }
    }
}

/// Metadata for a single bowtie, stored in layout YAML.
#[derive(Debug)]
pub struct BowtieMetadata {
    pub name: Option<String>,
    pub tags: Vec<String>,
}

/// Abstract value of a [`BowtieMetadata`].
pub struct BowtieView {
    pub name: Option<Seq<char>>,
    pub tags: Seq<Seq<char>>,
}

impl View for BowtieMetadata {
    type V = BowtieView;

    open spec fn view(&self) -> BowtieView {
        BowtieView { name: opt_str(self.name), tags: strs(self.tags@) }
    }
}

/// User-provided role classification for an ambiguous event slot.
#[derive(Debug)]
pub struct RoleClassification {
    pub role: String,
}

impl View for RoleClassification {
    type V = Seq<char>;

    open spec fn view(&self) -> Seq<char> {
        self.role@
    }
}

/// Root structure of a layout file.
#[derive(Debug)]
pub struct LayoutFile {
    pub schema_version: String,
    pub bowties: StrMap<BowtieMetadata>,
    pub role_classifications: StrMap<RoleClassification>,
    pub connector_selections: StrMap<NodeHardwareSelectionSet>,
}

/// Abstract value of a [`LayoutFile`].
pub struct LayoutView {
    pub schema_version: Seq<char>,
    pub bowties: Map<Seq<char>, BowtieView>,
    pub role_classifications: Map<Seq<char>, Seq<char>>,
    pub connector_selections: Map<Seq<char>, SelectionSetView>,
}

impl View for LayoutFile {
    type V = LayoutView;

    open spec fn view(&self) -> LayoutView {
        LayoutView {
            schema_version: self.schema_version@,
            bowties: self.bowties@,
            role_classifications: self.role_classifications@,
            connector_selections: self.connector_selections@,
        }
    }
}

impl LayoutFile {
    /// An empty layout at the current schema version.
    pub fn default_layout() -> (r: LayoutFile)
        ensures
            r@.schema_version == SCHEMA_VERSION@,
            r.is_valid(),
            r@.bowties == Map::<Seq<char>, BowtieView>::empty(),
            r@.role_classifications == Map::<Seq<char>, Seq<char>>::empty(),
            r@.connector_selections == Map::<Seq<char>, SelectionSetView>::empty(),
    {
        let r = LayoutFile {
            schema_version: string_of(SCHEMA_VERSION),
            bowties: StrMap::new(),
            role_classifications: StrMap::new(),
            connector_selections: StrMap::new(),
        };
        assert(r@.bowties =~= Map::<Seq<char>, BowtieView>::empty());
        assert(r@.role_classifications =~= Map::<Seq<char>, Seq<char>>::empty());
        assert(r@.connector_selections =~= Map::<Seq<char>, SelectionSetView>::empty());
        r
    }
}

impl Default for LayoutFile {
    /// An empty layout at the current schema version.
    fn default() -> (r: LayoutFile)
        ensures
            r@.schema_version == SCHEMA_VERSION@,
            r.is_valid(),
            r@.bowties == Map::<Seq<char>, BowtieView>::empty(),
            r@.role_classifications == Map::<Seq<char>, Seq<char>>::empty(),
            r@.connector_selections == Map::<Seq<char>, SelectionSetView>::empty(),
    {
        LayoutFile::default_layout()
    }
}

/// A single edit operation to apply to a layout file.
#[derive(Debug)]
pub enum LayoutEditDelta {
    /// Create a new bowtie entry (or no-op if it already exists).
    CreateBowtie { event_id_hex: String, name: Option<String> },
    /// Delete a bowtie entry.
    DeleteBowtie { event_id_hex: String },
    /// Rename an existing bowtie (creates if absent).
    RenameBowtie { event_id_hex: String, new_name: String },
    /// Add a tag to a bowtie.
    AddTag { event_id_hex: String, tag: String },
    /// Remove a tag from a bowtie.
    RemoveTag { event_id_hex: String, tag: String },
    /// Classify an event slot's role.
    ClassifyRole { key: String, role: String },
    /// Set connector selection for a node.
    SetConnectorSelection { node_id: String, selection: NodeHardwareSelectionSet },
    /// Adopt a new event ID: move bowtie metadata from the old key to the new key.
    AdoptEventId { old_event_id_hex: String, new_event_id_hex: String },
    /// Promote a discovered node into the layout's saved node roster; it does
    /// not change the layout file itself.
    AddNode { node_id_hex: String },
}

/// Abstract value of a [`LayoutEditDelta`].
pub enum DeltaView {
    CreateBowtie { event_id_hex: Seq<char>, name: Option<Seq<char>> },
    DeleteBowtie { event_id_hex: Seq<char> },
    RenameBowtie { event_id_hex: Seq<char>, new_name: Seq<char> },
    AddTag { event_id_hex: Seq<char>, tag: Seq<char> },
    RemoveTag { event_id_hex: Seq<char>, tag: Seq<char> },
    ClassifyRole { key: Seq<char>, role: Seq<char> },
    SetConnectorSelection { node_id: Seq<char>, selection: SelectionSetView },
    AdoptEventId { old_event_id_hex: Seq<char>, new_event_id_hex: Seq<char> },
    AddNode { node_id_hex: Seq<char> },
}

impl View for LayoutEditDelta {
    type V = DeltaView;

    open spec fn view(&self) -> DeltaView {
        match self {
            LayoutEditDelta::CreateBowtie { event_id_hex, name } => DeltaView::CreateBowtie { event_id_hex: event_id_hex@, name: opt_str(*name) },
            LayoutEditDelta::DeleteBowtie { event_id_hex } => DeltaView::DeleteBowtie { event_id_hex: event_id_hex@ },
            LayoutEditDelta::RenameBowtie { event_id_hex, new_name } => DeltaView::RenameBowtie { event_id_hex: event_id_hex@, new_name: new_name@ },
            LayoutEditDelta::AddTag { event_id_hex, tag } => DeltaView::AddTag { event_id_hex: event_id_hex@, tag: tag@ },
            LayoutEditDelta::RemoveTag { event_id_hex, tag } => DeltaView::RemoveTag { event_id_hex: event_id_hex@, tag: tag@ },
            LayoutEditDelta::ClassifyRole { key, role } => DeltaView::ClassifyRole { key: key@, role: role@ },
            LayoutEditDelta::SetConnectorSelection { node_id, selection } => DeltaView::SetConnectorSelection { node_id: node_id@, selection: selection@ },
            LayoutEditDelta::AdoptEventId { old_event_id_hex, new_event_id_hex } => DeltaView::AdoptEventId { old_event_id_hex: old_event_id_hex@, new_event_id_hex: new_event_id_hex@ },
            LayoutEditDelta::AddNode { node_id_hex } => DeltaView::AddNode { node_id_hex: node_id_hex@ },
        }
    }
}

impl LayoutEditDelta {
    /// If this delta promotes a discovered node, that node's ID in canonical
    /// form: without dots, in upper case.
    pub fn as_add_node(&self) -> (r: Option<String>)
        ensures
            match self@ {
                DeltaView::AddNode { node_id_hex } => r matches Some(k) && k@ == node_key(node_id_hex)
                    && ((forall|i: int| 0 <= i < node_id_hex.len() ==> (#[trigger] node_id_hex[i] as u32) < 128)
                        ==> k@ == remove_char(node_id_hex, '.').map_values(|c: char| ascii_upper(c))),
                _ => r is None,
            },
    {
        match self {
            LayoutEditDelta::AddNode { node_id_hex } => Some(normalize_node_key(node_id_hex.as_str())),
            _ => None,
        }
    }
}

/// `tags` with `tag` appended unless it is already present.
pub open spec fn tags_with(tags: Seq<Seq<char>>, tag: Seq<char>) -> Seq<Seq<char>> {
    if tags.contains(tag) {
        tags
    } else {
        tags.push(tag)
    }
}

/// `tags` with every occurrence of `tag` removed, order kept.
pub open spec fn tags_without(tags: Seq<Seq<char>>, tag: Seq<char>) -> Seq<Seq<char>>
    decreases tags.len(),
{
    if tags.len() == 0 {
        tags
    } else if tags.last() == tag {
        tags_without(tags.drop_last(), tag)
    } else {
        tags_without(tags.drop_last(), tag).push(tags.last())
    }
}

/// The layout with its bowtie map replaced.
pub open spec fn with_bowties(l: LayoutView, b: Map<Seq<char>, BowtieView>) -> LayoutView {
    LayoutView {
        schema_version: l.schema_version,
        bowties: b,
        role_classifications: l.role_classifications,
        connector_selections: l.connector_selections,
    }
}

/// The effect of one edit delta on a layout.
pub open spec fn apply_delta(l: LayoutView, d: DeltaView) -> LayoutView {
    match d {
        DeltaView::CreateBowtie { event_id_hex, name } => {
            if l.bowties.dom().contains(event_id_hex) {
                l
            } else {
                with_bowties(l, l.bowties.insert(event_id_hex, BowtieView { name: name, tags: Seq::empty() }))
            }
        },
        DeltaView::DeleteBowtie { event_id_hex } => with_bowties(l, l.bowties.remove(event_id_hex)),
        DeltaView::RenameBowtie { event_id_hex, new_name } => {
            let tags = if l.bowties.dom().contains(event_id_hex) { l.bowties[event_id_hex].tags } else { Seq::empty() };
            with_bowties(l, l.bowties.insert(event_id_hex, BowtieView { name: Some(new_name), tags: tags }))
        },
        DeltaView::AddTag { event_id_hex, tag } => {
            if l.bowties.dom().contains(event_id_hex) {
                let b = l.bowties[event_id_hex];
                with_bowties(l, l.bowties.insert(event_id_hex, BowtieView { name: b.name, tags: tags_with(b.tags, tag) }))
            } else {
                l
            }
        },
        DeltaView::RemoveTag { event_id_hex, tag } => {
            if l.bowties.dom().contains(event_id_hex) {
                let b = l.bowties[event_id_hex];
                with_bowties(l, l.bowties.insert(event_id_hex, BowtieView { name: b.name, tags: tags_without(b.tags, tag) }))
            } else {
                l
            }
        },
        DeltaView::ClassifyRole { key, role } => LayoutView {
            schema_version: l.schema_version,
            bowties: l.bowties,
            role_classifications: l.role_classifications.insert(key, role),
            connector_selections: l.connector_selections,
        },
        DeltaView::SetConnectorSelection { node_id, selection } => LayoutView {
            schema_version: l.schema_version,
            bowties: l.bowties,
            role_classifications: l.role_classifications,
            connector_selections: l.connector_selections.insert(node_id, selection),
        },
        DeltaView::AdoptEventId { old_event_id_hex, new_event_id_hex } => {
            if l.bowties.dom().contains(old_event_id_hex) {
                with_bowties(l, l.bowties.remove(old_event_id_hex).insert(new_event_id_hex, l.bowties[old_event_id_hex]))
            } else {
                l
            }
        },
        DeltaView::AddNode { .. } => l,
    }
}

/// The effect of a sequence of edit deltas, applied in order.
pub open spec fn apply_deltas(l: LayoutView, ds: Seq<DeltaView>) -> LayoutView
    decreases ds.len(),
{
    if ds.len() == 0 {
        l
    } else {
        apply_deltas(apply_delta(l, ds[0]), ds.drop_first())
    }
}

/// Views of a list of deltas.
pub open spec fn deltas_view(ds: Seq<LayoutEditDelta>) -> Seq<DeltaView> {
    ds.map_values(|d: LayoutEditDelta| d@)
}

/// `tags` contains `tag`.
fn tags_contain(tags: &Vec<String>, tag: &String) -> (b: bool)
    ensures
        b == strs(tags@).contains(tag@),
{
    let mut i: usize = 0;
    while i < tags.len()
        invariant
            i <= tags.len(),
            forall|j: int| 0 <= j < i ==> #[trigger] strs(tags@)[j] != tag@,
        decreases tags.len() - i,
    {
        if str_eq(tags[i].as_str(), tag.as_str()) {
            assert(strs(tags@)[i as int] == tag@);
            return true;
        }
        i = i + 1;
    }
    false
}

/// `tags` with every occurrence of `tag` removed.
fn tags_removed(tags: Vec<String>, tag: &String) -> (r: Vec<String>)
    ensures
        strs(r@) == tags_without(strs(tags@), tag@),
{
    let mut out: Vec<String> = Vec::new();
    let mut i: usize = 0;
    while i < tags.len()
        invariant
            i <= tags.len(),
            strs(out@) == tags_without(strs(tags@.subrange(0, i as int)), tag@),
        decreases tags.len() - i,
    {
        let ghost pre = tags@.subrange(0, i as int);
        assert(strs(tags@.subrange(0, i + 1)).drop_last() =~= strs(pre));
        assert(strs(tags@.subrange(0, i + 1)).last() == tags@[i as int]@);
        if !str_eq(tags[i].as_str(), tag.as_str()) {
            out.push(tags[i].clone());
            assert(strs(out@) =~= strs(out@.drop_last()).push(out@.last()@));
        }
        i = i + 1;
    }
    assert(tags@.subrange(0, tags@.len() as int) =~= tags@);
    out
}

/// Applies one edit delta to a layout file.
pub fn apply_layout_delta(layout: &mut LayoutFile, delta: LayoutEditDelta)
    ensures
        final(layout)@ == apply_delta(old(layout)@, delta@),
{
    let ghost l0 = layout@;
    let ghost dv = delta@;
    match delta {
        LayoutEditDelta::CreateBowtie { event_id_hex, name } => {
            if !layout.bowties.contains_key(event_id_hex.as_str()) {
                let ghost k = event_id_hex@;
                let b = BowtieMetadata { name, tags: Vec::new() };
                let ghost bm = layout.bowties.map();
                assert(b@.tags =~= Seq::<Seq<char>>::empty());
                layout.bowties.insert(event_id_hex, b);
                proof { lemma_view_insert(bm, k, b); }
            }
        },
        LayoutEditDelta::DeleteBowtie { event_id_hex } => {
            let ghost bm = layout.bowties.map();
            let _ = layout.bowties.remove(event_id_hex.as_str());
            proof { lemma_view_remove(bm, event_id_hex@); }
        },
        LayoutEditDelta::RenameBowtie { event_id_hex, new_name } => {
            let ghost bm = layout.bowties.map();
            let ghost k = event_id_hex@;
            let tags = match layout.bowties.remove(event_id_hex.as_str()) {
                Some(b) => b.tags,
                None => Vec::new(),
            };
            let b = BowtieMetadata { name: Some(new_name), tags };
            let ghost bm1 = layout.bowties.map();
            layout.bowties.insert(event_id_hex, b);
            proof {
                lemma_view_remove(bm, k);
                lemma_view_insert(bm1, k, b);
                assert(layout.bowties@ =~= bm.map_values(|x: BowtieMetadata| x@).insert(k, b@));
                if !bm.dom().contains(k) {
                    assert(b@.tags =~= Seq::<Seq<char>>::empty());
                }
            }
        },
        LayoutEditDelta::AddTag { event_id_hex, tag } => {
            let ghost bm = layout.bowties.map();
            let ghost k = event_id_hex@;
            match layout.bowties.remove(event_id_hex.as_str()) {
                Some(mut b) => {
                    let ghost b0 = b;
                    if !tags_contain(&b.tags, &tag) {
                        b.tags.push(tag);
                        assert(strs(b.tags@) =~= strs(b0.tags@).push(b.tags@.last()@));
                    }
                    let ghost bm1 = layout.bowties.map();
                    layout.bowties.insert(event_id_hex, b);
                    proof {
                        lemma_view_remove(bm, k);
                        lemma_view_insert(bm1, k, b);
                        assert(layout.bowties@ =~= bm.map_values(|x: BowtieMetadata| x@).insert(k, b@));
                    }
                },
                None => {
                    proof {
                        assert(bm.remove(k) =~= bm);
                    }
                },
            }
        },
        LayoutEditDelta::RemoveTag { event_id_hex, tag } => {
            let ghost bm = layout.bowties.map();
            let ghost k = event_id_hex@;
            match layout.bowties.remove(event_id_hex.as_str()) {
                Some(b) => {
                    let BowtieMetadata { name, tags } = b;
                    let nb = BowtieMetadata { name, tags: tags_removed(tags, &tag) };
                    let ghost bm1 = layout.bowties.map();
                    layout.bowties.insert(event_id_hex, nb);
                    proof {
                        lemma_view_remove(bm, k);
                        lemma_view_insert(bm1, k, nb);
                        assert(layout.bowties@ =~= bm.map_values(|x: BowtieMetadata| x@).insert(k, nb@));
                    }
                },
                None => {
                    proof {
                        assert(bm.remove(k) =~= bm);
                    }
                },
            }
        },
        LayoutEditDelta::ClassifyRole { key, role } => {
            let ghost rm = layout.role_classifications.map();
            let ghost k = key@;
            let rc = RoleClassification { role };
            layout.role_classifications.insert(key, rc);
            proof { lemma_view_insert(rm, k, rc); }
        },
        LayoutEditDelta::SetConnectorSelection { node_id, selection } => {
            let ghost sm = layout.connector_selections.map();
            let ghost k = node_id@;
            let ghost sv = selection;
            layout.connector_selections.insert(node_id, selection);
            proof { lemma_view_insert(sm, k, sv); }
        },
        LayoutEditDelta::AdoptEventId { old_event_id_hex, new_event_id_hex } => {
            let ghost bm = layout.bowties.map();
            match layout.bowties.remove(old_event_id_hex.as_str()) {
                Some(meta) => {
                    let ghost bm1 = layout.bowties.map();
                    let ghost mv = meta;
                    layout.bowties.insert(new_event_id_hex, meta);
                    proof {
                        lemma_view_remove(bm, old_event_id_hex@);
                        lemma_view_insert(bm1, new_event_id_hex@, mv);
                    }
                },
                None => {
                    proof {
                        assert(bm.remove(old_event_id_hex@) =~= bm);
                    }
                },
            }
        },
        LayoutEditDelta::AddNode { .. } => {},
    }
}

/// Applies a sequence of edit deltas to a layout file, in order.
pub fn apply_layout_deltas(layout: &mut LayoutFile, deltas: Vec<LayoutEditDelta>)
    ensures
        final(layout)@ == apply_deltas(old(layout)@, deltas_view(deltas@)),
{
    let ghost all = deltas_view(deltas@);
    let mut rest = deltas;
    let ghost mut done: int = 0;
    while rest.len() > 0
        invariant
            deltas_view(rest@) == all.skip(done),
            0 <= done,
            done + rest@.len() == all.len(),
            apply_deltas(old(layout)@, all) == apply_deltas(layout@, deltas_view(rest@)),
        decreases rest.len(),
    {
        let ghost before = layout@;
        let ghost rv = deltas_view(rest@);
        let d = rest.remove(0);
        apply_layout_delta(layout, d);
        proof {
            assert(deltas_view(rest@) =~= rv.drop_first());
            assert(rv[0] == d@);
        }
        proof {
            assert(all.skip(done + 1) =~= all.skip(done).drop_first());
            done = done + 1;
        }
    }
    proof { assert(deltas_view(rest@) =~= Seq::<DeltaView>::empty()); }
}

/// A dotted-hex event ID: eight two-digit hex groups joined by dots.
pub open spec fn is_event_id_hex(s: Seq<char>) -> bool {
    &&& s.len() == 23
    &&& forall|i: int| 0 <= i < 23 ==> (if i % 3 == 2 { #[trigger] s[i] == '.' } else { is_hex_char(s[i]) })
}

/// The prefix of a planning placeholder key.
pub open spec fn planning_prefix() -> Seq<char> {
    seq!['p', 'l', 'a', 'n', 'n', 'i', 'n', 'g', '-']
}

/// A bowtie key: a dotted-hex event ID or `planning-` followed by digits.
pub open spec fn is_bowtie_key(s: Seq<char>) -> bool {
    is_event_id_hex(s) || (s.len() >= 9 && s.subrange(0, 9) == planning_prefix()
        && forall|i: int| 9 <= i < s.len() ==> is_digit_char(#[trigger] s[i]))
}

/// Checks a dotted-hex event ID (e.g. `05.01.01.01.FF.00.00.01`).
pub fn is_valid_event_id_hex(s: &str) -> (b: bool)
    ensures
        b == is_event_id_hex(s@),
{
    let c = chars_of(s);
    if c.len() != 23 {
        return false;
    }
    let mut i: usize = 0;
    while i < 23
        invariant
            c@ == s@,
            c@.len() == 23,
            i <= 23,
            forall|j: int| 0 <= j < i ==> (if j % 3 == 2 { #[trigger] c@[j] == '.' } else { is_hex_char(c@[j]) }),
        decreases 23 - i,
    {
        if i % 3 == 2 {
            if c[i] != '.' {
                return false;
            }
        } else if !char_is_hex(c[i]) {
            return false;
        }
        i = i + 1;
    }
    true
}

/// Checks a bowtie key: a dotted-hex event ID or a `planning-<digits>` placeholder.
pub fn is_valid_bowtie_key(s: &str) -> (b: bool)
    ensures
        b == is_bowtie_key(s@),
{
    if is_valid_event_id_hex(s) {
        return true;
    }
    let c = chars_of(s);
    assert(!is_event_id_hex(s@));
    if c.len() < 9 {
        return false;
    }
    let p: [char; 9] = ['p', 'l', 'a', 'n', 'n', 'i', 'n', 'g', '-'];
    let mut i: usize = 0;
    while i < 9
        invariant
            c@ == s@,
            !is_event_id_hex(s@),
            c@.len() >= 9,
            p@ == planning_prefix(),
            i <= 9,
            forall|j: int| 0 <= j < i ==> c@[j] == #[trigger] planning_prefix()[j],
        decreases 9 - i,
    {
        if c[i] != p[i] {
            assert(c@.subrange(0, 9)[i as int] != planning_prefix()[i as int]);
            return false;
        }
        i = i + 1;
    }
    assert(c@.subrange(0, 9) =~= planning_prefix());
    while i < c.len()
        invariant
            c@ == s@,
            !is_event_id_hex(s@),
            c@.subrange(0, 9) == planning_prefix(),
            9 <= i <= c@.len(),
            forall|j: int| 9 <= j < i ==> is_digit_char(#[trigger] c@[j]),
        decreases c.len() - i,
    {
        if !char_is_digit(c[i]) {
            assert(!is_digit_char(c@[i as int]));
            return false;
        }
        i = i + 1;
    }
    true
}

/// A role classification value: `Producer` or `Consumer`.
pub open spec fn is_role(r: Seq<char>) -> bool {
    r == seq!['P', 'r', 'o', 'd', 'u', 'c', 'e', 'r'] || r == seq!['C', 'o', 'n', 's', 'u', 'm', 'e', 'r']
}

proof fn lemma_role_literals()
    ensures
        "Producer"@ == seq!['P', 'r', 'o', 'd', 'u', 'c', 'e', 'r'],
        "Consumer"@ == seq!['C', 'o', 'n', 's', 'u', 'm', 'e', 'r'],
{
    reveal_strlit("Producer");
    reveal_strlit("Consumer");
    assert("Producer"@ =~= seq!['P', 'r', 'o', 'd', 'u', 'c', 'e', 'r']);
    assert("Consumer"@ =~= seq!['C', 'o', 'n', 's', 'u', 'm', 'e', 'r']);
}

/// A connector selection that claims `Selected` without naming a daughterboard.
pub open spec fn selection_incomplete(r: ConnectorSelectionRecord) -> bool {
    r.status == ConnectorSelectionStatus::Selected && r.selected_daughterboard_id is None
}

/// Slots of the `i`-th node of a selection map.
pub open spec fn node_slots(s: Seq<(String, NodeHardwareSelectionSet)>, i: int) -> Seq<(String, ConnectorSelectionRecord)> {
    s[i].1.slot_selections.seq()
}

/// Node `i` has some incomplete slot selection.
pub open spec fn node_has_incomplete(s: Seq<(String, NodeHardwareSelectionSet)>, i: int) -> bool {
    exists|j: int| 0 <= j < node_slots(s, i).len() && selection_incomplete(#[trigger] node_slots(s, i)[j].1)
}

/// `i` is the first bowtie entry whose key is invalid.
pub open spec fn first_bad_bowtie(s: Seq<(String, BowtieMetadata)>, i: int) -> bool {
    &&& 0 <= i < s.len()
    &&& !is_bowtie_key(s[i].0@)
    &&& forall|j: int| 0 <= j < i ==> is_bowtie_key(#[trigger] s[j].0@)
}

/// `i` is the first role entry whose role is not `Producer`/`Consumer`.
pub open spec fn first_bad_role(s: Seq<(String, RoleClassification)>, i: int) -> bool {
    &&& 0 <= i < s.len()
    &&& !is_role(s[i].1.role@)
    &&& forall|j: int| 0 <= j < i ==> is_role(#[trigger] s[j].1.role@)
}

/// `(i, j)` is the first incomplete slot selection, node by node.
pub open spec fn first_bad_selection(s: Seq<(String, NodeHardwareSelectionSet)>, i: int, j: int) -> bool {
    &&& 0 <= i < s.len()
    &&& 0 <= j < node_slots(s, i).len()
    &&& selection_incomplete(node_slots(s, i)[j].1)
    &&& forall|k: int| 0 <= k < j ==> !selection_incomplete(#[trigger] node_slots(s, i)[k].1)
    &&& forall|k: int| 0 <= k < i ==> !node_has_incomplete(s, k)
}

/// Message for an unsupported schema version.
pub open spec fn schema_error(v: Seq<char>) -> Seq<char> {
    "Unsupported layout schema version: "@ + v + " (expected "@ + SCHEMA_VERSION@ + ")"@
}

/// Message for an invalid bowtie key.
pub open spec fn bowtie_key_error(k: Seq<char>) -> Seq<char> {
    "Invalid bowtie key '"@ + k + "': must be dotted hex (e.g. 05.01.01.01.FF.00.00.01) or a planning placeholder (e.g. planning-1234567890)"@
}

/// Message for an invalid role classification.
pub open spec fn role_error(k: Seq<char>, r: Seq<char>) -> Seq<char> {
    "Invalid role '"@ + r + "' for classification '"@ + k + "': must be 'Producer' or 'Consumer'"@
}

/// Message for an incomplete connector selection.
pub open spec fn selection_error(n: Seq<char>, slot: Seq<char>) -> Seq<char> {
    "Invalid connector selection for node '"@ + n + "' slot '"@ + slot + "': selected status requires selectedDaughterboardId"@
}

impl LayoutFile {
    /// The layout passes schema validation.
    pub open spec fn is_valid(&self) -> bool {
        &&& self.schema_version@ == SCHEMA_VERSION@
        &&& forall|i: int| 0 <= i < self.bowties.seq().len() ==> is_bowtie_key(#[trigger] self.bowties.seq()[i].0@)
        &&& forall|i: int| 0 <= i < self.role_classifications.seq().len() ==> is_role(#[trigger] self.role_classifications.seq()[i].1.role@)
        &&& forall|i: int| 0 <= i < self.connector_selections.seq().len() ==> !node_has_incomplete(self.connector_selections.seq(), i)
    }

    /// The message validation reports: the first failing check, in the order
    /// schema version, bowtie keys, role classifications, connector selections.
    pub open spec fn validation_message(&self, m: Seq<char>) -> bool {
        if self.schema_version@ != SCHEMA_VERSION@ {
            m == schema_error(self.schema_version@)
        } else if exists|i: int| first_bad_bowtie(self.bowties.seq(), i) {
            exists|i: int| first_bad_bowtie(self.bowties.seq(), i) && m == bowtie_key_error(self.bowties.seq()[i].0@)
        } else if exists|i: int| first_bad_role(self.role_classifications.seq(), i) {
            exists|i: int| #![auto] first_bad_role(self.role_classifications.seq(), i)
                && m == role_error(self.role_classifications.seq()[i].0@, self.role_classifications.seq()[i].1.role@)
        } else {
            exists|i: int, j: int| #![auto] first_bad_selection(self.connector_selections.seq(), i, j)
                && m == selection_error(self.connector_selections.seq()[i].0@, node_slots(self.connector_selections.seq(), i)[j].0@)
        }
    }

    /// Validates schema version and structure.
    pub fn validate(&self) -> (r: Result<(), String>)
        ensures
            r is Ok <==> self.is_valid(),
            r matches Err(m) ==> self.validation_message(m@),
    {
        if !str_eq(self.schema_version.as_str(), SCHEMA_VERSION) {
            let mut m = string_of("Unsupported layout schema version: ");
            m.append(self.schema_version.as_str());
            m.append(" (expected ");
            m.append(SCHEMA_VERSION);
            m.append(")");
            return Err(m);
        }
        let bs = self.bowties.as_slice();
        let mut i: usize = 0;
        while i < bs.len()
            invariant
                self.schema_version@ == SCHEMA_VERSION@,
                bs@ == self.bowties.seq(),
                i <= bs@.len(),
                forall|j: int| 0 <= j < i ==> is_bowtie_key(#[trigger] bs@[j].0@),
            decreases bs.len() - i,
        {
            if !is_valid_bowtie_key(bs[i].0.as_str()) {
                let mut m = string_of("Invalid bowtie key '");
                m.append(bs[i].0.as_str());
                m.append("': must be dotted hex (e.g. 05.01.01.01.FF.00.00.01) or a planning placeholder (e.g. planning-1234567890)");
                proof {
                    assert(first_bad_bowtie(bs@, i as int));
                    assert forall|k: int| first_bad_bowtie(bs@, k) implies k == i by {
                        if k < i { assert(is_bowtie_key(bs@[k].0@)); }
                        if k > i { assert(is_bowtie_key(bs@[i as int].0@)); }
                    }
                }
                return Err(m);
            }
            i = i + 1;
        }
        let rs = self.role_classifications.as_slice();
        let mut i: usize = 0;
        while i < rs.len()
            invariant
                self.schema_version@ == SCHEMA_VERSION@,
                bs@ == self.bowties.seq(),
                forall|j: int| 0 <= j < bs@.len() ==> is_bowtie_key(#[trigger] bs@[j].0@),
                rs@ == self.role_classifications.seq(),
                i <= rs@.len(),
                forall|j: int| 0 <= j < i ==> is_role(#[trigger] rs@[j].1.role@),
            decreases rs.len() - i,
        {
            let role = rs[i].1.role.as_str();
            proof { lemma_role_literals(); }
            if !str_eq(role, "Producer") && !str_eq(role, "Consumer") {
                let mut m = string_of("Invalid role '");
                m.append(role);
                m.append("' for classification '");
                m.append(rs[i].0.as_str());
                m.append("': must be 'Producer' or 'Consumer'");
                proof {
                    assert(!is_role(rs@[i as int].1.role@));
                    assert(first_bad_role(rs@, i as int));
                    assert forall|k: int| first_bad_role(rs@, k) implies k == i by {
                        if k < i { assert(is_role(rs@[k].1.role@)); }
                        if k > i { assert(is_role(rs@[i as int].1.role@)); }
                    }
                    assert(forall|k: int| #![auto] 0 <= k < bs@.len() ==> !first_bad_bowtie(bs@, k));
                }
                return Err(m);
            }
            i = i + 1;
        }
        let ns = self.connector_selections.as_slice();
        let mut i: usize = 0;
        while i < ns.len()
            invariant
                self.schema_version@ == SCHEMA_VERSION@,
                bs@ == self.bowties.seq(),
                forall|j: int| 0 <= j < bs@.len() ==> is_bowtie_key(#[trigger] bs@[j].0@),
                rs@ == self.role_classifications.seq(),
                forall|j: int| 0 <= j < rs@.len() ==> is_role(#[trigger] rs@[j].1.role@),
                ns@ == self.connector_selections.seq(),
                i <= ns@.len(),
                forall|j: int| 0 <= j < i ==> !node_has_incomplete(ns@, j),
            decreases ns.len() - i,
        {
            let slots = ns[i].1.slot_selections.as_slice();
            let mut j: usize = 0;
            while j < slots.len()
                invariant
                    self.schema_version@ == SCHEMA_VERSION@,
                bs@ == self.bowties.seq(),
                    forall|k: int| 0 <= k < bs@.len() ==> is_bowtie_key(#[trigger] bs@[k].0@),
                    rs@ == self.role_classifications.seq(),
                    forall|k: int| 0 <= k < rs@.len() ==> is_role(#[trigger] rs@[k].1.role@),
                    ns@ == self.connector_selections.seq(),
                    i < ns@.len(),
                    forall|k: int| 0 <= k < i ==> !node_has_incomplete(ns@, k),
                    slots@ == node_slots(ns@, i as int),
                    j <= slots@.len(),
                    forall|k: int| 0 <= k < j ==> !selection_incomplete(#[trigger] slots@[k].1),
                decreases slots.len() - j,
            {
                let rec = &slots[j].1;
                if rec.status == ConnectorSelectionStatus::Selected && rec.selected_daughterboard_id.is_none() {
                    let mut m = string_of("Invalid connector selection for node '");
                    m.append(ns[i].0.as_str());
                    m.append("' slot '");
                    m.append(slots[j].0.as_str());
                    m.append("': selected status requires selectedDaughterboardId");
                    proof {
                        assert(selection_incomplete(node_slots(ns@, i as int)[j as int].1));
                        assert(node_has_incomplete(ns@, i as int));
                        assert(first_bad_selection(ns@, i as int, j as int));
                        assert(forall|k: int| #![auto] 0 <= k < bs@.len() ==> !first_bad_bowtie(bs@, k));
                        assert(forall|k: int| #![auto] 0 <= k < rs@.len() ==> !first_bad_role(rs@, k));
                        assert forall|a: int, b: int| first_bad_selection(ns@, a, b) implies a == i && b == j by {
                            if a < i { assert(!node_has_incomplete(ns@, a)); }
                            if a > i { assert(node_has_incomplete(ns@, i as int)); }
                            if a == i {
                                if b < j { assert(!selection_incomplete(slots@[b].1)); }
                                if b > j { assert(selection_incomplete(slots@[j as int].1)); }
                            }
                        }
                    }
                    return Err(m);
                }
                j = j + 1;
            }
            i = i + 1;
        }
        Ok(())
    }
}

/// Applying no deltas leaves the layout unchanged.
pub proof fn law_apply_no_deltas(l: LayoutView)
    ensures
        apply_deltas(l, Seq::empty()) == l,
{
}

/// Applying `a` then `b` is applying their concatenation: deltas are applied
/// strictly in order, one at a time.
pub proof fn law_apply_deltas_concat(l: LayoutView, a: Seq<DeltaView>, b: Seq<DeltaView>)
    ensures
        apply_deltas(l, a + b) == apply_deltas(apply_deltas(l, a), b),
    decreases a.len(),
{
    if a.len() > 0 {
        assert((a + b).drop_first() =~= a.drop_first() + b);
        assert((a + b)[0] == a[0]);
        law_apply_deltas_concat(apply_delta(l, a[0]), a.drop_first(), b);
    } else {
        assert(a + b =~= b);
    }
}

/// Creating a bowtie that already exists changes nothing (its name is not
/// overwritten).
pub proof fn law_create_existing_is_noop(l: LayoutView, e: Seq<char>, name: Option<Seq<char>>)
    requires
        l.bowties.dom().contains(e),
    ensures
        apply_delta(l, DeltaView::CreateBowtie { event_id_hex: e, name: name }) == l,
{
}

/// Creating a missing bowtie stores the given name and no tags.
pub proof fn law_create_new_bowtie(l: LayoutView, e: Seq<char>, name: Option<Seq<char>>)
    requires
        !l.bowties.dom().contains(e),
    ensures
        apply_delta(l, DeltaView::CreateBowtie { event_id_hex: e, name: name }).bowties[e]
            == (BowtieView { name: name, tags: Seq::empty() }),
        apply_delta(l, DeltaView::CreateBowtie { event_id_hex: e, name: name }).bowties.dom()
            == l.bowties.dom().insert(e),
{
}

/// Deleting a bowtie removes exactly that key.
pub proof fn law_delete_removes(l: LayoutView, e: Seq<char>)
    ensures
        !apply_delta(l, DeltaView::DeleteBowtie { event_id_hex: e }).bowties.dom().contains(e),
        apply_delta(l, DeltaView::DeleteBowtie { event_id_hex: e }).bowties == l.bowties.remove(e),
        apply_delta(l, DeltaView::DeleteBowtie { event_id_hex: e }).role_classifications == l.role_classifications,
{
}

/// Renaming sets the name and keeps the tags (creating the bowtie if absent).
pub proof fn law_rename_keeps_tags(l: LayoutView, e: Seq<char>, n: Seq<char>)
    ensures
        apply_delta(l, DeltaView::RenameBowtie { event_id_hex: e, new_name: n }).bowties[e].name == Some(n),
        l.bowties.dom().contains(e) ==> apply_delta(l, DeltaView::RenameBowtie { event_id_hex: e, new_name: n }).bowties[e].tags
            == l.bowties[e].tags,
        apply_delta(l, DeltaView::RenameBowtie { event_id_hex: e, new_name: n }).bowties.dom().contains(e),
{
}

/// Adding a tag twice is the same as adding it once: tags are deduplicated.
pub proof fn law_add_tag_idempotent(l: LayoutView, e: Seq<char>, t: Seq<char>)
    ensures
        apply_delta(apply_delta(l, DeltaView::AddTag { event_id_hex: e, tag: t }), DeltaView::AddTag { event_id_hex: e, tag: t })
            == apply_delta(l, DeltaView::AddTag { event_id_hex: e, tag: t }),
{
    let l1 = apply_delta(l, DeltaView::AddTag { event_id_hex: e, tag: t });
    if l.bowties.dom().contains(e) {
        let tags = l.bowties[e].tags;
        if !tags.contains(t) {
            assert(tags.push(t)[tags.len() as int] == t);
            assert(tags.push(t).contains(t));
        }
        assert(l1.bowties.insert(e, l1.bowties[e]) =~= l1.bowties);
    }
}

/// Adding a tag to an existing bowtie makes it present; the other tags keep their order.
pub proof fn law_add_tag_present(l: LayoutView, e: Seq<char>, t: Seq<char>)
    requires
        l.bowties.dom().contains(e),
    ensures
        apply_delta(l, DeltaView::AddTag { event_id_hex: e, tag: t }).bowties[e].tags.contains(t),
        apply_delta(l, DeltaView::AddTag { event_id_hex: e, tag: t }).bowties[e].name == l.bowties[e].name,
{
    let tags = l.bowties[e].tags;
    if !tags.contains(t) {
        assert(tags.push(t)[tags.len() as int] == t);
    }
}

/// After removing a tag, the bowtie no longer carries it.
pub proof fn law_remove_tag_absent(l: LayoutView, e: Seq<char>, t: Seq<char>)
    requires
        l.bowties.dom().contains(e),
    ensures
        !apply_delta(l, DeltaView::RemoveTag { event_id_hex: e, tag: t }).bowties[e].tags.contains(t),
{
    lemma_tags_without_absent(l.bowties[e].tags, t);
}

/// `tags_without` leaves no occurrence of the tag.
pub proof fn lemma_tags_without_absent(tags: Seq<Seq<char>>, t: Seq<char>)
    ensures
        !tags_without(tags, t).contains(t),
    decreases tags.len(),
{
    if tags.len() > 0 {
        lemma_tags_without_absent(tags.drop_last(), t);
        let r = tags_without(tags.drop_last(), t);
        if tags.last() != t {
            assert forall|i: int| 0 <= i < r.push(tags.last()).len() implies r.push(tags.last())[i] != t by {
                if i < r.len() { assert(r.push(tags.last())[i] == r[i]); }
            }
        }
    }
}

/// Classifying a role sets that key and keeps every other classification.
pub proof fn law_classify_preserves_others(l: LayoutView, k: Seq<char>, r: Seq<char>, other: Seq<char>)
    requires
        other != k,
    ensures
        apply_delta(l, DeltaView::ClassifyRole { key: k, role: r }).role_classifications[k] == r,
        apply_delta(l, DeltaView::ClassifyRole { key: k, role: r }).role_classifications.dom().contains(other)
            == l.role_classifications.dom().contains(other),
        l.role_classifications.dom().contains(other) ==>
            apply_delta(l, DeltaView::ClassifyRole { key: k, role: r }).role_classifications[other] == l.role_classifications[other],
{
}

/// Adopting a new event ID moves the old bowtie's metadata to the new key.
pub proof fn law_adopt_moves_metadata(l: LayoutView, o: Seq<char>, n: Seq<char>)
    requires
        l.bowties.dom().contains(o),
    ensures
        apply_delta(l, DeltaView::AdoptEventId { old_event_id_hex: o, new_event_id_hex: n }).bowties[n] == l.bowties[o],
        o != n ==> !apply_delta(l, DeltaView::AdoptEventId { old_event_id_hex: o, new_event_id_hex: n }).bowties.dom().contains(o),
{
}

/// Promoting a node does not change the layout file.
pub proof fn law_add_node_is_noop(l: LayoutView, id: Seq<char>)
    ensures
        apply_delta(l, DeltaView::AddNode { node_id_hex: id }) == l,
{
}

/// Deltas never change the schema version.
pub proof fn law_deltas_keep_schema(l: LayoutView, ds: Seq<DeltaView>)
    ensures
        apply_deltas(l, ds).schema_version == l.schema_version,
    decreases ds.len(),
{
    if ds.len() > 0 {
        law_deltas_keep_schema(apply_delta(l, ds[0]), ds.drop_first());
    }
}

/// Tag, untag and adopt edits naming a bowtie the layout does not hold
/// change nothing.
pub proof fn law_absent_key_edits_are_noops(l: LayoutView, e: Seq<char>, t: Seq<char>, n: Seq<char>)
    requires
        !l.bowties.dom().contains(e),
    ensures
        apply_delta(l, DeltaView::AddTag { event_id_hex: e, tag: t }) == l,
        apply_delta(l, DeltaView::RemoveTag { event_id_hex: e, tag: t }) == l,
        apply_delta(l, DeltaView::AdoptEventId { old_event_id_hex: e, new_event_id_hex: n }) == l,
{
}

/// No bowtie of the layout carries a tag twice.
pub open spec fn tags_unique(l: LayoutView) -> bool {
    forall|k: Seq<char>| l.bowties.dom().contains(k) ==> (#[trigger] l.bowties[k]).tags.no_duplicates()
}

/// What `tags_without` keeps was in the list and is not the removed tag.
proof fn lemma_tags_without_sub(tags: Seq<Seq<char>>, t: Seq<char>)
    ensures
        forall|x: Seq<char>| #[trigger] tags_without(tags, t).contains(x) ==> tags.contains(x) && x != t,
    decreases tags.len(),
{
    if tags.len() > 0 {
        let p = tags.drop_last();
        lemma_tags_without_sub(p, t);
        let r = tags_without(p, t);
        assert forall|x: Seq<char>| #[trigger] tags_without(tags, t).contains(x) implies tags.contains(x) && x != t by {
            let w = tags_without(tags, t);
            let j = choose|j: int| 0 <= j < w.len() && w[j] == x;
            if tags.last() != t && j == r.len() {
                assert(tags[tags.len() - 1] == x);
            } else {
                assert(w[j] == r[j]);
                assert(r.contains(x));
                let i = choose|i: int| 0 <= i < p.len() && p[i] == x;
                assert(tags[i] == x);
            }
        }
    }
}

/// Removing a tag keeps a list free of repeats.
proof fn lemma_tags_without_unique(tags: Seq<Seq<char>>, t: Seq<char>)
    requires
        tags.no_duplicates(),
    ensures
        tags_without(tags, t).no_duplicates(),
    decreases tags.len(),
{
    if tags.len() > 0 {
        let p = tags.drop_last();
        assert(p.no_duplicates()) by {
            assert forall|i: int, j: int| 0 <= i < p.len() && 0 <= j < p.len() && i != j implies p[i] != p[j] by {
                assert(p[i] == tags[i] && p[j] == tags[j]);
            }
        }
        lemma_tags_without_unique(p, t);
        lemma_tags_without_sub(p, t);
        let r = tags_without(p, t);
        if tags.last() != t {
            assert(!r.contains(tags.last())) by {
                if r.contains(tags.last()) {
                    let i = choose|i: int| 0 <= i < p.len() && p[i] == tags.last();
                    assert(tags[i] == tags[tags.len() - 1]);
                }
            }
            let w = r.push(tags.last());
            assert forall|i: int, j: int| 0 <= i < w.len() && 0 <= j < w.len() && i != j implies w[i] != w[j] by {
                if i < r.len() && j < r.len() {
                    assert(w[i] == r[i] && w[j] == r[j]);
                } else if i < r.len() {
                    assert(w[i] == r[i]);
                    assert(r.contains(w[i]));
                } else {
                    assert(w[j] == r[j]);
                    assert(r.contains(w[j]));
                }
            }
        }
    }
}

/// One edit keeps every bowtie's tags free of repeats.
proof fn lemma_delta_keeps_tags_unique(l: LayoutView, d: DeltaView)
    requires
        tags_unique(l),
    ensures
        tags_unique(apply_delta(l, d)),
{
    let l2 = apply_delta(l, d);
    match d {
        DeltaView::AddTag { event_id_hex, tag } => {
            if l.bowties.dom().contains(event_id_hex) {
                let tags = l.bowties[event_id_hex].tags;
                assert(l.bowties[event_id_hex].tags.no_duplicates());
                if !tags.contains(tag) {
                    let w = tags.push(tag);
                    assert forall|i: int, j: int| 0 <= i < w.len() && 0 <= j < w.len() && i != j implies w[i] != w[j] by {
                        if i < tags.len() && j < tags.len() {
                            assert(w[i] == tags[i] && w[j] == tags[j]);
                        } else if i < tags.len() {
                            assert(w[i] == tags[i]);
                        } else {
                            assert(w[j] == tags[j]);
                        }
                    }
                }
                assert forall|k: Seq<char>| l2.bowties.dom().contains(k) implies (#[trigger] l2.bowties[k]).tags.no_duplicates() by {
                    if k != event_id_hex { assert(l2.bowties[k] == l.bowties[k]); }
                }
            }
        },
        DeltaView::RemoveTag { event_id_hex, tag } => {
            if l.bowties.dom().contains(event_id_hex) {
                assert(l.bowties[event_id_hex].tags.no_duplicates());
                lemma_tags_without_unique(l.bowties[event_id_hex].tags, tag);
                assert forall|k: Seq<char>| l2.bowties.dom().contains(k) implies (#[trigger] l2.bowties[k]).tags.no_duplicates() by {
                    if k != event_id_hex { assert(l2.bowties[k] == l.bowties[k]); }
                }
            }
        },
        DeltaView::CreateBowtie { event_id_hex, name } => {
            assert forall|k: Seq<char>| l2.bowties.dom().contains(k) implies (#[trigger] l2.bowties[k]).tags.no_duplicates() by {
                if k != event_id_hex { assert(l2.bowties[k] == l.bowties[k]); }
            }
        },
        DeltaView::RenameBowtie { event_id_hex, new_name } => {
            assert forall|k: Seq<char>| l2.bowties.dom().contains(k) implies (#[trigger] l2.bowties[k]).tags.no_duplicates() by {
                if k != event_id_hex {
                    assert(l2.bowties[k] == l.bowties[k]);
                } else if l.bowties.dom().contains(k) {
                    assert(l.bowties[k].tags.no_duplicates());
                }
            }
        },
        DeltaView::DeleteBowtie { event_id_hex } => {
            assert forall|k: Seq<char>| l2.bowties.dom().contains(k) implies (#[trigger] l2.bowties[k]).tags.no_duplicates() by {
                assert(l2.bowties[k] == l.bowties[k]);
            }
        },
        DeltaView::AdoptEventId { old_event_id_hex, new_event_id_hex } => {
            if l.bowties.dom().contains(old_event_id_hex) {
                assert forall|k: Seq<char>| l2.bowties.dom().contains(k) implies (#[trigger] l2.bowties[k]).tags.no_duplicates() by {
                    if k == new_event_id_hex {
                        assert(l.bowties[old_event_id_hex].tags.no_duplicates());
                    } else {
                        assert(l2.bowties[k] == l.bowties[k]);
                    }
                }
            }
        },
        _ => {},
    }
}

/// No sequence of edits gives a bowtie a tag twice: adding a tag that is
/// already there changes nothing, and removing one removes every copy.
pub proof fn law_deltas_keep_tags_unique(l: LayoutView, ds: Seq<DeltaView>)
    requires
        tags_unique(l),
    ensures
        tags_unique(apply_deltas(l, ds)),
    decreases ds.len(),
{
    if ds.len() > 0 {
        lemma_delta_keeps_tags_unique(l, ds[0]);
        law_deltas_keep_tags_unique(apply_delta(l, ds[0]), ds.drop_first());
    }
}

/// Text in the 8-4-4-4-12 hex-digit form of a UUID.
pub open spec fn is_uuid_text(s: Seq<char>) -> bool {
    &&& s.len() == 36
    &&& forall|i: int| 0 <= i < 36 ==> if i == 8 || i == 13 || i == 18 || i == 23 {
        #[trigger] s[i] == '-'
    } else {
        is_hex_char(s[i])
    }
}

/// A node key: a node ID (twelve hex digits, dots ignored) or
/// `placeholder:` followed by a UUID.
pub open spec fn is_node_key(s: Seq<char>) -> bool {
    parses_as_node_id(s) || (s.len() >= 12 && s.subrange(0, 12) == "placeholder:"@ && is_uuid_text(s.subrange(12, s.len() as int)))
}

/// The error for a key that names neither a node nor a placeholder.
fn invalid_node_key(key: &str) -> (r: Result<(), String>)
    ensures
        r matches Err(m) && m@ == "InvalidNodeKey: '"@ + key@ + "'"@,
{
    let mut m = string_of("InvalidNodeKey: '");
    m.append(key);
    m.append("'");
    Err(m)
}

/// Checks that a key names a live node or a placeholder board.
pub fn validate_node_key(key: &str) -> (r: Result<(), String>)
    ensures
        r is Ok <==> is_node_key(key@),
        r matches Err(m) ==> m@ == "InvalidNodeKey: '"@ + key@ + "'"@,
{
    if NodeId::from_hex_string(key).is_some() {
        return Ok(());
    }
    let c = chars_of(key);
    let p: [char; 12] = ['p', 'l', 'a', 'c', 'e', 'h', 'o', 'l', 'd', 'e', 'r', ':'];
    proof { reveal_strlit("placeholder:"); }
    assert(p@ =~= "placeholder:"@);
    if c.len() != 48 {
        return invalid_node_key(key);
    }
    let mut i: usize = 0;
    while i < 12
        invariant
            c@ == key@,
            c@.len() == 48,
            i <= 12,
            p@ == "placeholder:"@,
            !parses_as_node_id(key@),
            forall|j: int| 0 <= j < i ==> c@[j] == p@[j],
        decreases 12 - i,
    {
        if c[i] != p[i] {
            assert(c@.subrange(0, 12)[i as int] != p@[i as int]);
            assert(c@.subrange(0, 12) != "placeholder:"@);
            return invalid_node_key(key);
        }
        i = i + 1;
    }
    assert(c@.subrange(0, 12) =~= "placeholder:"@);
    let ghost u = c@.subrange(12, 48);
    let mut k: usize = 0;
    while k < 36
        invariant
            c@ == key@,
            c@.len() == 48,
            u == c@.subrange(12, 48),
            c@.subrange(0, 12) == "placeholder:"@,
            !parses_as_node_id(key@),
            k <= 36,
            forall|j: int| 0 <= j < k ==> if j == 8 || j == 13 || j == 18 || j == 23 {
                #[trigger] u[j] == '-'
            } else {
                is_hex_char(u[j])
            },
        decreases 36 - k,
    {
        let ch = c[12 + k];
        assert(u[k as int] == ch);
        if k == 8 || k == 13 || k == 18 || k == 23 {
            if ch != '-' {
                assert(!is_uuid_text(u));
                return invalid_node_key(key);
            }
        } else if !char_is_hex(ch) {
            assert(!is_uuid_text(u));
            return invalid_node_key(key);
        }
        k = k + 1;
    }
    Ok(())
}

/// The layout that was opened last, and when.
pub struct RecentLayout {
    pub path: String,
    pub last_opened: String,
}

/// The record of opening the layout at `path` now.
pub fn recent_layout_now(path: String) -> (r: RecentLayout)
    ensures
        r.path == path,
{
    RecentLayout { path, last_opened: now_rfc3339() }
}

} // verus!
