//! Pending offline event-ID edits laid over the saved configuration values
//! when the bowtie catalog is built offline, so that the catalog shows the
//! event IDs the user has planned.
//!
//! A pending configuration edit names a node, a memory space and an offset
//! (hex text). The event-ID field at that place, found in the node's
//! description, takes the edit's planned event ID.

use vstd::prelude::*;
use crate::facility::{event_bytes, parse_hex_id};
use crate::offline::{offset_value, parse_offset, ChangeView, OfflineChange, OfflineChangeKind, OfflineChangeStatus, changes_view};
use crate::strmap::str_eq;
use crate::text::{chars_of, copy_string, push_char_range, string_of};

verus! {

/// `s` with every leading `0` and `c` pair removed.
pub open spec fn trim_zero_prefix(s: Seq<char>, c: char) -> Seq<char>
    decreases s.len(),
{
    if s.len() >= 2 && s[0] == '0' && s[1] == c {
        trim_zero_prefix(s.subrange(2, s.len() as int), c)
    } else {
        s
    }
}

/// The address an edit's offset text names: the text without its leading
/// `0x` and then `0X` prefixes, read as a hex number (an optional `+`, at
/// least one hex digit, at most 32 bits); 0 when it is not one.
pub open spec fn overlay_address(s: Seq<char>) -> u32 {
    let t = trim_zero_prefix(trim_zero_prefix(s, 'x'), 'X');
    match offset_value(seq!['0', 'x'] + t) {
        Some(a) => a,
        None => 0,
    }
}

/// An edit that is laid over the catalog: a pending configuration edit that
/// names a node, a space and an offset.
pub open spec fn overlays(c: ChangeView) -> bool {
    &&& c.kind == OfflineChangeKind::Config
    &&& c.status == OfflineChangeStatus::Pending
    &&& c.node_id is Some
    &&& c.space is Some
    &&& c.offset is Some
}

/// One event-ID field of a node's description: node key, space, address and
/// the field's path (joined by `/`).
pub struct EventField {
    pub node_key: String,
    pub space: u8,
    pub address: u32,
    pub path: String,
}

/// The last field of `fields`, among the first `n`, of node `node` at
/// `(space, address)` (a later field for the same place replaces an earlier one).
pub open spec fn field_at(fields: Seq<EventField>, node: Seq<char>, space: u8, address: u32, n: int) -> Option<int>
    decreases n,
{
    if n <= 0 {
        None
    } else if fields[n - 1].node_key@ == node && fields[n - 1].space == space && fields[n - 1].address == address {
        Some(n - 1)
    } else {
        field_at(fields, node, space, address, n - 1)
    }
}

/// A planned event ID laid over a field: node key, field path, event ID.
pub struct Overlay {
    pub node_key: String,
    pub path: String,
    pub event_id: [u8; 8],
}

/// What an overlay states.
pub open spec fn overlay_view(o: Overlay) -> (Seq<char>, Seq<char>, Seq<u8>) {
    (o.node_key@, o.path@, o.event_id@)
}

/// The overlay an edit gives, if any: the edit must be laid over the
/// catalog, its place must be an event-ID field of its node, and its planned
/// value must be event-ID text.
pub open spec fn overlay_of(c: ChangeView, fields: Seq<EventField>) -> Option<(Seq<char>, Seq<char>, Seq<u8>)> {
    if !overlays(c) {
        None
    } else {
        let node = c.node_id->0;
        match field_at(fields, node, c.space->0, overlay_address(c.offset->0), fields.len() as int) {
            None => None,
            Some(j) => match event_bytes(c.planned_value) {
                None => None,
                Some(b) => Some((node, fields[j].path@, b)),
            },
        }
    }
}

/// The overlays of the first `n` edits, in order.
pub open spec fn overlays_upto(cs: Seq<ChangeView>, fields: Seq<EventField>, n: int) -> Seq<(Seq<char>, Seq<char>, Seq<u8>)>
    decreases n,
{
    if n <= 0 {
        Seq::empty()
    } else {
        overlays_upto(cs, fields, n - 1) + match overlay_of(cs[n - 1], fields) {
            Some(o) => seq![o],
            None => Seq::empty(),
        }
    }
}

/// The address an offset text names; see [`overlay_address`].
fn offset_address(s: &str) -> (r: u32)
    ensures
        r == overlay_address(s@),
{
    let c = chars_of(s);
    let mut i: usize = 0;
    assert(c@.subrange(0, c@.len() as int) =~= c@);
    while i < c.len() && c.len() - i >= 2 && c[i] == '0' && c[i + 1] == 'x'
        invariant
            c@ == s@,
            i <= c@.len(),
            trim_zero_prefix(s@, 'x') == trim_zero_prefix(c@.subrange(i as int, c@.len() as int), 'x'),
        decreases c.len() - i,
    {
        assert(c@.subrange(i as int, c@.len() as int).subrange(2, (c@.len() - i) as int) =~= c@.subrange(i + 2, c@.len() as int));
        i = i + 2;
    }
    assert(trim_zero_prefix(c@.subrange(i as int, c@.len() as int), 'x') == c@.subrange(i as int, c@.len() as int));
    let ghost t1 = c@.subrange(i as int, c@.len() as int);
    while i < c.len() && c.len() - i >= 2 && c[i] == '0' && c[i + 1] == 'X'
        invariant
            c@ == s@,
            i <= c@.len(),
            trim_zero_prefix(t1, 'X') == trim_zero_prefix(c@.subrange(i as int, c@.len() as int), 'X'),
        decreases c.len() - i,
    {
        assert(c@.subrange(i as int, c@.len() as int).subrange(2, (c@.len() - i) as int) =~= c@.subrange(i + 2, c@.len() as int));
        i = i + 2;
    }
    assert(trim_zero_prefix(c@.subrange(i as int, c@.len() as int), 'X') == c@.subrange(i as int, c@.len() as int));
    let mut text = string_of("0x");
    push_char_range(&mut text, c.as_slice(), i, c.len());
    proof { reveal_strlit("0x"); }
    assert(text@ =~= seq!['0', 'x'] + c@.subrange(i as int, c@.len() as int));
    match parse_offset(text.as_str()) {
        Some(a) => a,
        None => 0,
    }
}

proof fn lemma_field_at_range(fields: Seq<EventField>, node: Seq<char>, space: u8, address: u32, n: int)
    requires
        0 <= n <= fields.len(),
    ensures
        field_at(fields, node, space, address, n) matches Some(j) ==> 0 <= j < n,
    decreases n,
{
    if n > 0 {
        lemma_field_at_range(fields, node, space, address, n - 1);
    }
}

/// The path of the last field of node `node` at `(space, address)`.
fn find_field(fields: &Vec<EventField>, node: &str, space: u8, address: u32) -> (r: Option<usize>)
    ensures
        r matches Some(j) ==> j < fields@.len() && field_at(fields@, node@, space, address, fields@.len() as int) == Some(j as int),
        match field_at(fields@, node@, space, address, fields@.len() as int) {
            Some(j) => r == Some(j as usize),
            None => r is None,
        },
{
    proof { lemma_field_at_range(fields@, node@, space, address, fields@.len() as int); }
    let mut n: usize = fields.len();
    while n > 0
        invariant
            n <= fields@.len(),
            field_at(fields@, node@, space, address, fields@.len() as int) == field_at(fields@, node@, space, address, n as int),
        decreases n,
    {
        let f = &fields[n - 1];
        if str_eq(f.node_key.as_str(), node) && f.space == space && f.address == address {
            return Some(n - 1);
        }
        n = n - 1;
    }
    None
}

/// The overlays the pending edits give, in edit order (see [`overlay_of`]):
/// `fields` are the event-ID fields of the nodes' descriptions.
pub fn pending_event_overlays(changes: &Vec<OfflineChange>, fields: &Vec<EventField>) -> (r: Vec<Overlay>)
    ensures
        r@.map_values(|o: Overlay| overlay_view(o)) == overlays_upto(changes_view(changes@), fields@, changes@.len() as int),
{
    let ghost cv = changes_view(changes@);
    let mut out: Vec<Overlay> = Vec::new();
    let mut k: usize = 0;
    while k < changes.len()
        invariant
            cv == changes_view(changes@),
            k <= changes@.len(),
            out@.map_values(|o: Overlay| overlay_view(o)) == overlays_upto(cv, fields@, k as int),
        decreases changes.len() - k,
    {
        let c = &changes[k];
        assert(cv[k as int] == c@);
        let ghost before = out@.map_values(|o: Overlay| overlay_view(o));
        if c.kind == OfflineChangeKind::Config && c.status == OfflineChangeStatus::Pending {
            match (&c.node_id, c.space, &c.offset) {
                (Some(node), Some(space), Some(offset)) => {
                    let address = offset_address(offset.as_str());
                    match find_field(fields, node.as_str(), space, address) {
                        Some(j) => {
                            match parse_hex_id(c.planned_value.as_str()) {
                                Some(b) => {
                                    assert(b@ =~= event_bytes(c.planned_value@)->0);
                                    assert(overlays(c@));
                                    assert(c@.node_id->0 == node@);
                                    assert(c@.space->0 == space);
                                    assert(c@.offset->0 == offset@);
                                    assert(field_at(fields@, node@, space, address, fields@.len() as int) == Some(j as int));
                                    assert(event_bytes(c@.planned_value) == Some(b@));
                                    assert(overlay_of(c@, fields@) == Some((node@, fields@[j as int].path@, b@)));
                                    out.push(Overlay { node_key: copy_string(node), path: copy_string(&fields[j].path), event_id: b });
                                    assert(out@.map_values(|o: Overlay| overlay_view(o)) =~= before.push(overlay_view(out@.last())));
                                },
                                None => {},
                            }
                        },
                        None => {},
                    }
                },
                _ => {},
            }
        }
        assert(out@.map_values(|o: Overlay| overlay_view(o)) =~= overlays_upto(cv, fields@, k + 1));
        k = k + 1;
    }
    out
}

} // verus!
