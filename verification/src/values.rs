//! Configuration values as the node tree holds them, and their conversions
//! to and from the text shown to users and the bytes written to nodes.
//!
//! Floating-point values are converted by the caller; the functions here
//! handle integer, text and event-ID fields.

use vstd::prelude::*;
use vstd::utf8::encode_utf8;
use crate::cdi::{parsed, DataElement, FieldMeta, IntElement, LeafType, ValueView};
use crate::codec::{
    be_bytes, be_bytes_of, be_signed, be_signed_of, dotted_hex, law_int_bytes_round_trip, pow256, dotted_hex_string, parse_hex_byte,
    parse_hex_byte_spec, parse_i64, parse_i64_spec, split_chars, split_on, twos_complement,
    twos_complement_u64,
};
use crate::text::{chars_of, i64_decimal, int_decimal, push_char, string_of};

verus! {

/// A typed configuration value (integer, text or event ID).
pub enum TreeValue {
    Int { value: i64 },
    String { value: String },
    EventId { bytes: [u8; 8], hex: String },
}

/// A leaf of the node tree, reduced to what a value conversion reads.
pub struct LeafNode {
    pub name: String,
    pub description: Option<String>,
    pub element_type: LeafType,
    pub address: u32,
    pub size: u32,
    pub space: u8,
    pub path: Vec<String>,
    pub value: Option<TreeValue>,
    pub button_text: Option<String>,
    pub dialog_text: Option<String>,
    pub action_value: i64,
    pub hint_radio: bool,
    pub modified_value: Option<TreeValue>,
    pub write_error: Option<String>,
    pub read_only: bool,
}

/// A leaf built from field metadata alone: the given type, size, space and
/// address, and every other field empty.
pub fn field_meta_to_leaf(meta: &FieldMeta, space: u8, address: u32) -> (r: LeafNode)
    ensures
        r.name@ == Seq::<char>::empty(),
        r.description is None,
        r.element_type == meta.leaf_type,
        r.address == address,
        r.size == meta.size,
        r.space == space,
        r.path@.len() == 0,
        r.value is None,
        r.button_text is None,
        r.dialog_text is None,
        r.action_value == 0,
        !r.hint_radio,
        r.modified_value is None,
        r.write_error is None,
        !r.read_only,
{
    LeafNode {
        name: String::new(),
        description: None,
        element_type: meta.leaf_type,
        address,
        size: meta.size,
        space,
        path: Vec::new(),
        value: None,
        button_text: None,
        dialog_text: None,
        action_value: 0,
        hint_radio: false,
        modified_value: None,
        write_error: None,
        read_only: false,
    }
}

/// The event ID bytes a dotted text denotes: exactly eight parts, each a hex byte.
pub open spec fn event_id_parts_ok(s: Seq<char>) -> bool {
    let parts = split_on(s, '.');
    parts.len() == 8 && forall|i: int| 0 <= i < 8 ==> (#[trigger] parse_hex_byte_spec(parts[i])) is Some
}

/// What a text denotes as a value of the given leaf type.
pub open spec fn text_value(s: Seq<char>, t: LeafType) -> Option<(LeafType, int, Seq<char>, Seq<u8>)> {
    match t {
        LeafType::Int => match parse_i64_spec(s) {
            Some(v) => Some((LeafType::Int, v as int, Seq::empty(), Seq::empty())),
            None => None,
        },
        LeafType::String => Some((LeafType::String, 0, s, Seq::empty())),
        LeafType::EventId => if event_id_parts_ok(s) {
            Some((LeafType::EventId, 0, s, Seq::new(8, |i: int| parse_hex_byte_spec(split_on(s, '.')[i])->0)))
        } else {
            None
        },
        _ => None,
    }
}

/// The parts of a value: its type, integer, text and bytes.
pub open spec fn value_parts(v: TreeValue) -> (LeafType, int, Seq<char>, Seq<u8>) {
    match v {
        TreeValue::Int { value } => (LeafType::Int, value as int, Seq::empty(), Seq::empty()),
        TreeValue::String { value } => (LeafType::String, 0, value@, Seq::empty()),
        TreeValue::EventId { bytes, hex } => (LeafType::EventId, 0, hex@, bytes@),
    }
}

/// Parses the text of a value back into a typed value for the given leaf:
/// a decimal integer, any text, or eight dot-separated hex bytes (the text is
/// kept as the event ID's display form). Floating-point leaves are parsed by
/// the caller.
pub fn string_to_config_value(s: &str, leaf: &LeafNode) -> (r: Option<TreeValue>)
    requires
        leaf.element_type != LeafType::Float,
    ensures
        r is Some <==> text_value(s@, leaf.element_type) is Some,
        r matches Some(v) ==> Some(value_parts(v)) == text_value(s@, leaf.element_type),
{
    match leaf.element_type {
        LeafType::Int => match parse_i64(s) {
            Some(v) => Some(TreeValue::Int { value: v }),
            None => None,
        },
        LeafType::String => Some(TreeValue::String { value: string_of(s) }),
        LeafType::EventId => {
            let c = chars_of(s);
            let parts = split_chars(c.as_slice(), '.');
            let ghost pv = parts@.map_values(|v: Vec<char>| v@);
            assert(pv == split_on(s@, '.'));
            if parts.len() != 8 {
                return None;
            }
            let mut bytes: [u8; 8] = [0u8; 8];
            let mut i: usize = 0;
            while i < 8
                invariant
                    leaf.element_type == LeafType::EventId,
                    pv == split_on(s@, '.'),
                    pv == parts@.map_values(|v: Vec<char>| v@),
                    parts@.len() == 8,
                    i <= 8,
                    forall|j: int| 0 <= j < i ==> (#[trigger] parse_hex_byte_spec(pv[j])) == Some(bytes@[j]),
                decreases 8 - i,
            {
                assert(pv[i as int] == parts@[i as int]@);
                match parse_hex_byte(parts[i].as_slice()) {
                    Some(b) => {
                        bytes[i] = b;
                    },
                    None => {
                        assert(parse_hex_byte_spec(pv[i as int]) is None);
                        assert(!event_id_parts_ok(s@));
                        return None;
                    },
                }
                i = i + 1;
            }
            assert(event_id_parts_ok(s@));
            assert(bytes@ =~= Seq::new(8, |i: int| parse_hex_byte_spec(split_on(s@, '.')[i])->0));
            Some(TreeValue::EventId { bytes, hex: string_of(s) })
        },
        _ => None,
    }
}

/// `n` zero bytes.
pub open spec fn zeros(n: int) -> Seq<u8> {
    Seq::new(n as nat, |i: int| 0u8)
}

/// The bytes written for a value into a field of `size` bytes: an integer in
/// big-endian two's complement (one byte for sizes other than 2, 4 and 8), text
/// as UTF-8 cut to leave room for a terminating NUL and padded with zeros, an
/// event ID as its eight bytes.
pub open spec fn value_bytes(v: TreeValue, size: u32) -> Seq<u8> {
    match v {
        TreeValue::Int { value } => {
            let n: nat = if size == 2 || size == 4 || size == 8 { size as nat } else { 1 };
            be_bytes(twos_complement(value as int), n)
        },
        TreeValue::String { value } => {
            let b = encode_utf8(value@);
            let k = if b.len() < size - 1 { b.len() as int } else { size - 1 };
            b.subrange(0, k) + zeros(size - k)
        },
        TreeValue::EventId { bytes, .. } => bytes@,
    }
}

/// Serialises a value to the bytes written into a field of `size` bytes.
pub fn serialize_config_value(value: &TreeValue, element_type: LeafType, size: u32) -> (r: Vec<u8>)
    requires
        value is String ==> size >= 1,
    ensures
        r@ == value_bytes(*value, size),
{
    match value {
        TreeValue::Int { value: v } => {
            let n: usize = if size == 2 || size == 4 || size == 8 { size as usize } else { 1 };
            be_bytes_of(twos_complement_u64(*v), n)
        },
        TreeValue::String { value: s } => {
            let b = s.as_str().as_bytes();
            let limit: usize = (size - 1) as usize;
            let mut out: Vec<u8> = Vec::new();
            let mut i: usize = 0;
            while i < b.len() && i < limit
                invariant
                    i <= b@.len(),
                    i <= limit,
                    out@ == b@.subrange(0, i as int),
                decreases b.len() - i,
            {
                out.push(b[i]);
                i = i + 1;
            }
            let ghost k = i as int;
            out.push(0);
            assert(out@ =~= b@.subrange(0, k) + zeros(out@.len() - k));
            while out.len() < size as usize
                invariant
                    0 <= k <= b@.len(),
                    k <= size - 1,
                    k + 1 <= out@.len() <= size,
                    out@ == b@.subrange(0, k) + zeros(out@.len() - k),
                decreases size as usize - out.len(),
            {
                let ghost o = out@;
                out.push(0);
                assert(out@ =~= b@.subrange(0, k) + zeros(out@.len() - k));
            }
            proof {
                assert(b@ == encode_utf8(s@));
                assert(out@ =~= b@.subrange(0, k) + zeros(size - k));
            }
            out
        },
        TreeValue::EventId { bytes, .. } => {
            let mut out: Vec<u8> = Vec::new();
            let mut i: usize = 0;
            while i < 8
                invariant
                    i <= 8,
                    out@ == bytes@.subrange(0, i as int),
                decreases 8 - i,
            {
                out.push(bytes[i]);
                i = i + 1;
            }
            assert(out@ =~= bytes@);
            out
        },
    }
}

/// Text of NUL-terminated single-byte characters: stops at the first zero
/// byte and drops `0xFF` bytes (erased flash).
pub open spec fn byte_text(t: Seq<u8>) -> Seq<char>
    decreases t.len(),
{
    if t.len() == 0 || t[0] == 0 {
        Seq::empty()
    } else if t[0] == 0xFF {
        byte_text(t.drop_first())
    } else {
        seq![t[0] as char] + byte_text(t.drop_first())
    }
}

/// The text shown for raw bytes read from a field, when they can be shown:
/// an integer in decimal (a single byte read unsigned), text up to the field
/// size, an event ID in dotted hex.
pub open spec fn bytes_text(meta: FieldMeta, raw: Seq<u8>) -> Option<Seq<char>> {
    match meta.leaf_type {
        LeafType::Int => {
            if meta.size == 1 && raw.len() >= 1 {
                Some(int_decimal(raw[0] as int))
            } else if (meta.size == 2 || meta.size == 4 || meta.size == 8) && raw.len() >= meta.size {
                Some(int_decimal(be_signed(raw.subrange(0, meta.size as int))))
            } else {
                None
            }
        },
        LeafType::String => Some(byte_text(raw.subrange(0, if raw.len() < meta.size { raw.len() as int } else { meta.size as int }))),
        LeafType::EventId => if raw.len() >= 8 { Some(dotted_hex(raw.subrange(0, 8))) } else { None },
        _ => None,
    }
}

/// Formats raw bytes read from a field as the text the node tree shows for
/// it. Floating-point fields are formatted by the caller.
pub fn raw_bytes_to_value_string(meta: &FieldMeta, raw: &[u8]) -> (r: Option<String>)
    requires
        meta.leaf_type != LeafType::Float,
    ensures
        opt_chars(r) == bytes_text(*meta, raw@),
{
    match meta.leaf_type {
        LeafType::Int => {
            if meta.size == 1 {
                if raw.len() >= 1 {
                    Some(i64_decimal(raw[0] as i64))
                } else {
                    None
                }
            } else if (meta.size == 2 || meta.size == 4 || meta.size == 8) && raw.len() >= meta.size as usize {
                let v = be_signed_of(raw, meta.size as usize);
                Some(i64_decimal(v))
            } else {
                None
            }
        },
        LeafType::String => {
            let end: usize = if raw.len() < meta.size as usize { raw.len() } else { meta.size as usize };
            let ghost t = raw@.subrange(0, end as int);
            assert(t.subrange(0, t.len() as int) =~= t);
            let mut s = String::new();
            let mut i: usize = 0;
            while i < end && raw[i] != 0
                invariant
                    end <= raw@.len(),
                    t == raw@.subrange(0, end as int),
                    i <= end,
                    s@ + byte_text(t.subrange(i as int, t.len() as int)) == byte_text(t),
                decreases end - i,
            {
                let ghost rest = t.subrange(i as int, t.len() as int);
                assert(rest[0] == raw@[i as int]);
                assert(rest.drop_first() =~= t.subrange(i + 1, t.len() as int));
                if raw[i] != 0xFF {
                    push_char(&mut s, raw[i] as char);
                    assert(s@ + byte_text(t.subrange(i + 1, t.len() as int)) =~= byte_text(t));
                }
                i = i + 1;
            }
            proof {
                let rest = t.subrange(i as int, t.len() as int);
                if i < end {
                    assert(rest[0] == raw@[i as int]);
                }
                assert(byte_text(rest) =~= Seq::<char>::empty());
                assert(s@ =~= byte_text(t));
            }
            Some(s)
        },
        LeafType::EventId => {
            if raw.len() >= 8 {
                let mut b: Vec<u8> = Vec::new();
                let mut i: usize = 0;
                while i < 8
                    invariant
                        i <= 8,
                        raw@.len() >= 8,
                        b@ == raw@.subrange(0, i as int),
                    decreases 8 - i,
                {
                    b.push(raw[i]);
                    i = i + 1;
                }
                Some(dotted_hex_string(b.as_slice()))
            } else {
                None
            }
        },
        _ => None,
    }
}

/// The text of an optional string.
pub open spec fn opt_chars(o: Option<String>) -> Option<Seq<char>> {
    match o {
        Some(s) => Some(s@),
        None => None,
    }
}

/// Law: an integer written into an integer field of 1, 2, 4 or 8 bytes
/// (see [`serialize_config_value`]) is read back as the same integer (see
/// [`crate::cdi::parse_config_value`]) when it fits the field.
pub proof fn law_int_write_then_read(v: i64, e: IntElement)
    requires
        e.size == 1 || e.size == 2 || e.size == 4 || e.size == 8,
        -(pow256(e.size as nat) / 2) <= v < pow256(e.size as nat) / 2,
    ensures
        parsed(DataElement::Int(e), value_bytes(TreeValue::Int { value: v }, e.size as u32))
            == Some(ValueView::Int { value: v as int, size_bytes: e.size }),
{
    let n = e.size as nat;
    law_int_bytes_round_trip(v as int, n);
    let b = value_bytes(TreeValue::Int { value: v }, e.size as u32);
    assert(b == be_bytes(twos_complement(v as int), n));
    assert(b.subrange(0, n as int) =~= b);
}

} // verus!
