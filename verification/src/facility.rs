//! Facility wiring helpers: event IDs typed in hex, and the leaf index each
//! named event of a channel style uses.

use vstd::prelude::*;
use crate::node_id::hex_byte_at;
use crate::strmap::{str_eq, StrMap};
use crate::text::{chars_of, char_is_hex, decimal_digits, hex_char_value, is_hex_char, string_of, u64_decimal};

verus! {

/// The hex digits of `s`, everything else dropped.
pub open spec fn hex_digits_only(s: Seq<char>) -> Seq<char>
    decreases s.len(),
{
    if s.len() == 0 {
        s
    } else if is_hex_char(s.last()) {
        hex_digits_only(s.drop_last()).push(s.last())
    } else {
        hex_digits_only(s.drop_last())
    }
}

proof fn lemma_hex_digits_only_all_hex(s: Seq<char>)
    ensures
        forall|i: int| 0 <= i < hex_digits_only(s).len() ==> is_hex_char(#[trigger] hex_digits_only(s)[i]),
    decreases s.len(),
{
    if s.len() > 0 {
        lemma_hex_digits_only_all_hex(s.drop_last());
        let p = hex_digits_only(s.drop_last());
        if is_hex_char(s.last()) {
            assert forall|i: int| 0 <= i < p.push(s.last()).len() implies is_hex_char(#[trigger] p.push(s.last())[i]) by {
                if i < p.len() { assert(p.push(s.last())[i] == p[i]); }
            }
        }
    }
}

/// Parses an 8-byte event ID from text holding exactly sixteen hex digits,
/// ignoring any other characters (dots, spaces).
pub fn parse_hex_id(hex: &str) -> (r: Option<[u8; 8]>)
    ensures
        r is Some <==> hex_digits_only(hex@).len() == 16,
        r matches Some(b) ==> forall|i: int| 0 <= i < 8 ==> #[trigger] b@[i] as nat == hex_byte_at(hex_digits_only(hex@), i),
{
    let c = chars_of(hex);
    let mut cleaned: Vec<char> = Vec::new();
    let mut i: usize = 0;
    while i < c.len()
        invariant
            c@ == hex@,
            i <= c@.len(),
            cleaned@ == hex_digits_only(c@.subrange(0, i as int)),
        decreases c.len() - i,
    {
        assert(c@.subrange(0, i + 1).drop_last() =~= c@.subrange(0, i as int));
        assert(c@.subrange(0, i + 1).last() == c@[i as int]);
        if char_is_hex(c[i]) {
            cleaned.push(c[i]);
        }
        i = i + 1;
    }
    assert(c@.subrange(0, c@.len() as int) =~= c@);
    if cleaned.len() != 16 {
        return None;
    }
    proof { lemma_hex_digits_only_all_hex(hex@); }
    let mut out: [u8; 8] = [0u8; 8];
    let mut b: usize = 0;
    while b < 8
        invariant
            cleaned@ == hex_digits_only(hex@),
            cleaned@.len() == 16,
            forall|k: int| 0 <= k < 16 ==> is_hex_char(#[trigger] cleaned@[k]),
            b <= 8,
            forall|k: int| 0 <= k < b ==> #[trigger] out@[k] as nat == hex_byte_at(cleaned@, k),
        decreases 8 - b,
    {
        assert(is_hex_char(cleaned@[2 * b as int]));
        assert(is_hex_char(cleaned@[2 * b + 1]));
        let hi = hex_char_value(cleaned[2 * b]);
        let lo = hex_char_value(cleaned[2 * b + 1]);
        out[b] = hi * 16 + lo;
        b = b + 1;
    }
    Some(out)
}

/// The leaf index of each named event of the producer style
/// `bod-block-detector-input`: `occupied` is 0 and `clear` is 1.
pub open spec fn producer_style_map() -> Map<Seq<char>, u32> {
    map!["occupied"@ => 0u32, "clear"@ => 1u32]
}

/// The leaf index of each named event of the consumer style
/// `single-led-direct-lamp`: `lit` is 0 and `unlit` is 1.
pub open spec fn consumer_style_map() -> Map<Seq<char>, u32> {
    map!["lit"@ => 0u32, "unlit"@ => 1u32]
}

/// The leaf indices of a lamp row's events: `on` is 0 and `off` is 1.
pub open spec fn lamp_map() -> Map<Seq<char>, u32> {
    map!["on"@ => 0u32, "off"@ => 1u32]
}

/// A two-entry map.
fn pair_map(k0: &str, v0: u32, k1: &str, v1: u32) -> (r: StrMap<u32>)
    ensures
        r@ == map![k0@ => v0, k1@ => v1],
{
    let mut m: StrMap<u32> = StrMap::new();
    m.insert(string_of(k0), v0);
    m.insert(string_of(k1), v1);
    assert(m@ =~= map![k0@ => v0, k1@ => v1]);
    m
}

/// The event leaf indices of a producer style, for the styles that have one.
pub fn producer_leaf_index_for_style(style: &str) -> (r: Option<StrMap<u32>>)
    ensures
        style@ == "bod-block-detector-input"@ ==> (r matches Some(m) && m@ == producer_style_map()),
        style@ != "bod-block-detector-input"@ ==> r is None,
{
    if str_eq(style, "bod-block-detector-input") {
        Some(pair_map("occupied", 0, "clear", 1))
    } else {
        None
    }
}

/// The event leaf indices of a consumer style, for the styles that have one.
pub fn consumer_leaf_index_for_style(style: &str) -> (r: Option<StrMap<u32>>)
    ensures
        style@ == "single-led-direct-lamp"@ ==> (r matches Some(m) && m@ == consumer_style_map()),
        style@ != "single-led-direct-lamp"@ ==> r is None,
{
    if str_eq(style, "single-led-direct-lamp") {
        Some(pair_map("lit", 0, "unlit", 1))
    } else {
        None
    }
}

/// The event leaf indices within a lamp row.
pub fn lamp_event_leaf_map() -> (r: StrMap<u32>)
    ensures
        r@ == lamp_map(),
{
    pair_map("on", 0, "off", 1)
}

/// The On and Off event IDs of one lamp output pin.
pub struct PinEvents {
    pub on_event: [u8; 8],
    pub off_event: [u8; 8],
}

/// `lamp row <n> ` and `rest`.
pub open spec fn lamp_row_text(row: u32, rest: Seq<char>) -> Seq<char> {
    "lamp row "@ + decimal_digits(row as nat) + rest
}

/// The bytes of event-ID text, when it holds sixteen hex digits.
pub open spec fn event_bytes(hex: Seq<char>) -> Option<Seq<u8>> {
    let d = hex_digits_only(hex);
    if d.len() == 16 {
        Some(Seq::new(8, |i: int| hex_byte_at(d, i) as u8))
    } else {
        None
    }
}

/// `lamp row <n><rest>`.
fn lamp_row_message(row: u32, rest: &str) -> (r: String)
    ensures
        r@ == lamp_row_text(row, rest@),
{
    let mut s = string_of("lamp row ");
    let d = u64_decimal(row as u64);
    s.append(d.as_str());
    s.append(rest);
    s
}

/// What a lamp row resolves to from the event IDs found under it by role
/// (`None` when the row is not in the node's tree): the On and Off event
/// bytes, or the message that says why not.
pub open spec fn lamp_row_result(row: u32, events: Option<Map<Seq<char>, Seq<char>>>)
    -> Result<(Seq<u8>, Seq<u8>), Seq<char>>
{
    match events {
        None => Err(lamp_row_text(row, " not found in CDI tree"@)),
        Some(m) => if !m.dom().contains("on"@) {
            Err(lamp_row_text(row, " On event not available — read config from the Signal LCC node first"@))
        } else if !m.dom().contains("off"@) {
            Err(lamp_row_text(row, " Off event not available — read config from the Signal LCC node first"@))
        } else if event_bytes(m["on"@]) is None {
            Err(lamp_row_text(row, " On event invalid hex: "@ + m["on"@]))
        } else if event_bytes(m["off"@]) is None {
            Err(lamp_row_text(row, " Off event invalid hex: "@ + m["off"@]))
        } else {
            Ok((event_bytes(m["on"@]).unwrap(), event_bytes(m["off"@]).unwrap()))
        },
    }
}

/// `r` is the pin `want` describes, or fails with its message.
pub open spec fn pin_result_is(r: Result<PinEvents, String>, want: Result<(Seq<u8>, Seq<u8>), Seq<char>>) -> bool {
    match want {
        Ok((on, off)) => r matches Ok(p) && p.on_event@ == on && p.off_event@ == off,
        Err(e) => r matches Err(m) && m@ == e,
    }
}

/// The view of an optional map of event IDs.
pub open spec fn events_view(events: Option<&StrMap<String>>) -> Option<Map<Seq<char>, Seq<char>>> {
    match events {
        Some(e) => Some(e@),
        None => None,
    }
}

/// The pin events of a lamp row from the event IDs found under it by role
/// (`events`: state name to event-ID text; `None` when the row is not in the
/// node's tree): `on` and `off` must both be there and parse.
pub fn lamp_row_pin_events(row_ordinal: u32, events: Option<&StrMap<String>>) -> (r: Result<PinEvents, String>)
    ensures
        pin_result_is(r, lamp_row_result(row_ordinal, events_view(events))),
{
    let ev = match events {
        Some(e) => e,
        None => return Err(lamp_row_message(row_ordinal, " not found in CDI tree")),
    };
    proof {
        reveal_strlit("on");
        reveal_strlit("off");
    }
    let on = match ev.get("on") {
        Some(v) => v,
        None => return Err(lamp_row_message(row_ordinal, " On event not available — read config from the Signal LCC node first")),
    };
    let off = match ev.get("off") {
        Some(v) => v,
        None => return Err(lamp_row_message(row_ordinal, " Off event not available — read config from the Signal LCC node first")),
    };
    let on_event = match parse_hex_id(on.as_str()) {
        Some(b) => b,
        None => {
            let mut m = lamp_row_message(row_ordinal, " On event invalid hex: ");
            m.append(on.as_str());
            proof {
                assert(m@ =~= lamp_row_text(row_ordinal, " On event invalid hex: "@ + on@));
            }
            return Err(m);
        },
    };
    let off_event = match parse_hex_id(off.as_str()) {
        Some(b) => b,
        None => {
            let mut m = lamp_row_message(row_ordinal, " Off event invalid hex: ");
            m.append(off.as_str());
            proof {
                assert(m@ =~= lamp_row_text(row_ordinal, " Off event invalid hex: "@ + off@));
            }
            return Err(m);
        },
    };
    assert(on_event@ =~= Seq::new(8, |i: int| hex_byte_at(hex_digits_only(on@), i) as u8));
    assert(off_event@ =~= Seq::new(8, |i: int| hex_byte_at(hex_digits_only(off@), i) as u8));
    Ok(PinEvents { on_event, off_event })
}


/// The pin events of a two-LED bicolor channel: pin 0 (red) from lamp row
/// `base_row`, pin 1 (green) from the row after it; the first row that does
/// not resolve gives the error.
pub fn bicolor_pin_events(
    base_row: u32,
    red: Option<&StrMap<String>>,
    green: Option<&StrMap<String>>,
) -> (r: Result<Vec<PinEvents>, String>)
    requires
        base_row < u32::MAX,
    ensures
        match (lamp_row_result(base_row, events_view(red)), lamp_row_result((base_row + 1) as u32, events_view(green))) {
            (Err(e), _) => r matches Err(m) && m@ == e,
            (Ok(_), Err(e)) => r matches Err(m) && m@ == e,
            (Ok((on0, off0)), Ok((on1, off1))) => r matches Ok(v) && v@.len() == 2
                && v@[0].on_event@ == on0 && v@[0].off_event@ == off0
                && v@[1].on_event@ == on1 && v@[1].off_event@ == off1,
        },
{
    let first = match lamp_row_pin_events(base_row, red) {
        Ok(p) => p,
        Err(e) => return Err(e),
    };
    let second = match lamp_row_pin_events(base_row + 1, green) {
        Ok(p) => p,
        Err(e) => return Err(e),
    };
    let mut v: Vec<PinEvents> = Vec::new();
    v.push(first);
    v.push(second);
    Ok(v)
}

} // verus!
