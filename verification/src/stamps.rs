//! The clock and random identifiers: the current UTC time and fresh UUIDs,
//! and the identifiers minted from them.

use vstd::prelude::*;
use crate::layout_types::is_uuid_text;
use crate::text::{i64_decimal, int_decimal, is_hex_char, is_white_space, is_blank, push_char};

verus! {

/// The current UTC time as RFC 3339 text (`chrono::Utc::now().to_rfc3339()`).
/// Nothing is stated of the text: it depends on the clock.
#[verifier::external_body]
pub(crate) fn now_rfc3339() -> (r: String) {
    chrono::Utc::now().to_rfc3339()
}

/// The current UTC time in milliseconds since the Unix epoch
/// (`chrono::Utc::now().timestamp_millis()`). Nothing is stated of the value:
/// it depends on the clock.
#[verifier::external_body]
pub(crate) fn now_millis() -> (r: i64) {
    chrono::Utc::now().timestamp_millis()
}

/// The current UTC time in seconds since the Unix epoch
/// (`chrono::Utc::now().timestamp()`). Nothing is stated of the value: it
/// depends on the clock.
#[verifier::external_body]
pub(crate) fn now_seconds() -> (r: i64) {
    chrono::Utc::now().timestamp()
}

/// A random version-4 UUID as text (`uuid::Uuid::new_v4().to_string()`).
/// Its `Display` writes the lowercase hyphenated form: 36 characters, hex
/// digits with hyphens at positions 8, 13, 18 and 23. Which UUID comes out
/// is left open.
#[verifier::external_body]
pub(crate) fn new_uuid_text() -> (r: String)
    ensures
        is_uuid_text(r@),
{
    uuid::Uuid::new_v4().to_string()
}

/// A change ID: a UUID, a hyphen and a time in milliseconds.
pub open spec fn is_change_id(id: Seq<char>) -> bool {
    exists|u: Seq<char>, ms: int| #![trigger is_uuid_text(u), int_decimal(ms)] is_uuid_text(u) && id == u + seq!['-'] + int_decimal(ms)
}

/// A change ID is never blank: it starts with a hex digit.
pub proof fn lemma_change_id_not_blank(id: Seq<char>)
    requires
        is_change_id(id),
    ensures
        !is_blank(id),
{
    let (u, ms) = choose|u: Seq<char>, ms: int| #![trigger is_uuid_text(u), int_decimal(ms)] is_uuid_text(u) && id == u + seq!['-'] + int_decimal(ms);
    assert(id[0] == u[0]);
    assert(is_hex_char(u[0]));
    assert(!is_white_space(id[0]));
}

/// A fresh change ID from a random UUID and the current time.
pub fn new_change_id() -> (r: String)
    ensures
        is_change_id(r@),
{
    let mut id = new_uuid_text();
    let ghost u = id@;
    push_char(&mut id, '-');
    let ms = now_millis();
    let digits = i64_decimal(ms);
    id.append(digits.as_str());
    assert(id@ == u + seq!['-'] + int_decimal(ms as int));
    assert(is_uuid_text(u) && int_decimal(ms as int) == int_decimal(ms as int));
    id
}

} // verus!
