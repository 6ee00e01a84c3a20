//! Placeholder boards: layout nodes synthesized from a bundled board profile
//! instead of discovered on the bus, keyed `placeholder:<uuid>`.

use vstd::prelude::*;
use crate::layout_types::{is_node_key, is_uuid_text};
use crate::stamps::new_uuid_text;
use crate::text::{is_blank, str_is_blank, string_of};

verus! {

/// The key of a newly added placeholder board.
pub struct AddPlaceholderResult {
    pub node_key: String,
}

/// Checks the profile stem a placeholder is made from: it must not be blank.
pub fn check_profile_stem(profile_stem: &str) -> (r: Result<(), String>)
    ensures
        r is Ok <==> !is_blank(profile_stem@),
        r matches Err(m) ==> m@ == "EmptyProfileStem"@,
{
    if str_is_blank(profile_stem) {
        return Err(string_of("EmptyProfileStem"));
    }
    Ok(())
}

/// A fresh placeholder node key: `placeholder:` and a random UUID. Every key
/// minted here is a valid node key.
pub fn new_placeholder_key() -> (r: String)
    ensures
        r@.len() == 48,
        r@.subrange(0, 12) == "placeholder:"@,
        is_uuid_text(r@.subrange(12, 48)),
        is_node_key(r@),
{
    let mut key = String::from_str("placeholder:");
    let u = new_uuid_text();
    key.append(u.as_str());
    proof {
        reveal_strlit("placeholder:");
        assert(key@.subrange(0, 12) =~= "placeholder:"@);
        assert(key@.subrange(12, 48) =~= u@);
    }
    key
}

} // verus!
