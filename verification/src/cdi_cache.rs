//! Where a node's configuration description is cached, and when a node is
//! known not to offer one.
//!
//! Descriptions are cached per board type, named after the manufacturer,
//! model and software version the node reports; a layout keeps copies of the
//! descriptions of its nodes in its companion directory.

use vstd::prelude::*;
use crate::layout_io::{companion_dir_text, derive_companion_dir_path, layout_path_ok};
use crate::nodes::SnipData;
use crate::text::{chars_of, char_is_alphanumeric, push_char, string_of, unicode_alphanumeric};

verus! {

/// A name part made safe for a file name: letters, digits, `-` and `_` are
/// kept, every other character becomes `_`.
pub open spec fn sanitized(s: Seq<char>) -> Seq<char> {
    s.map_values(|c: char| if unicode_alphanumeric(c) || c == '-' || c == '_' { c } else { '_' })
}

/// Spaces replaced by `_`.
pub open spec fn underscored(s: Seq<char>) -> Seq<char> {
    s.map_values(|c: char| if c == ' ' { '_' } else { c })
}

/// Appends `s` made safe for a file name.
fn push_sanitized(out: &mut String, s: &str)
    ensures
        final(out)@ == old(out)@ + sanitized(s@),
{
    let c = chars_of(s);
    let mut i: usize = 0;
    while i < c.len()
        invariant
            c@ == s@,
            i <= c@.len(),
            out@ == old(out)@ + sanitized(s@).subrange(0, i as int),
        decreases c.len() - i,
    {
        let ch = c[i];
        let keep = char_is_alphanumeric(ch) || ch == '-' || ch == '_';
        push_char(out, if keep { ch } else { '_' });
        assert(sanitized(s@).subrange(0, i + 1) =~= sanitized(s@).subrange(0, i as int).push(if keep { ch } else { '_' }));
        i = i + 1;
    }
    assert(sanitized(s@).subrange(0, c@.len() as int) =~= sanitized(s@));
}

/// Appends `s` with spaces replaced by `_`.
fn push_underscored(out: &mut String, s: &str)
    ensures
        final(out)@ == old(out)@ + underscored(s@),
{
    let c = chars_of(s);
    let mut i: usize = 0;
    while i < c.len()
        invariant
            c@ == s@,
            i <= c@.len(),
            out@ == old(out)@ + underscored(s@).subrange(0, i as int),
        decreases c.len() - i,
    {
        let ch = c[i];
        push_char(out, if ch == ' ' { '_' } else { ch });
        assert(underscored(s@).subrange(0, i + 1) =~= underscored(s@).subrange(0, i as int).push(if ch == ' ' { '_' } else { ch }));
        i = i + 1;
    }
    assert(underscored(s@).subrange(0, c@.len() as int) =~= underscored(s@));
}

/// The file name of the cached description of a board type:
/// `<manufacturer>_<model>_<version>.cdi.xml`, each part made safe.
pub fn cdi_cache_file_name(manufacturer: &str, model: &str, version: &str) -> (r: String)
    ensures
        r@ == sanitized(manufacturer@) + "_"@ + sanitized(model@) + "_"@ + sanitized(version@) + ".cdi.xml"@,
{
    let mut s = String::new();
    push_sanitized(&mut s, manufacturer);
    s.append("_");
    push_sanitized(&mut s, model);
    s.append("_");
    push_sanitized(&mut s, version);
    s.append(".cdi.xml");
    s
}

/// The key of a board type's description in a layout:
/// `<manufacturer>_<model>_<version>` with spaces replaced by `_`.
pub fn layout_cdi_key(snip: &SnipData) -> (r: String)
    ensures
        r@ == underscored(snip.manufacturer@) + "_"@ + underscored(snip.model@) + "_"@ + underscored(snip.software_version@),
{
    let mut s = String::new();
    push_underscored(&mut s, snip.manufacturer.as_str());
    s.append("_");
    push_underscored(&mut s, snip.model.as_str());
    s.append("_");
    push_underscored(&mut s, snip.software_version.as_str());
    s
}

/// Where a layout keeps the description of a board type:
/// `<companion dir>/cdi/<key>.xml`, or `None` when the layout path names no
/// file in a directory.
pub fn layout_cdi_path(layout_root: &str, snip: &SnipData) -> (r: Option<String>)
    ensures
        layout_path_ok(layout_root@) ==> (r matches Some(p)
            && p@ == companion_dir_text(layout_root@) + "/cdi/"@
                + underscored(snip.manufacturer@) + "_"@ + underscored(snip.model@) + "_"@
                + underscored(snip.software_version@) + ".xml"@),
        !layout_path_ok(layout_root@) ==> r is None,
{
    match derive_companion_dir_path(layout_root) {
        Ok(dir) => {
            let mut p = dir;
            p.append("/cdi/");
            let key = layout_cdi_key(snip);
            p.append(key.as_str());
            p.append(".xml");
            Some(p)
        },
        Err(_) => None,
    }
}

/// A node that has answered its protocol query (`pip_complete`) and says
/// (`flags`: description supported, memory configuration supported) that it
/// offers neither has no description to download.
pub fn cdi_unavailable(pip_complete: bool, flags: Option<(bool, bool)>) -> (r: bool)
    ensures
        r <==> (pip_complete && (flags matches Some((cdi, mem)) && !cdi && !mem)),
{
    if pip_complete {
        match flags {
            Some((cdi, mem)) => !cdi && !mem,
            None => false,
        }
    } else {
        false
    }
}

/// How a download names a node: its user name, else its model, else its ID.
pub fn download_label(snip: &Option<SnipData>, node_id: &str) -> (r: String)
    ensures
        match snip {
            Some(s) => if s.user_name@.len() > 0 { r@ == s.user_name@ } else { r@ == s.model@ },
            None => r@ == node_id@,
        },
{
    match snip {
        Some(s) => {
            if s.user_name.as_str().unicode_len() > 0 {
                string_of(s.user_name.as_str())
            } else {
                string_of(s.model.as_str())
            }
        },
        None => string_of(node_id),
    }
}

} // verus!
