//! Naming rules of the on-disk layout: where the companion directory of a
//! layout file lives and how node snapshot files are named.
//!
//! Paths are handled as `/`-separated text. As with `std::path::Path`, the
//! last component is found after trailing separators and trailing `.`
//! segments are set aside, so `/tmp/x/` and `/tmp/x/.` both name `x` in
//! `/tmp`.

use vstd::prelude::*;
use crate::text::{chars_of, push_chars, push_char_range, string_of, to_uppercase, ascii_upper, unicode_upper};
use crate::layout_types::LayoutFile;

verus! {

/// Index of the last `/` in `s`, or -1 when there is none.
pub open spec fn last_slash(s: Seq<char>) -> int
    decreases s.len(),
{
    if s.len() == 0 {
        -1
    } else if s.last() == '/' {
        s.len() - 1
    } else {
        last_slash(s.drop_last())
    }
}

proof fn lemma_last_slash_bounds(s: Seq<char>)
    ensures
        -1 <= last_slash(s) < s.len(),
    decreases s.len(),
{
    if s.len() > 0 && s.last() != '/' {
        lemma_last_slash_bounds(s.drop_last());
    }
}

/// The final segment of a path.
pub open spec fn file_part(s: Seq<char>) -> Seq<char> {
    s.subrange(last_slash(s) + 1, s.len() as int)
}

/// Everything before the final segment, its trailing `/` included.
pub open spec fn dir_part(s: Seq<char>) -> Seq<char> {
    s.subrange(0, last_slash(s) + 1)
}

/// A segment that names a file: not empty, not `.` and not `..`.
pub open spec fn is_file_name(n: Seq<char>) -> bool {
    n.len() > 0 && n != "."@ && n != ".."@
}

/// `n` with the suffix `suf` removed, when `n` ends with it.
pub open spec fn strip_suffix(n: Seq<char>, suf: Seq<char>) -> Option<Seq<char>> {
    if n.len() >= suf.len() && n.subrange(n.len() - suf.len(), n.len() as int) == suf {
        Some(n.subrange(0, n.len() - suf.len()))
    } else {
        None
    }
}

/// The layout-file suffixes recognised, in the order they are tried.
pub open spec fn layout_suffixes() -> Seq<Seq<char>> {
    seq![".layout"@, ".bowties-layout.yaml"@, ".bowties-layout.yml"@, ".yaml"@, ".yml"@]
}

/// The stem of a layout file name: the name without the first recognised
/// suffix that it ends with, or the whole name.
pub open spec fn stem_from(n: Seq<char>, k: int) -> Seq<char>
    decreases 5 - k,
{
    if k >= 5 || k < 0 {
        n
    } else {
        match strip_suffix(n, layout_suffixes()[k]) {
            Some(stem) => stem,
            None => stem_from(n, k + 1),
        }
    }
}

/// Companion directory name of a layout file name.
pub open spec fn companion_name(n: Seq<char>) -> Seq<char> {
    stem_from(n, 0) + ".layout.d"@
}

/// Message for a path whose final segment is not a file name.
pub open spec fn invalid_name_error(p: Seq<char>) -> Seq<char> {
    "Invalid base layout filename: "@ + p
}

/// Message for a path with no parent directory.
pub open spec fn no_parent_error(p: Seq<char>) -> Seq<char> {
    "Layout file has no parent directory: "@ + p
}

/// A path has a parent: it is neither empty nor the root.
pub open spec fn has_parent(s: Seq<char>) -> bool {
    exists|i: int| 0 <= i < s.len() && s[i] != '/'
}

/// The stem length of `n` when it ends with `suf`.
fn strip_suffix_len(n: &Vec<char>, suf: &str) -> (r: Option<usize>)
    ensures
        r matches Some(k) ==> k <= n@.len() && strip_suffix(n@, suf@) == Some(n@.subrange(0, k as int)),
        r is None ==> strip_suffix(n@, suf@) is None,
{
    let sc = chars_of(suf);
    if n.len() < sc.len() {
        return None;
    }
    let base: usize = n.len() - sc.len();
    let mut i: usize = 0;
    while i < sc.len()
        invariant
            sc@ == suf@,
            base == n@.len() - sc@.len(),
            sc@.len() <= n@.len(),
            n@.len() <= usize::MAX,
            i <= sc@.len(),
            forall|j: int| 0 <= j < i ==> n@[base + j] == #[trigger] sc@[j],
        decreases sc.len() - i,
    {
        assert(base + i < n@.len());
        if n[base + i] != sc[i] {
            assert(n@.subrange(base as int, n@.len() as int)[i as int] != sc@[i as int]);
            return None;
        }
        i = i + 1;
    }
    assert(n@.subrange(base as int, n@.len() as int) =~= suf@);
    Some(base)
}

/// `s` without the trailing separators and trailing `.` segments that
/// `std::path::Path` ignores when it splits a path into components; a lone
/// `/` (the root) and a leading `.` stay.
pub open spec fn trim_end(s: Seq<char>) -> Seq<char>
    decreases s.len(),
{
    if s.len() >= 2 && s.last() == '/' {
        trim_end(s.drop_last())
    } else if s.len() >= 2 && s.last() == '.' && s[s.len() - 2] == '/' {
        trim_end(s.drop_last())
    } else {
        s
    }
}

/// The last component of a path (what `Path::file_name` looks at).
pub open spec fn base_name(s: Seq<char>) -> Seq<char> {
    file_part(trim_end(s))
}

/// The text of a path's parent (what `Path::parent` gives when it gives
/// one): the path without its last component and the separators before it.
pub open spec fn parent_text(s: Seq<char>) -> Seq<char> {
    trim_end(dir_part(trim_end(s)))
}

/// `name` joined onto directory `dir`, with no separator added when `dir`
/// is empty or already ends in one.
pub open spec fn join_path(dir: Seq<char>, name: Seq<char>) -> Seq<char> {
    if dir.len() == 0 {
        name
    } else if dir.last() == '/' {
        dir + name
    } else {
        dir + "/"@ + name
    }
}

/// A layout path from which a companion directory can be derived: it has a
/// parent and its last component names a file.
pub open spec fn layout_path_ok(s: Seq<char>) -> bool {
    has_parent(s) && is_file_name(base_name(s))
}

/// The companion directory of a layout path: next to the layout file, named
/// after it.
pub open spec fn companion_dir_text(s: Seq<char>) -> Seq<char> {
    join_path(parent_text(s), companion_name(base_name(s)))
}

/// Length of `trim_end` of the first `end` characters of `c`.
fn trimmed_len(c: &Vec<char>, end: usize) -> (r: usize)
    requires
        end <= c@.len(),
    ensures
        r <= end,
        trim_end(c@.subrange(0, end as int)) == c@.subrange(0, r as int),
{
    let mut e: usize = end;
    while e >= 2 && (c[e - 1] == '/' || (c[e - 1] == '.' && c[e - 2] == '/'))
        invariant
            e <= end <= c@.len(),
            trim_end(c@.subrange(0, end as int)) == trim_end(c@.subrange(0, e as int)),
        decreases e,
    {
        assert(c@.subrange(0, e - 1) =~= c@.subrange(0, e as int).drop_last());
        e = e - 1;
    }
    e
}

/// Position just after the last `/` among the first `end` characters of
/// `c` (0 when there is none).
fn name_start(c: &Vec<char>, end: usize) -> (r: usize)
    requires
        end <= c@.len(),
    ensures
        r == last_slash(c@.subrange(0, end as int)) + 1,
        r <= end,
{
    proof { lemma_last_slash_bounds(c@.subrange(0, end as int)); }
    let mut i: usize = end;
    while i > 0
        invariant
            i <= end <= c@.len(),
            last_slash(c@.subrange(0, end as int)) == last_slash(c@.subrange(0, i as int)),
        decreases i,
    {
        assert(c@.subrange(0, i - 1) =~= c@.subrange(0, i as int).drop_last());
        if c[i - 1] == '/' {
            return i;
        }
        i = i - 1;
    }
    0
}

/// Name of the companion directory that holds the captured data of a layout
/// file: the last component of the path, with its layout suffix replaced by
/// `.layout.d`.
pub fn derive_companion_dir_name(base_file: &str) -> (r: Result<String, String>)
    ensures
        is_file_name(base_name(base_file@)) ==> (r matches Ok(n) && n@ == companion_name(base_name(base_file@))),
        !is_file_name(base_name(base_file@)) ==> (r matches Err(m) && m@ == invalid_name_error(base_file@)),
{
    let c = chars_of(base_file);
    assert(c@.subrange(0, c@.len() as int) =~= c@);
    let end = trimmed_len(&c, c.len());
    let start = name_start(&c, end);
    let ghost t = c@.subrange(0, end as int);
    let mut name: Vec<char> = Vec::new();
    let mut i: usize = start;
    while i < end
        invariant
            c@ == base_file@,
            end <= c@.len(),
            start == last_slash(t) + 1,
            t == c@.subrange(0, end as int),
            start <= i <= end,
            name@ == c@.subrange(start as int, i as int),
        decreases end - i,
    {
        name.push(c[i]);
        i = i + 1;
    }
    assert(name@ =~= file_part(t));
    assert(name@ == base_name(base_file@));
    proof {
        reveal_strlit(".");
        reveal_strlit("..");
    }
    let dot_only = name.len() == 1 && name[0] == '.';
    let dots = name.len() == 2 && name[0] == '.' && name[1] == '.';
    if name.len() == 0 || dot_only || dots {
        proof {
            if dot_only { assert(name@ =~= "."@); }
            if dots { assert(name@ =~= ".."@); }
        }
        let mut m = string_of("Invalid base layout filename: ");
        m.append(base_file);
        return Err(m);
    }
    proof {
        assert(name@.len() == 1 ==> name@ != ".."@);
        assert(name@.len() == 2 ==> name@ != "."@);
        if name@.len() == 1 { assert(name@ != "."@ ==> name@[0] != '.'); }
    }
    assert(is_file_name(name@));
    let suffixes: [&str; 5] = [".layout", ".bowties-layout.yaml", ".bowties-layout.yml", ".yaml", ".yml"];
    let mut k: usize = 0;
    while k < 5
        invariant
            name@ == base_name(base_file@),
            is_file_name(name@),
            k <= 5,
            forall|j: int| 0 <= j < 5 ==> (#[trigger] suffixes@[j])@ == layout_suffixes()[j],
            stem_from(name@, 0) == stem_from(name@, k as int),
        decreases 5 - k,
    {
        match strip_suffix_len(&name, suffixes[k]) {
            Some(len) => {
                assert(stem_from(name@, k as int) == name@.subrange(0, len as int));
                let mut out = String::new();
                push_char_range(&mut out, name.as_slice(), 0, len);
                out.append(".layout.d");
                return Ok(out);
            },
            None => {},
        }
        k = k + 1;
    }
    let mut out = String::new();
    push_chars(&mut out, name.as_slice());
    out.append(".layout.d");
    Ok(out)
}

/// Path of the companion directory of a layout file: the file's parent
/// directory joined with the companion directory name.
pub fn derive_companion_dir_path(base_file: &str) -> (r: Result<String, String>)
    ensures
        !has_parent(base_file@) ==> (r matches Err(m) && m@ == no_parent_error(base_file@)),
        has_parent(base_file@) && !is_file_name(base_name(base_file@))
            ==> (r matches Err(m) && m@ == invalid_name_error(base_file@)),
        layout_path_ok(base_file@) ==> (r matches Ok(p) && p@ == companion_dir_text(base_file@)),
{
    let c = chars_of(base_file);
    let mut i: usize = 0;
    let mut found = false;
    while i < c.len()
        invariant
            c@ == base_file@,
            i <= c@.len(),
            found <==> exists|j: int| 0 <= j < i && c@[j] != '/',
        decreases c.len() - i,
    {
        if c[i] != '/' {
            found = true;
        }
        i = i + 1;
    }
    if !found {
        let mut m = string_of("Layout file has no parent directory: ");
        m.append(base_file);
        return Err(m);
    }
    let name = derive_companion_dir_name(base_file);
    match name {
        Err(e) => Err(e),
        Ok(n) => {
            assert(c@.subrange(0, c@.len() as int) =~= c@);
            let end = trimmed_len(&c, c.len());
            let start = name_start(&c, end);
            let ghost t = c@.subrange(0, end as int);
            assert(c@.subrange(0, start as int) =~= dir_part(t));
            let pend = trimmed_len(&c, start);
            let ghost par = c@.subrange(0, pend as int);
            assert(par == parent_text(base_file@));
            let mut out = String::new();
            push_char_range(&mut out, c.as_slice(), 0, pend);
            if pend > 0 && c[pend - 1] != '/' {
                out.append("/");
            }
            out.append(n.as_str());
            proof { reveal_strlit("/"); }
            assert(out@ =~= join_path(par, n@));
            Ok(out)
        },
    }
}

/// `<dir>/<name>.yaml`, with no separator added when `dir` is empty or ends in one.
pub open spec fn node_file_text(dir: Seq<char>, name: Seq<char>) -> Seq<char> {
    if dir.len() == 0 {
        name + ".yaml"@
    } else if dir.last() == '/' {
        dir + name + ".yaml"@
    } else {
        dir + "/"@ + name + ".yaml"@
    }
}

/// Path of the snapshot file of a node: `<nodes_dir>/<NODE_ID>.yaml`, the
/// ID uppercased.
pub fn derive_node_file_path(nodes_dir: &str, node_id: &str) -> (r: String)
    ensures
        r@ == node_file_text(nodes_dir@, unicode_upper(node_id@)),
        (forall|i: int| 0 <= i < node_id@.len() ==> (#[trigger] node_id@[i] as u32) < 128)
            ==> r@ == node_file_text(nodes_dir@, node_id@.map_values(|c: char| ascii_upper(c))),
{
    let c = chars_of(nodes_dir);
    let mut out = string_of(nodes_dir);
    if c.len() > 0 && c[c.len() - 1] != '/' {
        out.append("/");
    }
    let up = to_uppercase(node_id);
    out.append(up.as_str());
    out.append(".yaml");
    out
}

/// Validates the schema of a loaded layout file.
pub fn validate_schema(layout: &LayoutFile) -> (r: Result<(), String>)
    ensures
        r is Ok <==> layout.is_valid(),
        r matches Err(m) ==> layout.validation_message(m@),
{
    layout.validate()
}

} // verus!
