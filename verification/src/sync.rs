//! Syncing offline changes to a live bus: how well the bus matches the
//! layout, which planned changes are already applied, clean or in conflict,
//! and what an apply run did with each change.

use vstd::prelude::*;
use crate::offline::{
    ChangeView, OfflineChange, OfflineChangeKind, OfflineChangeStatus, changes_view, copy_change,
};
use crate::strmap::str_eq;
use crate::cdi::{FieldMeta, LeafType};
use crate::node_id::{NodeId, parses_as_node_id};
use crate::values::{bytes_text, opt_chars, raw_bytes_to_value_string};
use crate::text::{decimal_digits, push_char, u64_decimal};
use crate::text::{
    chars_of, copy_opt_string, copy_string, opt_str, remove_char, string_from_chars, string_of, strs,
    to_uppercase, unicode_upper, ascii_upper,
};

verus! {

/// Overlap percentages at which a bus is judged the same layout, or uncertain.
#[derive(Clone, Copy)]
pub struct LayoutMatchThresholds {
    pub likely_same_min: u8,
    pub uncertain_min: u8,
}

/// How many of the layout's nodes are on the bus, and the verdict.
pub struct LayoutMatchCounts {
    pub matched: usize,
    pub total: usize,
    pub classification: String,
    pub expected_thresholds: LayoutMatchThresholds,
}

/// A node ID compared without dots and case: `05.02.01.02.03.00` and
/// `050201020300` are the same node.
pub open spec fn node_key(s: Seq<char>) -> Seq<char> {
    unicode_upper(remove_char(s, '.'))
}

/// The keys of a list of node IDs.
pub open spec fn node_keys(v: Seq<String>) -> Seq<Seq<char>> {
    strs(v).map_values(|s: Seq<char>| node_key(s))
}

/// The set of distinct node keys of a list of node IDs.
pub open spec fn key_set(v: Seq<String>) -> Set<Seq<char>> {
    node_keys(v).to_set()
}

/// The verdict for `matched` of `total` layout nodes found on the bus:
/// at least 80% is likely the same layout, at least 40% uncertain.
pub open spec fn match_class(matched: int, total: int) -> Seq<char> {
    if total == 0 {
        "likely_different"@
    } else if matched * 100 >= 80 * total {
        "likely_same"@
    } else if matched * 100 >= 40 * total {
        "uncertain"@
    } else {
        "likely_different"@
    }
}

/// Characters kept by `remove_char` are ASCII when the text is.
proof fn lemma_remove_char_ascii(s: Seq<char>, c: char)
    requires
        forall|i: int| 0 <= i < s.len() ==> (#[trigger] s[i] as u32) < 128,
    ensures
        forall|i: int| 0 <= i < remove_char(s, c).len() ==> (#[trigger] remove_char(s, c)[i] as u32) < 128,
    decreases s.len(),
{
    if s.len() > 0 {
        let d = s.drop_last();
        assert forall|i: int| 0 <= i < d.len() implies (#[trigger] d[i] as u32) < 128 by {
            assert(d[i] == s[i]);
        }
        lemma_remove_char_ascii(d, c);
        let r = remove_char(d, c);
        if s.last() != c {
            assert forall|i: int| 0 <= i < r.push(s.last()).len() implies (#[trigger] r.push(s.last())[i] as u32) < 128 by {
                if i < r.len() { assert(r.push(s.last())[i] == r[i]); } else { assert((s[s.len() - 1] as u32) < 128); }
            }
        }
    }
}

/// A node ID without its dots, in upper case.
pub fn normalize_node_key(s: &str) -> (r: String)
    ensures
        r@ == node_key(s@),
        (forall|i: int| 0 <= i < s@.len() ==> (#[trigger] s@[i] as u32) < 128)
            ==> r@ == remove_char(s@, '.').map_values(|c: char| ascii_upper(c)),
{
    let c = chars_of(s);
    let mut kept: Vec<char> = Vec::new();
    let mut i: usize = 0;
    while i < c.len()
        invariant
            c@ == s@,
            i <= c@.len(),
            kept@ == remove_char(c@.subrange(0, i as int), '.'),
        decreases c.len() - i,
    {
        assert(c@.subrange(0, i + 1).drop_last() =~= c@.subrange(0, i as int));
        assert(c@.subrange(0, i + 1).last() == c@[i as int]);
        if c[i] != '.' {
            kept.push(c[i]);
        }
        i = i + 1;
    }
    assert(c@.subrange(0, c@.len() as int) =~= c@);
    let t = string_from_chars(kept.as_slice());
    proof {
        if forall|i: int| 0 <= i < s@.len() ==> (#[trigger] s@[i] as u32) < 128 {
            lemma_remove_char_ascii(s@, '.');
        }
    }
    to_uppercase(t.as_str())
}

/// Whether `k` is among the strings of `v`.
fn contains_str(v: &Vec<String>, k: &str) -> (r: bool)
    ensures
        r == strs(v@).contains(k@),
{
    let mut i: usize = 0;
    while i < v.len()
        invariant
            i <= v@.len(),
            forall|j: int| 0 <= j < i ==> strs(v@)[j] != k@,
        decreases v.len() - i,
    {
        if str_eq(v[i].as_str(), k) {
            assert(strs(v@)[i as int] == k@);
            return true;
        }
        i = i + 1;
    }
    false
}

proof fn lemma_keys_push(v: Seq<String>, i: int)
    requires
        0 <= i < v.len(),
    ensures
        node_keys(v.subrange(0, i + 1)) == node_keys(v.subrange(0, i)).push(node_key(v[i]@)),
        key_set(v.subrange(0, i + 1)) == key_set(v.subrange(0, i)).insert(node_key(v[i]@)),
{
    assert(node_keys(v.subrange(0, i + 1)) =~= node_keys(v.subrange(0, i)).push(node_key(v[i]@)));
    let a = node_keys(v.subrange(0, i));
    let k = node_key(v[i]@);
    let b = a.push(k);
    assert forall|x: Seq<char>| b.contains(x) <==> (a.contains(x) || x == k) by {
        if b.contains(x) {
            let j = choose|j: int| 0 <= j < b.len() && b[j] == x;
            if j < a.len() { assert(a[j] == x); }
        }
        if a.contains(x) {
            let j = choose|j: int| 0 <= j < a.len() && a[j] == x;
            assert(b[j] == x);
        }
        if x == k {
            assert(b[a.len() as int] == x);
        }
    }
    assert(b.to_set() =~= a.to_set().insert(k));
    assert(node_keys(v.subrange(0, i + 1)) == b);
}

/// The distinct keys of a list of node IDs, in first-seen order.
fn distinct_keys(v: &Vec<String>) -> (r: Vec<String>)
    ensures
        strs(r@).no_duplicates(),
        strs(r@).to_set() == key_set(v@),
{
    let mut out: Vec<String> = Vec::new();
    let mut i: usize = 0;
    assert(key_set(v@.subrange(0, 0)) =~= Set::<Seq<char>>::empty());
    assert(strs(out@).to_set() =~= Set::<Seq<char>>::empty());
    while i < v.len()
        invariant
            i <= v@.len(),
            strs(out@).no_duplicates(),
            strs(out@).to_set() == key_set(v@.subrange(0, i as int)),
        decreases v.len() - i,
    {
        proof { lemma_keys_push(v@, i as int); }
        let k = normalize_node_key(v[i].as_str());
        if !contains_str(&out, k.as_str()) {
            let ghost before = strs(out@);
            out.push(k);
            proof {
                assert(strs(out@) =~= before.push(node_key(v@[i as int]@)));
                assert(strs(out@).to_set() =~= before.to_set().insert(node_key(v@[i as int]@))) by {
                    assert forall|x: Seq<char>| strs(out@).contains(x) <==> (before.contains(x) || x == node_key(v@[i as int]@)) by {
                        if strs(out@).contains(x) {
                            let j = choose|j: int| 0 <= j < strs(out@).len() && strs(out@)[j] == x;
                            if j < before.len() { assert(before[j] == x); }
                        }
                        if before.contains(x) {
                            let j = choose|j: int| 0 <= j < before.len() && before[j] == x;
                            assert(strs(out@)[j] == x);
                        }
                        if x == node_key(v@[i as int]@) {
                            assert(strs(out@)[before.len() as int] == x);
                        }
                    }
                }
            }
        } else {
            assert(strs(out@).to_set().insert(node_key(v@[i as int]@)) =~= strs(out@).to_set());
        }
        i = i + 1;
    }
    assert(v@.subrange(0, v@.len() as int) =~= v@);
    out
}

/// Compares the node IDs of the active layout with those found on the bus:
/// counts the distinct layout nodes and how many of them were discovered,
/// and classifies the overlap.
pub fn compute_layout_match_status(
    layout_active: bool,
    layout_node_ids: &Vec<String>,
    discovered_node_ids: &Vec<String>,
) -> (r: Result<LayoutMatchCounts, String>)
    ensures
        !layout_active ==> (r matches Err(m) && m@ == "No layout is active"@),
        layout_active ==> (r matches Ok(c) && {
            &&& c.total == key_set(layout_node_ids@).len()
            &&& c.matched == key_set(layout_node_ids@).intersect(key_set(discovered_node_ids@)).len()
            &&& c.classification@ == match_class(c.matched as int, c.total as int)
            &&& c.expected_thresholds.likely_same_min == 80
            &&& c.expected_thresholds.uncertain_min == 40
        }),
{
    if !layout_active {
        return Err(string_of("No layout is active"));
    }
    let thresholds = LayoutMatchThresholds { likely_same_min: 80, uncertain_min: 40 };
    let layout = distinct_keys(layout_node_ids);
    let found = distinct_keys(discovered_node_ids);
    let ghost lk = strs(layout@);
    let ghost dset = key_set(discovered_node_ids@);
    let mut matched: Vec<String> = Vec::new();
    let mut i: usize = 0;
    assert(strs(matched@).to_set() =~= lk.subrange(0, 0).to_set().intersect(dset));
    while i < layout.len()
        invariant
            lk == strs(layout@),
            lk.no_duplicates(),
            strs(found@).to_set() == dset,
            i <= lk.len(),
            strs(matched@).no_duplicates(),
            strs(matched@).to_set() == lk.subrange(0, i as int).to_set().intersect(dset),
            strs(matched@).len() <= i,
        decreases layout.len() - i,
    {
        let ghost pre = lk.subrange(0, i as int);
        let ghost nxt = lk.subrange(0, i + 1);
        let ghost x = lk[i as int];
        assert(nxt =~= pre.push(x));
        assert(nxt.to_set() =~= pre.to_set().insert(x)) by {
            assert forall|y: Seq<char>| nxt.contains(y) <==> (pre.contains(y) || y == x) by {
                if nxt.contains(y) {
                    let j = choose|j: int| 0 <= j < nxt.len() && nxt[j] == y;
                    if j < pre.len() { assert(pre[j] == y); }
                }
                if pre.contains(y) {
                    let j = choose|j: int| 0 <= j < pre.len() && pre[j] == y;
                    assert(nxt[j] == y);
                }
                if y == x { assert(nxt[i as int] == y); }
            }
        }
        assert(!pre.contains(x)) by {
            if pre.contains(x) {
                let j = choose|j: int| 0 <= j < pre.len() && pre[j] == x;
                assert(lk[j] == lk[i as int]);
            }
        }
        assert(strs(found@).contains(x) == dset.contains(x));
        if contains_str(&found, layout[i].as_str()) {
            let ghost before = strs(matched@);
            matched.push(copy_string(&layout[i]));
            proof {
                assert(strs(matched@) =~= before.push(x));
                assert(!before.contains(x)) by {
                    if before.contains(x) {
                        assert(before.to_set().contains(x));
                    }
                }
                assert(strs(matched@).to_set() =~= before.to_set().insert(x)) by {
                    assert forall|y: Seq<char>| strs(matched@).contains(y) <==> (before.contains(y) || y == x) by {
                        if strs(matched@).contains(y) {
                            let j = choose|j: int| 0 <= j < strs(matched@).len() && strs(matched@)[j] == y;
                            if j < before.len() { assert(before[j] == y); }
                        }
                        if before.contains(y) {
                            let j = choose|j: int| 0 <= j < before.len() && before[j] == y;
                            assert(strs(matched@)[j] == y);
                        }
                        if y == x { assert(strs(matched@)[before.len() as int] == y); }
                    }
                }
                assert(strs(matched@).to_set() =~= nxt.to_set().intersect(dset));
            }
        } else {
            assert(strs(matched@).to_set() =~= nxt.to_set().intersect(dset));
        }
        i = i + 1;
    }
    assert(lk.subrange(0, lk.len() as int) =~= lk);
    proof {
        lk.unique_seq_to_set();
        strs(matched@).unique_seq_to_set();
    }
    let total = layout.len();
    let m = matched.len();
    let classification = if total == 0 {
        string_of("likely_different")
    } else if (m as u128) * 100 >= 80 * (total as u128) {
        string_of("likely_same")
    } else if (m as u128) * 100 >= 40 * (total as u128) {
        string_of("uncertain")
    } else {
        string_of("likely_different")
    };
    Ok(LayoutMatchCounts { matched: m, total, classification, expected_thresholds: thresholds })
}

/// Lower-case hex digit of a nibble.
pub open spec fn hex_digit_lower(v: nat) -> char {
    if v < 10 { ((v + 48) as u32) as char } else { ((v + 87) as u32) as char }
}

/// Hex digit `i` (from the most significant) of a 32-bit value.
pub open spec fn hex8_digit(v: u32, i: int) -> char {
    hex_digit_lower(((v as nat) / pow16((7 - i) as nat)) % 16)
}

/// The first `i` hex digits of a 32-bit value.
pub open spec fn hex8_prefix(v: u32, i: int) -> Seq<char>
    decreases i,
{
    if i <= 0 { Seq::empty() } else { hex8_prefix(v, i - 1).push(hex8_digit(v, i - 1)) }
}

/// `0x` and eight lower-case hex digits, most significant first.
pub open spec fn hex8(v: u32) -> Seq<char> {
    "0x"@ + hex8_prefix(v, 8)
}

/// 16 to the power `n`.
pub open spec fn pow16(n: nat) -> nat
    decreases n,
{
    if n == 0 { 1 } else { 16 * pow16((n - 1) as nat) }
}

proof fn lemma_pow16_pos(n: nat)
    ensures
        pow16(n) >= 1,
    decreases n,
{
    if n > 0 {
        lemma_pow16_pos((n - 1) as nat);
    }
}

/// Formats an address as `0x` followed by eight lower-case hex digits.
pub fn hex8_string(v: u32) -> (r: String)
    ensures
        r@ == hex8(v),
{
    let mut s = string_of("0x");
    let digits: [char; 16] = ['0', '1', '2', '3', '4', '5', '6', '7', '8', '9', 'a', 'b', 'c', 'd', 'e', 'f'];
    let divs: [u32; 8] = [0x1000_0000, 0x100_0000, 0x10_0000, 0x1_0000, 0x1000, 0x100, 0x10, 0x1];
    proof {
        reveal_with_fuel(pow16, 9);
        assert(forall|j: int| 0 <= j < 16 ==> (#[trigger] digits@[j]) == hex_digit_lower(j as nat));
        assert(forall|j: int| 0 <= j < 8 ==> (#[trigger] divs@[j]) as nat == pow16((7 - j) as nat));
    }
    let mut i: usize = 0;
    while i < 8
        invariant
            i <= 8,
            s@ == "0x"@ + hex8_prefix(v, i as int),
            forall|j: int| 0 <= j < 16 ==> (#[trigger] digits@[j]) == hex_digit_lower(j as nat),
            forall|j: int| 0 <= j < 8 ==> (#[trigger] divs@[j]) as nat == pow16((7 - j) as nat),
        decreases 8 - i,
    {
        let div = divs[i];
        proof {
            assert(divs@[i as int] as nat == pow16((7 - i) as nat));
            lemma_pow16_pos((7 - i) as nat);
        }
        let d = ((v / div) % 16) as usize;
        push_char(&mut s, digits[d]);
        assert(s@ =~= "0x"@ + hex8_prefix(v, i + 1));
        i = i + 1;
    }
    s
}

/// How a pending row is listed in a sync session.
pub struct SyncRow {
    pub change_id: String,
    pub node_id: Option<String>,
    pub baseline_value: String,
    pub planned_value: String,
    pub bus_value: Option<String>,
    pub resolution: String,
    pub error: Option<String>,
}

/// The pending rows sorted by what the bus holds.
pub struct SyncSession {
    pub conflict_rows: Vec<SyncRow>,
    pub clean_rows: Vec<SyncRow>,
    pub already_applied_count: usize,
    pub node_missing_rows: Vec<SyncRow>,
}

/// What reading a config change's field from the bus gave.
pub enum SyncProbe {
    /// The node is not on the bus.
    NodeAbsent,
    /// The node's description could not be loaded, with why.
    CdiUnavailable(String),
    /// The description has no field at the change's address.
    FieldMissing,
    /// The memory read failed, with why.
    ReadFailed(String),
    /// The field's metadata and the bytes read.
    Read(FieldMeta, Vec<u8>),
    /// The text of a floating-point field, formatted by the caller (`None`
    /// when the bytes could not be formatted).
    FloatText(Option<String>),
}

/// A pending change together with what its bus read gave.
pub struct SyncCheck {
    pub change: OfflineChange,
    pub probe: SyncProbe,
}

/// Where a checked change goes in the session.
pub enum SyncVerdict {
    AlreadyApplied,
    Clean(Option<Seq<char>>),
    Conflict(Seq<char>),
    Missing(Option<Seq<char>>),
}

/// The address space of a change (0 when it has none).
pub open spec fn change_space(c: ChangeView) -> u8 {
    match c.space { Some(s) => s, None => 0 }
}

/// The address of a change (0 when it has no offset or the offset is not hex).
pub open spec fn change_address(c: ChangeView) -> u32 {
    match c.offset {
        Some(o) => match crate::offline::offset_value(o) { Some(a) => a, None => 0 },
        None => 0,
    }
}

/// Message for a field missing from the description.
pub open spec fn field_missing_error(space: u8, address: u32) -> Seq<char> {
    "Field not found in CDI at space="@ + decimal_digits(space as nat) + " address="@ + hex8(address)
}

/// The text a bus read gives, when it can be shown.
pub open spec fn probe_text(p: SyncProbe) -> Option<Seq<char>> {
    match p {
        SyncProbe::Read(meta, raw) => if meta.leaf_type == LeafType::Float { None } else { bytes_text(meta, raw@) },
        SyncProbe::FloatText(t) => opt_chars(t),
        _ => None,
    }
}

/// Where a pending change goes: non-config changes are clean; a config
/// change without a usable node ID, or whose field could not be read, is
/// missing (with the reason); otherwise the bus value decides — equal to the
/// planned value is already applied, equal to the baseline is clean, anything
/// else is a conflict.
pub open spec fn sync_verdict(c: ChangeView, p: SyncProbe) -> SyncVerdict {
    if c.kind != OfflineChangeKind::Config {
        SyncVerdict::Clean(None)
    } else if c.node_id is None {
        SyncVerdict::Missing(Some("No node ID"@))
    } else if !parses_as_node_id(c.node_id->0) {
        SyncVerdict::Missing(Some("Invalid node ID: "@ + c.node_id->0))
    } else {
        match p {
            SyncProbe::NodeAbsent => SyncVerdict::Missing(None),
            SyncProbe::CdiUnavailable(e) => SyncVerdict::Missing(Some("CDI unavailable: "@ + e@)),
            SyncProbe::FieldMissing => SyncVerdict::Missing(Some(field_missing_error(change_space(c), change_address(c)))),
            SyncProbe::ReadFailed(e) => SyncVerdict::Missing(Some("Read failed: "@ + e@)),
            _ => match probe_text(p) {
                None => SyncVerdict::Missing(Some("Cannot parse bus value"@)),
                Some(b) => if b == c.planned_value {
                    SyncVerdict::AlreadyApplied
                } else if b == c.baseline_value {
                    SyncVerdict::Clean(Some(b))
                } else {
                    SyncVerdict::Conflict(b)
                },
            },
        }
    }
}

/// `row` lists change `c` with the given bus value and error, unresolved.
pub open spec fn row_for(row: SyncRow, c: ChangeView, bus: Option<Seq<char>>, err: Option<Seq<char>>) -> bool {
    &&& row.change_id@ == c.change_id
    &&& opt_str(row.node_id) == c.node_id
    &&& row.baseline_value@ == c.baseline_value
    &&& row.planned_value@ == c.planned_value
    &&& opt_str(row.bus_value) == bus
    &&& row.resolution@ == "unresolved"@
    &&& opt_str(row.error) == err
}

/// A session row for a change.
fn make_row(c: &OfflineChange, bus: Option<String>, err: Option<String>) -> (r: SyncRow)
    ensures
        row_for(r, c@, opt_str(bus), opt_str(err)),
{
    SyncRow {
        change_id: copy_string(&c.change_id),
        node_id: copy_opt_string(&c.node_id),
        baseline_value: copy_string(&c.baseline_value),
        planned_value: copy_string(&c.planned_value),
        bus_value: bus,
        resolution: string_of("unresolved"),
        error: err,
    }
}

/// The node a config change targets, its canonical key, space and address:
/// what the caller reads from the bus for it. `None` when the change needs no
/// read (not a config change) or names no valid node.
pub fn sync_target(change: &OfflineChange) -> (r: Option<(NodeId, String, u8, u32)>)
    ensures
        r is Some <==> (change.kind == OfflineChangeKind::Config && change@.node_id is Some
            && parses_as_node_id(change@.node_id->0)),
        r matches Some((_, key, space, address)) ==> key@ == node_key(change@.node_id->0)
            && space == change_space(change@) && address == change_address(change@),
{
    if change.kind != OfflineChangeKind::Config {
        return None;
    }
    match &change.node_id {
        None => None,
        Some(id) => match NodeId::from_hex_string(id.as_str()) {
            None => None,
            Some(node) => {
                let space = match change.space { Some(s) => s, None => 0 };
                let address = match &change.offset {
                    Some(o) => match crate::offline::parse_offset(o.as_str()) { Some(a) => a, None => 0 },
                    None => 0,
                };
                Some((node, normalize_node_key(id.as_str()), space, address))
            },
        },
    }
}

/// Bytes to read for a field: its size, at most 64.
pub fn bus_read_size(meta: &FieldMeta) -> (r: u8)
    ensures
        r as int == if meta.size < 64 { meta.size as int } else { 64 },
{
    if meta.size < 64 { meta.size as u8 } else { 64 }
}

/// Where a checked change is placed in the session.
#[derive(PartialEq, Eq, Structural)]
pub enum SyncPlacement {
    AlreadyApplied,
    Clean,
    Conflict,
    Missing,
}

/// Decides where one checked change goes.
pub fn classify_sync_check(change: &OfflineChange, probe: &SyncProbe) -> (r: (SyncPlacement, SyncRow))
    ensures
        match sync_verdict(change@, *probe) {
            SyncVerdict::Clean(b) => r.0 == SyncPlacement::Clean && row_for(r.1, change@, b, None),
            SyncVerdict::Conflict(b) => r.0 == SyncPlacement::Conflict && row_for(r.1, change@, Some(b), None),
            SyncVerdict::Missing(e) => r.0 == SyncPlacement::Missing && row_for(r.1, change@, None, e),
            SyncVerdict::AlreadyApplied => r.0 == SyncPlacement::AlreadyApplied,
        },
{
    proof {
        reveal_strlit("No node ID");
    }
    if change.kind != OfflineChangeKind::Config {
        return (SyncPlacement::Clean, make_row(change, None, None));
    }
    let id = match &change.node_id {
        None => {
            let e = string_of("No node ID");
            return (SyncPlacement::Missing, make_row(change, None, Some(e)));
        },
        Some(id) => id,
    };
    if NodeId::from_hex_string(id.as_str()).is_none() {
        let mut e = string_of("Invalid node ID: ");
        e.append(id.as_str());
        return (SyncPlacement::Missing, make_row(change, None, Some(e)));
    }
    let text: Option<String> = match probe {
        SyncProbe::NodeAbsent => {
            return (SyncPlacement::Missing, make_row(change, None, None));
        },
        SyncProbe::CdiUnavailable(msg) => {
            let mut e = string_of("CDI unavailable: ");
            e.append(msg.as_str());
            return (SyncPlacement::Missing, make_row(change, None, Some(e)));
        },
        SyncProbe::FieldMissing => {
            let space = match change.space { Some(s) => s, None => 0 };
            let address = match &change.offset {
                Some(o) => match crate::offline::parse_offset(o.as_str()) { Some(a) => a, None => 0 },
                None => 0,
            };
            let mut e = string_of("Field not found in CDI at space=");
            let d = u64_decimal(space as u64);
            e.append(d.as_str());
            e.append(" address=");
            let h = hex8_string(address);
            e.append(h.as_str());
            return (SyncPlacement::Missing, make_row(change, None, Some(e)));
        },
        SyncProbe::ReadFailed(msg) => {
            let mut e = string_of("Read failed: ");
            e.append(msg.as_str());
            return (SyncPlacement::Missing, make_row(change, None, Some(e)));
        },
        SyncProbe::Read(meta, raw) => {
            if meta.leaf_type == LeafType::Float {
                None
            } else {
                raw_bytes_to_value_string(meta, raw.as_slice())
            }
        },
        SyncProbe::FloatText(t) => copy_opt_string(t),
    };
    assert(opt_chars(text) == probe_text(*probe));
    match text {
        None => {
            let e = string_of("Cannot parse bus value");
            (SyncPlacement::Missing, make_row(change, None, Some(e)))
        },
        Some(b) => {
            if str_eq(b.as_str(), change.planned_value.as_str()) {
                (SyncPlacement::AlreadyApplied, make_row(change, None, None))
            } else if str_eq(b.as_str(), change.baseline_value.as_str()) {
                (SyncPlacement::Clean, make_row(change, Some(b), None))
            } else {
                (SyncPlacement::Conflict, make_row(change, Some(b), None))
            }
        },
    }
}

/// The session the checks `0..n` make: the pending ones, each placed by its verdict.
pub open spec fn session_upto(checks: Seq<SyncCheck>, n: int) -> (Seq<(ChangeView, Option<Seq<char>>)>, Seq<(ChangeView, Seq<char>)>, int, Seq<(ChangeView, Option<Seq<char>>)>)
    decreases n,
{
    if n <= 0 {
        (Seq::empty(), Seq::empty(), 0, Seq::empty())
    } else {
        let prev = session_upto(checks, n - 1);
        let c = checks[n - 1].change@;
        if c.status != OfflineChangeStatus::Pending {
            prev
        } else {
            match sync_verdict(c, checks[n - 1].probe) {
                SyncVerdict::Clean(b) => (prev.0.push((c, b)), prev.1, prev.2, prev.3),
                SyncVerdict::Conflict(b) => (prev.0, prev.1.push((c, b)), prev.2, prev.3),
                SyncVerdict::AlreadyApplied => (prev.0, prev.1, prev.2 + 1, prev.3),
                SyncVerdict::Missing(e) => (prev.0, prev.1, prev.2, prev.3.push((c, e))),
            }
        }
    }
}

/// The rows list exactly the given changes, with their bus values and errors.
pub open spec fn rows_list_bus(rows: Seq<SyncRow>, want: Seq<(ChangeView, Option<Seq<char>>)>) -> bool {
    rows.len() == want.len() && forall|i: int| 0 <= i < rows.len() ==> row_for(#[trigger] rows[i], want[i].0, want[i].1, None)
}

/// The rows list exactly the given conflicting changes with their bus values.
pub open spec fn rows_list_conflicts(rows: Seq<SyncRow>, want: Seq<(ChangeView, Seq<char>)>) -> bool {
    rows.len() == want.len() && forall|i: int| 0 <= i < rows.len() ==> row_for(#[trigger] rows[i], want[i].0, Some(want[i].1), None)
}

/// The rows list exactly the given missing changes with their errors.
pub open spec fn rows_list_missing(rows: Seq<SyncRow>, want: Seq<(ChangeView, Option<Seq<char>>)>) -> bool {
    rows.len() == want.len() && forall|i: int| 0 <= i < rows.len() ==> row_for(#[trigger] rows[i], want[i].0, None, want[i].1)
}

/// Builds a sync session from the pending changes and what the bus gave for
/// each: clean, conflicting and missing rows in change order, and how many
/// changes the bus already holds.
pub fn build_sync_session(checks: &Vec<SyncCheck>) -> (r: SyncSession)
    ensures
        ({
            let want = session_upto(checks@, checks@.len() as int);
            &&& rows_list_bus(r.clean_rows@, want.0)
            &&& rows_list_conflicts(r.conflict_rows@, want.1)
            &&& r.already_applied_count == want.2
            &&& rows_list_missing(r.node_missing_rows@, want.3)
        }),
{
    let mut clean: Vec<SyncRow> = Vec::new();
    let mut conflict: Vec<SyncRow> = Vec::new();
    let mut missing: Vec<SyncRow> = Vec::new();
    let mut applied: usize = 0;
    let mut i: usize = 0;
    while i < checks.len()
        invariant
            i <= checks@.len(),
            ({
                let want = session_upto(checks@, i as int);
                &&& rows_list_bus(clean@, want.0)
                &&& rows_list_conflicts(conflict@, want.1)
                &&& applied == want.2
                &&& rows_list_missing(missing@, want.3)
            }),
            applied <= i,
        decreases checks.len() - i,
    {
        let ck = &checks[i];
        let ghost prev = session_upto(checks@, i as int);
        if ck.change.status == OfflineChangeStatus::Pending {
            let (v, row) = classify_sync_check(&ck.change, &ck.probe);
            match v {
                SyncPlacement::Clean => {
                    clean.push(row);
                },
                SyncPlacement::Conflict => {
                    conflict.push(row);
                },
                SyncPlacement::AlreadyApplied => {
                    applied = applied + 1;
                },
                SyncPlacement::Missing => {
                    missing.push(row);
                },
            }
            proof {
                let want = session_upto(checks@, i + 1);
                assert(rows_list_bus(clean@, want.0)) by {
                    assert forall|j: int| 0 <= j < clean@.len() implies row_for(#[trigger] clean@[j], want.0[j].0, want.0[j].1, None) by {
                        if j < prev.0.len() { assert(want.0[j] == prev.0[j]); }
                    }
                }
                assert(rows_list_conflicts(conflict@, want.1)) by {
                    assert forall|j: int| 0 <= j < conflict@.len() implies row_for(#[trigger] conflict@[j], want.1[j].0, Some(want.1[j].1), None) by {
                        if j < prev.1.len() { assert(want.1[j] == prev.1[j]); }
                    }
                }
                assert(rows_list_missing(missing@, want.3)) by {
                    assert forall|j: int| 0 <= j < missing@.len() implies row_for(#[trigger] missing@[j], want.3[j].0, None, want.3[j].1) by {
                        if j < prev.3.len() { assert(want.3[j] == prev.3[j]); }
                    }
                }
            }
        }
        i = i + 1;
    }
    SyncSession { conflict_rows: conflict, clean_rows: clean, already_applied_count: applied, node_missing_rows: missing }
}

/// Where an apply run got with one change, as reported by the caller.
pub enum ApplyProbe {
    /// The node is not on the bus.
    NodeAbsent,
    /// The node's description could not be loaded, with why.
    CdiUnavailable(String),
    /// The description has no field at the change's address.
    FieldMissing,
    /// The planned value cannot be written to a field of this type.
    Unconvertible(LeafType),
    /// The value was written.
    Written,
    /// The write failed, with the error text.
    WriteFailed(String),
}

/// A change to apply and what the bus work for it gave.
pub struct ApplyCheck {
    pub change_id: String,
    pub probe: ApplyProbe,
}

/// A change that could not be applied, and why.
pub struct ApplySyncFailure {
    pub change_id: String,
    pub reason: String,
}

/// What an apply run did.
pub struct ApplySyncResult {
    pub applied: Vec<String>,
    pub skipped: Vec<String>,
    pub failed: Vec<ApplySyncFailure>,
    pub read_only_cleared: Vec<String>,
}

/// A config value now on the bus, to record as the new baseline of the
/// node's snapshot: node key, space, offset text and value.
pub struct AppliedConfig {
    pub node_key: String,
    pub space: u8,
    pub offset: String,
    pub planned_value: String,
}

/// What happened to one change in an apply run.
pub enum ApplyVerdict {
    Applied(Option<(Seq<char>, u8, Seq<char>, Seq<char>)>),
    Failed(Seq<char>),
    ReadOnly,
}

/// The name of a leaf type as debug output shows it.
pub open spec fn leaf_type_name(t: LeafType) -> Seq<char> {
    match t {
        LeafType::Int => "Int"@,
        LeafType::String => "String"@,
        LeafType::EventId => "EventId"@,
        LeafType::Float => "Float"@,
        LeafType::Action => "Action"@,
        LeafType::Blob => "Blob"@,
    }
}

/// `t` occurs in `s`.
pub open spec fn contains_text(s: Seq<char>, t: Seq<char>) -> bool {
    exists|i: int| 0 <= i && i + t.len() <= s.len() && #[trigger] s.subrange(i, i + t.len()) == t
}

/// Position of the first change with ID `id`.
#[verifier::opaque]
pub open spec fn first_with_id(s: Seq<ChangeView>, id: Seq<char>) -> Option<int> {
    if exists|i: int| 0 <= i < s.len() && (#[trigger] s[i]).change_id == id {
        Some(choose|i: int| 0 <= i < s.len() && (#[trigger] s[i]).change_id == id
            && forall|j: int| 0 <= j < i ==> (#[trigger] s[j]).change_id != id)
    } else {
        None
    }
}

/// What applying change `id` came to: a missing change, a non-config change
/// (applied with no bus write), a config change without a usable node, or the
/// outcome of the bus work; a write refused with error `1083` marks the field
/// read-only.
pub open spec fn apply_verdict(s: Seq<ChangeView>, id: Seq<char>, p: ApplyProbe) -> ApplyVerdict {
    match first_with_id(s, id) {
        None => ApplyVerdict::Failed("Change not found in cache"@),
        Some(i) => change_verdict(s[i], p),
    }
}

/// What applying a found change came to.
pub open spec fn change_verdict(c: ChangeView, p: ApplyProbe) -> ApplyVerdict {
    if c.kind != OfflineChangeKind::Config {
        ApplyVerdict::Applied(None)
    } else if c.node_id is None {
        ApplyVerdict::Failed("No node ID on change"@)
    } else if !parses_as_node_id(c.node_id->0) {
        ApplyVerdict::Failed("Invalid node ID: "@ + c.node_id->0)
    } else {
        match p {
            ApplyProbe::NodeAbsent => ApplyVerdict::Failed("Node not found on bus: "@ + c.node_id->0),
            ApplyProbe::CdiUnavailable(e) => ApplyVerdict::Failed("CDI unavailable: "@ + e@),
            ApplyProbe::FieldMissing => ApplyVerdict::Failed(field_missing_error(change_space(c), change_address(c))),
            ApplyProbe::Unconvertible(t) => ApplyVerdict::Failed("Cannot convert planned value '"@ + c.planned_value
                + "' to bytes for leaf type "@ + leaf_type_name(t)),
            ApplyProbe::Written => ApplyVerdict::Applied(match c.offset {
                Some(o) => Some((node_key(c.node_id->0), change_space(c), o, c.planned_value)),
                None => None,
            }),
            ApplyProbe::WriteFailed(e) => if contains_text(e@, "1083"@) {
                ApplyVerdict::ReadOnly
            } else {
                ApplyVerdict::Failed(e@)
            },
        }
    }
}

/// The outcome lists of checks `0..n`: applied IDs, failures, read-only IDs
/// and baseline updates.
pub open spec fn apply_upto(s: Seq<ChangeView>, checks: Seq<ApplyCheck>, n: int)
    -> (Seq<Seq<char>>, Seq<(Seq<char>, Seq<char>)>, Seq<Seq<char>>, Seq<(Seq<char>, u8, Seq<char>, Seq<char>)>)
    decreases n,
{
    if n <= 0 {
        (Seq::empty(), Seq::empty(), Seq::empty(), Seq::empty())
    } else {
        let prev = apply_upto(s, checks, n - 1);
        let id = checks[n - 1].change_id@;
        match apply_verdict(s, id, checks[n - 1].probe) {
            ApplyVerdict::Applied(d) => (prev.0.push(id), prev.1, prev.2, match d {
                Some(x) => prev.3.push(x),
                None => prev.3,
            }),
            ApplyVerdict::Failed(m) => (prev.0, prev.1.push((id, m)), prev.2, prev.3),
            ApplyVerdict::ReadOnly => (prev.0, prev.1, prev.2.push(id), prev.3),
        }
    }
}

/// The changes that remain once `gone` are cleared, in order.
pub open spec fn without_ids(s: Seq<ChangeView>, gone: Set<Seq<char>>) -> Seq<ChangeView>
    decreases s.len(),
{
    if s.len() == 0 {
        s
    } else if gone.contains(s.last().change_id) {
        without_ids(s.drop_last(), gone)
    } else {
        without_ids(s.drop_last(), gone).push(s.last())
    }
}

/// Whether `b` occurs in `a` at position `i`.
fn matches_at(a: &Vec<char>, b: &Vec<char>, i: usize) -> (r: bool)
    requires
        i + b@.len() <= a@.len(),
    ensures
        r == (a@.subrange(i as int, i + b@.len()) == b@),
{
    let alen = a.len();
    let mut j: usize = 0;
    while j < b.len()
        invariant
            alen == a@.len(),
            i + b@.len() <= a@.len(),
            j <= b@.len(),
            forall|k: int| 0 <= k < j ==> a@[i + k] == b@[k],
        decreases b.len() - j,
    {
        if a[i + j] != b[j] {
            assert(a@.subrange(i as int, i + b@.len())[j as int] != b@[j as int]);
            return false;
        }
        j = j + 1;
    }
    assert(a@.subrange(i as int, i + b@.len()) =~= b@);
    true
}

/// Whether `t` occurs in `s`.
pub(crate) fn text_contains(s: &str, t: &str) -> (r: bool)
    ensures
        r == contains_text(s@, t@),
{
    let a = chars_of(s);
    let b = chars_of(t);
    if b.len() > a.len() {
        return false;
    }
    if b.len() == 0 {
        assert(s@.subrange(0, 0int + t@.len()) =~= t@);
        return true;
    }
    let mut i: usize = 0;
    let alen = a.len();
    let last: usize = a.len() - b.len();
    while i <= last
        invariant
            alen == a@.len(),
            b@.len() >= 1,
            a@ == s@,
            b@ == t@,
            b@.len() <= a@.len(),
            last == a@.len() - b@.len(),
            i <= last + 1,
            forall|k: int| 0 <= k < i ==> #[trigger] a@.subrange(k, k + b@.len()) != b@,
        decreases last + 1 - i,
    {
        if matches_at(&a, &b, i) {
            return true;
        }
        i = i + 1;
    }
    assert forall|k: int| 0 <= k && k + b@.len() <= a@.len() implies #[trigger] a@.subrange(k, k + b@.len()) != b@ by {
        assert(k < i);
    }
    false
}

/// Position of the first change with the given ID.
pub fn find_change(cache: &Vec<OfflineChange>, change_id: &str) -> (r: Option<usize>)
    ensures
        r matches Some(i) ==> first_with_id(changes_view(cache@), change_id@) == Some(i as int),
        r is None ==> first_with_id(changes_view(cache@), change_id@) is None,
        r matches Some(i) ==> i < cache@.len() && cache@[i as int].change_id@ == change_id@,
{
    reveal(first_with_id);
    let ghost cv = changes_view(cache@);
    let mut i: usize = 0;
    while i < cache.len()
        invariant
            cv == changes_view(cache@),
            i <= cache@.len(),
            forall|j: int| 0 <= j < i ==> (#[trigger] cv[j]).change_id != change_id@,
        decreases cache.len() - i,
    {
        assert(cv[i as int] == cache@[i as int]@);
        if str_eq(cache[i].change_id.as_str(), change_id) {
            proof {
                reveal(first_with_id);
                assert(cv[i as int].change_id == change_id@);
                let k = choose|k: int| 0 <= k < cv.len() && (#[trigger] cv[k]).change_id == change_id@
                    && forall|j: int| 0 <= j < k ==> (#[trigger] cv[j]).change_id != change_id@;
                if k < i { assert(cv[k].change_id != change_id@); }
                if k > i { assert(cv[i as int].change_id != change_id@); }
            }
            return Some(i);
        }
        i = i + 1;
    }
    proof { reveal(first_with_id); }
    None
}

/// The debug name of a leaf type.
fn leaf_type_string(t: LeafType) -> (r: String)
    ensures
        r@ == leaf_type_name(t),
{
    match t {
        LeafType::Int => string_of("Int"),
        LeafType::String => string_of("String"),
        LeafType::EventId => string_of("EventId"),
        LeafType::Float => string_of("Float"),
        LeafType::Action => string_of("Action"),
        LeafType::Blob => string_of("Blob"),
    }
}

/// One change's outcome, as exec values: applied (with the baseline update
/// when there is one), failed with a reason, or read-only.
pub enum ApplyOutcome {
    Applied(Option<AppliedConfig>),
    Failed(String),
    ReadOnly,
}

/// Whether an exec outcome states a verdict.
pub open spec fn outcome_states(o: ApplyOutcome, v: ApplyVerdict) -> bool {
    match v {
        ApplyVerdict::Applied(None) => o matches ApplyOutcome::Applied(None),
        ApplyVerdict::Applied(Some(d)) => o matches ApplyOutcome::Applied(Some(a)) && a.node_key@ == d.0
            && a.space == d.1 && a.offset@ == d.2 && a.planned_value@ == d.3,
        ApplyVerdict::Failed(m) => o matches ApplyOutcome::Failed(e) && e@ == m,
        ApplyVerdict::ReadOnly => o is ReadOnly,
    }
}

/// Decides what applying one change came to.
pub fn apply_outcome(cache: &Vec<OfflineChange>, check: &ApplyCheck) -> (r: ApplyOutcome)
    ensures
        outcome_states(r, apply_verdict(changes_view(cache@), check.change_id@, check.probe)),
{
    let idx = match find_change(cache, check.change_id.as_str()) {
        None => {
            assert(first_with_id(changes_view(cache@), check.change_id@) is None);
            return ApplyOutcome::Failed(string_of("Change not found in cache"));
        },
        Some(i) => i,
    };
    let c = &cache[idx];
    let ghost cv = changes_view(cache@);
    assert(cv[idx as int] == c@);
    assert(first_with_id(cv, check.change_id@) == Some(idx as int));
    let r = change_outcome(c, &check.probe);
    assert(apply_verdict(cv, check.change_id@, check.probe) == change_verdict(c@, check.probe));
    r
}

/// Decides what applying a found change came to.
fn change_outcome(c: &OfflineChange, probe: &ApplyProbe) -> (r: ApplyOutcome)
    ensures
        outcome_states(r, change_verdict(c@, *probe)),
{
    if c.kind != OfflineChangeKind::Config {
        return ApplyOutcome::Applied(None);
    }
    let id = match &c.node_id {
        None => return ApplyOutcome::Failed(string_of("No node ID on change")),
        Some(id) => id,
    };
    if NodeId::from_hex_string(id.as_str()).is_none() {
        let mut e = string_of("Invalid node ID: ");
        e.append(id.as_str());
        return ApplyOutcome::Failed(e);
    }
    match probe {
        ApplyProbe::NodeAbsent => {
            let mut e = string_of("Node not found on bus: ");
            e.append(id.as_str());
            ApplyOutcome::Failed(e)
        },
        ApplyProbe::CdiUnavailable(msg) => {
            let mut e = string_of("CDI unavailable: ");
            e.append(msg.as_str());
            ApplyOutcome::Failed(e)
        },
        ApplyProbe::FieldMissing => {
            let space = match c.space { Some(s) => s, None => 0 };
            let address = match &c.offset {
                Some(o) => match crate::offline::parse_offset(o.as_str()) { Some(a) => a, None => 0 },
                None => 0,
            };
            let mut e = string_of("Field not found in CDI at space=");
            let d = u64_decimal(space as u64);
            e.append(d.as_str());
            e.append(" address=");
            let h = hex8_string(address);
            e.append(h.as_str());
            ApplyOutcome::Failed(e)
        },
        ApplyProbe::Unconvertible(t) => {
            let mut e = string_of("Cannot convert planned value '");
            e.append(c.planned_value.as_str());
            e.append("' to bytes for leaf type ");
            let n = leaf_type_string(*t);
            e.append(n.as_str());
            ApplyOutcome::Failed(e)
        },
        ApplyProbe::Written => {
            match &c.offset {
                Some(o) => ApplyOutcome::Applied(Some(AppliedConfig {
                    node_key: normalize_node_key(id.as_str()),
                    space: match c.space { Some(s) => s, None => 0 },
                    offset: copy_string(o),
                    planned_value: copy_string(&c.planned_value),
                })),
                None => ApplyOutcome::Applied(None),
            }
        },
        ApplyProbe::WriteFailed(msg) => {
            proof { reveal_strlit("1083"); }
            if text_contains(msg.as_str(), "1083") {
                ApplyOutcome::ReadOnly
            } else {
                ApplyOutcome::Failed(copy_string(msg))
            }
        },
    }
}

/// The failures list exactly the given IDs and reasons, in order.
pub open spec fn failures_list(f: Seq<ApplySyncFailure>, want: Seq<(Seq<char>, Seq<char>)>) -> bool {
    f.len() == want.len() && forall|i: int| 0 <= i < f.len() ==> (#[trigger] f[i]).change_id@ == want[i].0 && f[i].reason@ == want[i].1
}

/// The baseline updates list exactly the given ones, in order.
pub open spec fn details_list(d: Seq<AppliedConfig>, want: Seq<(Seq<char>, u8, Seq<char>, Seq<char>)>) -> bool {
    d.len() == want.len() && forall|i: int| 0 <= i < d.len() ==> (#[trigger] d[i]).node_key@ == want[i].0
        && d[i].space == want[i].1 && d[i].offset@ == want[i].2 && d[i].planned_value@ == want[i].3
}

/// Records the outcome of an apply run: the applied, skipped, failed and
/// read-only-cleared changes in order, the baseline updates to write into the
/// node snapshots, and the offline changes left once applied and read-only
/// rows are cleared.
pub fn apply_sync_changes(
    cache: &mut Vec<OfflineChange>,
    layout_active: bool,
    connected: bool,
    apply: &Vec<ApplyCheck>,
    skip_change_ids: &Vec<String>,
) -> (r: Result<(ApplySyncResult, Vec<AppliedConfig>), String>)
    ensures
        !layout_active ==> (r matches Err(m) && m@ == "No layout is active"@),
        layout_active && !connected ==> (r matches Err(m) && m@ == "Not connected to network"@),
        r is Err ==> changes_view(final(cache)@) == changes_view(old(cache)@),
        layout_active && connected ==> (r matches Ok((res, details)) && {
            let want = apply_upto(changes_view(old(cache)@), apply@, apply@.len() as int);
            &&& strs(res.applied@) == want.0
            &&& strs(res.skipped@) == strs(skip_change_ids@)
            &&& failures_list(res.failed@, want.1)
            &&& strs(res.read_only_cleared@) == want.2
            &&& details_list(details@, want.3)
            &&& changes_view(final(cache)@) == without_ids(changes_view(old(cache)@), want.0.to_set().union(want.2.to_set()))
        }),
{
    if !layout_active {
        return Err(string_of("No layout is active"));
    }
    if !connected {
        return Err(string_of("Not connected to network"));
    }
    let ghost cv = changes_view(cache@);
    let skipped = crate::text::copy_strings(skip_change_ids);
    let mut applied: Vec<String> = Vec::new();
    let mut failed: Vec<ApplySyncFailure> = Vec::new();
    let mut read_only: Vec<String> = Vec::new();
    let mut details: Vec<AppliedConfig> = Vec::new();
    let mut i: usize = 0;
    while i < apply.len()
        invariant
            cv == changes_view(cache@),
            i <= apply@.len(),
            ({
                let want = apply_upto(cv, apply@, i as int);
                &&& strs(applied@) == want.0
                &&& failures_list(failed@, want.1)
                &&& strs(read_only@) == want.2
                &&& details_list(details@, want.3)
            }),
        decreases apply.len() - i,
    {
        let ck = &apply[i];
        let ghost prev = apply_upto(cv, apply@, i as int);
        let ghost a0 = applied@;
        let ghost f0 = failed@;
        let ghost r0 = read_only@;
        let ghost d0 = details@;
        let out = apply_outcome(cache, ck);
        match out {
            ApplyOutcome::Applied(d) => {
                applied.push(copy_string(&ck.change_id));
                assert(strs(applied@) =~= strs(a0).push(ck.change_id@));
                match d {
                    Some(x) => {
                        details.push(x);
                    },
                    None => {},
                }
            },
            ApplyOutcome::Failed(reason) => {
                failed.push(ApplySyncFailure { change_id: copy_string(&ck.change_id), reason });
            },
            ApplyOutcome::ReadOnly => {
                read_only.push(copy_string(&ck.change_id));
                assert(strs(read_only@) =~= strs(r0).push(ck.change_id@));
            },
        }
        proof {
            let want = apply_upto(cv, apply@, i + 1);
            assert(failures_list(failed@, want.1)) by {
                assert forall|j: int| 0 <= j < failed@.len() implies (#[trigger] failed@[j]).change_id@ == want.1[j].0
                    && failed@[j].reason@ == want.1[j].1 by {
                    if j < f0.len() { assert(failed@[j] == f0[j]); assert(want.1[j] == prev.1[j]); }
                }
            }
            assert(details_list(details@, want.3)) by {
                assert forall|j: int| 0 <= j < details@.len() implies (#[trigger] details@[j]).node_key@ == want.3[j].0
                    && details@[j].space == want.3[j].1 && details@[j].offset@ == want.3[j].2
                    && details@[j].planned_value@ == want.3[j].3 by {
                    if j < d0.len() { assert(details@[j] == d0[j]); assert(want.3[j] == prev.3[j]); }
                }
            }
        }
        i = i + 1;
    }
    let ghost want = apply_upto(cv, apply@, apply@.len() as int);
    let ghost gone = want.0.to_set().union(want.2.to_set());
    let mut kept: Vec<OfflineChange> = Vec::new();
    let mut k: usize = 0;
    while k < cache.len()
        invariant
            cv == changes_view(cache@),
            strs(applied@) == want.0,
            strs(read_only@) == want.2,
            gone == want.0.to_set().union(want.2.to_set()),
            k <= cache@.len(),
            changes_view(kept@) == without_ids(cv.subrange(0, k as int), gone),
        decreases cache.len() - k,
    {
        let c = &cache[k];
        let ghost pre = cv.subrange(0, k as int);
        let ghost nxt = cv.subrange(0, k + 1);
        assert(nxt.drop_last() =~= pre);
        assert(nxt.last() == c@);
        let cleared = contains_str(&applied, c.change_id.as_str()) || contains_str(&read_only, c.change_id.as_str());
        assert(cleared == gone.contains(c@.change_id));
        if !cleared {
            let ghost kv = changes_view(kept@);
            kept.push(copy_change(c));
            assert(changes_view(kept@) =~= kv.push(c@));
        }
        k = k + 1;
    }
    assert(cv.subrange(0, cv.len() as int) =~= cv);
    *cache = kept;
    Ok((ApplySyncResult { applied, skipped, failed, read_only_cleared: read_only }, details))
}

/// Which bus a sync writes to.
#[derive(Clone, Copy, PartialEq, Eq, Structural)]
pub enum SyncMode {
    TargetLayoutBus,
    BenchOtherBus,
}

/// The name of a sync mode.
pub fn set_sync_mode(mode: SyncMode) -> (r: String)
    ensures
        mode == SyncMode::TargetLayoutBus ==> r@ == "target_layout_bus"@,
        mode == SyncMode::BenchOtherBus ==> r@ == "bench_other_bus"@,
{
    match mode {
        SyncMode::TargetLayoutBus => string_of("target_layout_bus"),
        SyncMode::BenchOtherBus => string_of("bench_other_bus"),
    }
}

// ── Laws of syncing ───────────────────────────────────────────────────────

/// Number of pending changes among the checks `0..n`.
pub open spec fn pending_upto(checks: Seq<SyncCheck>, n: int) -> int
    decreases n,
{
    if n <= 0 {
        0
    } else {
        pending_upto(checks, n - 1) + if checks[n - 1].change.status == OfflineChangeStatus::Pending { 1int } else { 0int }
    }
}

/// Law: a sync session places every pending change in exactly one group:
/// clean, conflicting, already applied or missing; changes that are not
/// pending are left out.
pub proof fn law_session_places_each_pending_change_once(checks: Seq<SyncCheck>, n: int)
    requires
        0 <= n <= checks.len(),
    ensures
        ({
            let s = session_upto(checks, n);
            s.0.len() + s.1.len() + s.2 + s.3.len() == pending_upto(checks, n)
        }),
    decreases n,
{
    if n > 0 {
        law_session_places_each_pending_change_once(checks, n - 1);
    }
}

/// Law: once an apply run clears the applied and read-only changes, none of
/// their IDs is left, and every other change stays, in order.
pub proof fn law_cleared_changes_are_gone(s: Seq<ChangeView>, gone: Set<Seq<char>>)
    ensures
        forall|i: int| 0 <= i < without_ids(s, gone).len() ==> !gone.contains(#[trigger] without_ids(s, gone)[i].change_id),
        without_ids(s, gone).len() <= s.len(),
    decreases s.len(),
{
    if s.len() > 0 {
        law_cleared_changes_are_gone(s.drop_last(), gone);
        let w = without_ids(s.drop_last(), gone);
        if !gone.contains(s.last().change_id) {
            assert forall|i: int| 0 <= i < w.push(s.last()).len() implies !gone.contains(#[trigger] w.push(s.last())[i].change_id) by {
                if i < w.len() {
                    assert(w.push(s.last())[i] == w[i]);
                }
            }
        }
    }
}


/// Law: a change that is pending and is not a configuration change is listed
/// clean, with no bus value (it needs no bus read).
pub proof fn law_non_config_changes_are_clean(checks: Seq<SyncCheck>, n: int, k: int)
    requires
        0 <= k < n <= checks.len(),
        checks[k].change.status == OfflineChangeStatus::Pending,
        checks[k].change.kind != OfflineChangeKind::Config,
    ensures
        session_upto(checks, n).0.contains((checks[k].change@, None::<Seq<char>>)),
    decreases n,
{
    let s = session_upto(checks, n);
    let prev = session_upto(checks, n - 1);
    if k == n - 1 {
        assert(s.0 == prev.0.push((checks[k].change@, None::<Seq<char>>)));
        assert(s.0[prev.0.len() as int] == (checks[k].change@, None::<Seq<char>>));
    } else {
        law_non_config_changes_are_clean(checks, n - 1, k);
        let j = choose|j: int| 0 <= j < prev.0.len() && prev.0[j] == (checks[k].change@, None::<Seq<char>>);
        let c = checks[n - 1].change@;
        if c.status == OfflineChangeStatus::Pending {
            match sync_verdict(c, checks[n - 1].probe) {
                SyncVerdict::Clean(b) => { assert(s.0[j] == prev.0[j]); },
                _ => {},
            }
        }
    }
}

/// A session as `build_sync_session` returns it for `checks`.
pub open spec fn session_built(checks: Seq<SyncCheck>, r: SyncSession) -> bool {
    let want = session_upto(checks, checks.len() as int);
    &&& rows_list_bus(r.clean_rows@, want.0)
    &&& rows_list_conflicts(r.conflict_rows@, want.1)
    &&& r.already_applied_count == want.2
    &&& rows_list_missing(r.node_missing_rows@, want.3)
}

/// Law: every row of a freshly built session is unresolved.
pub proof fn law_session_rows_unresolved(checks: Seq<SyncCheck>, r: SyncSession)
    requires
        session_built(checks, r),
    ensures
        forall|i: int| 0 <= i < r.clean_rows@.len() ==> (#[trigger] r.clean_rows@[i]).resolution@ == "unresolved"@,
        forall|i: int| 0 <= i < r.conflict_rows@.len() ==> (#[trigger] r.conflict_rows@[i]).resolution@ == "unresolved"@,
        forall|i: int| 0 <= i < r.node_missing_rows@.len() ==> (#[trigger] r.node_missing_rows@[i]).resolution@ == "unresolved"@,
{
}

/// The IDs of a list of failures.
pub open spec fn failure_ids(f: Seq<(Seq<char>, Seq<char>)>) -> Seq<Seq<char>> {
    f.map_values(|p: (Seq<char>, Seq<char>)| p.0)
}

/// In how many of an apply run's lists (applied, failed, read-only) `id` is.
pub open spec fn lists_holding(w: (Seq<Seq<char>>, Seq<(Seq<char>, Seq<char>)>, Seq<Seq<char>>, Seq<(Seq<char>, u8, Seq<char>, Seq<char>)>), id: Seq<char>) -> int {
    (if w.0.contains(id) { 1int } else { 0int })
        + (if failure_ids(w.1).contains(id) { 1int } else { 0int })
        + (if w.2.contains(id) { 1int } else { 0int })
}

/// The cache holds change `id`, and it is not a configuration change.
pub open spec fn found_non_config(s: Seq<ChangeView>, id: Seq<char>) -> bool {
    match first_with_id(s, id) {
        Some(i) => s[i].kind != OfflineChangeKind::Config,
        None => false,
    }
}

/// `id` is among the first `n` checks.
pub open spec fn checked_id(checks: Seq<ApplyCheck>, n: int, id: Seq<char>) -> bool {
    exists|k: int| 0 <= k < n && (#[trigger] checks[k]).change_id@ == id
}

/// Law: in an apply run over distinct change IDs, each ID lands in exactly
/// one of the applied, failed and read-only lists, and no other ID appears
/// there; an ID not in the cache fails as not found, and a found change that
/// is not a configuration change is applied with no bus write.
pub proof fn law_apply_places_each_change_once(s: Seq<ChangeView>, checks: Seq<ApplyCheck>, n: int)
    requires
        0 <= n <= checks.len(),
        forall|a: int, b: int| 0 <= a < b < n ==> (#[trigger] checks[a]).change_id@ != (#[trigger] checks[b]).change_id@,
    ensures
        forall|k: int| 0 <= k < n ==> lists_holding(apply_upto(s, checks, n), (#[trigger] checks[k]).change_id@) == 1,
        forall|id: Seq<char>| #[trigger] lists_holding(apply_upto(s, checks, n), id) > 0 ==> checked_id(checks, n, id),
        forall|k: int| 0 <= k < n && first_with_id(s, (#[trigger] checks[k]).change_id@) is None
            ==> apply_upto(s, checks, n).1.contains((checks[k].change_id@, "Change not found in cache"@)),
        forall|k: int| 0 <= k < n && found_non_config(s, (#[trigger] checks[k]).change_id@)
            ==> apply_upto(s, checks, n).0.contains(checks[k].change_id@),
    decreases n,
{
    if n > 0 {
        law_apply_places_each_change_once(s, checks, n - 1);
        let prev = apply_upto(s, checks, n - 1);
        let w = apply_upto(s, checks, n);
        let id = checks[n - 1].change_id@;
        assert(lists_holding(prev, id) == 0) by {
            if lists_holding(prev, id) > 0 {
                let k = choose|k: int| 0 <= k < n - 1 && (#[trigger] checks[k]).change_id@ == id;
            }
        }
        assert forall|x: Seq<char>| #[trigger] lists_holding(w, x) == lists_holding(prev, x) + (if x == id { 1int } else { 0int }) by {
            match apply_verdict(s, id, checks[n - 1].probe) {
                ApplyVerdict::Applied(d) => {
                    assert(w.0 == prev.0.push(id));
                    assert(w.0.contains(x) == (prev.0.contains(x) || x == id)) by {
                        if w.0.contains(x) {
                            let j = choose|j: int| 0 <= j < w.0.len() && w.0[j] == x;
                            if j < prev.0.len() { assert(prev.0[j] == x); }
                        }
                        if prev.0.contains(x) {
                            let j = choose|j: int| 0 <= j < prev.0.len() && prev.0[j] == x;
                            assert(w.0[j] == x);
                        }
                        if x == id { assert(w.0[prev.0.len() as int] == x); }
                    }
                },
                ApplyVerdict::Failed(m) => {
                    assert(w.1 == prev.1.push((id, m)));
                    assert(failure_ids(w.1) =~= failure_ids(prev.1).push(id));
                    let f = failure_ids(prev.1);
                    assert(failure_ids(w.1).contains(x) == (f.contains(x) || x == id)) by {
                        if failure_ids(w.1).contains(x) {
                            let j = choose|j: int| 0 <= j < failure_ids(w.1).len() && failure_ids(w.1)[j] == x;
                            if j < f.len() { assert(f[j] == x); }
                        }
                        if f.contains(x) {
                            let j = choose|j: int| 0 <= j < f.len() && f[j] == x;
                            assert(failure_ids(w.1)[j] == x);
                        }
                        if x == id { assert(failure_ids(w.1)[f.len() as int] == x); }
                    }
                },
                ApplyVerdict::ReadOnly => {
                    assert(w.2 == prev.2.push(id));
                    assert(w.2.contains(x) == (prev.2.contains(x) || x == id)) by {
                        if w.2.contains(x) {
                            let j = choose|j: int| 0 <= j < w.2.len() && w.2[j] == x;
                            if j < prev.2.len() { assert(prev.2[j] == x); }
                        }
                        if prev.2.contains(x) {
                            let j = choose|j: int| 0 <= j < prev.2.len() && prev.2[j] == x;
                            assert(w.2[j] == x);
                        }
                        if x == id { assert(w.2[prev.2.len() as int] == x); }
                    }
                },
            }
        }
        assert forall|k: int| 0 <= k < n implies lists_holding(w, (#[trigger] checks[k]).change_id@) == 1 by {
            if k < n - 1 {
                assert(checks[k].change_id@ != id);
                assert(lists_holding(w, checks[k].change_id@) == lists_holding(prev, checks[k].change_id@));
            } else {
                assert(lists_holding(w, id) == lists_holding(prev, id) + 1);
            }
        }
        assert forall|x: Seq<char>| #[trigger] lists_holding(w, x) > 0 implies checked_id(checks, n, x) by {
            assert(lists_holding(w, x) == lists_holding(prev, x) + (if x == id { 1int } else { 0int }));
            if x == id {
                assert(checks[n - 1].change_id@ == x);
            } else {
                assert(checked_id(checks, n - 1, x));
                let k = choose|k: int| 0 <= k < n - 1 && (#[trigger] checks[k]).change_id@ == x;
                assert(checks[k].change_id@ == x);
            }
        }
        assert forall|k: int| 0 <= k < n && first_with_id(s, (#[trigger] checks[k]).change_id@) is None
            implies w.1.contains((checks[k].change_id@, "Change not found in cache"@)) by {
            if k < n - 1 {
                let j = choose|j: int| 0 <= j < prev.1.len() && prev.1[j] == (checks[k].change_id@, "Change not found in cache"@);
                assert(w.1[j] == prev.1[j]);
            } else {
                assert(w.1 == prev.1.push((id, "Change not found in cache"@)));
                assert(w.1[prev.1.len() as int] == (id, "Change not found in cache"@));
            }
        }
        assert forall|k: int| 0 <= k < n && found_non_config(s, (#[trigger] checks[k]).change_id@)
            implies w.0.contains(checks[k].change_id@) by {
            if k < n - 1 {
                let j = choose|j: int| 0 <= j < prev.0.len() && prev.0[j] == checks[k].change_id@;
                assert(w.0[j] == prev.0[j]);
            } else {
                assert(w.0 == prev.0.push(id));
                assert(w.0[prev.0.len() as int] == id);
            }
        }
    }
}

} // verus!
