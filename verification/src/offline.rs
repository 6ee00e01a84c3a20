//! Offline changes: edits planned against a layout while no bus is attached,
//! kept as a list of rows until they are synced to the live nodes.

use vstd::prelude::*;
use crate::text::{
    all_hex, chars_of, char_is_hex, copy_opt_string, copy_string, hex_char_value, hex_digits_value,
    is_blank, join, opt_str, str_is_blank, string_of, strs,
};
use crate::strmap::str_eq;
use crate::stamps::{is_change_id, lemma_change_id_not_blank, new_change_id, now_rfc3339};

verus! {

/// What an offline change edits.
#[derive(Clone, Copy, Debug, PartialEq, Eq, Structural)]
pub enum OfflineChangeKind {
    Config,
    BowtieMetadata,
    BowtieEvent,
}

/// Where an offline change stands in the sync workflow.
#[derive(Clone, Copy, Debug, PartialEq, Eq, Structural)]
pub enum OfflineChangeStatus {
    Pending,
    Conflict,
    Clean,
    AlreadyApplied,
    Skipped,
    Applied,
    Failed,
}

/// One planned edit.
pub struct OfflineChange {
    pub change_id: String,
    pub kind: OfflineChangeKind,
    pub node_id: Option<String>,
    pub space: Option<u8>,
    pub offset: Option<String>,
    pub baseline_value: String,
    pub planned_value: String,
    pub status: OfflineChangeStatus,
    pub error: Option<String>,
    pub updated_at: String,
}

/// The value of an offline change, its text fields taken as character sequences.
pub struct ChangeView {
    pub change_id: Seq<char>,
    pub kind: OfflineChangeKind,
    pub node_id: Option<Seq<char>>,
    pub space: Option<u8>,
    pub offset: Option<Seq<char>>,
    pub baseline_value: Seq<char>,
    pub planned_value: Seq<char>,
    pub status: OfflineChangeStatus,
    pub error: Option<Seq<char>>,
    pub updated_at: Seq<char>,
}

impl View for OfflineChange {
    type V = ChangeView;

    open spec fn view(&self) -> ChangeView {
        ChangeView {
            change_id: self.change_id@,
            kind: self.kind,
            node_id: opt_str(self.node_id),
            space: self.space,
            offset: opt_str(self.offset),
            baseline_value: self.baseline_value@,
            planned_value: self.planned_value@,
            status: self.status,
            error: opt_str(self.error),
            updated_at: self.updated_at@,
        }
    }
}

/// The views of a list of changes.
pub open spec fn changes_view(s: Seq<OfflineChange>) -> Seq<ChangeView> {
    s.map_values(|c: OfflineChange| c@)
}

/// A change row is well formed: it has an ID, and a failed row says why.
pub open spec fn change_is_valid(c: ChangeView) -> bool {
    &&& !is_blank(c.change_id)
    &&& c.status == OfflineChangeStatus::Failed ==> !is_blank(
        match c.error {
            Some(e) => e,
            None => Seq::empty(),
        },
    )
}

impl OfflineChange {
    /// Checks that the row has an ID and that a failed row carries error text.
    pub fn validate(&self) -> (r: Result<(), String>)
        ensures
            r is Ok <==> change_is_valid(self@),
            is_blank(self.change_id@) ==> (r matches Err(m) && m@ == "changeId must not be empty"@),
            !is_blank(self.change_id@) && !change_is_valid(self@)
                ==> (r matches Err(m) && m@ == "failed rows must include error text"@),
    {
        if str_is_blank(self.change_id.as_str()) {
            return Err(string_of("changeId must not be empty"));
        }
        if self.status == OfflineChangeStatus::Failed {
            let blank = match &self.error {
                Some(e) => str_is_blank(e.as_str()),
                None => {
                    proof { assert(is_blank(Seq::<char>::empty())); }
                    true
                },
            };
            if blank {
                return Err(string_of("failed rows must include error text"));
            }
        }
        Ok(())
    }
}

/// Two changes edit the same thing: same kind, node, space, offset and baseline.
pub open spec fn same_target(a: ChangeView, b: ChangeView) -> bool {
    &&& a.kind == b.kind
    &&& a.node_id == b.node_id
    &&& a.space == b.space
    &&& a.offset == b.offset
    &&& a.baseline_value == b.baseline_value
}

/// Equality of optional strings by their text.
pub fn opt_str_eq(a: &Option<String>, b: &Option<String>) -> (r: bool)
    ensures
        r == (opt_str(*a) == opt_str(*b)),
{
    match (a, b) {
        (Some(x), Some(y)) => str_eq(x.as_str(), y.as_str()),
        (None, None) => true,
        _ => false,
    }
}

/// Whether two changes edit the same target.
pub fn same_change_target(a: &OfflineChange, b: &OfflineChange) -> (r: bool)
    ensures
        r == same_target(a@, b@),
{
    let space_eq = match (a.space, b.space) {
        (Some(x), Some(y)) => x == y,
        (None, None) => true,
        _ => false,
    };
    a.kind == b.kind && opt_str_eq(&a.node_id, &b.node_id) && space_eq && opt_str_eq(&a.offset, &b.offset)
        && str_eq(a.baseline_value.as_str(), b.baseline_value.as_str())
}

/// `s` without a leading `0x` or `0X`.
pub open spec fn without_hex_prefix(s: Seq<char>) -> Seq<char> {
    if s.len() >= 2 && s[0] == '0' && (s[1] == 'x' || s[1] == 'X') {
        s.subrange(2, s.len() as int)
    } else {
        s
    }
}

/// The hex digits of an offset: without the `0x` prefix and an optional `+`.
pub open spec fn offset_digits(s: Seq<char>) -> Seq<char> {
    let t = without_hex_prefix(s);
    if t.len() > 0 && t[0] == '+' {
        t.subrange(1, t.len() as int)
    } else {
        t
    }
}

/// The address an offset text denotes, when it is a hex number that fits in 32 bits.
pub open spec fn offset_value(s: Seq<char>) -> Option<u32> {
    let d = offset_digits(s);
    if d.len() > 0 && all_hex(d) && hex_digits_value(d) <= u32::MAX {
        Some(hex_digits_value(d) as u32)
    } else {
        None
    }
}

proof fn lemma_hex_value_grows(s: Seq<char>, i: int)
    requires
        0 <= i <= s.len(),
        all_hex(s),
    ensures
        hex_digits_value(s.subrange(0, i)) <= hex_digits_value(s),
    decreases s.len() - i,
{
    if i < s.len() {
        lemma_hex_value_grows(s, i + 1);
        assert(s.subrange(0, i + 1).drop_last() =~= s.subrange(0, i));
    } else {
        assert(s.subrange(0, i) =~= s);
    }
}

/// Parses a hex offset such as `0x00000120` into an address.
pub fn parse_offset(offset: &str) -> (r: Option<u32>)
    ensures
        r == offset_value(offset@),
{
    let c = chars_of(offset);
    let mut start: usize = 0;
    if c.len() >= 2 && c[0] == '0' && (c[1] == 'x' || c[1] == 'X') {
        start = 2;
    }
    assert(without_hex_prefix(offset@) =~= c@.subrange(start as int, c@.len() as int));
    if start < c.len() && c[start] == '+' {
        start = start + 1;
    }
    let ghost d = offset_digits(offset@);
    assert(d =~= c@.subrange(start as int, c@.len() as int));
    if start >= c.len() {
        return None;
    }
    let mut v: u64 = 0;
    let mut i: usize = start;
    while i < c.len()
        invariant
            c@ == offset@,
            d == c@.subrange(start as int, c@.len() as int),
            d == offset_digits(offset@),
            d.len() > 0,
            start <= i <= c@.len(),
            all_hex(c@.subrange(start as int, i as int)),
            v == hex_digits_value(c@.subrange(start as int, i as int)),
            v <= u32::MAX,
        decreases c.len() - i,
    {
        let ghost pre = c@.subrange(start as int, i as int);
        let ghost nxt = c@.subrange(start as int, i + 1);
        assert(nxt.drop_last() =~= pre);
        if !char_is_hex(c[i]) {
            assert(d[i - start] == c@[i as int]);
            assert(!crate::text::is_hex_char(d[i - start]));
            assert(!all_hex(d));
            return None;
        }
        let h = hex_char_value(c[i]);
        v = v * 16 + h as u64;
        assert(nxt.last() == c@[i as int]);
        assert(v == hex_digits_value(nxt));
        if v > 0xFFFF_FFFF {
            proof {
                assert forall|k: int| 0 <= k < nxt.len() implies crate::text::is_hex_char(#[trigger] nxt[k]) by {
                    if k < nxt.len() - 1 { assert(nxt[k] == pre[k]); }
                }
                assert(all_hex(nxt));
                if all_hex(d) {
                    assert(d.subrange(0, i + 1 - start) =~= nxt);
                    lemma_hex_value_grows(d, i + 1 - start);
                }
            }
            return None;
        }
        i = i + 1;
    }
    assert(c@.subrange(start as int, i as int) =~= d);
    Some(v as u32)
}

proof fn lemma_kind_literals()
    ensures
        "config"@ != "bowtieMetadata"@,
        "config"@ != "bowtieEvent"@,
        "bowtieMetadata"@ != "bowtieEvent"@,
{
    reveal_strlit("config");
    reveal_strlit("bowtieMetadata");
    reveal_strlit("bowtieEvent");
    assert("config"@.len() != "bowtieMetadata"@.len());
    assert("config"@.len() != "bowtieEvent"@.len());
    assert("bowtieMetadata"@[6] != "bowtieEvent"@[6]);
}

/// Parses the kind name used by the front end.
pub fn parse_change_kind(kind: &str) -> (r: Result<OfflineChangeKind, String>)
    ensures
        kind@ == "config"@ ==> r == Ok::<OfflineChangeKind, String>(OfflineChangeKind::Config),
        kind@ == "bowtieMetadata"@ ==> r == Ok::<OfflineChangeKind, String>(OfflineChangeKind::BowtieMetadata),
        kind@ == "bowtieEvent"@ ==> r == Ok::<OfflineChangeKind, String>(OfflineChangeKind::BowtieEvent),
        kind@ != "config"@ && kind@ != "bowtieMetadata"@ && kind@ != "bowtieEvent"@
            ==> (r matches Err(m) && m@ == "Invalid change kind: "@ + kind@),
{
    proof { lemma_kind_literals(); }
    if str_eq(kind, "config") {
        Ok(OfflineChangeKind::Config)
    } else if str_eq(kind, "bowtieMetadata") {
        Ok(OfflineChangeKind::BowtieMetadata)
    } else if str_eq(kind, "bowtieEvent") {
        Ok(OfflineChangeKind::BowtieEvent)
    } else {
        let mut m = string_of("Invalid change kind: ");
        m.append(kind);
        Err(m)
    }
}

/// Lower-case name of a kind, as listed to the front end.
pub open spec fn kind_name(k: OfflineChangeKind) -> Seq<char> {
    match k {
        OfflineChangeKind::Config => "config"@,
        OfflineChangeKind::BowtieMetadata => "bowtiemetadata"@,
        OfflineChangeKind::BowtieEvent => "bowtieevent"@,
    }
}

/// Lower-case name of a status, as listed to the front end.
pub open spec fn status_name(s: OfflineChangeStatus) -> Seq<char> {
    match s {
        OfflineChangeStatus::Pending => "pending"@,
        OfflineChangeStatus::Conflict => "conflict"@,
        OfflineChangeStatus::Clean => "clean"@,
        OfflineChangeStatus::AlreadyApplied => "alreadyapplied"@,
        OfflineChangeStatus::Skipped => "skipped"@,
        OfflineChangeStatus::Applied => "applied"@,
        OfflineChangeStatus::Failed => "failed"@,
    }
}

/// The lower-case name of a kind.
pub fn change_kind_name(k: OfflineChangeKind) -> (r: String)
    ensures
        r@ == kind_name(k),
{
    match k {
        OfflineChangeKind::Config => string_of("config"),
        OfflineChangeKind::BowtieMetadata => string_of("bowtiemetadata"),
        OfflineChangeKind::BowtieEvent => string_of("bowtieevent"),
    }
}

/// The lower-case name of a status.
pub fn change_status_name(s: OfflineChangeStatus) -> (r: String)
    ensures
        r@ == status_name(s),
{
    match s {
        OfflineChangeStatus::Pending => string_of("pending"),
        OfflineChangeStatus::Conflict => string_of("conflict"),
        OfflineChangeStatus::Clean => string_of("clean"),
        OfflineChangeStatus::AlreadyApplied => string_of("alreadyapplied"),
        OfflineChangeStatus::Skipped => string_of("skipped"),
        OfflineChangeStatus::Applied => string_of("applied"),
        OfflineChangeStatus::Failed => string_of("failed"),
    }
}

/// A copy of a change row.
pub fn copy_change(c: &OfflineChange) -> (r: OfflineChange)
    ensures
        r@ == c@,
{
    OfflineChange {
        change_id: copy_string(&c.change_id),
        kind: c.kind,
        node_id: copy_opt_string(&c.node_id),
        space: c.space,
        offset: copy_opt_string(&c.offset),
        baseline_value: copy_string(&c.baseline_value),
        planned_value: copy_string(&c.planned_value),
        status: c.status,
        error: copy_opt_string(&c.error),
        updated_at: copy_string(&c.updated_at),
    }
}

/// A planned edit as the front end submits it.
pub struct OfflineChangeInput {
    pub kind: String,
    pub node_id: Option<String>,
    pub space: Option<u8>,
    pub offset: Option<String>,
    pub baseline_value: String,
    pub planned_value: String,
}

/// A change row as listed to the front end.
pub struct OfflineChangeRow {
    pub change_id: String,
    pub kind: String,
    pub node_id: Option<String>,
    pub space: Option<u8>,
    pub offset: Option<String>,
    pub baseline_value: String,
    pub planned_value: String,
    pub status: String,
    pub error: Option<String>,
    pub updated_at: String,
}

/// Message when no offline layout is open.
pub open spec fn no_offline_layout() -> Seq<char> {
    "No offline layout is active"@
}

/// The kind a front-end kind name denotes.
pub open spec fn input_kind(k: Seq<char>) -> Option<OfflineChangeKind> {
    if k == "config"@ {
        Some(OfflineChangeKind::Config)
    } else if k == "bowtieMetadata"@ {
        Some(OfflineChangeKind::BowtieMetadata)
    } else if k == "bowtieEvent"@ {
        Some(OfflineChangeKind::BowtieEvent)
    } else {
        None
    }
}

/// The pending row made from an input, its kind, an ID and a time stamp.
pub open spec fn new_change(input: OfflineChangeInput, kind: OfflineChangeKind, id: Seq<char>, at: Seq<char>) -> ChangeView {
    ChangeView {
        change_id: id,
        kind,
        node_id: opt_str(input.node_id),
        space: input.space,
        offset: opt_str(input.offset),
        baseline_value: input.baseline_value@,
        planned_value: input.planned_value@,
        status: OfflineChangeStatus::Pending,
        error: None,
        updated_at: at,
    }
}

/// Why an input cannot become a row, if it cannot: its kind first, then its ID.
pub open spec fn input_error(input: OfflineChangeInput, id: Seq<char>) -> Option<Seq<char>> {
    if input_kind(input.kind@) is None {
        Some("Invalid change kind: "@ + input.kind@)
    } else if is_blank(id) {
        Some("changeId must not be empty"@)
    } else {
        None
    }
}

/// `i` is the first row of `s` with the same target as `c`.
pub open spec fn first_same_target(s: Seq<ChangeView>, c: ChangeView, i: int) -> bool {
    &&& 0 <= i < s.len()
    &&& same_target(s[i], c)
    &&& forall|j: int| 0 <= j < i ==> !same_target(#[trigger] s[j], c)
}

/// Row `e` re-planned by `c`: the new planned value and time, pending again, no error.
pub open spec fn replanned(e: ChangeView, c: ChangeView) -> ChangeView {
    ChangeView {
        change_id: e.change_id,
        kind: e.kind,
        node_id: e.node_id,
        space: e.space,
        offset: e.offset,
        baseline_value: e.baseline_value,
        planned_value: c.planned_value,
        status: OfflineChangeStatus::Pending,
        error: None,
        updated_at: c.updated_at,
    }
}

/// Adds a change to the list, or re-plans the first row with the same target.
pub open spec fn upsert(s: Seq<ChangeView>, c: ChangeView) -> Seq<ChangeView> {
    if exists|i: int| first_same_target(s, c, i) {
        let i = choose|i: int| first_same_target(s, c, i);
        s.update(i, replanned(s[i], c))
    } else {
        s.push(c)
    }
}

/// The ID reported for an upsert: that of the row re-planned, or the new one.
pub open spec fn upsert_id(s: Seq<ChangeView>, c: ChangeView) -> Seq<char> {
    if exists|i: int| first_same_target(s, c, i) {
        s[choose|i: int| first_same_target(s, c, i)].change_id
    } else {
        c.change_id
    }
}

proof fn lemma_first_same_target_unique(s: Seq<ChangeView>, c: ChangeView, i: int, j: int)
    requires
        first_same_target(s, c, i),
        first_same_target(s, c, j),
    ensures
        i == j,
{
    if i < j {
        assert(!same_target(s[i], c));
    }
    if j < i {
        assert(!same_target(s[j], c));
    }
}

/// Records a planned edit in the list of offline changes.
///
/// With an offline layout open, the input becomes a pending row with the
/// given ID and time; if a row already edits the same target, that row is
/// re-planned instead and its ID returned.
pub fn set_offline_change(
    cache: &mut Vec<OfflineChange>,
    offline_layout_active: bool,
    change: OfflineChangeInput,
    change_id: String,
    updated_at: String,
) -> (r: Result<String, String>)
    ensures
        !offline_layout_active ==> (r matches Err(m) && m@ == no_offline_layout()),
        offline_layout_active && input_error(change, change_id@) is Some
            ==> (r matches Err(m) && m@ == input_error(change, change_id@)->0),
        r is Err ==> changes_view(final(cache)@) == changes_view(old(cache)@),
        offline_layout_active && input_error(change, change_id@) is None ==> {
            let c = new_change(change, input_kind(change.kind@)->0, change_id@, updated_at@);
            &&& r matches Ok(id) && id@ == upsert_id(changes_view(old(cache)@), c)
            &&& changes_view(final(cache)@) == upsert(changes_view(old(cache)@), c)
        },
{
    if !offline_layout_active {
        return Err(string_of("No offline layout is active"));
    }
    proof { lemma_kind_literals(); }
    let kind = match parse_change_kind(change.kind.as_str()) {
        Ok(k) => k,
        Err(e) => return Err(e),
    };
    let row = OfflineChange {
        change_id,
        kind,
        node_id: change.node_id,
        space: change.space,
        offset: change.offset,
        baseline_value: change.baseline_value,
        planned_value: change.planned_value,
        status: OfflineChangeStatus::Pending,
        error: None,
        updated_at,
    };
    match row.validate() {
        Ok(()) => {},
        Err(e) => return Err(e),
    }
    let ghost old_v = changes_view(cache@);
    let ghost c = row@;
    assert(input_error(change, change_id@) is None);
    assert(c == new_change(change, input_kind(change.kind@)->0, change_id@, updated_at@));
    let mut i: usize = 0;
    while i < cache.len()
        invariant
            offline_layout_active,
            input_error(change, change_id@) is None,
            c == new_change(change, input_kind(change.kind@)->0, change_id@, updated_at@),
            old_v == changes_view(old(cache)@),
            old_v == changes_view(cache@),
            i <= cache@.len(),
            forall|j: int| 0 <= j < i ==> !same_target(#[trigger] old_v[j], c),
            c == row@,
        decreases cache.len() - i,
    {
        if same_change_target(&cache[i], &row) {
            assert(old_v[i as int] == cache@[i as int]@);
            assert(first_same_target(old_v, c, i as int));
            proof {
                assert forall|k: int| first_same_target(old_v, c, k) implies k == i by {
                    lemma_first_same_target_unique(old_v, c, k, i as int);
                }
            }
            let e = &cache[i];
            let id = copy_string(&e.change_id);
            let updated = OfflineChange {
                change_id: copy_string(&e.change_id),
                kind: e.kind,
                node_id: copy_opt_string(&e.node_id),
                space: e.space,
                offset: copy_opt_string(&e.offset),
                baseline_value: copy_string(&e.baseline_value),
                planned_value: row.planned_value,
                status: OfflineChangeStatus::Pending,
                error: None,
                updated_at: row.updated_at,
            };
            cache.set(i, updated);
            assert(changes_view(cache@) =~= old_v.update(i as int, replanned(old_v[i as int], c)));
            return Ok(id);
        }
        assert(old_v[i as int] == cache@[i as int]@);
        i = i + 1;
    }
    let id = copy_string(&row.change_id);
    cache.push(row);
    assert(changes_view(cache@) =~= old_v.push(c));
    Ok(id)
}

/// The rows of `s` whose ID is not `id`, in order.
pub open spec fn without_id(s: Seq<ChangeView>, id: Seq<char>) -> Seq<ChangeView>
    decreases s.len(),
{
    if s.len() == 0 {
        s
    } else if s.last().change_id == id {
        without_id(s.drop_last(), id)
    } else {
        without_id(s.drop_last(), id).push(s.last())
    }
}

/// Some row of `s` has ID `id`.
pub open spec fn has_id(s: Seq<ChangeView>, id: Seq<char>) -> bool {
    exists|i: int| 0 <= i < s.len() && (#[trigger] s[i]).change_id == id
}

proof fn lemma_without_absent(s: Seq<ChangeView>, id: Seq<char>)
    requires
        !has_id(s, id),
    ensures
        without_id(s, id) == s,
    decreases s.len(),
{
    if s.len() > 0 {
        assert(s.last() == s[s.len() - 1]);
        assert(!has_id(s.drop_last(), id)) by {
            if has_id(s.drop_last(), id) {
                let i = choose|i: int| 0 <= i < s.drop_last().len() && (#[trigger] s.drop_last()[i]).change_id == id;
                assert(s[i] == s.drop_last()[i]);
            }
        }
        lemma_without_absent(s.drop_last(), id);
        assert(s.drop_last().push(s.last()) =~= s);
    }
}

/// Removes every row with the given ID.
pub fn revert_offline_change(cache: &mut Vec<OfflineChange>, offline_layout_active: bool, change_id: &str) -> (r: Result<bool, String>)
    ensures
        !offline_layout_active ==> (r matches Err(m) && m@ == no_offline_layout()),
        !offline_layout_active ==> changes_view(final(cache)@) == changes_view(old(cache)@),
        offline_layout_active ==> changes_view(final(cache)@) == without_id(changes_view(old(cache)@), change_id@),
        offline_layout_active && has_id(changes_view(old(cache)@), change_id@) ==> r == Ok::<bool, String>(true),
        offline_layout_active && !has_id(changes_view(old(cache)@), change_id@)
            ==> (r matches Err(m) && m@ == "Change not found: "@ + change_id@),
        offline_layout_active && !has_id(changes_view(old(cache)@), change_id@)
            ==> changes_view(final(cache)@) == changes_view(old(cache)@),
{
    if !offline_layout_active {
        return Err(string_of("No offline layout is active"));
    }
    let ghost old_v = changes_view(cache@);
    let mut kept: Vec<OfflineChange> = Vec::new();
    let mut removed = false;
    let n = cache.len();
    let mut i: usize = 0;
    while i < n
        invariant
            n == cache@.len(),
            old_v == changes_view(cache@),
            i <= n,
            changes_view(kept@) == without_id(old_v.subrange(0, i as int), change_id@),
            removed <==> has_id(old_v.subrange(0, i as int), change_id@),
        decreases n - i,
    {
        let ghost pre = old_v.subrange(0, i as int);
        let ghost nxt = old_v.subrange(0, i + 1);
        assert(nxt.drop_last() =~= pre);
        assert(nxt.last() == cache@[i as int]@);
        if str_eq(cache[i].change_id.as_str(), change_id) {
            removed = true;
            assert(nxt[i as int].change_id == change_id@);
        } else {
            let c = copy_change(&cache[i]);
            kept.push(c);
            assert(changes_view(kept@) =~= without_id(pre, change_id@).push(nxt.last()));
            proof {
                if has_id(nxt, change_id@) {
                    let k = choose|k: int| 0 <= k < nxt.len() && (#[trigger] nxt[k]).change_id == change_id@;
                    if k < i {
                        assert(pre[k] == nxt[k]);
                    }
                }
            }
        }
        proof {
            if has_id(pre, change_id@) {
                let k = choose|k: int| 0 <= k < pre.len() && (#[trigger] pre[k]).change_id == change_id@;
                assert(nxt[k] == pre[k]);
            }
        }
        i = i + 1;
    }
    assert(old_v.subrange(0, n as int) =~= old_v);
    *cache = kept;
    if !removed {
        proof { lemma_without_absent(old_v, change_id@); }
        let mut m = string_of("Change not found: ");
        m.append(change_id);
        return Err(m);
    }
    Ok(true)
}

/// `row` lists the change `c`.
pub open spec fn row_lists(row: OfflineChangeRow, c: ChangeView) -> bool {
    &&& row.change_id@ == c.change_id
    &&& row.kind@ == kind_name(c.kind)
    &&& opt_str(row.node_id) == c.node_id
    &&& row.space == c.space
    &&& opt_str(row.offset) == c.offset
    &&& row.baseline_value@ == c.baseline_value
    &&& row.planned_value@ == c.planned_value
    &&& row.status@ == status_name(c.status)
    &&& opt_str(row.error) == c.error
    &&& row.updated_at@ == c.updated_at
}

/// Lists the offline changes as rows for the front end.
pub fn list_offline_changes(cache: &Vec<OfflineChange>, offline_layout_active: bool) -> (r: Result<Vec<OfflineChangeRow>, String>)
    ensures
        !offline_layout_active ==> (r matches Err(m) && m@ == no_offline_layout()),
        offline_layout_active ==> (r matches Ok(rows) && rows@.len() == cache@.len()
            && forall|i: int| 0 <= i < cache@.len() ==> row_lists(#[trigger] rows@[i], cache@[i]@)),
{
    if !offline_layout_active {
        return Err(string_of("No offline layout is active"));
    }
    let mut rows: Vec<OfflineChangeRow> = Vec::new();
    let mut i: usize = 0;
    while i < cache.len()
        invariant
            i <= cache@.len(),
            rows@.len() == i,
            forall|j: int| 0 <= j < i ==> row_lists(#[trigger] rows@[j], cache@[j]@),
        decreases cache.len() - i,
    {
        let c = &cache[i];
        let row = OfflineChangeRow {
            change_id: copy_string(&c.change_id),
            kind: change_kind_name(c.kind),
            node_id: copy_opt_string(&c.node_id),
            space: c.space,
            offset: copy_opt_string(&c.offset),
            baseline_value: copy_string(&c.baseline_value),
            planned_value: copy_string(&c.planned_value),
            status: change_status_name(c.status),
            error: copy_opt_string(&c.error),
            updated_at: copy_string(&c.updated_at),
        };
        rows.push(row);
        i = i + 1;
    }
    Ok(rows)
}

/// `i` is the first input that cannot become a row.
pub open spec fn first_bad_input(s: Seq<(OfflineChangeInput, String)>, i: int) -> bool {
    &&& 0 <= i < s.len()
    &&& input_error(s[i].0, s[i].1@) is Some
    &&& forall|j: int| 0 <= j < i ==> input_error((#[trigger] s[j]).0, s[j].1@) is None
}

/// The rows after replacing `old` by `changes` at time `at`: all of them,
/// in input order, each a fresh pending row; or, when some input cannot
/// become a row, `old` untouched.
pub open spec fn replacement(old: Seq<ChangeView>, changes: Seq<(OfflineChangeInput, String)>, at: Seq<char>) -> Seq<ChangeView> {
    if exists|i: int| first_bad_input(changes, i) {
        old
    } else {
        Seq::new(changes.len(), |i: int| new_change(changes[i].0, input_kind(changes[i].0.kind@)->0, changes[i].1@, at))
    }
}

/// Law: replacing is all or nothing. Either every input became a row (in
/// input order, pending, without error, under the input's ID) or none did
/// and the rows are as they were.
pub proof fn law_replace_all_or_nothing(old: Seq<ChangeView>, changes: Seq<(OfflineChangeInput, String)>, at: Seq<char>)
    ensures
        replacement(old, changes, at) == old || ({
            let r = replacement(old, changes, at);
            &&& r.len() == changes.len()
            &&& forall|i: int| 0 <= i < r.len() ==> (#[trigger] r[i]).status == OfflineChangeStatus::Pending
                && r[i].error is None && r[i].change_id == changes[i].1@ && r[i].updated_at == at
                && r[i].planned_value == changes[i].0.planned_value@
                && r[i].baseline_value == changes[i].0.baseline_value@
        }),
        (exists|i: int| first_bad_input(changes, i)) ==> replacement(old, changes, at) == old,
{
}

/// Replaces every offline change by the given inputs, each with its ID and
/// the common time stamp; returns how many rows there now are.
pub fn replace_offline_changes(
    cache: &mut Vec<OfflineChange>,
    offline_layout_active: bool,
    changes: Vec<(OfflineChangeInput, String)>,
    now: &str,
) -> (r: Result<usize, String>)
    ensures
        !offline_layout_active ==> (r matches Err(m) && m@ == no_offline_layout()),
        r is Err ==> changes_view(final(cache)@) == changes_view(old(cache)@),
        offline_layout_active ==> (r is Err <==> exists|i: int| first_bad_input(changes@, i)),
        offline_layout_active ==> (r matches Err(m) ==> exists|i: int| first_bad_input(changes@, i)
            && m@ == input_error(changes@[i].0, changes@[i].1@)->0),
        r matches Ok(n) ==> n == changes@.len() && final(cache)@.len() == n
            && forall|i: int| 0 <= i < n ==> (#[trigger] final(cache)@[i])@
                == new_change(changes@[i].0, input_kind(changes@[i].0.kind@)->0, changes@[i].1@, now@),
        offline_layout_active ==> changes_view(final(cache)@) == replacement(changes_view(old(cache)@), changes@, now@),
{
    if !offline_layout_active {
        return Err(string_of("No offline layout is active"));
    }
    proof { lemma_kind_literals(); }
    let ghost orig = changes@;
    let mut rows: Vec<OfflineChange> = Vec::new();
    let rest = &changes;
    let mut done: usize = 0;
    let total = rest.len();
    while done < total
        invariant
            offline_layout_active,
            orig == changes@,
            rest@ == orig,
            total == orig.len(),
            done <= total,
            rows@.len() == done,
            forall|j: int| 0 <= j < done ==> input_error((#[trigger] orig[j]).0, orig[j].1@) is None,
            forall|j: int| 0 <= j < done ==> (#[trigger] rows@[j])@
                == new_change(orig[j].0, input_kind(orig[j].0.kind@)->0, orig[j].1@, now@),
        decreases total - done,
    {
        let (input, id) = {
            let item = &rest[done];
            (OfflineChangeInput {
                kind: copy_string(&item.0.kind),
                node_id: copy_opt_string(&item.0.node_id),
                space: item.0.space,
                offset: copy_opt_string(&item.0.offset),
                baseline_value: copy_string(&item.0.baseline_value),
                planned_value: copy_string(&item.0.planned_value),
            }, copy_string(&item.1))
        };
        let ghost cur = orig[done as int];
        let kind = match parse_change_kind(input.kind.as_str()) {
            Ok(k) => k,
            Err(e) => {
                proof {
                    assert(first_bad_input(orig, done as int));
                    assert forall|k: int| first_bad_input(orig, k) implies k == done by {
                        if k < done { assert(input_error(orig[k].0, orig[k].1@) is None); }
                        if k > done { assert(input_error(orig[done as int].0, orig[done as int].1@) is None); }
                    }
                }
                return Err(e);
            },
        };
        let row = OfflineChange {
            change_id: id,
            kind,
            node_id: input.node_id,
            space: input.space,
            offset: input.offset,
            baseline_value: input.baseline_value,
            planned_value: input.planned_value,
            status: OfflineChangeStatus::Pending,
            error: None,
            updated_at: string_of(now),
        };
        match row.validate() {
            Ok(()) => {},
            Err(e) => {
                proof {
                    assert(first_bad_input(orig, done as int));
                    assert forall|k: int| first_bad_input(orig, k) implies k == done by {
                        if k < done { assert(input_error(orig[k].0, orig[k].1@) is None); }
                        if k > done { assert(input_error(orig[done as int].0, orig[done as int].1@) is None); }
                    }
                }
                return Err(e);
            },
        }
        rows.push(row);
        done = done + 1;
    }
    proof {
        assert forall|k: int| !first_bad_input(orig, k) by {
            if 0 <= k < orig.len() {
                assert(input_error(orig[k].0, orig[k].1@) is None);
            }
        }
    }
    let count = rows.len();
    assert(changes_view(rows@) =~= replacement(changes_view(cache@), orig, now@));
    *cache = rows;
    Ok(count)
}

/// What recording input `change` under ID `id` at time `at` does to the
/// rows `old` (giving `new`) and returns: see [`set_offline_change`].
pub open spec fn change_recorded(
    old: Seq<ChangeView>,
    new: Seq<ChangeView>,
    change: OfflineChangeInput,
    id: Seq<char>,
    at: Seq<char>,
    r: Result<String, String>,
) -> bool {
    &&& input_error(change, id) is Some ==> (r matches Err(m) && m@ == input_error(change, id)->0)
    &&& r is Err ==> new == old
    &&& input_error(change, id) is None ==> {
        let c = new_change(change, input_kind(change.kind@)->0, id, at);
        &&& r matches Ok(x) && x@ == upsert_id(old, c)
        &&& new == upsert(old, c)
    }
}

/// Records a planned edit under a fresh change ID (a random UUID and the
/// current time in milliseconds) and the current time; see
/// [`set_offline_change`]. With an offline layout open, an input of a known
/// kind is always recorded.
pub fn record_offline_change(cache: &mut Vec<OfflineChange>, offline_layout_active: bool, change: OfflineChangeInput) -> (r: Result<String, String>)
    ensures
        !offline_layout_active ==> (r matches Err(m) && m@ == no_offline_layout()
            && changes_view(final(cache)@) == changes_view(old(cache)@)),
        offline_layout_active ==> exists|id: Seq<char>, at: Seq<char>| is_change_id(id)
            && #[trigger] change_recorded(changes_view(old(cache)@), changes_view(final(cache)@), change, id, at, r),
        offline_layout_active && input_kind(change.kind@) is Some ==> r is Ok,
{
    if !offline_layout_active {
        return Err(string_of("No offline layout is active"));
    }
    let ghost input = change;
    let id = new_change_id();
    let at = now_rfc3339();
    let ghost (idv, atv) = (id@, at@);
    proof { lemma_change_id_not_blank(idv); }
    let r = set_offline_change(cache, offline_layout_active, change, id, at);
    assert(is_change_id(idv) && change_recorded(changes_view(old(cache)@), changes_view(cache@), input, idv, atv, r));
    r
}

/// The rows are the inputs, each under its ID, all at time `now`.
pub open spec fn rows_from(rows: Seq<OfflineChange>, pairs: Seq<(OfflineChangeInput, String)>, now: Seq<char>) -> bool {
    &&& rows.len() == pairs.len()
    &&& forall|i: int| 0 <= i < pairs.len() ==> (#[trigger] rows[i])@
        == new_change(pairs[i].0, input_kind(pairs[i].0.kind@)->0, pairs[i].1@, now)
}

/// Inputs paired with minted change IDs fail only on an unknown kind.
proof fn lemma_minted_inputs(orig: Seq<OfflineChangeInput>, pv: Seq<(OfflineChangeInput, String)>)
    requires
        pv.len() == orig.len(),
        forall|i: int| 0 <= i < orig.len() ==> (#[trigger] pv[i]).0 == orig[i] && is_change_id(pv[i].1@),
    ensures
        (exists|i: int| first_bad_input(pv, i)) <==> !(forall|i: int| 0 <= i < orig.len() ==> input_kind((#[trigger] orig[i]).kind@) is Some),
        forall|i: int| #[trigger] first_bad_input(pv, i) ==> input_kind(orig[i].kind@) is None
            && (forall|j: int| 0 <= j < i ==> input_kind(orig[j].kind@) is Some)
            && input_error(pv[i].0, pv[i].1@)->0 == "Invalid change kind: "@ + orig[i].kind@,
{
    assert forall|i: int| 0 <= i < orig.len() implies (input_error(pv[i].0, pv[i].1@) is Some <==> input_kind(orig[i].kind@) is None) by {
        lemma_change_id_not_blank(pv[i].1@);
    }
    if !(forall|i: int| 0 <= i < orig.len() ==> input_kind((#[trigger] orig[i]).kind@) is Some) {
        let i0 = choose|i: int| 0 <= i < orig.len() && !(input_kind((#[trigger] orig[i]).kind@) is Some);
        lemma_first_bad_exists(pv, i0);
    }
    assert forall|i: int| #[trigger] first_bad_input(pv, i) implies input_kind(orig[i].kind@) is None
        && (forall|j: int| 0 <= j < i ==> input_kind(orig[j].kind@) is Some)
        && input_error(pv[i].0, pv[i].1@)->0 == "Invalid change kind: "@ + orig[i].kind@ by {
        assert forall|j: int| 0 <= j < i implies input_kind(orig[j].kind@) is Some by {
            assert(input_error((pv[j]).0, pv[j].1@) is None);
        }
    }
}

/// Some input fails, so a first one does.
proof fn lemma_first_bad_exists(pv: Seq<(OfflineChangeInput, String)>, i: int)
    requires
        0 <= i < pv.len(),
        input_error(pv[i].0, pv[i].1@) is Some,
    ensures
        exists|k: int| first_bad_input(pv, k),
    decreases i,
{
    if forall|j: int| 0 <= j < i ==> input_error((#[trigger] pv[j]).0, pv[j].1@) is None {
        assert(first_bad_input(pv, i));
    } else {
        let j = choose|j: int| 0 <= j < i && !(input_error((#[trigger] pv[j]).0, pv[j].1@) is None);
        lemma_first_bad_exists(pv, j);
    }
}

/// Replaces every offline change by the given inputs, each under a fresh
/// change ID, all stamped with the current time; see
/// [`replace_offline_changes`]. With an offline layout open this succeeds
/// exactly when every input has a known kind.
pub fn replace_offline_changes_now(
    cache: &mut Vec<OfflineChange>,
    offline_layout_active: bool,
    changes: Vec<OfflineChangeInput>,
) -> (r: Result<usize, String>)
    ensures
        !offline_layout_active ==> (r matches Err(m) && m@ == no_offline_layout()),
        r is Err ==> changes_view(final(cache)@) == changes_view(old(cache)@),
        offline_layout_active ==> (r is Ok <==> forall|i: int| 0 <= i < changes@.len()
            ==> input_kind((#[trigger] changes@[i]).kind@) is Some),
        offline_layout_active ==> (r matches Err(m) ==> exists|i: int| 0 <= i < changes@.len()
            && input_kind((#[trigger] changes@[i]).kind@) is None
            && (forall|j: int| 0 <= j < i ==> input_kind(changes@[j].kind@) is Some)
            && m@ == "Invalid change kind: "@ + changes@[i].kind@),
        r matches Ok(n) ==> n == changes@.len() && exists|pairs: Seq<(OfflineChangeInput, String)>, now: Seq<char>|
            #[trigger] rows_from(final(cache)@, pairs, now) && pairs.len() == changes@.len()
            && forall|i: int| 0 <= i < changes@.len() ==> (#[trigger] pairs[i]).0 == changes@[i] && is_change_id(pairs[i].1@),
{
    if !offline_layout_active {
        return Err(string_of("No offline layout is active"));
    }
    let ghost orig = changes@;
    let mut rest = changes;
    let mut pairs: Vec<(OfflineChangeInput, String)> = Vec::new();
    while rest.len() > 0
        invariant
            pairs@.len() + rest@.len() == orig.len(),
            rest@ == orig.subrange(pairs@.len() as int, orig.len() as int),
            forall|i: int| 0 <= i < pairs@.len() ==> (#[trigger] pairs@[i]).0 == orig[i] && is_change_id(pairs@[i].1@),
        decreases rest@.len(),
    {
        let ghost k = pairs@.len() as int;
        let input = rest.remove(0);
        let id = new_change_id();
        pairs.push((input, id));
        assert(rest@ =~= orig.subrange(k + 1, orig.len() as int));
    }
    let ghost pv = pairs@;
    let now = now_rfc3339();
    proof { lemma_minted_inputs(orig, pv); }
    let ghost nowv = now@;
    let r = replace_offline_changes(cache, offline_layout_active, pairs, now.as_str());
    proof {
        if r is Ok {
            assert(rows_from(cache@, pv, nowv));
        }
    }
    r
}

/// A lowercase hex digit.
pub open spec fn hex_lower(d: int) -> char {
    if d < 10 { ((48 + d) as u32) as char } else { ((87 + d) as u32) as char }
}

/// How a character is written inside a JSON string: `"` and `\` and the
/// control characters escaped (the usual short escapes for backspace, tab,
/// line feed, form feed and carriage return, `\u00xx` for the others),
/// everything else as it is.
pub open spec fn json_char(c: char) -> Seq<char> {
    let n = c as u32;
    if c == '"' {
        seq!['\\', '"']
    } else if c == '\\' {
        seq!['\\', '\\']
    } else if n == 8 {
        seq!['\\', 'b']
    } else if n == 9 {
        seq!['\\', 't']
    } else if n == 10 {
        seq!['\\', 'n']
    } else if n == 12 {
        seq!['\\', 'f']
    } else if n == 13 {
        seq!['\\', 'r']
    } else if n < 32 {
        seq!['\\', 'u', '0', '0', hex_lower(n as int / 16), hex_lower(n as int % 16)]
    } else {
        seq![c]
    }
}

/// The characters of `s`, each as written inside a JSON string.
pub open spec fn json_chars(s: Seq<char>) -> Seq<char>
    decreases s.len(),
{
    if s.len() == 0 { Seq::empty() } else { json_chars(s.drop_last()) + json_char(s.last()) }
}

/// `s` as a JSON string.
pub open spec fn json_string(s: Seq<char>) -> Seq<char> {
    seq!['"'] + json_chars(s) + seq!['"']
}

/// The planned value recorded for a bowtie's metadata: the compact JSON
/// object `{"name":<name or null>,"tags":[<tags>]}`.
pub open spec fn metadata_json(name: Option<Seq<char>>, tags: Seq<Seq<char>>) -> Seq<char> {
    let n = match name {
        Some(x) => json_string(x),
        None => seq!['n', 'u', 'l', 'l'],
    };
    seq!['{', '"', 'n', 'a', 'm', 'e', '"', ':'] + n + seq![',', '"', 't', 'a', 'g', 's', '"', ':', '[']
        + join(tags.map_values(|t: Seq<char>| json_string(t)), seq![','])
        + seq![']', '}']
}

/// Writes a bowtie's name and tags as a compact JSON object with the keys
/// `name` (text, or `null` when there is none) and `tags` (an array of
/// text), through `serde_json::Value`'s `to_string`: keys in order, no
/// spaces, strings escaped as serde_json escapes them (see `json_char`).
#[verifier::external_body]
fn bowtie_metadata_json(name: &Option<String>, tags: &Vec<String>) -> (r: String)
    ensures
        r@ == metadata_json(opt_str(*name), strs(tags@)),
{
    let mut m = serde_json::Map::new();
    m.insert(String::from("name"), serde_json::Value::from(name.clone()));
    m.insert(String::from("tags"), serde_json::Value::from(tags.clone()));
    serde_json::Value::Object(m).to_string()
}

/// A row holds the metadata edit of the bowtie whose baseline is `baseline`.
pub open spec fn is_metadata_row(e: ChangeView, baseline: Seq<char>) -> bool {
    e.kind == OfflineChangeKind::BowtieMetadata && e.baseline_value == baseline
}

/// `i` is the first metadata row of `s` for `baseline`.
pub open spec fn first_metadata_row(s: Seq<ChangeView>, baseline: Seq<char>, i: int) -> bool {
    &&& 0 <= i < s.len()
    &&& is_metadata_row(s[i], baseline)
    &&& forall|j: int| 0 <= j < i ==> !is_metadata_row(#[trigger] s[j], baseline)
}

/// The pending metadata edit of the bowtie `event_hex`: planned value
/// `planned`, ID `id`, time `at`, no node, space or offset, baseline
/// `event:<event_hex>`.
pub open spec fn metadata_change(event_hex: Seq<char>, planned: Seq<char>, id: Seq<char>, at: Seq<char>) -> ChangeView {
    ChangeView {
        change_id: id,
        kind: OfflineChangeKind::BowtieMetadata,
        node_id: None,
        space: None,
        offset: None,
        baseline_value: "event:"@ + event_hex,
        planned_value: planned,
        status: OfflineChangeStatus::Pending,
        error: None,
        updated_at: at,
    }
}

/// Adds metadata edit `c`, or re-plans the first metadata row of its bowtie.
pub open spec fn metadata_upsert(s: Seq<ChangeView>, c: ChangeView) -> Seq<ChangeView> {
    if exists|i: int| first_metadata_row(s, c.baseline_value, i) {
        let i = choose|i: int| first_metadata_row(s, c.baseline_value, i);
        s.update(i, replanned(s[i], c))
    } else {
        s.push(c)
    }
}

/// The ID reported for a metadata upsert: that of the row re-planned, or the new one.
pub open spec fn metadata_upsert_id(s: Seq<ChangeView>, c: ChangeView) -> Seq<char> {
    if exists|i: int| first_metadata_row(s, c.baseline_value, i) {
        s[choose|i: int| first_metadata_row(s, c.baseline_value, i)].change_id
    } else {
        c.change_id
    }
}

proof fn lemma_first_metadata_row_unique(s: Seq<ChangeView>, b: Seq<char>, i: int, j: int)
    requires
        first_metadata_row(s, b, i),
        first_metadata_row(s, b, j),
    ensures
        i == j,
{
    if i < j {
        assert(!is_metadata_row(s[i], b));
    }
    if j < i {
        assert(!is_metadata_row(s[j], b));
    }
}

/// Records the planned metadata `planned` of bowtie `event_id_hex` as an
/// offline change with ID `change_id` at `updated_at`: the first metadata row
/// of that bowtie is re-planned (its ID returned), or a new pending row is
/// added. A blank ID is refused.
pub fn record_bowtie_metadata(
    cache: &mut Vec<OfflineChange>,
    event_id_hex: &str,
    planned: String,
    change_id: String,
    updated_at: String,
) -> (r: Result<String, String>)
    ensures
        is_blank(change_id@) ==> (r matches Err(m) && m@ == "changeId must not be empty"@
            && changes_view(final(cache)@) == changes_view(old(cache)@)),
        !is_blank(change_id@) ==> {
            let c = metadata_change(event_id_hex@, planned@, change_id@, updated_at@);
            &&& r matches Ok(id) && id@ == metadata_upsert_id(changes_view(old(cache)@), c)
            &&& changes_view(final(cache)@) == metadata_upsert(changes_view(old(cache)@), c)
        },
{
    let mut baseline = string_of("event:");
    baseline.append(event_id_hex);
    let row = OfflineChange {
        change_id,
        kind: OfflineChangeKind::BowtieMetadata,
        node_id: None,
        space: None,
        offset: None,
        baseline_value: baseline,
        planned_value: planned,
        status: OfflineChangeStatus::Pending,
        error: None,
        updated_at,
    };
    match row.validate() {
        Ok(()) => {},
        Err(e) => return Err(e),
    }
    let ghost old_v = changes_view(cache@);
    let ghost c = row@;
    proof { reveal_strlit("event:"); }
    assert(c == metadata_change(event_id_hex@, planned@, change_id@, updated_at@));
    let mut i: usize = 0;
    while i < cache.len()
        invariant
            old_v == changes_view(old(cache)@),
            old_v == changes_view(cache@),
            i <= cache@.len(),
            forall|j: int| 0 <= j < i ==> !is_metadata_row(#[trigger] old_v[j], c.baseline_value),
            c == row@,
            c == metadata_change(event_id_hex@, planned@, change_id@, updated_at@),
            !is_blank(change_id@),
        decreases cache.len() - i,
    {
        let hit = cache[i].kind == OfflineChangeKind::BowtieMetadata
            && str_eq(cache[i].baseline_value.as_str(), row.baseline_value.as_str());
        assert(old_v[i as int] == cache@[i as int]@);
        if hit {
            assert(first_metadata_row(old_v, c.baseline_value, i as int));
            proof {
                assert forall|k: int| first_metadata_row(old_v, c.baseline_value, k) implies k == i by {
                    lemma_first_metadata_row_unique(old_v, c.baseline_value, k, i as int);
                }
            }
            let e = &cache[i];
            let id = copy_string(&e.change_id);
            let updated = OfflineChange {
                change_id: copy_string(&e.change_id),
                kind: e.kind,
                node_id: copy_opt_string(&e.node_id),
                space: e.space,
                offset: copy_opt_string(&e.offset),
                baseline_value: copy_string(&e.baseline_value),
                planned_value: row.planned_value,
                status: OfflineChangeStatus::Pending,
                error: None,
                updated_at: row.updated_at,
            };
            cache.set(i, updated);
            assert(changes_view(cache@) =~= old_v.update(i as int, replanned(old_v[i as int], c)));
            return Ok(id);
        }
        i = i + 1;
    }
    let id = copy_string(&row.change_id);
    cache.push(row);
    assert(changes_view(cache@) =~= old_v.push(c));
    Ok(id)
}

/// Sets a bowtie's name and tags. With an offline layout open the edit is
/// recorded as an offline change (see [`record_bowtie_metadata`]) under a
/// fresh change ID at the current time, its planned value the metadata as
/// JSON, and its ID returned. Otherwise nothing is recorded here and the
/// empty text is returned: the caller updates the live catalog.
pub fn set_bowtie_metadata(
    cache: &mut Vec<OfflineChange>,
    offline_layout_active: bool,
    event_id_hex: &str,
    name: Option<String>,
    tags: Vec<String>,
) -> (r: Result<String, String>)
    ensures
        !offline_layout_active ==> (r matches Ok(x) && x@.len() == 0
            && changes_view(final(cache)@) == changes_view(old(cache)@)),
        offline_layout_active ==> exists|id: Seq<char>, at: Seq<char>| is_change_id(id) && {
            let c = #[trigger] metadata_change(event_id_hex@, metadata_json(opt_str(name), strs(tags@)), id, at);
            &&& r matches Ok(x) && x@ == metadata_upsert_id(changes_view(old(cache)@), c)
            &&& changes_view(final(cache)@) == metadata_upsert(changes_view(old(cache)@), c)
        },
{
    if !offline_layout_active {
        return Ok(String::new());
    }
    let planned = bowtie_metadata_json(&name, &tags);
    let id = new_change_id();
    let at = now_rfc3339();
    let ghost (idv, atv) = (id@, at@);
    proof { lemma_change_id_not_blank(idv); }
    let r = record_bowtie_metadata(cache, event_id_hex, planned, id, at);
    assert(is_change_id(idv));
    assert(metadata_change(event_id_hex@, metadata_json(opt_str(name), strs(tags@)), idv, atv)
        == metadata_change(event_id_hex@, metadata_json(opt_str(name), strs(tags@)), idv, atv));
    r
}

/// Law: recording an edit leaves exactly one row changed or added, and that
/// row carries the edit: the reported ID, the edit's target, the new planned
/// value and time, pending again and without error, whatever the row's
/// status and error were before (so a failed edit that is re-planned is
/// synced again). Every other row stays as it was.
pub proof fn law_upsert_row_is_pending(s: Seq<ChangeView>, c: ChangeView)
    requires
        c.status == OfflineChangeStatus::Pending,
        c.error is None,
    ensures
        ({
            let n = upsert(s, c);
            exists|i: int| 0 <= i < n.len() && {
                &&& #[trigger] n[i].change_id == upsert_id(s, c)
                &&& same_target(n[i], c)
                &&& n[i].planned_value == c.planned_value
                &&& n[i].updated_at == c.updated_at
                &&& n[i].status == OfflineChangeStatus::Pending
                &&& n[i].error is None
                &&& forall|j: int| 0 <= j < s.len() && j != i ==> n[j] == s[j]
                &&& n.len() == if i < s.len() { s.len() } else { s.len() + 1 }
            }
        }),
{
    let n = upsert(s, c);
    if exists|i: int| first_same_target(s, c, i) {
        let i = choose|i: int| first_same_target(s, c, i);
        assert(n[i].change_id == upsert_id(s, c));
    } else {
        let i = s.len() as int;
        assert(n[i] == c);
        assert(n[i].change_id == upsert_id(s, c));
    }
}

/// Law: recording a bowtie's metadata leaves exactly one row changed or
/// added, a metadata row of that bowtie with the new planned value and
/// time, pending and without error, whatever it held before; every other
/// row stays as it was.
pub proof fn law_metadata_row_is_pending(s: Seq<ChangeView>, c: ChangeView)
    requires
        c.kind == OfflineChangeKind::BowtieMetadata,
        c.status == OfflineChangeStatus::Pending,
        c.error is None,
    ensures
        ({
            let n = metadata_upsert(s, c);
            exists|i: int| 0 <= i < n.len() && {
                &&& #[trigger] n[i].change_id == metadata_upsert_id(s, c)
                &&& is_metadata_row(n[i], c.baseline_value)
                &&& n[i].planned_value == c.planned_value
                &&& n[i].updated_at == c.updated_at
                &&& n[i].status == OfflineChangeStatus::Pending
                &&& n[i].error is None
                &&& forall|j: int| 0 <= j < s.len() && j != i ==> n[j] == s[j]
                &&& n.len() == if i < s.len() { s.len() } else { s.len() + 1 }
            }
        }),
{
    let n = metadata_upsert(s, c);
    if exists|i: int| first_metadata_row(s, c.baseline_value, i) {
        let i = choose|i: int| first_metadata_row(s, c.baseline_value, i);
        assert(n[i].change_id == metadata_upsert_id(s, c));
    } else {
        let i = s.len() as int;
        assert(n[i] == c);
        assert(n[i].change_id == metadata_upsert_id(s, c));
    }
}

// ── Laws of the offline change list ───────────────────────────────────────

/// No two rows edit the same target.
pub open spec fn targets_unique(s: Seq<ChangeView>) -> bool {
    forall|a: int, b: int| 0 <= a < b < s.len() ==> !same_target(#[trigger] s[a], #[trigger] s[b])
}

proof fn lemma_first_same_target_exists(s: Seq<ChangeView>, c: ChangeView, i: int)
    requires
        0 <= i < s.len(),
        same_target(s[i], c),
    ensures
        exists|k: int| first_same_target(s, c, k),
    decreases i,
{
    if forall|j: int| 0 <= j < i ==> !same_target(#[trigger] s[j], c) {
        assert(first_same_target(s, c, i));
    } else {
        let j = choose|j: int| 0 <= j < i && same_target(#[trigger] s[j], c);
        lemma_first_same_target_exists(s, c, j);
    }
}

/// Law: recording a change keeps at most one row per target: an edit of a
/// target already in the list re-plans that row instead of adding one.
pub proof fn law_upsert_keeps_targets_unique(s: Seq<ChangeView>, c: ChangeView)
    requires
        targets_unique(s),
    ensures
        targets_unique(upsert(s, c)),
{
    if exists|i: int| first_same_target(s, c, i) {
        let i = choose|i: int| first_same_target(s, c, i);
        let u = s.update(i, replanned(s[i], c));
        assert forall|a: int, b: int| 0 <= a < b < u.len() implies !same_target(#[trigger] u[a], #[trigger] u[b]) by {
            assert(same_target(u[a], s[a]) && same_target(s[a], u[a]));
            assert(same_target(u[b], s[b]) && same_target(s[b], u[b]));
        }
    } else {
        let u = s.push(c);
        assert forall|a: int, b: int| 0 <= a < b < u.len() implies !same_target(#[trigger] u[a], #[trigger] u[b]) by {
            if b == s.len() {
                if same_target(s[a], c) {
                    lemma_first_same_target_exists(s, c, a);
                }
            } else {
                assert(u[a] == s[a] && u[b] == s[b]);
            }
        }
    }
}

/// Law: after reverting a change ID, no row has that ID.
pub proof fn law_revert_removes_id(s: Seq<ChangeView>, id: Seq<char>)
    ensures
        !has_id(without_id(s, id), id),
    decreases s.len(),
{
    if s.len() > 0 {
        law_revert_removes_id(s.drop_last(), id);
        let w = without_id(s.drop_last(), id);
        if s.last().change_id != id {
            assert forall|i: int| 0 <= i < w.push(s.last()).len() implies (#[trigger] w.push(s.last())[i]).change_id != id by {
                if i < w.len() {
                    assert(w.push(s.last())[i] == w[i]);
                }
            }
        }
    }
}

/// Law: reverting a change just recorded under a fresh ID, for a target no
/// row edited, gives back the list as it was.
pub proof fn law_revert_undoes_new_change(s: Seq<ChangeView>, c: ChangeView)
    requires
        !has_id(s, c.change_id),
        forall|i: int| 0 <= i < s.len() ==> !same_target(#[trigger] s[i], c),
    ensures
        upsert(s, c) == s.push(c),
        without_id(upsert(s, c), c.change_id) == s,
{
    assert(!exists|i: int| first_same_target(s, c, i));
    let u = s.push(c);
    assert(u.drop_last() =~= s);
    lemma_without_absent(s, c.change_id);
}

} // verus!
