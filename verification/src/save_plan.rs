//! Which node snapshots a layout save writes, and how node roles found on
//! the bus join the saved role classifications.
//!
//! A layout owns the nodes it already saved and the nodes a save promotes
//! with an `AddNode` edit, less those the save removes. A node on the bus is
//! saved from its fresh snapshot, except that a fresh partial snapshot never
//! replaces a complete one saved before; saved nodes that are not on the bus
//! keep their saved snapshot. Snapshots without any description data
//! (`missing`) or of nodes without a description (`not_supported`) are not
//! written.

use vstd::prelude::*;
use crate::layout_types::{apply_deltas, apply_layout_deltas, DeltaView, LayoutEditDelta, LayoutFile, LayoutView, RoleClassification, deltas_view};
use crate::snapshot::CaptureStatus;
use crate::strmap::str_eq;
use crate::sync::node_key;
use crate::text::{copy_string, string_of, strs};

verus! {

/// What a save needs to know of a snapshot: whose it is, whether it is
/// complete, and its description fingerprint.
pub struct SnapshotInfo {
    pub node_key: String,
    pub capture_status: CaptureStatus,
    pub fingerprint: String,
}

/// A snapshot as plain values.
pub struct SnapshotInfoView {
    pub node_key: Seq<char>,
    pub complete: bool,
    pub fingerprint: Seq<char>,
}

impl View for SnapshotInfo {
    type V = SnapshotInfoView;

    open spec fn view(&self) -> SnapshotInfoView {
        SnapshotInfoView {
            node_key: self.node_key@,
            complete: self.capture_status == CaptureStatus::Complete,
            fingerprint: self.fingerprint@,
        }
    }
}

/// Where a saved snapshot comes from: the fresh snapshot of the `i`-th node
/// on the bus, or the `i`-th snapshot saved before.
#[derive(Clone, Copy, PartialEq, Eq, Structural)]
pub enum SavePick {
    Fresh(usize),
    Previous(usize),
}

/// The snapshots as plain values.
pub open spec fn infos_view(s: Seq<SnapshotInfo>) -> Seq<SnapshotInfoView> {
    s.map_values(|x: SnapshotInfo| x@)
}

/// Edit `d` promotes node `k` into the layout.
pub open spec fn promotes(d: DeltaView, k: Seq<char>) -> bool {
    match d {
        DeltaView::AddNode { node_id_hex } => node_key(node_id_hex) == k,
        _ => false,
    }
}

/// The node keys that edits promote into the layout.
pub open spec fn added_keys(ds: Seq<DeltaView>) -> Set<Seq<char>> {
    Set::new(|k: Seq<char>| exists|i: int| 0 <= i < ds.len() && promotes(#[trigger] ds[i], k))
}

/// Some snapshot of `s` is node `k`'s.
pub open spec fn has_key(s: Seq<SnapshotInfoView>, k: Seq<char>) -> bool {
    exists|j: int| 0 <= j < s.len() && (#[trigger] s[j]).node_key == k
}

/// Node `k` belongs to the layout after the save: saved before or promoted,
/// and not removed.
pub open spec fn permitted(prev: Seq<SnapshotInfoView>, added: Set<Seq<char>>, removed: Seq<Seq<char>>, k: Seq<char>) -> bool {
    (has_key(prev, k) || added.contains(k)) && !removed.contains(k)
}

/// The last snapshot saved before for node `k`, if any.
pub open spec fn last_with_key(s: Seq<SnapshotInfoView>, k: Seq<char>, n: int) -> Option<int>
    decreases n,
{
    if n <= 0 {
        None
    } else if s[n - 1].node_key == k {
        Some(n - 1)
    } else {
        last_with_key(s, k, n - 1)
    }
}

/// The pick for the `i`-th node on the bus, if it is saved: its fresh
/// snapshot, or the complete one saved before when the fresh one is partial.
pub open spec fn live_pick(prev: Seq<SnapshotInfoView>, live: Seq<SnapshotInfoView>, added: Set<Seq<char>>, removed: Seq<Seq<char>>, i: int) -> Seq<SavePick> {
    let f = live[i];
    if !permitted(prev, added, removed, f.node_key) {
        Seq::empty()
    } else if !f.complete && (last_with_key(prev, f.node_key, prev.len() as int) matches Some(j) && prev[j].complete) {
        seq![SavePick::Previous(last_with_key(prev, f.node_key, prev.len() as int)->0 as usize)]
    } else {
        seq![SavePick::Fresh(i as usize)]
    }
}

/// The picks for the first `n` nodes on the bus.
pub open spec fn live_picks(prev: Seq<SnapshotInfoView>, live: Seq<SnapshotInfoView>, added: Set<Seq<char>>, removed: Seq<Seq<char>>, n: int) -> Seq<SavePick>
    decreases n,
{
    if n <= 0 {
        Seq::empty()
    } else {
        live_picks(prev, live, added, removed, n - 1) + live_pick(prev, live, added, removed, n - 1)
    }
}

/// The saved snapshots, among the first `n`, of nodes that belong to the
/// layout and are not on the bus.
pub open spec fn kept_previous(prev: Seq<SnapshotInfoView>, live: Seq<SnapshotInfoView>, added: Set<Seq<char>>, removed: Seq<Seq<char>>, n: int) -> Seq<SavePick>
    decreases n,
{
    if n <= 0 {
        Seq::empty()
    } else {
        let k = prev[n - 1].node_key;
        kept_previous(prev, live, added, removed, n - 1)
            + if permitted(prev, added, removed, k) && !has_key(live, k) { seq![SavePick::Previous((n - 1) as usize)] } else { Seq::empty() }
    }
}

/// The snapshot a pick names.
pub open spec fn picked(prev: Seq<SnapshotInfoView>, live: Seq<SnapshotInfoView>, p: SavePick) -> SnapshotInfoView {
    match p {
        SavePick::Fresh(i) => live[i as int],
        SavePick::Previous(j) => prev[j as int],
    }
}

/// A snapshot with description data worth writing.
pub open spec fn writable(s: SnapshotInfoView) -> bool {
    s.fingerprint != "not_supported"@ && s.fingerprint != "missing"@
}

/// The first `n` picks, those naming writable snapshots.
pub open spec fn writable_picks(prev: Seq<SnapshotInfoView>, live: Seq<SnapshotInfoView>, ps: Seq<SavePick>, n: int) -> Seq<SavePick>
    decreases n,
{
    if n <= 0 {
        Seq::empty()
    } else {
        writable_picks(prev, live, ps, n - 1) + if writable(picked(prev, live, ps[n - 1])) { seq![ps[n - 1]] } else { Seq::empty() }
    }
}

/// The snapshots saved before, among the first `n`, of nodes the save does
/// not remove.
pub open spec fn unremoved_previous(prev: Seq<SnapshotInfoView>, removed: Seq<Seq<char>>, n: int) -> Seq<SavePick>
    decreases n,
{
    if n <= 0 {
        Seq::empty()
    } else {
        unremoved_previous(prev, removed, n - 1)
            + if !removed.contains(prev[n - 1].node_key) { seq![SavePick::Previous((n - 1) as usize)] } else { Seq::empty() }
    }
}

/// All picks before dropping the unwritable ones: with nodes on the bus,
/// theirs and then the saved nodes not on the bus; with none on the bus,
/// every snapshot saved before whose node the save does not remove.
pub open spec fn all_picks(prev: Seq<SnapshotInfoView>, live: Seq<SnapshotInfoView>, added: Set<Seq<char>>, removed: Seq<Seq<char>>) -> Seq<SavePick> {
    if live.len() > 0 {
        live_picks(prev, live, added, removed, live.len() as int) + kept_previous(prev, live, added, removed, prev.len() as int)
    } else {
        unremoved_previous(prev, removed, prev.len() as int)
    }
}

/// The snapshots a save writes, in order.
pub open spec fn save_plan(prev: Seq<SnapshotInfoView>, live: Seq<SnapshotInfoView>, added: Set<Seq<char>>, removed: Seq<Seq<char>>) -> Seq<SavePick> {
    let ps = all_picks(prev, live, added, removed);
    writable_picks(prev, live, ps, ps.len() as int)
}

/// Whether some snapshot of `s` is node `k`'s.
fn find_key(s: &Vec<SnapshotInfo>, k: &str) -> (r: bool)
    ensures
        r == has_key(infos_view(s@), k@),
{
    let ghost v = infos_view(s@);
    let mut j: usize = 0;
    while j < s.len()
        invariant
            v == infos_view(s@),
            j <= s@.len(),
            forall|t: int| 0 <= t < j ==> (#[trigger] v[t]).node_key != k@,
        decreases s.len() - j,
    {
        if str_eq(s[j].node_key.as_str(), k) {
            assert(v[j as int].node_key == k@);
            return true;
        }
        j = j + 1;
    }
    false
}

/// The index of the last snapshot of `s` that is node `k`'s.
fn find_last_key(s: &Vec<SnapshotInfo>, k: &str) -> (r: Option<usize>)
    ensures
        r matches Some(j) ==> j < s@.len() && last_with_key(infos_view(s@), k@, s@.len() as int) == Some(j as int),
        match last_with_key(infos_view(s@), k@, s@.len() as int) {
            Some(j) => r == Some(j as usize),
            None => r is None,
        },
{
    let ghost v = infos_view(s@);
    proof { lemma_last_with_key_range(v, k@, s@.len() as int); }
    let mut n: usize = s.len();
    while n > 0
        invariant
            v == infos_view(s@),
            n <= s@.len(),
            last_with_key(v, k@, s@.len() as int) == last_with_key(v, k@, n as int),
        decreases n,
    {
        if str_eq(s[n - 1].node_key.as_str(), k) {
            return Some(n - 1);
        }
        n = n - 1;
    }
    None
}

/// Whether `k` is among the strings of `v`.
fn has_string(v: &Vec<String>, k: &str) -> (r: bool)
    ensures
        r == strs(v@).contains(k@),
{
    let mut j: usize = 0;
    while j < v.len()
        invariant
            j <= v@.len(),
            forall|t: int| 0 <= t < j ==> (#[trigger] strs(v@)[t]) != k@,
        decreases v.len() - j,
    {
        if str_eq(v[j].as_str(), k) {
            assert(strs(v@)[j as int] == k@);
            return true;
        }
        j = j + 1;
    }
    false
}

/// The node keys the edits promote.
fn promoted_keys(deltas: &Vec<LayoutEditDelta>) -> (r: Vec<String>)
    ensures
        forall|k: Seq<char>| strs(r@).contains(k) <==> added_keys(deltas_view(deltas@)).contains(k),
{
    let ghost dv = deltas_view(deltas@);
    let mut out: Vec<String> = Vec::new();
    let mut i: usize = 0;
    while i < deltas.len()
        invariant
            dv == deltas_view(deltas@),
            i <= deltas@.len(),
            forall|k: Seq<char>| strs(out@).contains(k) <==> exists|t: int| 0 <= t < i
                && promotes(#[trigger] dv[t], k),
        decreases deltas.len() - i,
    {
        let ghost before = strs(out@);
        match deltas[i].as_add_node() {
            Some(key) => {
                assert(dv[i as int] == deltas@[i as int]@);
                assert(promotes(dv[i as int], key@));
                let ghost kv = key@;
                out.push(key);
                assert(strs(out@) =~= before.push(kv));
                assert forall|k: Seq<char>| #[trigger] strs(out@).contains(k) implies exists|t: int| 0 <= t < i + 1
                    && promotes(#[trigger] dv[t], k) by {
                    if k == kv {
                        assert(promotes(dv[i as int], k));
                    } else {
                        let j = choose|j: int| 0 <= j < strs(out@).len() && strs(out@)[j] == k;
                        assert(j < before.len());
                        assert(before[j] == k);
                        assert(before.contains(k));
                    }
                }
                assert forall|k: Seq<char>| (exists|t: int| 0 <= t < i + 1 && promotes(#[trigger] dv[t], k)) implies #[trigger] strs(out@).contains(k) by {
                    let t = choose|t: int| 0 <= t < i + 1 && promotes(#[trigger] dv[t], k);
                    if t == i {
                        assert(k == kv);
                        assert(strs(out@)[before.len() as int] == k);
                    } else {
                        assert(exists|t2: int| 0 <= t2 < i && promotes(#[trigger] dv[t2], k));
                        assert(before.contains(k));
                        let j = choose|j: int| 0 <= j < before.len() && before[j] == k;
                        assert(strs(out@)[j] == k);
                    }
                }
            },
            None => {
                assert(dv[i as int] == deltas@[i as int]@);
                assert forall|k: Seq<char>| strs(out@).contains(k) <==> exists|t: int| 0 <= t < i + 1
                    && promotes(#[trigger] dv[t], k) by {
                    if exists|t: int| 0 <= t < i + 1 && promotes(#[trigger] dv[t], k) {
                        let t = choose|t: int| 0 <= t < i + 1 && promotes(#[trigger] dv[t], k);
                        assert(t != i);
                    }
                }
            },
        }
        i = i + 1;
    }
    out
}

/// Whether node `k` belongs to the layout after the save.
fn is_permitted(previous: &Vec<SnapshotInfo>, added: &Vec<String>, removed: &Vec<String>, k: &str, Ghost(a): Ghost<Set<Seq<char>>>) -> (r: bool)
    requires
        forall|x: Seq<char>| strs(added@).contains(x) <==> a.contains(x),
    ensures
        r == permitted(infos_view(previous@), a, strs(removed@), k@),
{
    (find_key(previous, k) || has_string(added, k)) && !has_string(removed, k)
}

/// Plans which snapshots a layout save writes (see [`save_plan`]):
/// `previous` are the snapshots saved before, `live` the fresh snapshots of
/// the nodes on the bus, `deltas` the save's edits (their `AddNode` edits
/// promote nodes) and `removed` the keys of nodes the save drops.
pub fn plan_layout_save(
    previous: &Vec<SnapshotInfo>,
    deltas: &Vec<LayoutEditDelta>,
    removed: &Vec<String>,
    live: &Vec<SnapshotInfo>,
) -> (r: Vec<SavePick>)
    ensures
        r@ == save_plan(infos_view(previous@), infos_view(live@), added_keys(deltas_view(deltas@)), strs(removed@)),
{
    let ghost pv = infos_view(previous@);
    let ghost lv = infos_view(live@);
    let ghost a = added_keys(deltas_view(deltas@));
    let ghost rm = strs(removed@);
    let added = promoted_keys(deltas);
    let mut picks: Vec<SavePick> = Vec::new();
    if live.len() > 0 {
        let mut i: usize = 0;
        while i < live.len()
            invariant
                pv == infos_view(previous@),
                lv == infos_view(live@),
                rm == strs(removed@),
                forall|x: Seq<char>| strs(added@).contains(x) <==> a.contains(x),
                i <= live@.len(),
                picks@ == live_picks(pv, lv, a, rm, i as int),
            decreases live.len() - i,
        {
            let f = &live[i];
            assert(lv[i as int] == f@);
            let ghost p0 = picks@;
            let ghost want = live_pick(pv, lv, a, rm, i as int);
            if is_permitted(previous, &added, removed, f.node_key.as_str(), Ghost(a)) {
                assert(permitted(pv, a, rm, lv[i as int].node_key));
                let mut pick = SavePick::Fresh(i);
                if f.capture_status == CaptureStatus::Partial {
                    assert(!lv[i as int].complete);
                    match find_last_key(previous, f.node_key.as_str()) {
                        Some(j) => {
                            assert(last_with_key(pv, lv[i as int].node_key, pv.len() as int) == Some(j as int));
                            assert(pv[j as int] == previous@[j as int]@);
                            if previous[j].capture_status == CaptureStatus::Complete {
                                pick = SavePick::Previous(j);
                                assert(want == seq![pick]);
                            } else {
                                assert(!pv[j as int].complete);
                                assert(want == seq![pick]);
                            }
                        },
                        None => {
                            assert(want == seq![pick]);
                        },
                    }
                } else {
                    assert(lv[i as int].complete);
                    assert(want == seq![pick]);
                }
                picks.push(pick);
            } else {
                assert(want == Seq::<SavePick>::empty());
            }
            assert(picks@ =~= p0 + want);
            assert(picks@ =~= live_picks(pv, lv, a, rm, i + 1));
            i = i + 1;
        }
        let ghost lp = picks@;
        let mut j: usize = 0;
        while j < previous.len()
            invariant
                pv == infos_view(previous@),
                lv == infos_view(live@),
                rm == strs(removed@),
                forall|x: Seq<char>| strs(added@).contains(x) <==> a.contains(x),
                j <= previous@.len(),
                picks@ == lp + kept_previous(pv, lv, a, rm, j as int),
            decreases previous.len() - j,
        {
            let p = &previous[j];
            assert(pv[j as int] == p@);
            if is_permitted(previous, &added, removed, p.node_key.as_str(), Ghost(a)) && !find_key(live, p.node_key.as_str()) {
                picks.push(SavePick::Previous(j));
            }
            assert(picks@ =~= lp + kept_previous(pv, lv, a, rm, j + 1));
            j = j + 1;
        }
    } else {
        let mut j: usize = 0;
        while j < previous.len()
            invariant
                pv == infos_view(previous@),
                rm == strs(removed@),
                j <= previous@.len(),
                picks@ == unremoved_previous(pv, rm, j as int),
            decreases previous.len() - j,
        {
            assert(pv[j as int] == previous@[j as int]@);
            if !has_string(removed, previous[j].node_key.as_str()) {
                picks.push(SavePick::Previous(j));
            }
            assert(picks@ =~= unremoved_previous(pv, rm, j + 1));
            j = j + 1;
        }
    }
    let ghost ps = picks@;
    assert(ps == all_picks(pv, lv, a, rm));
    proof { lemma_picks_in_range(pv, lv, a, rm); }
    let mut out: Vec<SavePick> = Vec::new();
    let mut k: usize = 0;
    proof { reveal_strlit("not_supported"); reveal_strlit("missing"); }
    while k < picks.len()
        invariant
            pv == infos_view(previous@),
            lv == infos_view(live@),
            ps == picks@,
            forall|t: int| 0 <= t < ps.len() ==> pick_in_range(pv, lv, #[trigger] ps[t]),
            k <= ps.len(),
            out@ == writable_picks(pv, lv, ps, k as int),
        decreases picks.len() - k,
    {
        let pk = picks[k];
        assert(pick_in_range(pv, lv, ps[k as int]));
        let fp = match pk {
            SavePick::Fresh(i) => { assert(lv[i as int] == live@[i as int]@); &live[i].fingerprint },
            SavePick::Previous(j) => { assert(pv[j as int] == previous@[j as int]@); &previous[j].fingerprint },
        };
        assert(fp@ == picked(pv, lv, pk).fingerprint);
        if !str_eq(fp.as_str(), "not_supported") && !str_eq(fp.as_str(), "missing") {
            out.push(pk);
        }
        assert(out@ =~= writable_picks(pv, lv, ps, k + 1));
        k = k + 1;
    }
    out
}

/// A pick names an existing snapshot.
pub open spec fn pick_in_range(prev: Seq<SnapshotInfoView>, live: Seq<SnapshotInfoView>, p: SavePick) -> bool {
    match p {
        SavePick::Fresh(i) => (i as int) < live.len(),
        SavePick::Previous(j) => (j as int) < prev.len(),
    }
}

proof fn lemma_last_with_key_range(s: Seq<SnapshotInfoView>, k: Seq<char>, n: int)
    requires
        0 <= n <= s.len(),
    ensures
        last_with_key(s, k, n) matches Some(j) ==> 0 <= j < n && s[j].node_key == k,
    decreases n,
{
    if n > 0 {
        lemma_last_with_key_range(s, k, n - 1);
    }
}

proof fn lemma_picks_in_range(prev: Seq<SnapshotInfoView>, live: Seq<SnapshotInfoView>, a: Set<Seq<char>>, rm: Seq<Seq<char>>)
    requires
        prev.len() <= usize::MAX,
        live.len() <= usize::MAX,
    ensures
        forall|t: int| 0 <= t < all_picks(prev, live, a, rm).len() ==> pick_in_range(prev, live, #[trigger] all_picks(prev, live, a, rm)[t]),
{
    if live.len() == 0 {
        lemma_unremoved_ok(prev, live, a, rm, prev.len() as int);
    }
    if live.len() > 0 {
        lemma_live_picks_in_range(prev, live, a, rm, live.len() as int);
        lemma_kept_in_range(prev, live, a, rm, prev.len() as int);
        let x = live_picks(prev, live, a, rm, live.len() as int);
        let y = kept_previous(prev, live, a, rm, prev.len() as int);
        assert forall|t: int| 0 <= t < (x + y).len() implies pick_in_range(prev, live, #[trigger] (x + y)[t]) by {
            if t < x.len() { assert((x + y)[t] == x[t]); } else { assert((x + y)[t] == y[t - x.len()]); }
        }
    }
}

proof fn lemma_live_picks_in_range(prev: Seq<SnapshotInfoView>, live: Seq<SnapshotInfoView>, a: Set<Seq<char>>, rm: Seq<Seq<char>>, n: int)
    requires
        0 <= n <= live.len() <= usize::MAX,
        prev.len() <= usize::MAX,
    ensures
        forall|t: int| 0 <= t < live_picks(prev, live, a, rm, n).len() ==> pick_in_range(prev, live, #[trigger] live_picks(prev, live, a, rm, n)[t]),
    decreases n,
{
    if n > 0 {
        lemma_live_picks_in_range(prev, live, a, rm, n - 1);
        lemma_last_with_key_range(prev, live[n - 1].node_key, prev.len() as int);
        let x = live_picks(prev, live, a, rm, n - 1);
        let y = live_pick(prev, live, a, rm, n - 1);
        assert forall|t: int| 0 <= t < (x + y).len() implies pick_in_range(prev, live, #[trigger] (x + y)[t]) by {
            if t < x.len() { assert((x + y)[t] == x[t]); } else { assert((x + y)[t] == y[t - x.len()]); }
        }
    }
}

proof fn lemma_kept_in_range(prev: Seq<SnapshotInfoView>, live: Seq<SnapshotInfoView>, a: Set<Seq<char>>, rm: Seq<Seq<char>>, n: int)
    requires
        0 <= n <= prev.len() <= usize::MAX,
    ensures
        forall|t: int| 0 <= t < kept_previous(prev, live, a, rm, n).len() ==> pick_in_range(prev, live, #[trigger] kept_previous(prev, live, a, rm, n)[t]),
    decreases n,
{
    if n > 0 {
        lemma_kept_in_range(prev, live, a, rm, n - 1);
        let x = kept_previous(prev, live, a, rm, n - 1);
        let k = prev[n - 1].node_key;
        let y = if permitted(prev, a, rm, k) && !has_key(live, k) { seq![SavePick::Previous((n - 1) as usize)] } else { Seq::<SavePick>::empty() };
        assert forall|t: int| 0 <= t < (x + y).len() implies pick_in_range(prev, live, #[trigger] (x + y)[t]) by {
            if t < x.len() { assert((x + y)[t] == x[t]); } else { assert((x + y)[t] == y[t - x.len()]); }
        }
    }
}

/// What a pick may name: a node that belongs to the layout (saved before or
/// promoted, and not removed), and never a fresh partial snapshot when a
/// complete one was saved before.
pub open spec fn pick_ok(prev: Seq<SnapshotInfoView>, live: Seq<SnapshotInfoView>, added: Set<Seq<char>>, removed: Seq<Seq<char>>, p: SavePick) -> bool {
    &&& pick_in_range(prev, live, p)
    &&& permitted(prev, added, removed, picked(prev, live, p).node_key)
    &&& (p matches SavePick::Fresh(i) ==> !(!live[i as int].complete
            && (last_with_key(prev, live[i as int].node_key, prev.len() as int) matches Some(j) && prev[j].complete)))
}

proof fn lemma_writable_sub(prev: Seq<SnapshotInfoView>, live: Seq<SnapshotInfoView>, ps: Seq<SavePick>, n: int)
    requires
        0 <= n <= ps.len(),
    ensures
        forall|t: int| 0 <= t < writable_picks(prev, live, ps, n).len() ==> writable(picked(prev, live, #[trigger] writable_picks(prev, live, ps, n)[t]))
            && ps.contains(writable_picks(prev, live, ps, n)[t]),
    decreases n,
{
    if n > 0 {
        lemma_writable_sub(prev, live, ps, n - 1);
        let x = writable_picks(prev, live, ps, n - 1);
        let y = if writable(picked(prev, live, ps[n - 1])) { seq![ps[n - 1]] } else { Seq::<SavePick>::empty() };
        assert forall|t: int| 0 <= t < (x + y).len() implies writable(picked(prev, live, #[trigger] (x + y)[t])) && ps.contains((x + y)[t]) by {
            if t < x.len() { assert((x + y)[t] == x[t]); } else { assert((x + y)[t] == y[t - x.len()]); assert(ps[n - 1] == (x + y)[t]); }
        }
    }
}

proof fn lemma_live_picks_ok(prev: Seq<SnapshotInfoView>, live: Seq<SnapshotInfoView>, a: Set<Seq<char>>, rm: Seq<Seq<char>>, n: int)
    requires
        0 <= n <= live.len() <= usize::MAX,
        prev.len() <= usize::MAX,
    ensures
        forall|t: int| 0 <= t < live_picks(prev, live, a, rm, n).len() ==> pick_ok(prev, live, a, rm, #[trigger] live_picks(prev, live, a, rm, n)[t]),
    decreases n,
{
    if n > 0 {
        lemma_live_picks_ok(prev, live, a, rm, n - 1);
        let k = live[n - 1].node_key;
        lemma_last_with_key_range(prev, k, prev.len() as int);
        let x = live_picks(prev, live, a, rm, n - 1);
        let y = live_pick(prev, live, a, rm, n - 1);
        assert forall|t: int| 0 <= t < (x + y).len() implies pick_ok(prev, live, a, rm, #[trigger] (x + y)[t]) by {
            if t < x.len() { assert((x + y)[t] == x[t]); } else { assert((x + y)[t] == y[t - x.len()]); }
        }
    }
}

proof fn lemma_kept_ok(prev: Seq<SnapshotInfoView>, live: Seq<SnapshotInfoView>, a: Set<Seq<char>>, rm: Seq<Seq<char>>, n: int)
    requires
        0 <= n <= prev.len() <= usize::MAX,
    ensures
        forall|t: int| 0 <= t < kept_previous(prev, live, a, rm, n).len() ==> pick_ok(prev, live, a, rm, #[trigger] kept_previous(prev, live, a, rm, n)[t]),
    decreases n,
{
    if n > 0 {
        lemma_kept_ok(prev, live, a, rm, n - 1);
        let x = kept_previous(prev, live, a, rm, n - 1);
        let k = prev[n - 1].node_key;
        let y = if permitted(prev, a, rm, k) && !has_key(live, k) { seq![SavePick::Previous((n - 1) as usize)] } else { Seq::<SavePick>::empty() };
        assert forall|t: int| 0 <= t < (x + y).len() implies pick_ok(prev, live, a, rm, #[trigger] (x + y)[t]) by {
            if t < x.len() { assert((x + y)[t] == x[t]); } else { assert((x + y)[t] == y[t - x.len()]); }
        }
    }
}

proof fn lemma_unremoved_ok(prev: Seq<SnapshotInfoView>, live: Seq<SnapshotInfoView>, a: Set<Seq<char>>, rm: Seq<Seq<char>>, n: int)
    requires
        0 <= n <= prev.len() <= usize::MAX,
    ensures
        forall|t: int| 0 <= t < unremoved_previous(prev, rm, n).len() ==> pick_ok(prev, live, a, rm, #[trigger] unremoved_previous(prev, rm, n)[t]),
    decreases n,
{
    if n > 0 {
        lemma_unremoved_ok(prev, live, a, rm, n - 1);
        let x = unremoved_previous(prev, rm, n - 1);
        let k = prev[n - 1].node_key;
        let y = if !rm.contains(k) { seq![SavePick::Previous((n - 1) as usize)] } else { Seq::<SavePick>::empty() };
        assert forall|t: int| 0 <= t < (x + y).len() implies pick_ok(prev, live, a, rm, #[trigger] (x + y)[t]) by {
            if t < x.len() {
                assert((x + y)[t] == x[t]);
            } else {
                assert((x + y)[t] == y[t - x.len()]);
                assert(has_key(prev, prev[n - 1].node_key));
            }
        }
    }
}

/// Law: a save writes only snapshots with description data, only of nodes
/// that belong to the layout (saved before or promoted, and not removed),
/// whether or not any node is on the bus; and never a fresh partial snapshot of a node
/// whose snapshot saved before is complete.
pub proof fn law_save_plan_picks_ok(prev: Seq<SnapshotInfoView>, live: Seq<SnapshotInfoView>, added: Set<Seq<char>>, removed: Seq<Seq<char>>)
    requires
        prev.len() <= usize::MAX,
        live.len() <= usize::MAX,
    ensures
        forall|t: int| 0 <= t < save_plan(prev, live, added, removed).len() ==> {
            let p = #[trigger] save_plan(prev, live, added, removed)[t];
            &&& writable(picked(prev, live, p))
            &&& pick_ok(prev, live, added, removed, p)
        },
{
    let ps = all_picks(prev, live, added, removed);
    lemma_writable_sub(prev, live, ps, ps.len() as int);
    if live.len() > 0 {
        lemma_live_picks_ok(prev, live, added, removed, live.len() as int);
        lemma_kept_ok(prev, live, added, removed, prev.len() as int);
        let x = live_picks(prev, live, added, removed, live.len() as int);
        let y = kept_previous(prev, live, added, removed, prev.len() as int);
        assert forall|t: int| 0 <= t < ps.len() implies pick_ok(prev, live, added, removed, #[trigger] ps[t]) by {
            if t < x.len() { assert(ps[t] == x[t]); } else { assert(ps[t] == y[t - x.len()]); }
        }
    } else {
        lemma_unremoved_ok(prev, live, added, removed, prev.len() as int);
    }
    let w = save_plan(prev, live, added, removed);
    assert forall|t: int| 0 <= t < w.len() implies pick_ok(prev, live, added, removed, #[trigger] w[t]) by {
        let u = choose|u: int| 0 <= u < ps.len() && ps[u] == w[t];
        assert(pick_ok(prev, live, added, removed, ps[u]));
    }
}

/// A role list's keys and roles as plain values.
pub open spec fn roles_view(d: Seq<(String, RoleClassification)>) -> Seq<(Seq<char>, Seq<char>)> {
    d.map_values(|x: (String, RoleClassification)| (x.0@, x.1@))
}

/// The classifications after merging the first `n` roles found on the bus:
/// a key already classified keeps its classification.
pub open spec fn merged_roles(m: Map<Seq<char>, Seq<char>>, d: Seq<(Seq<char>, Seq<char>)>, n: int) -> Map<Seq<char>, Seq<char>>
    decreases n,
{
    if n <= 0 {
        m
    } else {
        let m2 = merged_roles(m, d, n - 1);
        if m2.dom().contains(d[n - 1].0) { m2 } else { m2.insert(d[n - 1].0, d[n - 1].1) }
    }
}

/// Adds the roles found on the bus to a layout's classifications, keeping
/// every classification it already has (the user's or one saved before).
pub fn merge_discovered_roles(layout: &mut LayoutFile, discovered: &Vec<(String, RoleClassification)>)
    ensures
        final(layout)@.role_classifications == merged_roles(old(layout)@.role_classifications, roles_view(discovered@), discovered@.len() as int),
        final(layout)@.schema_version == old(layout)@.schema_version,
        final(layout)@.bowties == old(layout)@.bowties,
        final(layout)@.connector_selections == old(layout)@.connector_selections,
{
    let ghost m0 = old(layout)@.role_classifications;
    let ghost dv = roles_view(discovered@);
    let mut i: usize = 0;
    while i < discovered.len()
        invariant
            i <= discovered@.len(),
            dv == roles_view(discovered@),
            layout@.role_classifications == merged_roles(m0, dv, i as int),
            layout@.schema_version == old(layout)@.schema_version,
            layout@.bowties == old(layout)@.bowties,
            layout@.connector_selections == old(layout)@.connector_selections,
        decreases discovered.len() - i,
    {
        let (k, rc) = (&discovered[i].0, &discovered[i].1);
        assert(dv[i as int] == (k@, rc@));
        if !layout.role_classifications.contains_key(k.as_str()) {
            let role = RoleClassification { role: string_of(rc.role.as_str()) };
            layout.role_classifications.insert(string_of(k.as_str()), role);
            assert(layout@.role_classifications =~= merged_roles(m0, dv, i + 1));
        }
        i = i + 1;
    }
}

/// The layout a save writes: the layout saved before (or a new one) with
/// the save's edits applied and the roles found on the bus merged in.
pub open spec fn saved_layout(l: LayoutView, ds: Seq<DeltaView>, roles: Seq<(Seq<char>, Seq<char>)>) -> LayoutView {
    let e = apply_deltas(l, ds);
    LayoutView {
        schema_version: e.schema_version,
        bowties: e.bowties,
        role_classifications: merged_roles(e.role_classifications, roles, roles.len() as int),
        connector_selections: e.connector_selections,
    }
}

/// The node keys of the picked snapshots, in order.
pub open spec fn picked_keys(prev: Seq<SnapshotInfoView>, live: Seq<SnapshotInfoView>, ps: Seq<SavePick>) -> Seq<Seq<char>> {
    ps.map_values(|p: SavePick| picked(prev, live, p).node_key)
}

/// The node keys of the partial snapshots among the first `n` picks.
pub open spec fn partial_keys(prev: Seq<SnapshotInfoView>, live: Seq<SnapshotInfoView>, ps: Seq<SavePick>, n: int) -> Seq<Seq<char>>
    decreases n,
{
    if n <= 0 {
        Seq::empty()
    } else {
        partial_keys(prev, live, ps, n - 1)
            + if !picked(prev, live, ps[n - 1]).complete { seq![picked(prev, live, ps[n - 1]).node_key] } else { Seq::empty() }
    }
}

/// A layout with view `want` does not validate, and `m` is the message its
/// validation gives.
pub open spec fn save_refused(want: LayoutView, m: Seq<char>) -> bool {
    exists|l: LayoutFile| l@ == want && !l.is_valid() && #[trigger] l.validation_message(m)
}

/// What a save writes: the layout, the snapshots picked, the keys of the
/// nodes written, and a warning (the node key) for each partial snapshot.
pub struct LayoutSave {
    pub layout: LayoutFile,
    pub picks: Vec<SavePick>,
    pub persisted_node_ids: Vec<String>,
    pub warnings: Vec<String>,
}

/// Composes a layout save: plans the snapshots (see [`plan_layout_save`]),
/// applies the edits to `layout` (the layout saved before, or a new one),
/// merges the roles found on the bus, and validates the result; a layout
/// that does not validate is not saved.
pub fn compose_layout_save(
    layout: LayoutFile,
    deltas: Vec<LayoutEditDelta>,
    discovered: &Vec<(String, RoleClassification)>,
    previous: &Vec<SnapshotInfo>,
    removed: &Vec<String>,
    live: &Vec<SnapshotInfo>,
) -> (r: Result<LayoutSave, String>)
    ensures
        ({
            let want = saved_layout(layout@, deltas_view(deltas@), roles_view(discovered@));
            let pv = infos_view(previous@);
            let lv = infos_view(live@);
            let plan = save_plan(pv, lv, added_keys(deltas_view(deltas@)), strs(removed@));
            &&& r matches Ok(s) ==> {
                &&& s.layout@ == want
                &&& s.layout.is_valid()
                &&& s.picks@ == plan
                &&& strs(s.persisted_node_ids@) == picked_keys(pv, lv, plan)
                &&& strs(s.warnings@) == partial_keys(pv, lv, plan, plan.len() as int)
            }
            &&& r matches Err(m) ==> save_refused(want, m@)
        }),
{
    let ghost pv = infos_view(previous@);
    let ghost lv = infos_view(live@);
    let picks = plan_layout_save(previous, &deltas, removed, live);
    let ghost plan = picks@;
    let mut bowties = layout;
    apply_layout_deltas(&mut bowties, deltas);
    merge_discovered_roles(&mut bowties, discovered);
    let ghost want = saved_layout(layout@, deltas_view(deltas@), roles_view(discovered@));
    assert(bowties@.role_classifications == want.role_classifications);
    assert(bowties@.bowties == want.bowties);
    assert(bowties@ == want);
    match bowties.validate() {
        Err(m) => {
            assert(bowties.validation_message(m@));
            assert(!bowties.is_valid());
            assert(save_refused(want, m@));
            return Err(m);
        },
        Ok(()) => {},
    }
    let nl = live.len();
    let np = previous.len();
    assert(lv.len() == nl && pv.len() == np);
    proof { lemma_picks_in_range(pv, lv, added_keys(deltas_view(deltas@)), strs(removed@)); }
    proof { lemma_writable_sub(pv, lv, all_picks(pv, lv, added_keys(deltas_view(deltas@)), strs(removed@)),
        all_picks(pv, lv, added_keys(deltas_view(deltas@)), strs(removed@)).len() as int); }
    assert forall|t: int| 0 <= t < plan.len() implies pick_in_range(pv, lv, #[trigger] plan[t]) by {
        let ps = all_picks(pv, lv, added_keys(deltas_view(deltas@)), strs(removed@));
        let u = choose|u: int| 0 <= u < ps.len() && ps[u] == plan[t];
        assert(pick_in_range(pv, lv, ps[u]));
    }
    let mut ids: Vec<String> = Vec::new();
    let mut warnings: Vec<String> = Vec::new();
    let mut k: usize = 0;
    while k < picks.len()
        invariant
            pv == infos_view(previous@),
            lv == infos_view(live@),
            plan == picks@,
            forall|t: int| 0 <= t < plan.len() ==> pick_in_range(pv, lv, #[trigger] plan[t]),
            k <= plan.len(),
            strs(ids@) == picked_keys(pv, lv, plan.subrange(0, k as int)),
            strs(warnings@) == partial_keys(pv, lv, plan, k as int),
        decreases picks.len() - k,
    {
        let pk = picks[k];
        assert(pick_in_range(pv, lv, plan[k as int]));
        let sn = match pk {
            SavePick::Fresh(i) => { assert(lv[i as int] == live@[i as int]@); &live[i] },
            SavePick::Previous(j) => { assert(pv[j as int] == previous@[j as int]@); &previous[j] },
        };
        assert(sn@ == picked(pv, lv, pk));
        let ghost i0 = strs(ids@);
        ids.push(copy_string(&sn.node_key));
        assert(strs(ids@) =~= i0.push(sn.node_key@));
        assert(picked_keys(pv, lv, plan.subrange(0, k + 1)) =~= picked_keys(pv, lv, plan.subrange(0, k as int)).push(sn.node_key@));
        if sn.capture_status == CaptureStatus::Partial {
            let ghost w0 = strs(warnings@);
            warnings.push(copy_string(&sn.node_key));
            assert(strs(warnings@) =~= w0.push(sn.node_key@));
        }
        assert(strs(warnings@) =~= partial_keys(pv, lv, plan, k + 1));
        k = k + 1;
    }
    assert(plan.subrange(0, plan.len() as int) =~= plan);
    Ok(LayoutSave { layout: bowties, picks, persisted_node_ids: ids, warnings })
}

} // verus!
