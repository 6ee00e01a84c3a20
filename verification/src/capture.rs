//! Layout capture bookkeeping: the summary of a capture, closing a layout,
//! and the identity of a new layout.

use vstd::prelude::*;
use crate::snapshot::{CaptureStatus, NodeSnapshot};
use crate::text::{i64_decimal, int_decimal, string_of};
use crate::stamps::{now_rfc3339, now_seconds};

verus! {

/// How many nodes a capture took, and how many of them completely.
pub struct CaptureSummary {
    pub captured_at: String,
    pub node_count: usize,
    pub complete_count: usize,
    pub partial_count: usize,
}

/// Complete snapshots among the first `n`.
pub open spec fn complete_upto(s: Seq<NodeSnapshot>, n: int) -> int
    decreases n,
{
    if n <= 0 {
        0
    } else {
        complete_upto(s, n - 1) + if s[n - 1].capture_status == CaptureStatus::Complete { 1int } else { 0int }
    }
}

proof fn lemma_complete_bound(s: Seq<NodeSnapshot>, n: int)
    requires
        0 <= n <= s.len(),
    ensures
        0 <= complete_upto(s, n) <= n,
    decreases n,
{
    if n > 0 {
        lemma_complete_bound(s, n - 1);
    }
}

/// Summarises the snapshots of a capture taken at `captured_at`.
pub fn capture_summary(captured_at: &str, snapshots: &Vec<NodeSnapshot>) -> (r: CaptureSummary)
    ensures
        r.captured_at@ == captured_at@,
        r.node_count == snapshots@.len(),
        r.complete_count == complete_upto(snapshots@, snapshots@.len() as int),
        r.partial_count == snapshots@.len() - complete_upto(snapshots@, snapshots@.len() as int),
{
    let mut complete: usize = 0;
    let mut partial: usize = 0;
    let mut i: usize = 0;
    while i < snapshots.len()
        invariant
            i <= snapshots@.len(),
            complete == complete_upto(snapshots@, i as int),
            partial == i - complete_upto(snapshots@, i as int),
        decreases snapshots.len() - i,
    {
        proof { lemma_complete_bound(snapshots@, i + 1); }
        match snapshots[i].capture_status {
            CaptureStatus::Complete => complete = complete + 1,
            CaptureStatus::Partial => partial = partial + 1,
        }
        i = i + 1;
    }
    CaptureSummary { captured_at: string_of(captured_at), node_count: snapshots.len(), complete_count: complete, partial_count: partial }
}

/// What the user chose when closing a layout.
#[derive(Clone, Copy, PartialEq, Eq, Structural)]
pub enum CloseLayoutDecision {
    Save,
    Discard,
    Cancel,
}

/// Whether the layout was closed, and why not.
pub struct CloseLayoutResult {
    pub closed: bool,
    pub reason: Option<String>,
}

/// The result of closing a layout: a cancelled close leaves it open.
pub fn close_layout(decision: CloseLayoutDecision) -> (r: CloseLayoutResult)
    ensures
        decision == CloseLayoutDecision::Cancel ==> !r.closed && (r.reason matches Some(m) && m@ == "cancelled"@),
        decision != CloseLayoutDecision::Cancel ==> r.closed && r.reason is None,
{
    if decision == CloseLayoutDecision::Cancel {
        CloseLayoutResult { closed: false, reason: Some(string_of("cancelled")) }
    } else {
        CloseLayoutResult { closed: true, reason: None }
    }
}

/// A new layout's ID and creation time.
pub struct NewLayoutResult {
    pub layout_id: String,
    pub created_at: String,
}

/// A new layout created at `created_at` (RFC 3339) and `timestamp` (Unix
/// seconds): its ID is `layout-<timestamp>`.
pub fn create_new_layout_capture(created_at: &str, timestamp: i64) -> (r: NewLayoutResult)
    ensures
        r.layout_id@ == "layout-"@ + int_decimal(timestamp as int),
        r.created_at@ == created_at@,
{
    let mut id = string_of("layout-");
    let d = i64_decimal(timestamp);
    id.append(d.as_str());
    NewLayoutResult { layout_id: id, created_at: string_of(created_at) }
}

/// A new layout created now: its ID is `layout-<Unix seconds>` and its
/// creation time the current time; see [`create_new_layout_capture`].
pub fn create_new_layout_now() -> (r: NewLayoutResult)
    ensures
        exists|ts: i64| r.layout_id@ == #[trigger] ("layout-"@ + int_decimal(ts as int)),
{
    let created_at = now_rfc3339();
    let ts = now_seconds();
    let r = create_new_layout_capture(created_at.as_str(), ts);
    assert(r.layout_id@ == "layout-"@ + int_decimal(ts as int));
    r
}

} // verus!
