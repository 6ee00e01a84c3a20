//! Counting the outcome of writing pending configuration values to nodes.
//!
//! Each pending value is written with one memory write. A write the node
//! refuses with error code `1083` (address is read-only) is reverted and
//! counted apart from the other failures.

use vstd::prelude::*;
use crate::sync::{contains_text, text_contains};
use crate::codec::{be_bytes, be_bytes_of, twos_complement, twos_complement_u64};

verus! {

/// What a write of pending values came to.
pub struct WriteModifiedResult {
    pub total: u32,
    pub succeeded: u32,
    pub failed: u32,
    /// Writes reverted because the node reported the address read-only;
    /// not counted in `failed`.
    pub read_only_rejected: u32,
}

/// How one write ended.
#[derive(Clone, Copy, PartialEq, Eq, Structural)]
pub enum WriteOutcome {
    Written,
    ReadOnly,
    Failed,
}

/// How a write with result `r` ended: written, refused as read-only (the
/// error names code `1083`), or failed.
pub open spec fn write_outcome(r: Result<(), Seq<char>>) -> WriteOutcome {
    match r {
        Ok(()) => WriteOutcome::Written,
        Err(e) => if contains_text(e, "1083"@) { WriteOutcome::ReadOnly } else { WriteOutcome::Failed },
    }
}

/// The result as sequences.
pub open spec fn write_view(r: Result<(), String>) -> Result<(), Seq<char>> {
    match r {
        Ok(()) => Ok(()),
        Err(e) => Err(e@),
    }
}

/// How many of the first `n` writes were recorded as ending in `o` (`None`:
/// a write whose node no longer held its configuration tree when the result
/// came back, so nothing was recorded for it).
pub open spec fn count_outcome(s: Seq<Option<Result<(), String>>>, o: WriteOutcome, n: int) -> int
    decreases n,
{
    if n <= 0 {
        0
    } else {
        count_outcome(s, o, n - 1) + match s[n - 1] {
            Some(x) => if write_outcome(write_view(x)) == o { 1int } else { 0int },
            None => 0int,
        }
    }
}

/// How many of the first `n` writes were recorded at all.
pub open spec fn count_recorded(s: Seq<Option<Result<(), String>>>, n: int) -> int
    decreases n,
{
    if n <= 0 {
        0
    } else {
        count_recorded(s, n - 1) + if s[n - 1] is Some { 1int } else { 0int }
    }
}

proof fn lemma_counts_add_up(s: Seq<Option<Result<(), String>>>, n: int)
    requires
        0 <= n <= s.len(),
    ensures
        count_outcome(s, WriteOutcome::Written, n) + count_outcome(s, WriteOutcome::ReadOnly, n)
            + count_outcome(s, WriteOutcome::Failed, n) == count_recorded(s, n),
        count_recorded(s, n) <= n,
        0 <= count_outcome(s, WriteOutcome::Written, n),
        0 <= count_outcome(s, WriteOutcome::ReadOnly, n),
        0 <= count_outcome(s, WriteOutcome::Failed, n),
    decreases n,
{
    if n > 0 {
        lemma_counts_add_up(s, n - 1);
    }
}

/// How a write ended.
pub fn classify_write(result: &Result<(), String>) -> (o: WriteOutcome)
    ensures
        o == write_outcome(write_view(*result)),
{
    match result {
        Ok(()) => WriteOutcome::Written,
        Err(e) => {
            if text_contains(e.as_str(), "1083") {
                WriteOutcome::ReadOnly
            } else {
                WriteOutcome::Failed
            }
        },
    }
}

/// Counts the writes of pending values, one entry per value: every value
/// counts in `total`; a recorded result (`Some`) counts as succeeded,
/// read-only or failed; an unrecorded one (`None`) in none of them.
pub fn tally_writes(results: &Vec<Option<Result<(), String>>>) -> (r: WriteModifiedResult)
    requires
        results@.len() <= u32::MAX,
    ensures
        r.total == results@.len(),
        r.succeeded == count_outcome(results@, WriteOutcome::Written, results@.len() as int),
        r.read_only_rejected == count_outcome(results@, WriteOutcome::ReadOnly, results@.len() as int),
        r.failed == count_outcome(results@, WriteOutcome::Failed, results@.len() as int),
        r.succeeded + r.failed + r.read_only_rejected == count_recorded(results@, results@.len() as int),
        r.succeeded + r.failed + r.read_only_rejected <= r.total,
{
    let mut succeeded: u32 = 0;
    let mut failed: u32 = 0;
    let mut read_only: u32 = 0;
    let mut i: usize = 0;
    while i < results.len()
        invariant
            i <= results@.len() <= u32::MAX,
            succeeded == count_outcome(results@, WriteOutcome::Written, i as int),
            read_only == count_outcome(results@, WriteOutcome::ReadOnly, i as int),
            failed == count_outcome(results@, WriteOutcome::Failed, i as int),
        decreases results.len() - i,
    {
        proof { lemma_counts_add_up(results@, i + 1); }
        match &results[i] {
            Some(res) => match classify_write(res) {
                WriteOutcome::Written => succeeded = succeeded + 1,
                WriteOutcome::ReadOnly => read_only = read_only + 1,
                WriteOutcome::Failed => failed = failed + 1,
            },
            None => {},
        }
        i = i + 1;
    }
    proof { lemma_counts_add_up(results@, results@.len() as int); }
    WriteModifiedResult { total: results.len() as u32, succeeded, failed, read_only_rejected: read_only }
}


/// How many bytes an action trigger of declared size `size` writes: the size
/// itself when it is 1, 2, 4 or 8, one byte otherwise.
pub open spec fn action_width(size: u32) -> nat {
    if size == 2 || size == 4 || size == 8 { size as nat } else { 1 }
}

/// The bytes that trigger an action element: `value` as a big-endian
/// two's-complement integer of the element's width (see `action_width`),
/// truncated to that width.
pub fn action_bytes(size: u32, value: i64) -> (r: Vec<u8>)
    ensures
        r@ == be_bytes(twos_complement(value as int), action_width(size)),
        r@.len() == action_width(size),
{
    let width: usize = if size == 2 || size == 4 || size == 8 { size as usize } else { 1 };
    let r = be_bytes_of(twos_complement_u64(value), width);
    proof { lemma_be_bytes_len(twos_complement(value as int), width as nat); }
    r
}

proof fn lemma_be_bytes_len(x: nat, n: nat)
    ensures
        be_bytes(x, n).len() == n,
    decreases n,
{
    if n > 0 {
        lemma_be_bytes_len(x / 256, (n - 1) as nat);
    }
}

} // verus!
