//! Diagnostic statistics gathered while talking to the bus, and the plain
//! summary lines of a diagnostic report. Time stamps are RFC 3339 text.

use vstd::prelude::*;
use crate::strmap::{str_eq, StrMap};
use crate::text::{decimal_digits, join, string_of, strs, u64_decimal, join_strings};

verus! {

/// One frame seen on the bus.
pub struct FrameEntry {
    pub direction: String,
    pub timestamp_ms: u64,
    pub frame: String,
}

/// One discovery probe.
pub struct ProbeRecord {
    pub triggered_by: String,
    pub sent_at: String,
    pub nodes_responded_count: usize,
}

/// When a node was first seen.
pub struct NodeDiscoveryStat {
    pub node_id: String,
    pub snip_name: Option<String>,
    pub ms_after_connect: u64,
    pub snip_query_duration_ms: Option<u64>,
}

/// Probes sent and nodes found.
pub struct DiscoveryStats {
    pub probes: Vec<ProbeRecord>,
    pub nodes: Vec<NodeDiscoveryStat>,
}

/// How a node's description was obtained.
pub struct CdiDownloadStats {
    pub node_id: String,
    pub snip_name: Option<String>,
    pub from_cache: bool,
    pub total_bytes: usize,
    pub chunks: usize,
    pub chunk_durations_ms: Vec<u32>,
    pub retries: usize,
    pub total_duration_ms: u64,
}

/// Node identification captured with a configuration read.
pub struct SnipInfo {
    pub manufacturer: String,
    pub model: String,
    pub hardware_version: String,
    pub software_version: String,
    pub user_name: String,
    pub user_description: String,
}

/// One batch of a configuration read.
pub struct BatchReadStat {
    pub address_space: u8,
    pub address: u32,
    pub byte_count: u8,
    pub success: bool,
    pub error: Option<String>,
    pub first_frame_latency_ms: Option<u64>,
    pub frame_gaps_ms: Vec<u32>,
    pub frame_count: Option<u8>,
    pub total_duration_ms: u64,
}

/// How a node's configuration read went.
pub struct NodeConfigReadStats {
    pub node_id: String,
    pub snip_name: Option<String>,
    pub snip: Option<SnipInfo>,
    pub total_batches: usize,
    pub successful_batches: usize,
    pub failed_batches: usize,
    pub total_elements: usize,
    pub successful_elements: usize,
    pub failed_elements: usize,
    pub total_duration_ms: u64,
    pub batch_stats: Vec<BatchReadStat>,
}

/// The event-role exchange.
pub struct EventRoleExchangeStats {
    pub started_at: String,
    pub nodes_queried: usize,
    pub events_sent: usize,
    pub responses_received: usize,
    pub duration_ms: u64,
}

/// One recorded error.
pub struct DiagError {
    pub at: String,
    pub phase: String,
    pub node_id: Option<String>,
    pub error_type: String,
    pub detail: String,
}

/// Everything a diagnostic report holds about a session.
pub struct DiagnosticStats {
    pub app_version: String,
    pub connected_at: Option<String>,
    pub adapter_type: Option<String>,
    pub connection_label: Option<String>,
    pub baud_rate: Option<u32>,
    pub flow_control: Option<String>,
    pub frame_encoding: Option<String>,
    pub discovery: DiscoveryStats,
    pub cdi_downloads: StrMap<CdiDownloadStats>,
    pub config_reads: StrMap<NodeConfigReadStats>,
    pub event_role_exchange: Option<EventRoleExchangeStats>,
    pub errors: Vec<DiagError>,
}

/// The latest first-seen time among the first `n` nodes.
pub open spec fn max_ms(s: Seq<NodeDiscoveryStat>, n: int) -> int
    decreases n,
{
    if n <= 0 {
        0
    } else {
        let m = max_ms(s, n - 1);
        if s[n - 1].ms_after_connect > m { s[n - 1].ms_after_connect as int } else { m }
    }
}

/// Downloads among the first `n` that came from the cache (or not), and the bytes of those that did not.
pub open spec fn cdi_counts(s: Seq<(String, CdiDownloadStats)>, n: int) -> (int, int, int)
    decreases n,
{
    if n <= 0 {
        (0, 0, 0)
    } else {
        let p = cdi_counts(s, n - 1);
        if s[n - 1].1.from_cache { (p.0 + 1, p.1, p.2) } else { (p.0, p.1 + 1, p.2 + s[n - 1].1.total_bytes) }
    }
}

/// Total and failed elements over the first `n` configuration reads.
pub open spec fn read_counts(s: Seq<(String, NodeConfigReadStats)>, n: int) -> (int, int)
    decreases n,
{
    if n <= 0 {
        (0, 0)
    } else {
        let p = read_counts(s, n - 1);
        (p.0 + s[n - 1].1.total_elements, p.1 + s[n - 1].1.failed_elements)
    }
}

/// Timeouts and rejections among the first `n` errors.
pub open spec fn error_counts(s: Seq<DiagError>, n: int) -> (int, int)
    decreases n,
{
    if n <= 0 {
        (0, 0)
    } else {
        let p = error_counts(s, n - 1);
        (p.0 + if s[n - 1].error_type@ == "timeout"@ { 1int } else { 0int },
         p.1 + if s[n - 1].error_type@ == "rejection"@ { 1int } else { 0int })
    }
}

/// Decimal text of a count.
pub open spec fn dec(n: int) -> Seq<char> {
    decimal_digits(n as nat)
}

/// The discovery line, if any.
pub open spec fn discovery_line(st: DiagnosticStats) -> Option<Seq<char>> {
    let n = st.discovery.nodes@.len() as int;
    if n > 0 {
        Some("Discovery: "@ + dec(n) + " node(s) found in "@ + dec(max_ms(st.discovery.nodes@, n)) + "ms"@)
    } else if st.discovery.probes@.len() > 0 {
        Some("Discovery: probes sent but no nodes found"@)
    } else {
        None
    }
}

/// The description-download line, if any.
pub open spec fn cdi_line(st: DiagnosticStats) -> Option<Seq<char>> {
    let c = cdi_counts(st.cdi_downloads.seq(), st.cdi_downloads.seq().len() as int);
    let parts = (if c.1 > 0 { seq![dec(c.1) + " downloaded ("@ + dec(c.2) + " bytes)"@] } else { Seq::empty() })
        + (if c.0 > 0 { seq![dec(c.0) + " from cache"@] } else { Seq::empty() });
    if c.0 > 0 || c.1 > 0 { Some("CDI: "@ + join(parts, ", "@)) } else { None }
}

/// The configuration-read line, if any.
pub open spec fn config_line(st: DiagnosticStats) -> Option<Seq<char>> {
    let n = st.config_reads.seq().len() as int;
    let c = read_counts(st.config_reads.seq(), n);
    if n == 0 {
        None
    } else if c.1 > 0 {
        Some("Config: "@ + dec(n) + " node(s) read ("@ + dec(c.0) + " elements, "@ + dec(c.1) + " failed)"@)
    } else {
        Some("Config: "@ + dec(n) + " node(s) read ("@ + dec(c.0) + " elements)"@)
    }
}

/// The error line, if any.
pub open spec fn error_line(st: DiagnosticStats) -> Option<Seq<char>> {
    let n = st.errors@.len() as int;
    let c = error_counts(st.errors@, n);
    let other = n - c.0 - c.1;
    let parts = (if c.0 > 0 { seq![dec(c.0) + " timeout(s)"@] } else { Seq::empty() })
        + (if c.1 > 0 { seq![dec(c.1) + " rejection(s)"@] } else { Seq::empty() })
        + (if other > 0 { seq![dec(other) + " other"@] } else { Seq::empty() });
    if n > 0 { Some("Errors: "@ + join(parts, ", "@)) } else { None }
}

/// The lines present among some optional lines, in order.
pub open spec fn present(lines: Seq<Option<Seq<char>>>) -> Seq<Seq<char>>
    decreases lines.len(),
{
    if lines.len() == 0 {
        Seq::empty()
    } else {
        let p = present(lines.drop_last());
        match lines.last() {
            Some(l) => p.push(l),
            None => p,
        }
    }
}

proof fn lemma_present_push(s: Seq<Option<Seq<char>>>, x: Option<Seq<char>>)
    ensures
        present(s.push(x)) == (match x { Some(l) => present(s).push(l), None => present(s) }),
{
    assert(s.push(x).drop_last() =~= s);
}

/// The sums the summary prints fit in a machine word.
pub open spec fn summary_in_range(st: DiagnosticStats) -> bool {
    &&& cdi_counts(st.cdi_downloads.seq(), st.cdi_downloads.seq().len() as int).2 <= usize::MAX
    &&& read_counts(st.config_reads.seq(), st.config_reads.seq().len() as int).0 <= usize::MAX
    &&& read_counts(st.config_reads.seq(), st.config_reads.seq().len() as int).1 <= usize::MAX
}

proof fn lemma_counts_bounded(s: Seq<(String, CdiDownloadStats)>, n: int)
    requires
        0 <= n <= s.len(),
    ensures
        0 <= cdi_counts(s, n).0 <= n,
        0 <= cdi_counts(s, n).1 <= n,
        cdi_counts(s, n).2 >= 0,
    decreases n,
{
    if n > 0 {
        lemma_counts_bounded(s, n - 1);
    }
}

proof fn lemma_cdi_bytes_mono(s: Seq<(String, CdiDownloadStats)>, i: int, n: int)
    requires
        0 <= i <= n <= s.len(),
    ensures
        cdi_counts(s, i).2 <= cdi_counts(s, n).2,
    decreases n - i,
{
    if i < n {
        lemma_cdi_bytes_mono(s, i, n - 1);
    }
}

proof fn lemma_read_mono(s: Seq<(String, NodeConfigReadStats)>, i: int, n: int)
    requires
        0 <= i <= n <= s.len(),
    ensures
        0 <= read_counts(s, i).0 <= read_counts(s, n).0,
        0 <= read_counts(s, i).1 <= read_counts(s, n).1,
    decreases n - i,
{
    if i < n {
        lemma_read_mono(s, i, n - 1);
    } else {
        lemma_read_nonneg(s, i);
    }
}

proof fn lemma_read_nonneg(s: Seq<(String, NodeConfigReadStats)>, n: int)
    requires
        0 <= n <= s.len(),
    ensures
        read_counts(s, n).0 >= 0,
        read_counts(s, n).1 >= 0,
    decreases n,
{
    if n > 0 {
        lemma_read_nonneg(s, n - 1);
    }
}

proof fn lemma_error_counts(s: Seq<DiagError>, n: int)
    requires
        0 <= n <= s.len(),
    ensures
        0 <= error_counts(s, n).0,
        0 <= error_counts(s, n).1,
        error_counts(s, n).0 + error_counts(s, n).1 <= n,
    decreases n,
{
    if n > 0 {
        lemma_error_counts(s, n - 1);
        reveal_strlit("timeout");
        reveal_strlit("rejection");
        assert("timeout"@ != "rejection"@) by {
            assert("timeout"@.len() != "rejection"@.len());
        }
    }
}

/// Plain one-line summaries of a session: nodes discovered, descriptions
/// downloaded or cached, configuration reads, and errors by type.
#[verifier::spinoff_prover]
#[verifier::rlimit(40)]
pub fn generate_summary(stats: &DiagnosticStats) -> (lines: Vec<String>)
    requires
        summary_in_range(*stats),
    ensures
        strs(lines@) == present(seq![discovery_line(*stats), cdi_line(*stats), config_line(*stats), error_line(*stats)]),
{
    let mut lines: Vec<String> = Vec::new();
    let ghost mut want: Seq<Option<Seq<char>>> = Seq::empty();

    let nodes = &stats.discovery.nodes;
    let node_count = nodes.len();
    let mut max: u64 = 0;
    let mut i: usize = 0;
    while i < node_count
        invariant
            node_count == nodes@.len(),
            i <= node_count,
            max == max_ms(nodes@, i as int),
        decreases node_count - i,
    {
        if nodes[i].ms_after_connect > max {
            max = nodes[i].ms_after_connect;
        }
        i = i + 1;
    }
    if node_count > 0 {
        let mut l = string_of("Discovery: ");
        l.append(u64_decimal(node_count as u64).as_str());
        l.append(" node(s) found in ");
        l.append(u64_decimal(max).as_str());
        l.append("ms");
        lines.push(l);
    } else if stats.discovery.probes.len() > 0 {
        lines.push(string_of("Discovery: probes sent but no nodes found"));
    }
    proof {
        lemma_present_push(want, discovery_line(*stats));
        assert(present(want) =~= Seq::<Seq<char>>::empty());
        want = want.push(discovery_line(*stats));
        assert(strs(lines@) =~= present(want));
    }

    let downloads = stats.cdi_downloads.as_slice();
    let ghost ds = stats.cdi_downloads.seq();
    let mut cached: usize = 0;
    let mut downloaded: usize = 0;
    let mut bytes: usize = 0;
    let mut j: usize = 0;
    while j < downloads.len()
        invariant
            downloads@ == ds,
            ds == stats.cdi_downloads.seq(),
            summary_in_range(*stats),
            j <= ds.len(),
            cached == cdi_counts(ds, j as int).0,
            downloaded == cdi_counts(ds, j as int).1,
            bytes == cdi_counts(ds, j as int).2,
        decreases downloads.len() - j,
    {
        proof {
            lemma_counts_bounded(ds, j + 1);
            lemma_cdi_bytes_mono(ds, j + 1, ds.len() as int);
        }
        if downloads[j].1.from_cache {
            cached = cached + 1;
        } else {
            downloaded = downloaded + 1;
            bytes = bytes + downloads[j].1.total_bytes;
        }
        j = j + 1;
    }
    if downloaded > 0 || cached > 0 {
        let mut parts: Vec<String> = Vec::new();
        if downloaded > 0 {
            let mut p = u64_decimal(downloaded as u64);
            p.append(" downloaded (");
            p.append(u64_decimal(bytes as u64).as_str());
            p.append(" bytes)");
            parts.push(p);
        }
        if cached > 0 {
            let mut p = u64_decimal(cached as u64);
            p.append(" from cache");
            parts.push(p);
        }
        let mut l = string_of("CDI: ");
        l.append(join_strings(parts.as_slice(), ", ").as_str());
        proof {
            let c = cdi_counts(ds, ds.len() as int);
            let want_parts = (if c.1 > 0 { seq![dec(c.1) + " downloaded ("@ + dec(c.2) + " bytes)"@] } else { Seq::empty() })
                + (if c.0 > 0 { seq![dec(c.0) + " from cache"@] } else { Seq::empty() });
            assert(strs(parts@) =~= want_parts);
            assert(l@ == "CDI: "@ + join(want_parts, ", "@));
            assert(cdi_line(*stats) == Some(l@));
        }
        let ghost lb = lines@;
        lines.push(l);
        assert(strs(lines@) =~= strs(lb).push(l@));
    }
    proof {
        lemma_present_push(want, cdi_line(*stats));
        want = want.push(cdi_line(*stats));
        assert(strs(lines@) =~= present(want));
    }

    let reads = stats.config_reads.as_slice();
    let ghost rs = stats.config_reads.seq();
    let config_count = reads.len();
    let mut total: usize = 0;
    let mut failed: usize = 0;
    let mut k: usize = 0;
    while k < config_count
        invariant
            reads@ == rs,
            rs == stats.config_reads.seq(),
            config_count == rs.len(),
            summary_in_range(*stats),
            k <= config_count,
            total == read_counts(rs, k as int).0,
            failed == read_counts(rs, k as int).1,
        decreases config_count - k,
    {
        proof { lemma_read_mono(rs, k + 1, rs.len() as int); }
        total = total + reads[k].1.total_elements;
        failed = failed + reads[k].1.failed_elements;
        k = k + 1;
    }
    if config_count > 0 {
        let mut l = string_of("Config: ");
        l.append(u64_decimal(config_count as u64).as_str());
        l.append(" node(s) read (");
        l.append(u64_decimal(total as u64).as_str());
        if failed > 0 {
            l.append(" elements, ");
            l.append(u64_decimal(failed as u64).as_str());
            l.append(" failed)");
        } else {
            l.append(" elements)");
        }
        assert(config_line(*stats) == Some(l@));
        let ghost lb = lines@;
        lines.push(l);
        assert(strs(lines@) =~= strs(lb).push(l@));
    }
    proof {
        lemma_present_push(want, config_line(*stats));
        want = want.push(config_line(*stats));
        assert(strs(lines@) =~= present(want));
    }

    let errors = &stats.errors;
    let error_count = errors.len();
    let mut timeouts: usize = 0;
    let mut rejections: usize = 0;
    let mut e: usize = 0;
    while e < error_count
        invariant
            error_count == errors@.len(),
            e <= error_count,
            timeouts == error_counts(errors@, e as int).0,
            rejections == error_counts(errors@, e as int).1,
        decreases error_count - e,
    {
        proof { lemma_error_counts(errors@, e + 1); }
        if str_eq(errors[e].error_type.as_str(), "timeout") {
            timeouts = timeouts + 1;
        } else if str_eq(errors[e].error_type.as_str(), "rejection") {
            rejections = rejections + 1;
        }
        proof {
            reveal_strlit("timeout");
            reveal_strlit("rejection");
            assert("timeout"@ != "rejection"@) by {
                assert("timeout"@.len() != "rejection"@.len());
            }
        }
        e = e + 1;
    }
    proof { lemma_error_counts(errors@, error_count as int); }
    if error_count > 0 {
        let mut parts: Vec<String> = Vec::new();
        if timeouts > 0 {
            let mut p = u64_decimal(timeouts as u64);
            p.append(" timeout(s)");
            parts.push(p);
        }
        if rejections > 0 {
            let mut p = u64_decimal(rejections as u64);
            p.append(" rejection(s)");
            parts.push(p);
        }
        let other = error_count - timeouts - rejections;
        if other > 0 {
            let mut p = u64_decimal(other as u64);
            p.append(" other");
            parts.push(p);
        }
        let mut l = string_of("Errors: ");
        l.append(join_strings(parts.as_slice(), ", ").as_str());
        proof {
            let n = error_count as int;
            let c = error_counts(errors@, n);
            let o = n - c.0 - c.1;
            let want_parts = (if c.0 > 0 { seq![dec(c.0) + " timeout(s)"@] } else { Seq::empty() })
                + (if c.1 > 0 { seq![dec(c.1) + " rejection(s)"@] } else { Seq::empty() })
                + (if o > 0 { seq![dec(o) + " other"@] } else { Seq::empty() });
            assert(strs(parts@) =~= want_parts);
        }
        lines.push(l);
    }
    proof {
        lemma_present_push(want, error_line(*stats));
        want = want.push(error_line(*stats));
        assert(strs(lines@) =~= present(want));
        assert(want =~= seq![discovery_line(*stats), cdi_line(*stats), config_line(*stats), error_line(*stats)]);
    }
    lines
}

} // verus!
