//! Turning the replies to a node's batched memory reads into typed values.
//!
//! A read plan (see [`crate::cdi::build_read_plan`]) groups the read items of a
//! node's value elements into batches. Each batch is read with one request;
//! the reply holds the bytes from the batch's first item to its end. The
//! values of elements of at most 64 bytes are cut out of the replies as they
//! come in; larger elements were read in chunks and are put together from
//! their chunks once every batch has been read. The first failed batch ends
//! the reading.

use vstd::prelude::*;
use crate::cdi::{
    abs_address, addressed_views, batches_from, chunk_items, element_items, get_element_size, insert_pos,
    is_multi_chunk, items_upto, key_le, multi_chunk_set, parsed, parse_config_value, plan_in_range, sort_items,
    value_size, AddressedView, ConfigValue, ElementWithAddress, ReadItem, ReadPlan, ValueView,
};
use crate::text::{copy_strings, decimal_digits, join, join_strings, opt_str, push_char, string_of, strs, u64_decimal};
use crate::strmap::str_eq;

verus! {

/// A value read from a node, with where it was read and the element it belongs to.
pub struct ReadValue {
    /// `<node id>:<element path joined by '/'>`.
    pub cache_key: String,
    pub value: ConfigValue,
    pub memory_address: u32,
    pub address_space: u8,
    pub element_path: Vec<String>,
}

/// What a [`ReadValue`] holds.
pub struct ReadValueView {
    pub cache_key: Seq<char>,
    pub value: ValueView,
    pub memory_address: u32,
    pub address_space: u8,
    pub element_path: Seq<Seq<char>>,
}

impl View for ReadValue {
    type V = ReadValueView;

    open spec fn view(&self) -> ReadValueView {
        ReadValueView {
            cache_key: self.cache_key@,
            value: self.value@,
            memory_address: self.memory_address,
            address_space: self.address_space,
            element_path: strs(self.element_path@),
        }
    }
}

/// The result of reading every value element of a node: the values in the
/// order they were decoded, how many were decoded, how many could not be
/// had, and the message of the failure that ended the reading, if one did.
pub struct ReadOutcome {
    pub values: Vec<ReadValue>,
    pub successful_reads: usize,
    pub failed_reads: usize,
    pub abort_error: Option<String>,
}

/// The state of reading: values so far, their count, the failure count, the
/// bytes kept for each item read (space, address, bytes; the last entry for
/// a place counts), the elements of failed batches, and the failure message.
pub struct ReadTally {
    pub values: Seq<ReadValueView>,
    pub ok: int,
    pub err: int,
    pub raw: Seq<(u8, u32, Seq<u8>)>,
    pub failed: Set<usize>,
    pub abort: Option<Seq<char>>,
}

/// The key under which a node's value is cached.
pub open spec fn cache_key(node: Seq<char>, path: Seq<Seq<char>>) -> Seq<char> {
    node + ":"@ + join(path, "/"@)
}

/// The bytes last kept for `(space, addr)`.
pub open spec fn raw_lookup(raw: Seq<(u8, u32, Seq<u8>)>, space: u8, addr: u32) -> Option<Seq<u8>>
    decreases raw.len(),
{
    if raw.len() == 0 {
        None
    } else if raw.last().0 == space && raw.last().1 == addr {
        Some(raw.last().2)
    } else {
        raw_lookup(raw.drop_last(), space, addr)
    }
}

/// Decodes `bytes` for element `v`, read at `addr` in `space`: a value on
/// success, a failure otherwise.
pub open spec fn record(t: ReadTally, node: Seq<char>, v: AddressedView, bytes: Seq<u8>, addr: u32, space: u8) -> ReadTally {
    match parsed(v.element, bytes) {
        Some(val) => ReadTally {
            values: t.values.push(ReadValueView {
                cache_key: cache_key(node, v.path),
                value: val,
                memory_address: addr,
                address_space: space,
                element_path: v.path,
            }),
            ok: t.ok + 1,
            ..t
        },
        None => ReadTally { err: t.err + 1, ..t },
    }
}

/// One item of a batch whose reply `data` starts at address `start`: its
/// bytes are cut out of the reply (a failure when the reply is too short)
/// and kept; an item of an element of at most 64 bytes is decoded at once.
pub open spec fn item_step(t: ReadTally, node: Seq<char>, v: Seq<AddressedView>, it: ReadItem, start: int, data: Seq<u8>) -> ReadTally {
    let off = it.absolute_address - start;
    let end = off + it.size;
    if end > data.len() {
        ReadTally { err: t.err + 1, ..t }
    } else {
        let bytes = data.subrange(off, end);
        let kept = ReadTally { raw: t.raw.push((it.space, it.absolute_address, bytes)), ..t };
        if it.element_total_size <= 64 {
            record(kept, node, v[it.orig_index as int], bytes, it.absolute_address, it.space)
        } else {
            kept
        }
    }
}

/// The items `k..` of a batch, in order.
pub open spec fn batch_items(
    t: ReadTally,
    node: Seq<char>,
    v: Seq<AddressedView>,
    items: Seq<ReadItem>,
    batch: Seq<usize>,
    start: int,
    data: Seq<u8>,
    k: int,
) -> ReadTally
    decreases batch.len() - k,
{
    if k < 0 || k >= batch.len() {
        t
    } else {
        batch_items(item_step(t, node, v, items[batch[k] as int], start, data), node, v, items, batch, start, data, k + 1)
    }
}

/// The elements of the first `k` items of a batch.
pub open spec fn batch_origins(items: Seq<ReadItem>, batch: Seq<usize>, k: int) -> Set<usize> {
    Set::new(|i: usize| exists|j: int| 0 <= j < k && #[trigger] items[batch[j] as int].orig_index == i)
}

/// The message of a failed batch read.
pub open spec fn abort_text(e: Seq<char>) -> Seq<char> {
    "Configuration read failed: "@ + e + ". Check your connection and try again."@
}

/// A batch whose read failed with `e`: every item counts as a failure, and
/// its elements are not put together later.
pub open spec fn batch_failed(t: ReadTally, items: Seq<ReadItem>, batch: Seq<usize>, e: Seq<char>) -> ReadTally {
    ReadTally {
        err: t.err + batch.len(),
        failed: t.failed.union(batch_origins(items, batch, batch.len() as int)),
        abort: Some(abort_text(e)),
        ..t
    }
}

/// The replies from batch `b` on, reply `b` answering batch `b`; the first
/// failed reply ends the reading.
pub open spec fn run_batches(
    t: ReadTally,
    node: Seq<char>,
    v: Seq<AddressedView>,
    items: Seq<ReadItem>,
    batches: Seq<Seq<usize>>,
    replies: Seq<Result<Seq<u8>, Seq<char>>>,
    b: int,
) -> ReadTally
    decreases replies.len() - b,
{
    if b < 0 || b >= replies.len() || b >= batches.len() {
        t
    } else {
        match replies[b] {
            Ok(data) => run_batches(
                batch_items(t, node, v, items, batches[b], items[batches[b][0] as int].absolute_address as int, data, 0),
                node, v, items, batches, replies, b + 1,
            ),
            Err(e) => batch_failed(t, items, batches[b], e),
        }
    }
}

/// The bytes of an element of `s` bytes at `base`, from byte `off` on, put
/// together from its kept chunks of 64 bytes; `None` when a chunk is missing.
pub open spec fn assembled(raw: Seq<(u8, u32, Seq<u8>)>, space: u8, base: int, s: int, off: int) -> Option<Seq<u8>>
    decreases s - off,
{
    if off < 0 || off >= s {
        Some(Seq::empty())
    } else {
        let c = if s - off < 64 { s - off } else { 64 };
        match raw_lookup(raw, space, (base + off) as u32) {
            Some(bytes) => match assembled(raw, space, base, s, off + c) {
                Some(rest) => Some(bytes + rest),
                None => None,
            },
            None => None,
        }
    }
}

/// Element `i`, when it is one read in chunks and none of its batches
/// failed: its chunks are put together and decoded.
pub open spec fn multi_step(t: ReadTally, node: Seq<char>, v: Seq<AddressedView>, multi: Set<usize>, i: int) -> ReadTally {
    if !multi.contains(i as usize) || t.failed.contains(i as usize) {
        t
    } else {
        match value_size(v[i].element) {
            Some(s) => match assembled(t.raw, v[i].space, abs_address(v[i]), s, 0) {
                Some(bytes) => record(t, node, v[i], bytes, abs_address(v[i]) as u32, v[i].space),
                None => ReadTally { err: t.err + 1, ..t },
            },
            None => ReadTally { err: t.err + 1, ..t },
        }
    }
}

/// The elements `i..` read in chunks, in index order.
pub open spec fn run_multi(t: ReadTally, node: Seq<char>, v: Seq<AddressedView>, multi: Set<usize>, i: int) -> ReadTally
    decreases v.len() - i,
{
    if i < 0 || i >= v.len() {
        t
    } else {
        run_multi(multi_step(t, node, v, multi, i), node, v, multi, i + 1)
    }
}

/// The whole reading: the batch replies, then the elements read in chunks.
/// Elements without a readable size count as failures from the start.
pub open spec fn read_tally(
    node: Seq<char>,
    v: Seq<AddressedView>,
    items: Seq<ReadItem>,
    batches: Seq<Seq<usize>>,
    multi: Set<usize>,
    invalid: int,
    replies: Seq<Result<Seq<u8>, Seq<char>>>,
) -> ReadTally {
    let start = ReadTally { values: Seq::empty(), ok: 0, err: invalid, raw: Seq::empty(), failed: Set::empty(), abort: None };
    run_multi(run_batches(start, node, v, items, batches, replies, 0), node, v, multi, 0)
}

/// The replies as sequences.
pub open spec fn reply_views(r: Seq<Result<Vec<u8>, String>>) -> Seq<Result<Seq<u8>, Seq<char>>> {
    r.map_values(|x: Result<Vec<u8>, String>| match x {
        Ok(d) => Ok(d@),
        Err(e) => Err(e@),
    })
}

/// The batches as sequences.
pub open spec fn batch_views(b: Seq<Vec<usize>>) -> Seq<Seq<usize>> {
    b.map_values(|x: Vec<usize>| x@)
}

/// The plan fits the elements: items belong to elements, batches are
/// non-empty lists of items whose first item has the lowest address, and
/// the chunked elements are elements read in chunks.
pub open spec fn plan_fits(v: Seq<AddressedView>, items: Seq<ReadItem>, batches: Seq<Seq<usize>>, multi: Set<usize>) -> bool {
    &&& forall|j: int| 0 <= j < items.len() ==> (#[trigger] items[j]).orig_index < v.len()
    &&& forall|b: int| 0 <= b < batches.len() ==> (#[trigger] batches[b]).len() > 0
    &&& forall|b: int, k: int| 0 <= b < batches.len() && 0 <= k < batches[b].len() ==> {
        &&& (#[trigger] batches[b][k]) < items.len()
        &&& items[batches[b][k] as int].absolute_address >= items[batches[b][0] as int].absolute_address
    }
    &&& forall|i: usize| #[trigger] multi.contains(i) ==> i < v.len() && is_multi_chunk(v[i as int].element)
    &&& batch_work(batches, batches.len() as int) == items.len()
}

/// Total number of items over the first `b` batches.
pub open spec fn batch_work(batches: Seq<Seq<usize>>, b: int) -> int
    decreases b,
{
    if b <= 0 || b > batches.len() {
        0
    } else {
        batch_work(batches, b - 1) + batches[b - 1].len()
    }
}

/// The kept bytes as sequences.
pub open spec fn raw_view(r: Seq<(u8, u32, Vec<u8>)>) -> Seq<(u8, u32, Seq<u8>)> {
    r.map_values(|x: (u8, u32, Vec<u8>)| (x.0, x.1, x.2@))
}

/// The outcome reports the tally.
pub open spec fn outcome_is(r: ReadOutcome, t: ReadTally) -> bool {
    &&& r.values@.map_values(|x: ReadValue| x@) == t.values
    &&& r.successful_reads == t.ok
    &&& r.failed_reads == t.err
    &&& opt_str(r.abort_error) == t.abort
}

proof fn lemma_batch_work_mono(batches: Seq<Seq<usize>>, b: int, c: int)
    requires
        0 <= b <= c <= batches.len(),
    ensures
        0 <= batch_work(batches, b) <= batch_work(batches, c),
    decreases c,
{
    if c > 0 {
        if b < c {
            lemma_batch_work_mono(batches, b, c - 1);
        } else {
            lemma_batch_work_mono(batches, c - 1, c - 1);
        }
    }
}

/// Copies `data[off..end]`.
fn copy_range(data: &Vec<u8>, off: usize, end: usize) -> (r: Vec<u8>)
    requires
        off <= end <= data@.len(),
    ensures
        r@ == data@.subrange(off as int, end as int),
{
    let mut out: Vec<u8> = Vec::new();
    let mut i: usize = off;
    while i < end
        invariant
            off <= i <= end <= data@.len(),
            out@ == data@.subrange(off as int, i as int),
        decreases end - i,
    {
        out.push(data[i]);
        assert(out@ =~= data@.subrange(off as int, i + 1));
        i = i + 1;
    }
    out
}

/// The bytes last kept for `(space, addr)`.
fn find_raw(raw: &Vec<(u8, u32, Vec<u8>)>, space: u8, addr: u32) -> (r: Option<Vec<u8>>)
    ensures
        r matches Some(b) ==> raw_lookup(raw_view(raw@), space, addr) == Some(b@),
        r is None ==> raw_lookup(raw_view(raw@), space, addr) is None,
{
    let mut j: usize = raw.len();
    assert(raw_view(raw@).subrange(0, j as int) =~= raw_view(raw@));
    while j > 0
        invariant
            j <= raw@.len(),
            raw_lookup(raw_view(raw@), space, addr) == raw_lookup(raw_view(raw@).subrange(0, j as int), space, addr),
        decreases j,
    {
        let e = &raw[j - 1];
        let ghost sub = raw_view(raw@).subrange(0, j as int);
        assert(sub.last() == (e.0, e.1, e.2@));
        if e.0 == space && e.1 == addr {
            let bytes = copy_range(&e.2, 0, e.2.len());
            assert(e.2@.subrange(0, e.2@.len() as int) =~= e.2@);
            return Some(bytes);
        }
        assert(sub.drop_last() =~= raw_view(raw@).subrange(0, j - 1));
        j = j - 1;
    }
    None
}

/// The cache key of a value of node `node_id` at `path`.
fn make_cache_key(node_id: &str, path: &Vec<String>) -> (r: String)
    ensures
        r@ == cache_key(node_id@, strs(path@)),
{
    let mut s = string_of(node_id);
    push_char(&mut s, ':');
    let joined = join_strings(path.as_slice(), "/");
    s.append(joined.as_str());
    proof {
        reveal_strlit(":");
    }
    assert(s@ =~= cache_key(node_id@, strs(path@)));
    s
}

/// Decodes the bytes read for an element into a value of node `node_id`
/// read at `addr` in `space`.
fn decode_value(node_id: &str, ewa: &ElementWithAddress, bytes: &Vec<u8>, addr: u32, space: u8) -> (r: Option<ReadValue>)
    ensures
        match parsed(*ewa.element, bytes@) {
            Some(val) => r matches Some(x) && x@ == (ReadValueView {
                cache_key: cache_key(node_id@, ewa@.path),
                value: val,
                memory_address: addr,
                address_space: space,
                element_path: ewa@.path,
            }),
            None => r is None,
        },
{
    match parse_config_value(ewa.element, bytes.as_slice()) {
        Ok(value) => {
            let key = make_cache_key(node_id, &ewa.path);
            let path = copy_strings(&ewa.path);
            Some(ReadValue { cache_key: key, value, memory_address: addr, address_space: space, element_path: path })
        },
        Err(_) => None,
    }
}

/// The message of a failed batch read.
fn abort_message(e: &String) -> (r: String)
    ensures
        r@ == abort_text(e@),
{
    let mut s = string_of("Configuration read failed: ");
    s.append(e.as_str());
    s.append(". Check your connection and try again.");
    s
}

/// The reading state in executable form.
struct Reading {
    values: Vec<ReadValue>,
    ok: usize,
    err: usize,
    raw: Vec<(u8, u32, Vec<u8>)>,
    failed: Vec<bool>,
    abort: Option<String>,
}

impl Reading {
    /// The state holds tally `t` over `n` elements.
    spec fn holds(&self, t: ReadTally, n: int) -> bool {
        &&& self.values@.map_values(|x: ReadValue| x@) == t.values
        &&& self.ok == t.ok
        &&& self.err == t.err
        &&& raw_view(self.raw@) == t.raw
        &&& self.failed@.len() == n
        &&& forall|i: int| 0 <= i < n ==> self.failed@[i] == #[trigger] t.failed.contains(i as usize)
        &&& forall|i: usize| #[trigger] t.failed.contains(i) ==> i < n
        &&& opt_str(self.abort) == t.abort
    }
}

/// Decodes `bytes` for element `ewa` and counts the outcome.
fn record_into(
    st: &mut Reading,
    node_id: &str,
    ewa: &ElementWithAddress,
    bytes: &Vec<u8>,
    addr: u32,
    space: u8,
    Ghost(t): Ghost<ReadTally>,
    Ghost(n): Ghost<int>,
)
    requires
        old(st).holds(t, n),
        old(st).ok + old(st).err < usize::MAX,
    ensures
        final(st).holds(record(t, node_id@, ewa@, bytes@, addr, space), n),
{
    let ghost before = st.values@;
    match decode_value(node_id, ewa, bytes, addr, space) {
        Some(x) => {
            st.values.push(x);
            st.ok = st.ok + 1;
            assert(st.values@.map_values(|x: ReadValue| x@) =~= before.map_values(|x: ReadValue| x@).push(x@));
        },
        None => {
            st.err = st.err + 1;
        },
    }
}

/// One item of a batch whose reply `data` starts at `start`.
fn item_into(
    st: &mut Reading,
    node_id: &str,
    all_elements: &[ElementWithAddress],
    it: ReadItem,
    start: u32,
    data: &Vec<u8>,
    Ghost(t): Ghost<ReadTally>,
)
    requires
        old(st).holds(t, all_elements@.len() as int),
        it.orig_index < all_elements@.len(),
        it.absolute_address >= start,
        old(st).ok + old(st).err < usize::MAX,
    ensures
        final(st).holds(item_step(t, node_id@, addressed_views(all_elements@), it, start as int, data@), all_elements@.len() as int),
{
    let ghost n = all_elements@.len() as int;
    let off: u64 = (it.absolute_address - start) as u64;
    let end: u64 = off + it.size as u64;
    if end > data.len() as u64 {
        st.err = st.err + 1;
        return;
    }
    let bytes = copy_range(data, off as usize, end as usize);
    let kept = copy_range(&bytes, 0, bytes.len());
    assert(bytes@.subrange(0, bytes@.len() as int) =~= bytes@);
    let ghost raw_before = st.raw@;
    st.raw.push((it.space, it.absolute_address, kept));
    assert(raw_view(st.raw@) =~= raw_view(raw_before).push((it.space, it.absolute_address, bytes@)));
    let ghost t1 = ReadTally { raw: t.raw.push((it.space, it.absolute_address, bytes@)), ..t };
    if it.element_total_size <= 64 {
        let ewa = &all_elements[it.orig_index];
        assert(addressed_views(all_elements@)[it.orig_index as int] == ewa@);
        record_into(st, node_id, ewa, &bytes, it.absolute_address, it.space, Ghost(t1), Ghost(n));
    }
}

/// `f` with the elements of the first `k` items of a batch marked.
spec fn marked(f: Seq<bool>, items: Seq<ReadItem>, bs: Seq<usize>, k: int) -> Seq<bool>
    decreases k,
{
    if k <= 0 {
        f
    } else {
        marked(f, items, bs, k - 1).update(items[bs[k - 1] as int].orig_index as int, true)
    }
}

proof fn lemma_marked(f: Seq<bool>, items: Seq<ReadItem>, bs: Seq<usize>, k: int)
    requires
        0 <= k <= bs.len(),
        f.len() <= usize::MAX,
        forall|j: int| 0 <= j < bs.len() ==> (#[trigger] bs[j]) < items.len() && items[bs[j] as int].orig_index < f.len(),
    ensures
        marked(f, items, bs, k).len() == f.len(),
        forall|i: int| 0 <= i < f.len() ==> #[trigger] marked(f, items, bs, k)[i] == (f[i] || batch_origins(items, bs, k).contains(i as usize)),
    decreases k,
{
    if k > 0 {
        lemma_marked(f, items, bs, k - 1);
        let o = items[bs[k - 1] as int].orig_index;
        assert(bs[k - 1] < items.len());
        assert forall|i: int| 0 <= i < f.len() implies #[trigger] marked(f, items, bs, k)[i] == (f[i] || batch_origins(items, bs, k).contains(i as usize)) by {
            if batch_origins(items, bs, k).contains(i as usize) {
                let j = choose|j: int| 0 <= j < k && #[trigger] items[bs[j] as int].orig_index == i as usize;
                if j < k - 1 {
                    assert(batch_origins(items, bs, k - 1).contains(i as usize));
                }
            }
            if batch_origins(items, bs, k - 1).contains(i as usize) {
                let j = choose|j: int| 0 <= j < k - 1 && #[trigger] items[bs[j] as int].orig_index == i as usize;
                assert(items[bs[j] as int].orig_index == i as usize);
                assert(batch_origins(items, bs, k).contains(i as usize));
            }
            if i == o as int {
                assert(items[bs[k - 1] as int].orig_index == i as usize);
                assert(batch_origins(items, bs, k).contains(i as usize));
            }
        }
    }
}

/// A failed batch: its items count as failures and their elements are marked.
fn fail_batch(
    st: &mut Reading,
    plan: &ReadPlan,
    b: usize,
    e: &String,
    n: usize,
    Ghost(t): Ghost<ReadTally>,
)
    requires
        old(st).holds(t, n as int),
        b < plan.batches@.len(),
        forall|k: int| 0 <= k < plan.batches@[b as int]@.len() ==> {
            &&& (#[trigger] plan.batches@[b as int]@[k]) < plan.items@.len()
            &&& plan.items@[plan.batches@[b as int]@[k] as int].orig_index < n
        },
        old(st).err + plan.batches@[b as int]@.len() <= usize::MAX,
    ensures
        final(st).holds(batch_failed(t, plan.items@, plan.batches@[b as int]@, e@), n as int),
{
    let batch = &plan.batches[b];
    let ghost items = plan.items@;
    let ghost bs = batch@;
    let ghost f0 = st.failed@;
    let mut k: usize = 0;
    while k < batch.len()
        invariant
            k <= bs.len(),
            bs == batch@,
            items == plan.items@,
            f0.len() == n,
            forall|j: int| 0 <= j < bs.len() ==> (#[trigger] bs[j]) < items.len() && items[bs[j] as int].orig_index < n,
            st.failed@ == marked(f0, items, bs, k as int),
            st.values == old(st).values,
            st.ok == old(st).ok,
            st.err == old(st).err,
            st.raw == old(st).raw,
            st.abort == old(st).abort,
        decreases bs.len() - k,
    {
        proof { lemma_marked(f0, items, bs, k as int); }
        let oi = plan.items[batch[k]].orig_index;
        st.failed.set(oi, true);
        k = k + 1;
    }
    st.err = st.err + batch.len();
    st.abort = Some(abort_message(e));
    proof {
        lemma_marked(f0, items, bs, bs.len() as int);
        let t2 = batch_failed(t, items, bs, e@);
        assert forall|i: int| 0 <= i < n implies st.failed@[i] == #[trigger] t2.failed.contains(i as usize) by {
            assert(f0[i] == t.failed.contains(i as usize));
        }
        assert forall|i: usize| #[trigger] t2.failed.contains(i) implies i < n by {
            if batch_origins(items, bs, bs.len() as int).contains(i) {
                let j = choose|j: int| 0 <= j < bs.len() && #[trigger] items[bs[j] as int].orig_index == i;
            }
        }
    }
}

/// Element `i`: when it is read in chunks and none of its batches failed,
/// its chunks are put together and decoded.
fn multi_into(
    st: &mut Reading,
    node_id: &str,
    all_elements: &[ElementWithAddress],
    plan: &ReadPlan,
    i: usize,
    Ghost(t): Ghost<ReadTally>,
)
    requires
        old(st).holds(t, all_elements@.len() as int),
        i < all_elements@.len(),
        plan_in_range(addressed_views(all_elements@)),
        forall|x: usize| #[trigger] plan.multi_chunk_indices@.contains(x) ==> x < all_elements@.len()
            && is_multi_chunk(addressed_views(all_elements@)[x as int].element),
        old(st).ok + old(st).err < usize::MAX,
    ensures
        final(st).holds(multi_step(t, node_id@, addressed_views(all_elements@), plan.multi_chunk_indices@, i as int), all_elements@.len() as int),
{
    let ghost n = all_elements@.len() as int;
    let ghost v = addressed_views(all_elements@);
    if !plan.multi_chunk_indices.contains(&i) || st.failed[i] {
        return;
    }
    let ewa = &all_elements[i];
    assert(v[i as int] == ewa@);
    assert(value_size(ewa@.element) matches Some(s) ==> abs_address(ewa@) + s <= u32::MAX);
    let base = ewa.absolute_address();
    match get_element_size(ewa.element) {
        Ok(total) => {
            let ghost space = ewa.space;
            let mut bytes: Vec<u8> = Vec::new();
            let mut whole = true;
            let mut offset: u32 = 0;
            while offset < total && whole
                invariant
                    offset <= total,
                    base + total <= u32::MAX,
                    raw_view(st.raw@) == t.raw,
                    space == ewa.space,
                    assembled(t.raw, space, base as int, total as int, 0) == (if whole {
                        match assembled(t.raw, space, base as int, total as int, offset as int) {
                            Some(rest) => Some(bytes@ + rest),
                            None => None,
                        }
                    } else {
                        None
                    }),
                decreases total - offset + (if whole { 1int } else { 0int }),
            {
                let c: u32 = if total - offset < 64 { total - offset } else { 64 };
                match find_raw(&st.raw, ewa.space, base + offset) {
                    Some(chunk) => {
                        let ghost before = bytes@;
                        let mut chunk = chunk;
                        let ghost cv = chunk@;
                        bytes.append(&mut chunk);
                        proof {
                            match assembled(t.raw, space, base as int, total as int, offset + c) {
                                Some(rest) => {
                                    assert(before + (cv + rest) =~= bytes@ + rest);
                                },
                                None => {},
                            }
                        }
                        offset = offset + c;
                    },
                    None => {
                        whole = false;
                    },
                }
            }
            if whole {
                assert(bytes@ + Seq::<u8>::empty() =~= bytes@);
                record_into(st, node_id, ewa, &bytes, base, ewa.space, Ghost(t), Ghost(n));
            } else {
                st.err = st.err + 1;
            }
        },
        Err(_) => {
            st.err = st.err + 1;
        },
    }
}

/// Turns the replies to a node's batched reads into its values.
///
/// `replies[b]` answers batch `b` of `plan`, the plan of `all_elements`;
/// reading stops at the first failed reply (its message, with advice to
/// check the connection, is the outcome's abort message), or when the
/// replies run out. Each item's bytes are cut out of its batch's reply; an
/// element of at most 64 bytes is decoded at once, a larger one once all its
/// chunks are in. A reply too short for an item, bytes that do not decode,
/// a missing chunk, an element without a readable size and every item of a
/// failed batch count as failures. Values are keyed `<node_id>:<path>`.
pub fn collect_read_values(
    node_id: &str,
    all_elements: &[ElementWithAddress],
    plan: &ReadPlan,
    replies: &Vec<Result<Vec<u8>, String>>,
) -> (r: ReadOutcome)
    requires
        plan_in_range(addressed_views(all_elements@)),
        plan_fits(addressed_views(all_elements@), plan.items@, batch_views(plan.batches@), plan.multi_chunk_indices@),
        plan.invalid_element_count + plan.items@.len() + all_elements@.len() <= usize::MAX,
    ensures
        outcome_is(
            r,
            read_tally(
                node_id@,
                addressed_views(all_elements@),
                plan.items@,
                batch_views(plan.batches@),
                plan.multi_chunk_indices@,
                plan.invalid_element_count as int,
                reply_views(replies@),
            ),
        ),
{
    let n = all_elements.len();
    let ghost v = addressed_views(all_elements@);
    let ghost bv = batch_views(plan.batches@);
    let ghost rv = reply_views(replies@);
    let ghost items = plan.items@;
    let ghost node = node_id@;
    let ghost multi = plan.multi_chunk_indices@;
    let ghost invalid = plan.invalid_element_count as int;
    let ghost t0 = ReadTally { values: Seq::empty(), ok: 0, err: invalid, raw: Seq::empty(), failed: Set::empty(), abort: None };
    let mut failed: Vec<bool> = Vec::new();
    let mut i: usize = 0;
    while i < n
        invariant
            i <= n,
            failed@.len() == i,
            forall|j: int| 0 <= j < i ==> !(#[trigger] failed@[j]),
        decreases n - i,
    {
        failed.push(false);
        i = i + 1;
    }
    let mut st = Reading { values: Vec::new(), ok: 0, err: plan.invalid_element_count, raw: Vec::new(), failed, abort: None };
    let ghost mut t = t0;
    assert(st.values@.map_values(|x: ReadValue| x@) =~= Seq::<ReadValueView>::empty());
    assert(raw_view(st.raw@) =~= Seq::<(u8, u32, Seq<u8>)>::empty());
    let nb = plan.batches.len();
    proof {
        lemma_batch_work_mono(bv, 0, nb as int);
    }
    let mut b: usize = 0;
    let mut stop = false;
    while b < nb && b < replies.len() && !stop
        invariant
            n == all_elements@.len(),
            v == addressed_views(all_elements@),
            bv == batch_views(plan.batches@),
            rv == reply_views(replies@),
            items == plan.items@,
            node == node_id@,
            nb == bv.len(),
            b <= nb,
            plan_fits(v, items, bv, multi),
            invalid + batch_work(bv, nb as int) + n <= usize::MAX,
            st.holds(t, n as int),
            0 <= t.ok,
            0 <= t.err,
            t.ok + t.err <= invalid + batch_work(bv, b as int),
            stop ==> t == run_batches(t0, node, v, items, bv, rv, 0),
            !stop ==> run_batches(t0, node, v, items, bv, rv, 0) == run_batches(t, node, v, items, bv, rv, b as int),
        decreases nb - b,
    {
        proof {
            lemma_batch_work_mono(bv, b + 1, nb as int);
        }
        let batch = &plan.batches[b];
        assert(bv[b as int] == batch@);
        match &replies[b] {
            Ok(data) => {
                assert(rv[b as int] == Ok::<Seq<u8>, Seq<char>>(data@));
                let start = plan.items[batch[0]].absolute_address;
                let ghost tb = t;
                let mut k: usize = 0;
                while k < batch.len()
                    invariant
                        n == all_elements@.len(),
                        v == addressed_views(all_elements@),
                        items == plan.items@,
                        node == node_id@,
                        bv[b as int] == batch@,
                        b < nb,
                        nb == bv.len(),
                        plan_fits(v, items, bv, multi),
                        start == items[batch@[0] as int].absolute_address,
                        invalid + batch_work(bv, nb as int) + n <= usize::MAX,
                        batch_work(bv, b + 1) <= batch_work(bv, nb as int),
                        k <= batch@.len(),
                        st.holds(t, n as int),
                        0 <= t.ok,
                        0 <= t.err,
                        t.ok + t.err <= invalid + batch_work(bv, b as int) + k,
                        batch_items(tb, node, v, items, batch@, start as int, data@, 0)
                            == batch_items(t, node, v, items, batch@, start as int, data@, k as int),
                    decreases batch@.len() - k,
                {
                    let idx = batch[k];
                    assert(batch@[k as int] == bv[b as int][k as int]);
                    let it = plan.items[idx];
                    item_into(&mut st, node_id, all_elements, it, start, data, Ghost(t));
                    proof {
                        t = item_step(t, node, v, it, start as int, data@);
                    }
                    k = k + 1;
                }
            },
            Err(e) => {
                assert(rv[b as int] == Err::<Seq<u8>, Seq<char>>(e@));
                assert forall|k: int| 0 <= k < plan.batches@[b as int]@.len() implies {
                    &&& (#[trigger] plan.batches@[b as int]@[k]) < plan.items@.len()
                    &&& plan.items@[plan.batches@[b as int]@[k] as int].orig_index < n
                } by {
                    assert(bv[b as int][k] == plan.batches@[b as int]@[k]);
                }
                fail_batch(&mut st, plan, b, e, n, Ghost(t));
                proof {
                    t = batch_failed(t, items, bv[b as int], e@);
                }
                stop = true;
            },
        }
        b = b + 1;
    }
    let ghost tm = t;
    proof {
        lemma_batch_work_mono(bv, b as int, nb as int);
    }
    let mut i: usize = 0;
    while i < n
        invariant
            n == all_elements@.len(),
            v == addressed_views(all_elements@),
            node == node_id@,
            multi == plan.multi_chunk_indices@,
            plan_in_range(v),
            plan_fits(v, items, bv, multi),
            invalid + batch_work(bv, nb as int) + n <= usize::MAX,
            i <= n,
            st.holds(t, n as int),
            0 <= t.ok,
            0 <= t.err,
            t.ok + t.err <= invalid + batch_work(bv, nb as int) + i,
            run_multi(tm, node, v, multi, 0) == run_multi(t, node, v, multi, i as int),
        decreases n - i,
    {
        multi_into(&mut st, node_id, all_elements, plan, i, Ghost(t));
        proof {
            t = multi_step(t, node, v, multi, i as int);
        }
        i = i + 1;
    }
    ReadOutcome { values: st.values, successful_reads: st.ok, failed_reads: st.err, abort_error: st.abort }
}

/// Stops a reading the user cancelled: `cancelled` is the cancel flag as
/// read between batches.
pub fn check_cancellation(cancelled: bool) -> (r: Result<(), String>)
    ensures
        r is Ok <==> !cancelled,
        r matches Err(m) ==> m@ == "Operation cancelled by user"@,
{
    if cancelled {
        Err(string_of("Operation cancelled by user"))
    } else {
        Ok(())
    }
}

// ── Reading one value ─────────────────────────────────────────────────────

/// Where to read one element's value: its index in the element list, its
/// address, space and size.
pub struct SingleRead {
    pub index: usize,
    pub address: u32,
    pub space: u8,
    pub size: u32,
}

/// `i` is the first element at `path`.
pub open spec fn first_at_path(v: Seq<AddressedView>, path: Seq<Seq<char>>, i: int) -> bool {
    &&& 0 <= i < v.len()
    &&& v[i].path == path
    &&& forall|j: int| 0 <= j < i ==> (#[trigger] v[j]).path != path
}

/// Whether two paths are the same.
fn same_path(a: &Vec<String>, b: &Vec<String>) -> (r: bool)
    ensures
        r == (strs(a@) == strs(b@)),
{
    if a.len() != b.len() {
        assert(strs(a@).len() != strs(b@).len());
        return false;
    }
    let mut i: usize = 0;
    while i < a.len()
        invariant
            a@.len() == b@.len(),
            i <= a@.len(),
            forall|k: int| 0 <= k < i ==> a@[k]@ == b@[k]@,
        decreases a.len() - i,
    {
        if !str_eq(a[i].as_str(), b[i].as_str()) {
            assert(strs(a@)[i as int] != strs(b@)[i as int]);
            return false;
        }
        i = i + 1;
    }
    assert(strs(a@) =~= strs(b@));
    true
}

/// Plans the read of the one element at `element_path`: the first element
/// with that path, which must have a readable size of at most 64 bytes.
pub fn plan_single_read(all_elements: &[ElementWithAddress], element_path: &Vec<String>) -> (r: Result<SingleRead, String>)
    requires
        plan_in_range(addressed_views(all_elements@)),
    ensures
        ({
            let v = addressed_views(all_elements@);
            let p = strs(element_path@);
            &&& (forall|i: int| !first_at_path(v, p, i))
                ==> (r matches Err(m) && m@ == "Element not found at path: "@ + join(p, "/"@))
            &&& forall|i: int| #[trigger] first_at_path(v, p, i) ==> match value_size(v[i].element) {
                None => r matches Err(m) && m@ == (if v[i].element is Group {
                    "Cannot read value from group element"@
                } else {
                    "Unsupported element type for config reading"@
                }),
                Some(s) => if s > 64 {
                    r matches Err(m) && m@ == "Element size "@ + decimal_digits(s as nat) + " exceeds maximum 64 bytes"@
                } else {
                    r matches Ok(x) && x.index == i && x.address == abs_address(v[i]) && x.space == v[i].space
                        && x.size == s
                },
            }
        }),
{
    let ghost v = addressed_views(all_elements@);
    let ghost p = strs(element_path@);
    let mut i: usize = 0;
    while i < all_elements.len()
        invariant
            v == addressed_views(all_elements@),
            plan_in_range(v),
            p == strs(element_path@),
            i <= all_elements@.len(),
            forall|j: int| 0 <= j < i ==> (#[trigger] v[j]).path != p,
        decreases all_elements.len() - i,
    {
        let ewa = &all_elements[i];
        assert(v[i as int] == ewa@);
        if same_path(&ewa.path, element_path) {
            assert(first_at_path(v, p, i as int));
            assert forall|k: int| #[trigger] first_at_path(v, p, k) implies k == i by {
                if k < i { assert(v[k].path != p); }
                if k > i { assert(v[i as int].path == p); }
            }
            assert(value_size(ewa@.element) matches Some(s) ==> abs_address(ewa@) + s <= u32::MAX);
            let size = match get_element_size(ewa.element) {
                Ok(s) => s,
                Err(e) => return Err(e),
            };
            if size > 64 {
                let mut m = string_of("Element size ");
                let d = u64_decimal(size as u64);
                m.append(d.as_str());
                m.append(" exceeds maximum 64 bytes");
                return Err(m);
            }
            return Ok(SingleRead { index: i, address: ewa.absolute_address(), space: ewa.space, size });
        }
        i = i + 1;
    }
    assert forall|k: int| !first_at_path(v, p, k) by {
        if 0 <= k < v.len() {
            assert(v[k].path != p);
        }
    }
    let mut m = string_of("Element not found at path: ");
    let joined = join_strings(element_path.as_slice(), "/");
    m.append(joined.as_str());
    Err(m)
}

// ── Filling short replies ─────────────────────────────────────────────────

/// Most continuation reads issued to fill one short batch reply.
pub const MAX_CONTINUATIONS: u32 = 5;

/// What to do next about a batch reply that may be short.
pub enum Continuation {
    /// Read `size` more bytes at `address`.
    Read { address: u32, size: u8 },
    /// The reply is complete, or no more reads are allowed.
    Done,
}

/// The next step for a reply of `received` bytes of a batch of `total` bytes
/// at `start`, after `count` continuation reads: read the rest (at most 64
/// bytes) right after what came, unless the reply is complete or the
/// continuation reads are used up.
pub open spec fn continuation_step(received: int, start: int, total: int, count: int) -> Continuation {
    if received < total && count < MAX_CONTINUATIONS {
        let rest = total - received;
        Continuation::Read { address: (start + received) as u32, size: (if rest < 64 { rest } else { 64 }) as u8 }
    } else {
        Continuation::Done
    }
}

/// Decides the next continuation read of a batch reply; see
/// [`continuation_step`].
pub fn next_continuation(received: usize, batch_start: u32, batch_total: u32, continuations: u32) -> (r: Continuation)
    requires
        batch_start + batch_total <= u32::MAX,
    ensures
        r == continuation_step(received as int, batch_start as int, batch_total as int, continuations as int),
{
    if (received as u64) < (batch_total as u64) && continuations < MAX_CONTINUATIONS {
        let got = received as u32;
        let rest = batch_total - got;
        let size: u8 = if rest < 64 { rest as u8 } else { 64 };
        Continuation::Read { address: batch_start + got, size }
    } else {
        Continuation::Done
    }
}

/// Takes in the reply to a continuation read: a non-empty reply is appended
/// and counted, and reading may go on; an empty or failed one ends the
/// filling, counted as nothing.
pub fn absorb_continuation(data: &mut Vec<u8>, reply: Result<Vec<u8>, String>, continuations: &mut u32) -> (more: bool)
    requires
        *old(continuations) < MAX_CONTINUATIONS,
    ensures
        more <==> (reply matches Ok(b) && b@.len() > 0),
        more ==> (reply matches Ok(b) && final(data)@ == old(data)@ + b@ && *final(continuations) == *old(continuations) + 1),
        !more ==> final(data)@ == old(data)@ && *final(continuations) == *old(continuations),
{
    match reply {
        Ok(mut bytes) => {
            if bytes.len() == 0 {
                return false;
            }
            data.append(&mut bytes);
            *continuations = *continuations + 1;
            true
        },
        Err(_) => false,
    }
}

/// Filling a short batch reply with continuation reads, reply `k` answering
/// read `k` (`data`: the bytes so far, `count`: the reads that brought
/// bytes): the bytes at the end, the reads issued as (address, size), and
/// how many reads brought bytes. A read whose reply is empty, failed or
/// missing is issued but ends the filling, uncounted.
pub open spec fn fill_run(data: Seq<u8>, start: int, total: int, replies: Seq<Result<Seq<u8>, Seq<char>>>, count: int)
    -> (Seq<u8>, Seq<(u32, u8)>, int)
    decreases MAX_CONTINUATIONS - count,
{
    match continuation_step(data.len() as int, start, total, count) {
        Continuation::Done => (data, Seq::empty(), count),
        Continuation::Read { address, size } => {
            if 0 <= count < replies.len() && (replies[count] matches Ok(b) && b.len() > 0) {
                let r = fill_run(data + replies[count]->Ok_0, start, total, replies, count + 1);
                (r.0, seq![(address, size)] + r.1, r.2)
            } else {
                (data, seq![(address, size)], count)
            }
        },
    }
}

/// The replies as sequences.
pub open spec fn replies_view(r: Seq<Result<Vec<u8>, String>>) -> Seq<Result<Seq<u8>, Seq<char>>> {
    r.map_values(|x: Result<Vec<u8>, String>| match x { Ok(b) => Ok(b@), Err(e) => Err(e@) })
}

/// Fills a short batch reply: issues continuation reads (see
/// [`continuation_step`]) answered in turn by `replies`, appends what they
/// bring, and returns how many brought bytes and the reads issued.
pub fn fill_short_reply(data: &mut Vec<u8>, batch_start: u32, batch_total: u32, replies: &Vec<Result<Vec<u8>, String>>)
    -> (r: (u32, Vec<(u32, u8)>))
    requires
        batch_start + batch_total <= u32::MAX,
    ensures
        ({
            let f = fill_run(old(data)@, batch_start as int, batch_total as int, replies_view(replies@), 0);
            &&& final(data)@ == f.0
            &&& r.1@ == f.1
            &&& r.0 == f.2
        }),
{
    let ghost rv = replies_view(replies@);
    let ghost f0 = fill_run(data@, batch_start as int, batch_total as int, rv, 0);
    let mut count: u32 = 0;
    let mut reads: Vec<(u32, u8)> = Vec::new();
    loop
        invariant
            batch_start + batch_total <= u32::MAX,
            rv == replies_view(replies@),
            f0 == fill_run(old(data)@, batch_start as int, batch_total as int, rv, 0),
            count <= MAX_CONTINUATIONS,
            ({
                let f = fill_run(data@, batch_start as int, batch_total as int, rv, count as int);
                f0 == (f.0, reads@ + f.1, f.2)
            }),
        decreases MAX_CONTINUATIONS - count,
    {
        let ghost f = fill_run(data@, batch_start as int, batch_total as int, rv, count as int);
        match next_continuation(data.len(), batch_start, batch_total, count) {
            Continuation::Done => {
                assert(f == (data@, Seq::<(u32, u8)>::empty(), count as int));
                assert(reads@ + f.1 =~= reads@);
                return (count, reads);
            },
            Continuation::Read { address, size } => {
                let ghost before = reads@;
                reads.push((address, size));
                let got = if (count as usize) < replies.len() {
                    match &replies[count as usize] {
                        Ok(b) => {
                            if b.len() > 0 {
                                let ghost d0 = data@;
                                let mut i: usize = 0;
                                while i < b.len()
                                    invariant
                                        i <= b@.len(),
                                        data@ == d0 + b@.subrange(0, i as int),
                                    decreases b.len() - i,
                                {
                                    data.push(b[i]);
                                    assert(b@.subrange(0, i + 1) =~= b@.subrange(0, i as int).push(b@[i as int]));
                                    i = i + 1;
                                }
                                assert(b@.subrange(0, b@.len() as int) =~= b@);
                                assert(rv[count as int] == Ok::<Seq<u8>, Seq<char>>(b@));
                                true
                            } else {
                                assert(rv[count as int] == Ok::<Seq<u8>, Seq<char>>(b@));
                                false
                            }
                        },
                        Err(e) => {
                            assert(rv[count as int] == Err::<Seq<u8>, Seq<char>>(e@));
                            false
                        },
                    }
                } else {
                    false
                };
                if !got {
                    assert(!(0 <= count < rv.len() && (rv[count as int] matches Ok(b) && b.len() > 0)));
                    assert(f == (data@, seq![(address, size)], count as int));
                    assert(before + f.1 =~= reads@);
                    return (count, reads);
                }
                count = count + 1;
                proof {
                    let g = fill_run(data@, batch_start as int, batch_total as int, rv, count as int);
                    assert(f.1 == seq![(address, size)] + g.1);
                    assert(before + f.1 =~= reads@ + g.1);
                }
            },
        }
    }
}

/// Law: filling a short reply issues at most `MAX_CONTINUATIONS` reads that
/// bring bytes, ends with the bytes it had plus what those reads brought,
/// issues at most one read beyond them, and issues none when the reply is
/// already complete.
pub proof fn law_fill_bounded(data: Seq<u8>, start: int, total: int, replies: Seq<Result<Seq<u8>, Seq<char>>>, count: int)
    requires
        0 <= count <= MAX_CONTINUATIONS,
    ensures
        count <= fill_run(data, start, total, replies, count).2 <= MAX_CONTINUATIONS,
        fill_run(data, start, total, replies, count).1.len() == fill_run(data, start, total, replies, count).2 - count
            || fill_run(data, start, total, replies, count).1.len() == fill_run(data, start, total, replies, count).2 - count + 1,
        data.is_prefix_of(fill_run(data, start, total, replies, count).0),
        data.len() >= total ==> fill_run(data, start, total, replies, count) == (data, Seq::<(u32, u8)>::empty(), count),
    decreases MAX_CONTINUATIONS - count,
{
    match continuation_step(data.len() as int, start, total, count) {
        Continuation::Done => {
            assert(data.is_prefix_of(data)) by { assert(data.subrange(0, data.len() as int) =~= data); }
        },
        Continuation::Read { address, size } => {
            if 0 <= count < replies.len() && (replies[count] matches Ok(b) && b.len() > 0) {
                let d2 = data + replies[count]->Ok_0;
                law_fill_bounded(d2, start, total, replies, count + 1);
                let r = fill_run(d2, start, total, replies, count + 1);
                assert(data.is_prefix_of(r.0)) by {
                    assert(r.0.subrange(0, d2.len() as int) =~= d2);
                    assert(r.0.subrange(0, data.len() as int) =~= r.0.subrange(0, d2.len() as int).subrange(0, data.len() as int));
                    assert(d2.subrange(0, data.len() as int) =~= data);
                }
            } else {
                assert(data.is_prefix_of(data)) by { assert(data.subrange(0, data.len() as int) =~= data); }
            }
        },
    }
}

// ── The plans that `build_read_plan` makes fit their elements ───────────────

/// Items ordered by space, then address.
pub open spec fn items_sorted(s: Seq<ReadItem>) -> bool {
    forall|a: int, b: int| 0 <= a < b < s.len() ==> key_le(#[trigger] s[a], #[trigger] s[b])
}

/// A batch is a run of consecutive item indices, all in one space.
pub open spec fn batch_run(items: Seq<ReadItem>, b: Seq<usize>) -> bool {
    &&& b.len() > 0
    &&& forall|k: int| 0 <= k < b.len() ==> {
        &&& (#[trigger] b[k]) == b[0] + k
        &&& b[k] < items.len()
        &&& items[b[k] as int].space == items[b[0] as int].space
    }
}

proof fn lemma_chunk_origin(idx: int, addr: int, s: int, space: u8, off: int)
    ensures
        forall|k: int| 0 <= k < chunk_items(idx, addr, s, space, off).len()
            ==> (#[trigger] chunk_items(idx, addr, s, space, off)[k]).orig_index == idx as usize,
    decreases s - off,
{
    if !(off >= s || off < 0) {
        let c = if s - off < 64 { s - off } else { 64 };
        lemma_chunk_origin(idx, addr, s, space, off + c);
        let rest = chunk_items(idx, addr, s, space, off + c);
        let all = chunk_items(idx, addr, s, space, off);
        assert forall|k: int| 0 <= k < all.len() implies (#[trigger] all[k]).orig_index == idx as usize by {
            if k > 0 {
                assert(all[k] == rest[k - 1]);
            }
        }
    }
}

proof fn lemma_items_origin(v: Seq<AddressedView>, n: int)
    requires
        0 <= n <= v.len() <= usize::MAX,
    ensures
        forall|k: int| 0 <= k < items_upto(v, n).len() ==> (#[trigger] items_upto(v, n)[k]).orig_index < n,
    decreases n,
{
    if n > 0 {
        lemma_items_origin(v, n - 1);
        let prev = items_upto(v, n - 1);
        let e = element_items(n - 1, v[n - 1]);
        lemma_chunk_origin(n - 1, abs_address(v[n - 1]), value_size(v[n - 1].element)->Some_0, v[n - 1].space, 0);
        assert forall|k: int| 0 <= k < e.len() implies (#[trigger] e[k]).orig_index == (n - 1) as usize by {}
        let all = items_upto(v, n);
        assert forall|k: int| 0 <= k < all.len() implies (#[trigger] all[k]).orig_index < n by {
            if k < prev.len() {
                assert(all[k] == prev[k]);
            } else {
                assert(all[k] == e[k - prev.len()]);
            }
        }
    }
}

proof fn lemma_insert_pos_bound(t: Seq<ReadItem>, x: ReadItem)
    ensures
        0 <= insert_pos(t, x) <= t.len(),
    decreases t.len(),
{
    if t.len() > 0 && !key_le(t.last(), x) {
        lemma_insert_pos_bound(t.drop_last(), x);
    }
}

proof fn lemma_sort_contents(s: Seq<ReadItem>)
    ensures
        sort_items(s).len() == s.len(),
        forall|k: int| 0 <= k < s.len() ==> s.contains(#[trigger] sort_items(s)[k]),
    decreases s.len(),
{
    if s.len() > 0 {
        let d = s.drop_last();
        lemma_sort_contents(d);
        let t = sort_items(d);
        let x = s.last();
        lemma_insert_pos_bound(t, x);
        let p = insert_pos(t, x);
        let u = t.insert(p, x);
        assert(sort_items(s) == u);
        assert forall|k: int| 0 <= k < s.len() implies s.contains(#[trigger] sort_items(s)[k]) by {
            if k < p {
                assert(u[k] == t[k]);
                assert(d.contains(t[k]));
                let j = choose|j: int| 0 <= j < d.len() && d[j] == t[k];
                assert(s[j] == d[j]);
            } else if k == p {
                assert(s[s.len() - 1] == x);
            } else {
                assert(u[k] == t[k - 1]);
                assert(d.contains(t[k - 1]));
                let j = choose|j: int| 0 <= j < d.len() && d[j] == t[k - 1];
                assert(s[j] == d[j]);
            }
        }
    }
}

proof fn lemma_insert_pos_order(t: Seq<ReadItem>, x: ReadItem)
    requires
        items_sorted(t),
    ensures
        0 <= insert_pos(t, x) <= t.len(),
        forall|k: int| 0 <= k < insert_pos(t, x) ==> key_le(#[trigger] t[k], x),
        forall|k: int| insert_pos(t, x) <= k < t.len() ==> key_le(x, #[trigger] t[k]),
    decreases t.len(),
{
    if t.len() > 0 {
        if key_le(t.last(), x) {
            assert forall|k: int| 0 <= k < t.len() implies key_le(#[trigger] t[k], x) by {
                if k < t.len() - 1 {
                    assert(key_le(t[k], t[t.len() - 1]));
                }
            }
        } else {
            let d = t.drop_last();
            assert forall|a: int, b: int| 0 <= a < b < d.len() implies key_le(#[trigger] d[a], #[trigger] d[b]) by {
                assert(key_le(t[a], t[b]));
            }
            lemma_insert_pos_order(d, x);
            assert forall|k: int| 0 <= k < insert_pos(t, x) implies key_le(#[trigger] t[k], x) by {
                assert(t[k] == d[k]);
            }
            assert forall|k: int| insert_pos(t, x) <= k < t.len() implies key_le(x, #[trigger] t[k]) by {
                if k < t.len() - 1 {
                    assert(t[k] == d[k]);
                }
            }
        }
    }
}

proof fn lemma_sort_sorted(s: Seq<ReadItem>)
    ensures
        items_sorted(sort_items(s)),
    decreases s.len(),
{
    if s.len() > 0 {
        let d = s.drop_last();
        lemma_sort_sorted(d);
        let t = sort_items(d);
        let x = s.last();
        lemma_insert_pos_order(t, x);
        let p = insert_pos(t, x);
        let u = t.insert(p, x);
        assert(sort_items(s) == u);
        assert forall|a: int, b: int| 0 <= a < b < u.len() implies key_le(#[trigger] u[a], #[trigger] u[b]) by {
            if b < p {
                assert(u[a] == t[a] && u[b] == t[b]);
            } else if b == p {
                assert(u[a] == t[a]);
            } else if a < p {
                assert(u[a] == t[a] && u[b] == t[b - 1]);
                assert(key_le(t[a], x) && key_le(x, t[b - 1]));
            } else if a == p {
                assert(u[b] == t[b - 1]);
            } else {
                assert(u[a] == t[a - 1] && u[b] == t[b - 1]);
            }
        }
    }
}

proof fn lemma_batch_work_prepend(c: Seq<usize>, r: Seq<Seq<usize>>)
    ensures
        batch_work(seq![c] + r, r.len() + 1int) == c.len() + batch_work(r, r.len() as int),
    decreases r.len(),
{
    let w = seq![c] + r;
    let n = r.len() as int;
    if n == 0 {
        assert(w[0] == c);
        assert(batch_work(w, 1) == batch_work(w, 0) + w[0].len());
    } else {
        let r2 = r.subrange(0, n - 1);
        lemma_batch_work_prepend(c, r2);
        assert(w[n] == r[n - 1]);
        assert(batch_work(w, n + 1) == batch_work(w, n) + w[n].len());
        lemma_batch_work_prefix(w, n);
        assert(w.subrange(0, n) =~= seq![c] + r2);
        assert(batch_work(w, n) == c.len() + batch_work(r2, n - 1));
        assert(batch_work(r, n) == batch_work(r, n - 1) + r[n - 1].len());
        lemma_batch_work_prefix(r, n - 1);
    }
}

/// The work of the first `b` batches depends on those batches alone.
proof fn lemma_batch_work_prefix(w: Seq<Seq<usize>>, b: int)
    requires
        0 <= b <= w.len(),
    ensures
        batch_work(w, b) == batch_work(w.subrange(0, b), b),
    decreases b,
{
    if b > 0 {
        lemma_batch_work_prefix(w, b - 1);
        lemma_batch_work_prefix(w.subrange(0, b), b - 1);
        assert(w.subrange(0, b).subrange(0, b - 1) =~= w.subrange(0, b - 1));
    }
}

proof fn lemma_batches_runs(items: Seq<ReadItem>, i: int, cur: Seq<usize>, start: int, space: u8)
    requires
        0 <= i <= items.len() <= usize::MAX,
        cur.len() > 0 ==> {
            &&& batch_run(items, cur)
            &&& cur.last() == i - 1
            &&& space == items[cur[0] as int].space
        },
        cur.len() == 0 ==> i == 0 || i == items.len(),
    ensures
        forall|b: int| 0 <= b < batches_from(items, i, cur, start, space).len()
            ==> batch_run(items, #[trigger] batches_from(items, i, cur, start, space)[b]),
        batch_work(batches_from(items, i, cur, start, space), batches_from(items, i, cur, start, space).len() as int)
            == cur.len() + items.len() - i,
    decreases items.len() - i,
{
    let res = batches_from(items, i, cur, start, space);
    if i >= items.len() {
        if cur.len() > 0 {
            lemma_batch_work_prepend(cur, Seq::empty());
            assert(res == seq![cur] + Seq::<Seq<usize>>::empty());
        }
    } else if cur.len() > 0 && items[i].space == space && items[i].absolute_address + items[i].size - start <= 64 {
        let c2 = cur.push(i as usize);
        assert forall|k: int| 0 <= k < c2.len() implies {
            &&& (#[trigger] c2[k]) == c2[0] + k
            &&& c2[k] < items.len()
            &&& items[c2[k] as int].space == items[c2[0] as int].space
        } by {
            if k < cur.len() {
                assert(c2[k] == cur[k]);
                assert(cur[k] == cur[0] + k);
            } else {
                assert(cur[cur.len() - 1] == cur[0] + (cur.len() - 1));
            }
        }
        lemma_batches_runs(items, i + 1, c2, start, space);
    } else {
        let c2 = seq![i as usize];
        let rest = batches_from(items, i + 1, c2, items[i].absolute_address as int, items[i].space);
        lemma_batches_runs(items, i + 1, c2, items[i].absolute_address as int, items[i].space);
        if cur.len() > 0 {
            assert(res == seq![cur] + rest);
            lemma_batch_work_prepend(cur, rest);
            assert forall|b: int| 0 <= b < res.len() implies batch_run(items, #[trigger] res[b]) by {
                if b > 0 {
                    assert(res[b] == rest[b - 1]);
                }
            }
        } else {
            assert(res =~= rest);
        }
    }
}

/// Law: the plan [`crate::cdi::build_read_plan`] makes of a list of elements
/// fits it, so its batch replies can be turned into values by
/// [`collect_read_values`]: every item belongs to an element, every batch is
/// a non-empty run of items in one space starting at the batch's lowest
/// address, the chunked elements are exactly those over 64 bytes, and the
/// batches hold each item once.
pub proof fn law_read_plan_fits(v: Seq<AddressedView>, items: Seq<ReadItem>, batches: Seq<Seq<usize>>, multi: Set<usize>)
    requires
        v.len() <= usize::MAX,
        items.len() <= usize::MAX,
        items == sort_items(items_upto(v, v.len() as int)),
        batches == batches_from(items, 0, Seq::empty(), 0, 0),
        multi == multi_chunk_set(v),
    ensures
        plan_fits(v, items, batches, multi),
{
    let raw = items_upto(v, v.len() as int);
    lemma_items_origin(v, v.len() as int);
    lemma_sort_contents(raw);
    lemma_sort_sorted(raw);
    assert forall|j: int| 0 <= j < items.len() implies (#[trigger] items[j]).orig_index < v.len() by {
        assert(raw.contains(items[j]));
        let k = choose|k: int| 0 <= k < raw.len() && raw[k] == items[j];
        assert(raw[k].orig_index < v.len());
    }
    lemma_batches_runs(items, 0, Seq::empty(), 0, 0);
    assert forall|b: int, k: int| 0 <= b < batches.len() && 0 <= k < batches[b].len() implies {
        &&& (#[trigger] batches[b][k]) < items.len()
        &&& items[batches[b][k] as int].absolute_address >= items[batches[b][0] as int].absolute_address
    } by {
        assert(batch_run(items, batches[b]));
        let b0 = batches[b][0] as int;
        let bk = batches[b][k] as int;
        if k > 0 {
            assert(b0 < bk);
            assert(key_le(items[b0], items[bk]));
        }
    }
    assert forall|b: int| 0 <= b < batches.len() implies (#[trigger] batches[b]).len() > 0 by {
        assert(batch_run(items, batches[b]));
    }
}

/// Total size of a list of read items.
pub open spec fn sizes_sum(s: Seq<ReadItem>) -> int
    decreases s.len(),
{
    if s.len() == 0 { 0 } else { sizes_sum(s.drop_last()) + s.last().size }
}

proof fn lemma_sizes_sum_concat(a: Seq<ReadItem>, b: Seq<ReadItem>)
    ensures
        sizes_sum(a + b) == sizes_sum(a) + sizes_sum(b),
    decreases b.len(),
{
    if b.len() > 0 {
        lemma_sizes_sum_concat(a, b.drop_last());
        assert((a + b).drop_last() =~= a + b.drop_last());
    } else {
        assert(a + b =~= a);
    }
}

proof fn lemma_chunks_shape(idx: int, addr: int, s: int, space: u8, off: int)
    requires
        0 <= off <= s <= u32::MAX,
    ensures
        sizes_sum(chunk_items(idx, addr, s, space, off)) == s - off,
        forall|k: int| 0 <= k < chunk_items(idx, addr, s, space, off).len()
            ==> (#[trigger] chunk_items(idx, addr, s, space, off)[k]).size <= 64,
    decreases s - off,
{
    if off < s {
        let c = if s - off < 64 { s - off } else { 64 };
        lemma_chunks_shape(idx, addr, s, space, off + c);
        let head = seq![ReadItem { orig_index: idx as usize, absolute_address: (addr + off) as u32, size: c as u32, space, element_total_size: s as u32 }];
        let rest = chunk_items(idx, addr, s, space, off + c);
        assert(chunk_items(idx, addr, s, space, off) == head + rest);
        lemma_sizes_sum_concat(head, rest);
        assert(sizes_sum(head) == c) by {
            assert(head.drop_last() =~= Seq::<ReadItem>::empty());
            assert(head.last().size == c);
            assert(sizes_sum(head.drop_last()) == 0);
        }
        assert forall|k: int| 0 <= k < (head + rest).len() implies (#[trigger] (head + rest)[k]).size <= 64 by {
            if k > 0 { assert((head + rest)[k] == rest[k - 1]); }
        }
    }
}

/// An element's read items are at most 64 bytes each and together make up
/// the element.
proof fn lemma_element_items_shape(idx: int, v: AddressedView)
    requires
        value_size(v.element) matches Some(s) ==> s <= u32::MAX,
    ensures
        forall|k: int| 0 <= k < element_items(idx, v).len() ==> (#[trigger] element_items(idx, v)[k]).size <= 64,
        value_size(v.element) matches Some(s) ==> sizes_sum(element_items(idx, v)) == s,
{
    match value_size(v.element) {
        Some(s) => {
            if s <= 64 {
                let e = element_items(idx, v);
                assert(e.drop_last() =~= Seq::<ReadItem>::empty());
                assert(e.last().size == s);
                assert(sizes_sum(e.drop_last()) == 0);
            } else {
                lemma_chunks_shape(idx, abs_address(v), s, v.space, 0);
            }
        },
        None => {},
    }
}

proof fn lemma_items_small(v: Seq<AddressedView>, n: int)
    requires
        0 <= n <= v.len(),
        plan_in_range(v),
        forall|i: int| 0 <= i < v.len() ==> abs_address(#[trigger] v[i]) >= 0,
    ensures
        forall|k: int| 0 <= k < items_upto(v, n).len() ==> (#[trigger] items_upto(v, n)[k]).size <= 64,
    decreases n,
{
    if n > 0 {
        lemma_items_small(v, n - 1);
        lemma_element_items_shape(n - 1, v[n - 1]);
        let prev = items_upto(v, n - 1);
        let e = element_items(n - 1, v[n - 1]);
        assert forall|k: int| 0 <= k < (prev + e).len() implies (#[trigger] (prev + e)[k]).size <= 64 by {
            if k < prev.len() { assert((prev + e)[k] == prev[k]); } else { assert((prev + e)[k] == e[k - prev.len()]); }
        }
    }
}

/// Every item of a batch ends within 64 bytes of the batch's first item.
pub open spec fn batch_span_ok(items: Seq<ReadItem>, b: Seq<usize>) -> bool {
    forall|k: int| 0 <= k < b.len() ==> (#[trigger] items[b[k] as int]).absolute_address + items[b[k] as int].size
        - items[b[0] as int].absolute_address <= 64
}

proof fn lemma_batches_span(items: Seq<ReadItem>, i: int, cur: Seq<usize>, start: int, space: u8)
    requires
        0 <= i <= items.len() <= usize::MAX,
        forall|k: int| 0 <= k < items.len() ==> (#[trigger] items[k]).size <= 64,
        cur.len() > 0 ==> {
            &&& forall|k: int| 0 <= k < cur.len() ==> 0 <= (#[trigger] cur[k]) < items.len()
            &&& start == items[cur[0] as int].absolute_address
            &&& batch_span_ok(items, cur)
        },
    ensures
        forall|b: int| 0 <= b < batches_from(items, i, cur, start, space).len()
            ==> batch_span_ok(items, #[trigger] batches_from(items, i, cur, start, space)[b]),
    decreases items.len() - i,
{
    let res = batches_from(items, i, cur, start, space);
    if i >= items.len() {
        if cur.len() > 0 {
            assert(res == seq![cur]);
            assert(res[0] == cur);
        }
    } else if cur.len() > 0 && items[i].space == space && items[i].absolute_address + items[i].size - start <= 64 {
        let c2 = cur.push(i as usize);
        assert(c2[0] == cur[0]);
        assert forall|k: int| 0 <= k < c2.len() implies (#[trigger] items[c2[k] as int]).absolute_address + items[c2[k] as int].size
            - items[c2[0] as int].absolute_address <= 64 by {
            if k < cur.len() {
                assert(c2[k] == cur[k]);
                assert(items[cur[k] as int].absolute_address + items[cur[k] as int].size - items[cur[0] as int].absolute_address <= 64);
            } else {
                assert(c2[k] as int == i);
            }
        }
        lemma_batches_span(items, i + 1, c2, start, space);
        assert(res == batches_from(items, i + 1, c2, start, space));
    } else {
        let c2 = seq![i as usize];
        assert(c2[0] as int == i);
        assert(items[c2[0] as int].size <= 64);
        assert(batch_span_ok(items, c2));
        let rest = batches_from(items, i + 1, c2, items[i].absolute_address as int, items[i].space);
        lemma_batches_span(items, i + 1, c2, items[i].absolute_address as int, items[i].space);
        if cur.len() > 0 {
            assert(res == seq![cur] + rest);
            assert forall|b: int| 0 <= b < res.len() implies batch_span_ok(items, #[trigger] res[b]) by {
                if b > 0 { assert(res[b] == rest[b - 1]); } else { assert(res[0] == cur); }
            }
        } else {
            assert(res =~= rest);
        }
    }
}

/// Law: the shape of a read plan. Its items are ordered by space and
/// address and none is over 64 bytes; the items of each readable element
/// add up to the element's size; each batch is a run of consecutive items
/// in one space, every one ending within 64 bytes of the batch's first; and
/// the batches together hold every item once.
pub proof fn law_read_plan_shape(v: Seq<AddressedView>, items: Seq<ReadItem>, batches: Seq<Seq<usize>>)
    requires
        v.len() <= usize::MAX,
        items.len() <= usize::MAX,
        plan_in_range(v),
        forall|i: int| 0 <= i < v.len() ==> abs_address(#[trigger] v[i]) >= 0,
        items == sort_items(items_upto(v, v.len() as int)),
        batches == batches_from(items, 0, Seq::empty(), 0, 0),
    ensures
        items_sorted(items),
        forall|j: int| 0 <= j < items.len() ==> (#[trigger] items[j]).size <= 64,
        forall|i: int| 0 <= i < v.len() && (value_size((#[trigger] v[i]).element) is Some)
            ==> sizes_sum(element_items(i, v[i])) == value_size(v[i].element)->0,
        forall|b: int| 0 <= b < batches.len() ==> batch_run(items, #[trigger] batches[b]) && batch_span_ok(items, batches[b]),
        batch_work(batches, batches.len() as int) == items.len(),
{
    let raw = items_upto(v, v.len() as int);
    lemma_sort_sorted(raw);
    lemma_sort_contents(raw);
    lemma_items_small(v, v.len() as int);
    assert forall|j: int| 0 <= j < items.len() implies (#[trigger] items[j]).size <= 64 by {
        assert(raw.contains(items[j]));
        let k = choose|k: int| 0 <= k < raw.len() && raw[k] == items[j];
        assert(raw[k].size <= 64);
    }
    assert forall|i: int| 0 <= i < v.len() && (value_size((#[trigger] v[i]).element) is Some)
        implies sizes_sum(element_items(i, v[i])) == value_size(v[i].element)->0 by {
        lemma_element_items_shape(i, v[i]);
    }
    lemma_batches_runs(items, 0, Seq::empty(), 0, 0);
    lemma_batches_span(items, 0, Seq::empty(), 0, 0);
}

/// A value read for one of the elements `v`: cached under the node and the
/// element's path, and read at the element's address and space.
pub open spec fn value_fits(node: Seq<char>, v: Seq<AddressedView>, x: ReadValueView) -> bool {
    exists|i: int| 0 <= i < v.len() && x.element_path == (#[trigger] v[i]).path
        && x.cache_key == cache_key(node, v[i].path)
        && x.address_space == v[i].space && x.memory_address == abs_address(v[i]) as u32
}

/// Every value so far fits an element, and the success count is the number
/// of values.
pub open spec fn tally_fits(node: Seq<char>, v: Seq<AddressedView>, t: ReadTally) -> bool {
    &&& t.ok == t.values.len()
    &&& forall|j: int| 0 <= j < t.values.len() ==> value_fits(node, v, #[trigger] t.values[j])
}

/// An item belongs to an element and, when it is the element's only item,
/// is read at the element's address and space.
pub open spec fn item_good(v: Seq<AddressedView>, it: ReadItem) -> bool {
    &&& (it.orig_index as int) < v.len()
    &&& it.element_total_size <= 64 ==> it.absolute_address == abs_address(v[it.orig_index as int]) as u32
        && it.space == v[it.orig_index as int].space
}

proof fn lemma_record_fits(t: ReadTally, node: Seq<char>, v: Seq<AddressedView>, i: int, bytes: Seq<u8>)
    requires
        tally_fits(node, v, t),
        0 <= i < v.len(),
    ensures
        tally_fits(node, v, record(t, node, v[i], bytes, abs_address(v[i]) as u32, v[i].space)),
{
    let r = record(t, node, v[i], bytes, abs_address(v[i]) as u32, v[i].space);
    if parsed(v[i].element, bytes) is Some {
        assert forall|j: int| 0 <= j < r.values.len() implies value_fits(node, v, #[trigger] r.values[j]) by {
            if j < t.values.len() {
                assert(r.values[j] == t.values[j]);
            } else {
                assert(r.values[j].element_path == v[i].path);
            }
        }
    }
}

proof fn lemma_item_step_fits(t: ReadTally, node: Seq<char>, v: Seq<AddressedView>, it: ReadItem, start: int, data: Seq<u8>)
    requires
        tally_fits(node, v, t),
        item_good(v, it),
    ensures
        tally_fits(node, v, item_step(t, node, v, it, start, data)),
{
    let off = it.absolute_address - start;
    let end = off + it.size;
    if end <= data.len() {
        let bytes = data.subrange(off, end);
        let kept = ReadTally { raw: t.raw.push((it.space, it.absolute_address, bytes)), ..t };
        if it.element_total_size <= 64 {
            lemma_record_fits(kept, node, v, it.orig_index as int, bytes);
        }
    }
}

proof fn lemma_batch_items_fits(t: ReadTally, node: Seq<char>, v: Seq<AddressedView>, items: Seq<ReadItem>, batch: Seq<usize>, start: int, data: Seq<u8>, k: int)
    requires
        tally_fits(node, v, t),
        forall|j: int| 0 <= j < items.len() ==> item_good(v, #[trigger] items[j]),
        forall|j: int| 0 <= j < batch.len() ==> (#[trigger] batch[j] as int) < items.len(),
    ensures
        tally_fits(node, v, batch_items(t, node, v, items, batch, start, data, k)),
    decreases batch.len() - k,
{
    if 0 <= k < batch.len() {
        assert((batch[k] as int) < items.len());
        lemma_item_step_fits(t, node, v, items[batch[k] as int], start, data);
        lemma_batch_items_fits(item_step(t, node, v, items[batch[k] as int], start, data), node, v, items, batch, start, data, k + 1);
    }
}

proof fn lemma_run_batches_fits(t: ReadTally, node: Seq<char>, v: Seq<AddressedView>, items: Seq<ReadItem>, batches: Seq<Seq<usize>>, replies: Seq<Result<Seq<u8>, Seq<char>>>, b: int)
    requires
        tally_fits(node, v, t),
        forall|j: int| 0 <= j < items.len() ==> item_good(v, #[trigger] items[j]),
        forall|c: int, k: int| 0 <= c < batches.len() && 0 <= k < batches[c].len() ==> (#[trigger] batches[c][k] as int) < items.len(),
        forall|c: int| 0 <= c < batches.len() ==> (#[trigger] batches[c]).len() > 0,
    ensures
        tally_fits(node, v, run_batches(t, node, v, items, batches, replies, b)),
    decreases replies.len() - b,
{
    if 0 <= b < replies.len() && b < batches.len() {
        match replies[b] {
            Ok(data) => {
                let bt = batches[b];
                assert forall|j: int| 0 <= j < bt.len() implies (#[trigger] bt[j] as int) < items.len() by {
                    assert(batches[b][j] == bt[j]);
                }
                assert((bt[0] as int) < items.len());
                let start = items[bt[0] as int].absolute_address as int;
                lemma_batch_items_fits(t, node, v, items, bt, start, data, 0);
                lemma_run_batches_fits(batch_items(t, node, v, items, bt, start, data, 0), node, v, items, batches, replies, b + 1);
            },
            Err(e) => {},
        }
    }
}

proof fn lemma_run_multi_fits(t: ReadTally, node: Seq<char>, v: Seq<AddressedView>, multi: Set<usize>, i: int)
    requires
        tally_fits(node, v, t),
        0 <= i,
    ensures
        tally_fits(node, v, run_multi(t, node, v, multi, i)),
    decreases v.len() - i,
{
    if 0 <= i < v.len() {
        let t2 = multi_step(t, node, v, multi, i);
        if multi.contains(i as usize) && !t.failed.contains(i as usize) {
            match value_size(v[i].element) {
                Some(s) => match assembled(t.raw, v[i].space, abs_address(v[i]), s, 0) {
                    Some(bytes) => { lemma_record_fits(t, node, v, i, bytes); },
                    None => {},
                },
                None => {},
            }
        }
        lemma_run_multi_fits(t2, node, v, multi, i + 1);
    }
}

proof fn lemma_chunk_totals(idx: int, addr: int, s: int, space: u8, off: int)
    ensures
        forall|k: int| 0 <= k < chunk_items(idx, addr, s, space, off).len()
            ==> (#[trigger] chunk_items(idx, addr, s, space, off)[k]).element_total_size == s as u32,
    decreases s - off,
{
    if !(off >= s || off < 0) {
        let c = if s - off < 64 { s - off } else { 64 };
        lemma_chunk_totals(idx, addr, s, space, off + c);
        let rest = chunk_items(idx, addr, s, space, off + c);
        let all = chunk_items(idx, addr, s, space, off);
        assert forall|k: int| 0 <= k < all.len() implies (#[trigger] all[k]).element_total_size == s as u32 by {
            if k > 0 { assert(all[k] == rest[k - 1]); }
        }
    }
}

proof fn lemma_items_good(v: Seq<AddressedView>, n: int)
    requires
        0 <= n <= v.len() <= usize::MAX,
        plan_in_range(v),
        forall|i: int| 0 <= i < v.len() ==> abs_address(#[trigger] v[i]) >= 0,
    ensures
        forall|k: int| 0 <= k < items_upto(v, n).len() ==> item_good(v, #[trigger] items_upto(v, n)[k]),
    decreases n,
{
    if n > 0 {
        lemma_items_good(v, n - 1);
        let prev = items_upto(v, n - 1);
        let e = element_items(n - 1, v[n - 1]);
        lemma_chunk_origin(n - 1, abs_address(v[n - 1]), value_size(v[n - 1].element)->Some_0, v[n - 1].space, 0);
        lemma_chunk_totals(n - 1, abs_address(v[n - 1]), value_size(v[n - 1].element)->Some_0, v[n - 1].space, 0);
        assert forall|k: int| 0 <= k < e.len() implies item_good(v, #[trigger] e[k]) by {
            match value_size(v[n - 1].element) {
                Some(s) => {
                    assert(abs_address(v[n - 1]) + s <= u32::MAX);
                    if s > 64 {
                        assert(e[k].element_total_size == s as u32);
                        assert(e[k].orig_index == (n - 1) as usize);
                    }
                },
                None => {},
            }
        }
        let all = items_upto(v, n);
        assert forall|k: int| 0 <= k < all.len() implies item_good(v, #[trigger] all[k]) by {
            if k < prev.len() { assert(all[k] == prev[k]); } else { assert(all[k] == e[k - prev.len()]); }
        }
    }
}

/// Law: every value a read of a planned node yields belongs to one of the
/// node's elements: it is cached under `<node>:<path joined by '/'>` for
/// that element's path and was read at the element's address and space; and
/// the success count is the number of values.
pub proof fn law_read_values_fit(
    node: Seq<char>,
    v: Seq<AddressedView>,
    items: Seq<ReadItem>,
    batches: Seq<Seq<usize>>,
    multi: Set<usize>,
    invalid: int,
    replies: Seq<Result<Seq<u8>, Seq<char>>>,
)
    requires
        v.len() <= usize::MAX,
        items.len() <= usize::MAX,
        plan_in_range(v),
        forall|i: int| 0 <= i < v.len() ==> abs_address(#[trigger] v[i]) >= 0,
        items == sort_items(items_upto(v, v.len() as int)),
        batches == batches_from(items, 0, Seq::empty(), 0, 0),
    ensures
        tally_fits(node, v, read_tally(node, v, items, batches, multi, invalid, replies)),
{
    let raw = items_upto(v, v.len() as int);
    lemma_items_good(v, v.len() as int);
    lemma_sort_contents(raw);
    assert forall|j: int| 0 <= j < items.len() implies item_good(v, #[trigger] items[j]) by {
        assert(raw.contains(items[j]));
        let k = choose|k: int| 0 <= k < raw.len() && raw[k] == items[j];
        assert(item_good(v, raw[k]));
    }
    lemma_batches_runs(items, 0, Seq::empty(), 0, 0);
    assert forall|c: int, k: int| 0 <= c < batches.len() && 0 <= k < batches[c].len() implies (#[trigger] batches[c][k] as int) < items.len() by {
        assert(batch_run(items, batches[c]));
    }
    assert forall|c: int| 0 <= c < batches.len() implies (#[trigger] batches[c]).len() > 0 by {
        assert(batch_run(items, batches[c]));
    }
    let start = ReadTally { values: Seq::empty(), ok: 0, err: invalid, raw: Seq::empty(), failed: Set::empty(), abort: None };
    lemma_run_batches_fits(start, node, v, items, batches, replies, 0);
    lemma_run_multi_fits(run_batches(start, node, v, items, batches, replies, 0), node, v, multi, 0);
}

/// The batches' item indices, one batch after another.
pub open spec fn concat_batches(b: Seq<Seq<usize>>) -> Seq<usize>
    decreases b.len(),
{
    if b.len() == 0 { Seq::empty() } else { b[0] + concat_batches(b.drop_first()) }
}

/// The indices `lo..hi`, ascending.
pub open spec fn index_range(lo: int, hi: int) -> Seq<usize> {
    Seq::new((hi - lo) as nat, |k: int| (lo + k) as usize)
}

proof fn lemma_batches_partition(items: Seq<ReadItem>, i: int, cur: Seq<usize>, start: int, space: u8, c0: int)
    requires
        0 <= c0 <= i <= items.len() <= usize::MAX,
        cur == index_range(c0, i),
        cur.len() == 0 ==> i == 0 || i == items.len(),
    ensures
        concat_batches(batches_from(items, i, cur, start, space)) == index_range(c0, items.len() as int),
    decreases items.len() - i,
{
    let res = batches_from(items, i, cur, start, space);
    if i >= items.len() {
        if cur.len() > 0 {
            assert(res == seq![cur]);
            assert(res.drop_first() =~= Seq::<Seq<usize>>::empty());
            assert(concat_batches(res.drop_first()) == Seq::<usize>::empty());
            assert(res[0] == cur);
            assert(concat_batches(res) =~= cur);
        } else {
            assert(index_range(c0, items.len() as int) =~= Seq::<usize>::empty());
        }
    } else if cur.len() > 0 && items[i].space == space && items[i].absolute_address + items[i].size - start <= 64 {
        let c2 = cur.push(i as usize);
        assert(c2 =~= index_range(c0, i + 1));
        lemma_batches_partition(items, i + 1, c2, start, space, c0);
    } else {
        let c2 = seq![i as usize];
        assert(c2 =~= index_range(i, i + 1));
        let rest = batches_from(items, i + 1, c2, items[i].absolute_address as int, items[i].space);
        lemma_batches_partition(items, i + 1, c2, items[i].absolute_address as int, items[i].space, i);
        if cur.len() > 0 {
            assert(res == seq![cur] + rest);
            assert((seq![cur] + rest).drop_first() =~= rest);
            assert(concat_batches(res) == cur + concat_batches(rest));
            assert(cur + index_range(i, items.len() as int) =~= index_range(c0, items.len() as int));
        } else {
            assert(res =~= rest);
            assert(c0 == i);
        }
    }
}

/// Law: the batches of a read plan split the items into consecutive runs in
/// ascending order: read one after another, they give the item indices
/// `0, 1, ..` each once.
pub proof fn law_batches_partition_items(items: Seq<ReadItem>)
    requires
        items.len() <= usize::MAX,
    ensures
        concat_batches(batches_from(items, 0, Seq::empty(), 0, 0)) == index_range(0, items.len() as int),
{
    assert(Seq::<usize>::empty() =~= index_range(0, 0));
    lemma_batches_partition(items, 0, Seq::empty(), 0, 0, 0);
}

/// A reply that brought bytes.
pub open spec fn brought_bytes(r: Result<Seq<u8>, Seq<char>>) -> bool {
    match r {
        Ok(b) => b.len() > 0,
        Err(_) => false,
    }
}

/// The bytes the first `n` replies brought, one after another.
pub open spec fn ok_bytes(replies: Seq<Result<Seq<u8>, Seq<char>>>, n: int) -> Seq<u8>
    decreases n,
{
    if n <= 0 {
        Seq::empty()
    } else {
        ok_bytes(replies, n - 1) + match replies[n - 1] {
            Ok(b) => b,
            Err(_) => Seq::empty(),
        }
    }
}

/// The continuation read issued when `len` bytes have come.
pub open spec fn read_at(start: int, total: int, len: nat) -> (u32, u8) {
    ((start + len) as u32, (if total - len < 64 { total - len } else { 64 }) as u8)
}

#[verifier::spinoff_prover]
#[verifier::rlimit(30)]
proof fn lemma_fill_reads(d0: Seq<u8>, data: Seq<u8>, start: int, total: int, replies: Seq<Result<Seq<u8>, Seq<char>>>, c: int)
    requires
        0 <= c <= MAX_CONTINUATIONS,
        data == d0 + ok_bytes(replies, c),
        forall|j: int| 0 <= j < c ==> brought_bytes(#[trigger] replies[j]),
        c <= replies.len(),
    ensures
        ({
            let f = fill_run(data, start, total, replies, c);
            &&& f.0 == d0 + ok_bytes(replies, f.2)
            &&& c <= f.2 <= MAX_CONTINUATIONS
            &&& f.2 <= replies.len()
            &&& forall|j: int| 0 <= j < f.2 ==> brought_bytes(#[trigger] replies[j])
            &&& (f.1.len() == f.2 - c || f.1.len() == f.2 - c + 1)
            &&& forall|t: int| 0 <= t < f.1.len() ==> {
                let len = d0.len() + ok_bytes(replies, c + t).len();
                &&& #[trigger] f.1[t] == read_at(start, total, len)
                &&& len < total
                &&& c + t < MAX_CONTINUATIONS
            }
        }),
    decreases MAX_CONTINUATIONS - c,
{
    let f = fill_run(data, start, total, replies, c);
    match continuation_step(data.len() as int, start, total, c) {
        Continuation::Done => {
            assert(f == (data, Seq::<(u32, u8)>::empty(), c));
        },
        Continuation::Read { address, size } => {
            assert((address, size) == read_at(start, total, d0.len() + ok_bytes(replies, c).len()));
            if 0 <= c < replies.len() && (replies[c] matches Ok(b) && b.len() > 0) {
                let b = replies[c]->Ok_0;
                assert(ok_bytes(replies, c + 1) == ok_bytes(replies, c) + b);
                assert(data + b =~= d0 + ok_bytes(replies, c + 1));
                lemma_fill_reads(d0, data + b, start, total, replies, c + 1);
                let r = fill_run(data + b, start, total, replies, c + 1);
                assert(f.1 == seq![(address, size)] + r.1);
                assert forall|t: int| 0 <= t < f.1.len() implies {
                    let len = d0.len() + ok_bytes(replies, c + t).len();
                    &&& #[trigger] f.1[t] == read_at(start, total, len)
                    &&& len < total
                    &&& c + t < MAX_CONTINUATIONS
                } by {
                    if t > 0 {
                        assert(f.1[t] == r.1[t - 1]);
                        assert(c + 1 + (t - 1) == c + t);
                    }
                }
            } else {
                assert(f == (data, seq![(address, size)], c));
                assert(f.1[0] == (address, size));
            }
        },
    }
}

/// Law: filling a short reply issues its reads in turn, read `t` at the
/// address just after the bytes so far and for the rest of the batch (at
/// most 64 bytes), only while the batch is incomplete and at most
/// `MAX_CONTINUATIONS` times; it counts the leading replies that brought
/// bytes and appends exactly those bytes; it issues at most one read beyond
/// them (the one whose reply was empty, failed or missing).
pub proof fn law_fill_reads(data: Seq<u8>, start: int, total: int, replies: Seq<Result<Seq<u8>, Seq<char>>>)
    ensures
        ({
            let f = fill_run(data, start, total, replies, 0);
            &&& f.0 == data + ok_bytes(replies, f.2)
            &&& 0 <= f.2 <= MAX_CONTINUATIONS
            &&& forall|j: int| 0 <= j < f.2 ==> brought_bytes(#[trigger] replies[j])
            &&& (f.1.len() == f.2 || f.1.len() == f.2 + 1)
            &&& forall|t: int| 0 <= t < f.1.len() ==> {
                let len = data.len() + ok_bytes(replies, t).len();
                &&& #[trigger] f.1[t] == read_at(start, total, len)
                &&& len < total
                &&& t < MAX_CONTINUATIONS
            }
        }),
{
    assert(data + ok_bytes(replies, 0) =~= data);
    lemma_fill_reads(data, data, start, total, replies, 0);
}

} // verus!
