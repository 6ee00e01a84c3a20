//! Which nodes produce and consume which events, from the replies to an
//! Identify Events exchange.
//!
//! Every node is asked which events it produces and consumes; each reply is
//! a CAN frame whose header carries the message type and the sender's
//! alias, and whose first eight data bytes are the event ID. Producer and
//! consumer replies come in three variants each (valid, invalid, unknown
//! state), which all count.

use vstd::prelude::*;
use crate::node_id::NodeId;

verus! {

/// The role a node claims for an event.
#[derive(Clone, Copy, PartialEq, Eq, Structural)]
pub enum IdentifiedRole {
    Producer,
    Consumer,
}

/// One claim read from a reply frame.
pub struct IdentifiedEvent {
    pub event_id: [u8; 8],
    pub role: IdentifiedRole,
    pub source_alias: u16,
}

/// The nodes that claimed an event, each listed once.
pub struct EventRoles {
    pub event_id: [u8; 8],
    pub producers: Vec<NodeId>,
    pub consumers: Vec<NodeId>,
}

/// The claims of an exchange: one entry per event, and the number of
/// replies that counted.
pub struct EventRoleTable {
    pub roles: Vec<EventRoles>,
    pub responses_received: usize,
}

/// The message type in a frame header.
pub open spec fn frame_mti(header: u32) -> u32 {
    (header >> 12u32) & 0x1FFFFu32
}

/// The sender's alias in a frame header.
pub open spec fn frame_alias(header: u32) -> u16 {
    (header & 0xFFFu32) as u16
}

/// The role a message type claims: Producer Identified or Consumer
/// Identified, in any of their three variants.
pub open spec fn identified_role(mti: u32) -> Option<IdentifiedRole> {
    if mti == 0x19544 || mti == 0x19545 || mti == 0x19547 {
        Some(IdentifiedRole::Producer)
    } else if mti == 0x194C4 || mti == 0x194C5 || mti == 0x194C7 {
        Some(IdentifiedRole::Consumer)
    } else {
        None
    }
}

/// Reads the claim a frame makes: a producer or consumer reply carrying at
/// least eight data bytes; `None` for any other frame.
pub fn identified_event(header: u32, data: &[u8]) -> (r: Option<IdentifiedEvent>)
    ensures
        match identified_role(frame_mti(header)) {
            Some(role) => if data@.len() >= 8 {
                r matches Some(e) && e.role == role && e.event_id@ == data@.subrange(0, 8)
                    && e.source_alias == frame_alias(header)
            } else {
                r is None
            },
            None => r is None,
        },
{
    let mti = (header >> 12u32) & 0x1FFFFu32;
    let alias: u16 = (header & 0xFFFu32) as u16;
    let role = if mti == 0x19544 || mti == 0x19545 || mti == 0x19547 {
        IdentifiedRole::Producer
    } else if mti == 0x194C4 || mti == 0x194C5 || mti == 0x194C7 {
        IdentifiedRole::Consumer
    } else {
        return None;
    };
    if data.len() < 8 {
        return None;
    }
    let event_id: [u8; 8] = [data[0], data[1], data[2], data[3], data[4], data[5], data[6], data[7]];
    assert(event_id@ =~= data@.subrange(0, 8));
    Some(IdentifiedEvent { event_id, role, source_alias: alias })
}

/// The node a sender alias belongs to: the last listed node with that alias.
pub open spec fn alias_node(nodes: Seq<(u16, NodeId)>, alias: u16) -> Option<Seq<u8>>
    decreases nodes.len(),
{
    if nodes.len() == 0 {
        None
    } else if nodes.last().0 == alias {
        Some(nodes.last().1.bytes@)
    } else {
        alias_node(nodes.drop_last(), alias)
    }
}

/// A claim: event ID, role and the claiming node's ID bytes.
pub type Claim = (Seq<u8>, IdentifiedRole, Seq<u8>);

/// The claim a reply frame (header, data) makes for a known node.
pub open spec fn frame_claim(f: (u32, Seq<u8>), nodes: Seq<(u16, NodeId)>) -> Option<Claim> {
    match identified_role(frame_mti(f.0)) {
        Some(role) => if f.1.len() >= 8 {
            match alias_node(nodes, frame_alias(f.0)) {
                Some(n) => Some((f.1.subrange(0, 8), role, n)),
                None => None,
            }
        } else {
            None
        },
        None => None,
    }
}

/// The claims of the first `k` frames, in order.
pub open spec fn claims_upto(frames: Seq<(u32, Seq<u8>)>, nodes: Seq<(u16, NodeId)>, k: int) -> Seq<Claim>
    decreases k,
{
    if k <= 0 {
        Seq::empty()
    } else {
        claims_upto(frames, nodes, k - 1) + match frame_claim(frames[k - 1], nodes) {
            Some(c) => seq![c],
            None => Seq::empty(),
        }
    }
}

/// The frames as sequences.
pub open spec fn frame_views(f: Seq<(u32, Vec<u8>)>) -> Seq<(u32, Seq<u8>)> {
    f.map_values(|x: (u32, Vec<u8>)| (x.0, x.1@))
}

/// Node `n` is in the list.
pub open spec fn lists_node(l: Seq<NodeId>, n: Seq<u8>) -> bool {
    exists|k: int| 0 <= k < l.len() && (#[trigger] l[k]).bytes@ == n
}

/// No node is in the list twice.
pub open spec fn nodes_distinct(l: Seq<NodeId>) -> bool {
    forall|a: int, b: int| 0 <= a < b < l.len() ==> (#[trigger] l[a]).bytes@ != (#[trigger] l[b]).bytes@
}

/// The table holds exactly the claims `cl`: one entry per claimed event (and
/// none for an event nobody claimed), and in it each node that claimed the
/// event, once per role.
pub open spec fn table_holds(t: Seq<EventRoles>, cl: Seq<Claim>) -> bool {
    &&& forall|a: int, b: int| 0 <= a < b < t.len() ==> (#[trigger] t[a]).event_id@ != (#[trigger] t[b]).event_id@
    &&& forall|i: int| 0 <= i < t.len() ==> nodes_distinct((#[trigger] t[i]).producers@) && nodes_distinct(t[i].consumers@)
    &&& forall|i: int, n: Seq<u8>|
        #![trigger lists_node(t[i].producers@, n)]
        #![trigger cl.contains((t[i].event_id@, IdentifiedRole::Producer, n))]
        0 <= i < t.len() ==> (lists_node(t[i].producers@, n) <==> cl.contains((t[i].event_id@, IdentifiedRole::Producer, n)))
    &&& forall|i: int, n: Seq<u8>|
        #![trigger lists_node(t[i].consumers@, n)]
        #![trigger cl.contains((t[i].event_id@, IdentifiedRole::Consumer, n))]
        0 <= i < t.len() ==> (lists_node(t[i].consumers@, n) <==> cl.contains((t[i].event_id@, IdentifiedRole::Consumer, n)))
    &&& forall|j: int| 0 <= j < cl.len() ==> exists|i: int| 0 <= i < t.len() && (#[trigger] t[i]).event_id@ == (#[trigger] cl[j]).0
    &&& forall|i: int| 0 <= i < t.len() ==> is_claimed(cl, (#[trigger] t[i]).event_id@)
}

/// Some claim in `cl` is for event `e`.
pub open spec fn is_claimed(cl: Seq<Claim>, e: Seq<u8>) -> bool {
    exists|j: int| 0 <= j < cl.len() && (#[trigger] cl[j]).0 == e
}

/// Whether two node IDs are the same.
fn same_node(a: &NodeId, b: &NodeId) -> (r: bool)
    ensures
        r == (a.bytes@ == b.bytes@),
{
    let mut i: usize = 0;
    while i < 6
        invariant
            i <= 6,
            forall|k: int| 0 <= k < i ==> a.bytes@[k] == b.bytes@[k],
        decreases 6 - i,
    {
        if a.bytes[i] != b.bytes[i] {
            return false;
        }
        i = i + 1;
    }
    assert(a.bytes@ =~= b.bytes@);
    true
}

/// Whether two event IDs are the same.
fn same_event(a: &[u8; 8], b: &[u8; 8]) -> (r: bool)
    ensures
        r == (a@ == b@),
{
    let mut i: usize = 0;
    while i < 8
        invariant
            i <= 8,
            forall|k: int| 0 <= k < i ==> a@[k] == b@[k],
        decreases 8 - i,
    {
        if a[i] != b[i] {
            return false;
        }
        i = i + 1;
    }
    assert(a@ =~= b@);
    true
}

/// The node a sender alias belongs to.
fn find_alias(nodes: &Vec<(u16, NodeId)>, alias: u16) -> (r: Option<NodeId>)
    ensures
        match alias_node(nodes@, alias) {
            Some(n) => r matches Some(x) && x.bytes@ == n,
            None => r is None,
        },
{
    let mut j: usize = nodes.len();
    assert(nodes@.subrange(0, j as int) =~= nodes@);
    while j > 0
        invariant
            j <= nodes@.len(),
            alias_node(nodes@, alias) == alias_node(nodes@.subrange(0, j as int), alias),
        decreases j,
    {
        let ghost sub = nodes@.subrange(0, j as int);
        assert(sub.last() == nodes@[j - 1]);
        if nodes[j - 1].0 == alias {
            return Some(nodes[j - 1].1);
        }
        assert(sub.drop_last() =~= nodes@.subrange(0, j - 1));
        j = j - 1;
    }
    None
}

/// Adds node `n` to a list unless it is there.
fn add_node(l: &mut Vec<NodeId>, n: NodeId)
    requires
        nodes_distinct(old(l)@),
    ensures
        nodes_distinct(final(l)@),
        forall|m: Seq<u8>| lists_node(final(l)@, m) <==> (lists_node(old(l)@, m) || m == n.bytes@),
{
    let mut k: usize = 0;
    while k < l.len()
        invariant
            k <= l@.len(),
            l@ == old(l)@,
            nodes_distinct(old(l)@),
            forall|j: int| 0 <= j < k ==> (#[trigger] l@[j]).bytes@ != n.bytes@,
        decreases l.len() - k,
    {
        if same_node(&l[k], &n) {
            assert forall|m: Seq<u8>| lists_node(l@, m) <==> (lists_node(old(l)@, m) || m == n.bytes@) by {
                if m == n.bytes@ {
                    assert(l@[k as int].bytes@ == m);
                }
            }
            return;
        }
        k = k + 1;
    }
    let ghost before = l@;
    l.push(n);
    assert forall|m: Seq<u8>| lists_node(l@, m) <==> (lists_node(before, m) || m == n.bytes@) by {
        if lists_node(l@, m) {
            let j = choose|j: int| 0 <= j < l@.len() && (#[trigger] l@[j]).bytes@ == m;
            if j < before.len() {
                assert(before[j] == l@[j]);
            }
        }
        if lists_node(before, m) {
            let j = choose|j: int| 0 <= j < before.len() && (#[trigger] before[j]).bytes@ == m;
            assert(l@[j] == before[j]);
        }
        if m == n.bytes@ {
            assert(l@[before.len() as int] == n);
        }
    }
}

/// Rows that keep their old event, or carry the new claim's, are all claimed.
proof fn lemma_rows_stay_claimed(t0: Seq<EventRoles>, t2: Seq<EventRoles>, cl: Seq<Claim>, cl2: Seq<Claim>, c: Claim)
    requires
        table_holds(t0, cl),
        cl2 == cl.push(c),
        forall|i: int| 0 <= i < t2.len() ==> (#[trigger] t2[i]).event_id@ == c.0
            || (i < t0.len() && t2[i].event_id@ == t0[i].event_id@),
    ensures
        forall|i: int| 0 <= i < t2.len() ==> is_claimed(cl2, (#[trigger] t2[i]).event_id@),
{
    assert forall|i: int| 0 <= i < t2.len() implies is_claimed(cl2, (#[trigger] t2[i]).event_id@) by {
        if t2[i].event_id@ == c.0 {
            assert(cl2[cl.len() as int].0 == t2[i].event_id@);
        } else {
            assert(is_claimed(cl, t0[i].event_id@));
            let j = choose|j: int| 0 <= j < cl.len() && (#[trigger] cl[j]).0 == t0[i].event_id@;
            assert(cl2[j] == cl[j]);
        }
    }
}

/// Adds a claim to a table.
#[verifier::rlimit(40)]
fn add_claim(t: &mut Vec<EventRoles>, ev: [u8; 8], role: IdentifiedRole, node: NodeId, Ghost(cl): Ghost<Seq<Claim>>)
    requires
        table_holds(old(t)@, cl),
    ensures
        table_holds(final(t)@, cl.push((ev@, role, node.bytes@))),
{
    let ghost c: Claim = (ev@, role, node.bytes@);
    let ghost cl2 = cl.push(c);
    assert forall|x: Claim| cl2.contains(x) <==> (cl.contains(x) || x == c) by {
        if cl2.contains(x) {
            let j = choose|j: int| 0 <= j < cl2.len() && cl2[j] == x;
            if j < cl.len() {
                assert(cl[j] == x);
            }
        }
        if cl.contains(x) {
            let j = choose|j: int| 0 <= j < cl.len() && cl[j] == x;
            assert(cl2[j] == x);
        }
        if x == c {
            assert(cl2[cl.len() as int] == x);
        }
    }
    let mut i: usize = 0;
    let mut found = false;
    while i < t.len() && !found
        invariant
            i <= t@.len(),
            t@ == old(t)@,
            found ==> i < t@.len() && t@[i as int].event_id@ == ev@,
            forall|j: int| 0 <= j < i ==> (#[trigger] t@[j]).event_id@ != ev@,
        decreases t.len() - i + (if found { 0int } else { 1int }),
    {
        if same_event(&t[i].event_id, &ev) {
            found = true;
        } else {
            i = i + 1;
        }
    }
    let ghost t0 = t@;
    if !found {
        t.push(EventRoles { event_id: ev, producers: Vec::new(), consumers: Vec::new() });
        proof {
            let t1 = t@;
            assert forall|a: int, b: int| 0 <= a < b < t1.len() implies (#[trigger] t1[a]).event_id@ != (#[trigger] t1[b]).event_id@ by {
                if b == t0.len() {
                    assert(t0[a] == t1[a]);
                } else {
                    assert(t0[a] == t1[a] && t0[b] == t1[b]);
                }
            }
            assert forall|i2: int| 0 <= i2 < t1.len() implies nodes_distinct((#[trigger] t1[i2]).producers@) && nodes_distinct(t1[i2].consumers@) by {
                if i2 < t0.len() { assert(t0[i2] == t1[i2]); }
            }
            assert forall|i2: int, n: Seq<u8>| 0 <= i2 < t1.len() implies (lists_node(t1[i2].producers@, n)
                <==> cl.contains((t1[i2].event_id@, IdentifiedRole::Producer, n))) by {
                if i2 < t0.len() {
                    assert(t0[i2] == t1[i2]);
                } else {
                    if cl.contains((ev@, IdentifiedRole::Producer, n)) {
                        let j = choose|j: int| 0 <= j < cl.len() && cl[j] == (ev@, IdentifiedRole::Producer, n);
                        let k = choose|k: int| 0 <= k < t0.len() && (#[trigger] t0[k]).event_id@ == cl[j].0;
                    }
                }
            }
            assert forall|i2: int, n: Seq<u8>| 0 <= i2 < t1.len() implies (lists_node(t1[i2].consumers@, n)
                <==> cl.contains((t1[i2].event_id@, IdentifiedRole::Consumer, n))) by {
                if i2 < t0.len() {
                    assert(t0[i2] == t1[i2]);
                } else {
                    if cl.contains((ev@, IdentifiedRole::Consumer, n)) {
                        let j = choose|j: int| 0 <= j < cl.len() && cl[j] == (ev@, IdentifiedRole::Consumer, n);
                        let k = choose|k: int| 0 <= k < t0.len() && (#[trigger] t0[k]).event_id@ == cl[j].0;
                    }
                }
            }
            assert forall|j: int| 0 <= j < cl.len() implies exists|i2: int| 0 <= i2 < t1.len() && (#[trigger] t1[i2]).event_id@ == (#[trigger] cl[j]).0 by {
                let k = choose|k: int| 0 <= k < t0.len() && (#[trigger] t0[k]).event_id@ == cl[j].0;
                assert(t1[k] == t0[k]);
                assert(t1[k].event_id@ == cl[j].0);
            }
        }
    }
    assert(t@[i as int].event_id@ == ev@);
    let ghost t1 = t@;
    assert(forall|k: int| 0 <= k < t1.len() ==> (#[trigger] t1[k]).event_id@ == ev@ || (k < t0.len() && t1[k] == t0[k]));
    let mut entry = t.remove(i);
    match role {
        IdentifiedRole::Producer => add_node(&mut entry.producers, node),
        IdentifiedRole::Consumer => add_node(&mut entry.consumers, node),
    }
    t.insert(i, entry);
    proof {
        let t2 = t@;
        assert(t2.len() == t1.len());
        assert forall|j: int| 0 <= j < t2.len() && j != i implies #[trigger] t2[j] == t1[j] by {}
        assert(t2[i as int].event_id@ == ev@);
        assert forall|a: int, b: int| 0 <= a < b < t2.len() implies (#[trigger] t2[a]).event_id@ != (#[trigger] t2[b]).event_id@ by {
            assert(t2[a].event_id@ == t1[a].event_id@ && t2[b].event_id@ == t1[b].event_id@);
        }
        assert forall|i2: int| 0 <= i2 < t2.len() implies nodes_distinct((#[trigger] t2[i2]).producers@) && nodes_distinct(t2[i2].consumers@) by {
            if i2 != i { assert(t2[i2] == t1[i2]); }
        }
        assert forall|i2: int, n: Seq<u8>| 0 <= i2 < t2.len() implies (lists_node(t2[i2].producers@, n)
                <==> cl2.contains((t2[i2].event_id@, IdentifiedRole::Producer, n))) by {
            if i2 != i {
                assert(t2[i2] == t1[i2]);
                assert(t1[i2].event_id@ != ev@);
            }
        }
        assert forall|i2: int, n: Seq<u8>| 0 <= i2 < t2.len() implies (lists_node(t2[i2].consumers@, n)
                <==> cl2.contains((t2[i2].event_id@, IdentifiedRole::Consumer, n))) by {
            if i2 != i {
                assert(t2[i2] == t1[i2]);
                assert(t1[i2].event_id@ != ev@);
            }
        }
        assert forall|j: int| 0 <= j < cl2.len() implies exists|i2: int| 0 <= i2 < t2.len() && (#[trigger] t2[i2]).event_id@ == (#[trigger] cl2[j]).0 by {
            if j == cl.len() {
                assert(t2[i as int].event_id@ == cl2[j].0);
            } else {
                assert(cl2[j] == cl[j]);
                let k = choose|k: int| 0 <= k < t1.len() && (#[trigger] t1[k]).event_id@ == cl[j].0;
                assert(t2[k].event_id@ == t1[k].event_id@);
            }
        }
        assert forall|i2: int| 0 <= i2 < t2.len() implies (#[trigger] t2[i2]).event_id@ == ev@
            || (i2 < t0.len() && t2[i2].event_id@ == t0[i2].event_id@) by {
            if i2 != i { assert(t2[i2] == t1[i2]); }
        }
        lemma_rows_stay_claimed(t0, t2, cl, cl2, c);
    }
}

/// Gathers the claims of an exchange's reply frames (header, data), in the
/// order they came, from the nodes `nodes` (alias, node ID): a frame counts
/// when it is a producer or consumer reply with an event ID from a known
/// alias. The table lists each claimed event once, and under it each node
/// that claimed it, once per role; `responses_received` counts the frames
/// that counted.
pub fn collect_event_roles(frames: &Vec<(u32, Vec<u8>)>, nodes: &Vec<(u16, NodeId)>) -> (r: EventRoleTable)
    ensures
        table_holds(r.roles@, claims_upto(frame_views(frames@), nodes@, frames@.len() as int)),
        r.responses_received == claims_upto(frame_views(frames@), nodes@, frames@.len() as int).len(),
{
    let ghost fv = frame_views(frames@);
    let mut roles: Vec<EventRoles> = Vec::new();
    let mut count: usize = 0;
    let mut k: usize = 0;
    while k < frames.len()
        invariant
            k <= frames@.len(),
            fv == frame_views(frames@),
            table_holds(roles@, claims_upto(fv, nodes@, k as int)),
            count == claims_upto(fv, nodes@, k as int).len(),
            count <= k,
        decreases frames.len() - k,
    {
        let ghost cl = claims_upto(fv, nodes@, k as int);
        let frame = &frames[k];
        assert(fv[k as int] == (frame.0, frame.1@));
        match identified_event(frame.0, frame.1.as_slice()) {
            Some(e) => {
                match find_alias(nodes, e.source_alias) {
                    Some(node) => {
                        add_claim(&mut roles, e.event_id, e.role, node, Ghost(cl));
                        count = count + 1;
                        assert(claims_upto(fv, nodes@, k + 1) =~= cl.push((e.event_id@, e.role, node.bytes@)));
                    },
                    None => {
                        assert(claims_upto(fv, nodes@, k + 1) =~= cl);
                    },
                }
            },
            None => {
                assert(claims_upto(fv, nodes@, k + 1) =~= cl);
            },
        }
        k = k + 1;
    }
    EventRoleTable { roles, responses_received: count }
}

} // verus!
