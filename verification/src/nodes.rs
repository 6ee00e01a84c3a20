//! Discovered nodes as the node list shows them: their IDs and display names.

use vstd::prelude::*;
use crate::node_id::{dotted_text, NodeId};
use crate::text::{copy_string, string_of};

verus! {

/// A node's identification strings (SNIP).
pub struct SnipData {
    pub manufacturer: String,
    pub model: String,
    pub hardware_version: String,
    pub software_version: String,
    pub user_name: String,
    pub user_description: String,
}

/// A node seen on the bus, with its identification when it was queried.
pub struct NodeInfo {
    pub node_id: NodeId,
    pub snip_data: Option<SnipData>,
}

/// A row of the node list.
pub struct DiscoveredNode {
    pub node_id: String,
    pub node_name: String,
    pub has_cdi: bool,
}

/// The node list.
pub struct GetDiscoveredNodesResponse {
    pub nodes: Vec<DiscoveredNode>,
}

/// The name a node is shown by: its user name, else its user description,
/// else its model, else its dotted node ID.
pub open spec fn display_name(n: NodeInfo) -> Seq<char> {
    match n.snip_data {
        Some(s) => if s.user_name@.len() > 0 {
            s.user_name@
        } else if s.user_description@.len() > 0 {
            s.user_description@
        } else if s.model@.len() > 0 {
            s.model@
        } else {
            dotted_text(n.node_id.bytes@)
        },
        None => dotted_text(n.node_id.bytes@),
    }
}

/// The name a node is shown by.
pub fn get_node_display_name(node: &NodeInfo) -> (r: String)
    ensures
        r@ == display_name(*node),
{
    match &node.snip_data {
        Some(s) => {
            if s.user_name.as_str().unicode_len() > 0 {
                return copy_string(&s.user_name);
            }
            if s.user_description.as_str().unicode_len() > 0 {
                return copy_string(&s.user_description);
            }
            if s.model.as_str().unicode_len() > 0 {
                return copy_string(&s.model);
            }
            node.node_id.to_hex_string()
        },
        None => node.node_id.to_hex_string(),
    }
}

/// The name a node is listed under: its user name, else `manufacturer model`
/// when both are known, else `Node` and its dotted ID.
pub open spec fn list_name(n: NodeInfo) -> Seq<char> {
    match n.snip_data {
        Some(s) => if s.user_name@.len() > 0 {
            s.user_name@
        } else if s.manufacturer@.len() > 0 && s.model@.len() > 0 {
            s.manufacturer@ + " "@ + s.model@
        } else {
            "Node "@ + dotted_text(n.node_id.bytes@)
        },
        None => "Node "@ + dotted_text(n.node_id.bytes@),
    }
}

/// The node list: each node's dotted ID, list name and whether its
/// description is available.
pub fn get_discovered_nodes(nodes: &Vec<(NodeInfo, bool)>) -> (r: GetDiscoveredNodesResponse)
    ensures
        r.nodes@.len() == nodes@.len(),
        forall|i: int| 0 <= i < nodes@.len() ==> {
            &&& (#[trigger] r.nodes@[i]).node_id@ == dotted_text(nodes@[i].0.node_id.bytes@)
            &&& r.nodes@[i].node_name@ == list_name(nodes@[i].0)
            &&& r.nodes@[i].has_cdi == nodes@[i].1
        },
{
    let mut out: Vec<DiscoveredNode> = Vec::new();
    let mut i: usize = 0;
    while i < nodes.len()
        invariant
            i <= nodes@.len(),
            out@.len() == i,
            forall|j: int| 0 <= j < i ==> {
                &&& (#[trigger] out@[j]).node_id@ == dotted_text(nodes@[j].0.node_id.bytes@)
                &&& out@[j].node_name@ == list_name(nodes@[j].0)
                &&& out@[j].has_cdi == nodes@[j].1
            },
        decreases nodes.len() - i,
    {
        let n = &nodes[i].0;
        let fallback = {
            let mut s = string_of("Node ");
            let h = n.node_id.to_hex_string();
            s.append(h.as_str());
            s
        };
        let name = match &n.snip_data {
            Some(s) => {
                if s.user_name.as_str().unicode_len() > 0 {
                    copy_string(&s.user_name)
                } else if s.manufacturer.as_str().unicode_len() > 0 && s.model.as_str().unicode_len() > 0 {
                    let mut t = copy_string(&s.manufacturer);
                    t.append(" ");
                    t.append(s.model.as_str());
                    t
                } else {
                    fallback
                }
            },
            None => fallback,
        };
        out.push(DiscoveredNode { node_id: n.node_id.to_hex_string(), node_name: name, has_cdi: nodes[i].1 });
        i = i + 1;
    }
    GetDiscoveredNodesResponse { nodes: out }
}

} // verus!
