//! Node snapshots for layout directory persistence: the path-centric
//! configuration value tree and the per-node snapshot record.

use vstd::prelude::*;
use crate::strmap::{StrMap, lemma_entry_decreases, str_eq, sorted_entries, lemma_sorted_entries_map};
use crate::text::{opt_str, strs, copy_string, copy_opt_string, copy_strings, decimal_digits, u64_decimal, join, join_strings, unicode_upper, to_uppercase};
use crate::node_id::NodeId;

verus! {

/// One stored configuration value with its memory location.
#[derive(Debug)]
pub struct SnapshotLeafValue {
    pub value: String,
    pub space: Option<u8>,
    pub offset: Option<String>,
}

/// Abstract value of a [`SnapshotLeafValue`].
pub struct LeafView {
    pub value: Seq<char>,
    pub space: Option<u8>,
    pub offset: Option<Seq<char>>,
}

impl View for SnapshotLeafValue {
    type V = LeafView;

    open spec fn view(&self) -> LeafView {
        LeafView { value: self.value@, space: self.space, offset: opt_str(self.offset) }
    }
}

impl SnapshotLeafValue {
    /// A copy of this leaf.
    pub fn copy(&self) -> (r: SnapshotLeafValue)
        ensures
            r@ == self@,
    {
        SnapshotLeafValue { value: copy_string(&self.value), space: self.space, offset: copy_opt_string(&self.offset) }
    }
}

/// A node of the path-centric configuration value tree.
#[derive(Debug)]
pub enum SnapshotValueNode {
    Branch(StrMap<SnapshotValueNode>),
    Leaf(SnapshotLeafValue),
}

/// A level of the configuration value tree: child keys to nodes.
pub type ConfigMap = StrMap<SnapshotValueNode>;

/// Every level of the tree keeps its keys strictly ordered.
pub open spec fn tree_wf(m: ConfigMap) -> bool
    decreases m,
{
    sorted_entries(m.seq()) && tree_wf_from(m, 0)
}

/// Every branch among the entries from position `i` on is well formed.
pub open spec fn tree_wf_from(m: ConfigMap, i: int) -> bool
    decreases m, m.seq().len() - i,
{
    if i < 0 || i >= m.seq().len() {
        true
    } else {
        proof { lemma_entry_decreases(m, i); }
        (match m.seq()[i].1 {
            SnapshotValueNode::Branch(c) => tree_wf(c),
            SnapshotValueNode::Leaf(_) => true,
        }) && tree_wf_from(m, i + 1)
    }
}

proof fn lemma_tree_wf_from_entries(m: ConfigMap, i: int)
    requires
        0 <= i <= m.seq().len(),
    ensures
        tree_wf_from(m, i) <==> forall|j: int| i <= j < m.seq().len() && (#[trigger] m.seq()[j]).1 is Branch ==> tree_wf(m.seq()[j].1->Branch_0),
    decreases m.seq().len() - i,
{
    if i < m.seq().len() {
        lemma_tree_wf_from_entries(m, i + 1);
    }
}

/// A well-formed tree: every branch reached through the map is well formed.
pub proof fn lemma_tree_wf_map(m: ConfigMap)
    requires
        tree_wf(m),
    ensures
        sorted_entries(m.seq()),
        forall|k: Seq<char>| m.map().dom().contains(k) && (#[trigger] m.map()[k]) is Branch ==> tree_wf(m.map()[k]->Branch_0),
{
    lemma_tree_wf_from_entries(m, 0);
    lemma_sorted_entries_map(m.seq());
    assert forall|k: Seq<char>| m.map().dom().contains(k) && (#[trigger] m.map()[k]) is Branch implies tree_wf(m.map()[k]->Branch_0) by {
        let j = choose|j: int| 0 <= j < m.seq().len() && #[trigger] m.seq()[j].0@ == k;
        assert(m.map()[m.seq()[j].0@] == m.seq()[j].1);
    }
}

/// Well-formedness from the map's branches and sorted entries.
pub proof fn lemma_tree_wf_from_map(m: ConfigMap)
    requires
        sorted_entries(m.seq()),
        forall|k: Seq<char>| m.map().dom().contains(k) && (#[trigger] m.map()[k]) is Branch ==> tree_wf(m.map()[k]->Branch_0),
    ensures
        tree_wf(m),
{
    lemma_sorted_entries_map(m.seq());
    assert forall|j: int| 0 <= j < m.seq().len() && (#[trigger] m.seq()[j]).1 is Branch implies tree_wf(m.seq()[j].1->Branch_0) by {
        assert(m.map().dom().contains(m.seq()[j].0@));
        assert(m.map()[m.seq()[j].0@] == m.seq()[j].1);
    }
    lemma_tree_wf_from_entries(m, 0);
}

/// The configuration value tree of a snapshot, keyed by CDI element hierarchy.
#[derive(Debug)]
pub struct ConfigTree {
    root: ConfigMap,
}

impl ConfigTree {
    #[verifier::type_invariant]
    spec fn inv(self) -> bool {
        tree_wf(self.root)
    }

    /// The top level of the tree.
    pub closed spec fn top(&self) -> ConfigMap {
        self.root
    }

    /// An empty tree.
    pub fn new() -> (r: ConfigTree)
        ensures
            r.top().map() == Map::<Seq<char>, SnapshotValueNode>::empty(),
            forall|q: Seq<Seq<char>>| #[trigger] leaf_at(r.top(), q) is None,
            flat(r.top()) == Seq::<(Seq<Seq<char>>, LeafView)>::empty(),
    {
        let root: ConfigMap = StrMap::new();
        proof {
            lemma_tree_wf_from_entries(root, 0);
            assert(flat(root) =~= Seq::<(Seq<Seq<char>>, LeafView)>::empty());
        }
        ConfigTree { root }
    }

    /// The top level of the tree.
    pub fn top_level(&self) -> (r: &ConfigMap)
        ensures
            *r == self.top(),
            tree_wf(*r),
    {
        proof { use_type_invariant(self); }
        &self.root
    }
}

/// The leaf stored at `p` (a path of keys from the root), if any.
pub open spec fn leaf_at(m: ConfigMap, p: Seq<Seq<char>>) -> Option<LeafView>
    decreases p.len(),
{
    if p.len() == 0 || !m.map().dom().contains(p[0]) {
        None
    } else {
        match m.map()[p[0]] {
            SnapshotValueNode::Leaf(l) => if p.len() == 1 { Some(l@) } else { None },
            SnapshotValueNode::Branch(c) => if p.len() == 1 { None } else { leaf_at(c, p.drop_first()) },
        }
    }
}

/// `a` is a strict prefix of `b`.
pub open spec fn is_proper_prefix(a: Seq<Seq<char>>, b: Seq<Seq<char>>) -> bool {
    a.len() < b.len() && b.subrange(0, a.len() as int) == a
}

/// The leaf at `q` after storing `l` at the non-empty path `p` of `m`: the new
/// leaf at `p`, nothing on or below `p`'s ancestors and descendants, and the
/// old leaves everywhere else.
pub open spec fn leaf_after_insert(m: ConfigMap, p: Seq<Seq<char>>, l: LeafView, q: Seq<Seq<char>>) -> Option<LeafView> {
    if q == p {
        Some(l)
    } else if is_proper_prefix(q, p) || is_proper_prefix(p, q) {
        None
    } else {
        leaf_at(m, q)
    }
}

/// All leaves of the tree with their full paths, depth first in key order.
pub open spec fn flat(m: ConfigMap) -> Seq<(Seq<Seq<char>>, LeafView)>
    decreases m,
{
    flat_from(m, 0)
}

/// Leaves of the entries from position `i` on, depth first.
pub open spec fn flat_from(m: ConfigMap, i: int) -> Seq<(Seq<Seq<char>>, LeafView)>
    decreases m, m.seq().len() - i,
{
    if i < 0 || i >= m.seq().len() {
        Seq::empty()
    } else {
        proof { lemma_entry_decreases(m, i); }
        let k = m.seq()[i].0@;
        let head = match m.seq()[i].1 {
            SnapshotValueNode::Leaf(l) => seq![(seq![k], l@)],
            SnapshotValueNode::Branch(c) => flat(c).map_values(|e: (Seq<Seq<char>>, LeafView)| (seq![k] + e.0, e.1)),
        };
        head + flat_from(m, i + 1)
    }
}

/// The leaf at `q` below the branch stored under key `k`, if any.
pub open spec fn child_leaf(r: ConfigMap, k: Seq<char>, q: Seq<Seq<char>>) -> Option<LeafView> {
    if r.map().dom().contains(k) && r.map()[k] is Branch {
        leaf_at(r.map()[k]->Branch_0, q)
    } else {
        None
    }
}

proof fn lemma_leaf_after_insert_child(old_root: ConfigMap, c: ConfigMap, new_root: ConfigMap, p: Seq<Seq<char>>, l: LeafView)
    requires
        p.len() > 1,
        new_root.map() == old_root.map().insert(p[0], SnapshotValueNode::Branch(c)),
        forall|q: Seq<Seq<char>>| #[trigger] leaf_at(c, q) == (if q == p.drop_first() { Some(l) }
            else if is_proper_prefix(q, p.drop_first()) || is_proper_prefix(p.drop_first(), q) { None }
            else { child_leaf(old_root, p[0], q) }),
    ensures
        forall|q: Seq<Seq<char>>| #[trigger] leaf_at(new_root, q) == leaf_after_insert(old_root, p, l, q),
{
    assert forall|q: Seq<Seq<char>>| #[trigger] leaf_at(new_root, q) == leaf_after_insert(old_root, p, l, q) by {
        if q.len() == 0 {
            assert(is_proper_prefix(q, p)) by { assert(p.subrange(0, 0) =~= q); }
        } else if q[0] != p[0] {
            assert(q != p);
            assert(!is_proper_prefix(q, p)) by { if q.len() < p.len() { assert(p.subrange(0, q.len() as int)[0] == p[0]); } }
            assert(!is_proper_prefix(p, q)) by { if p.len() < q.len() { assert(q.subrange(0, p.len() as int)[0] == q[0]); } }
        } else if q.len() == 1 {
            assert(is_proper_prefix(q, p)) by { assert(p.subrange(0, 1) =~= q); }
        } else {
            let qd = q.drop_first();
            let pd = p.drop_first();
            assert(leaf_at(new_root, q) == leaf_at(c, qd));
            assert((q == p) == (qd == pd)) by {
                if qd == pd { assert(q =~= seq![q[0]] + qd); assert(p =~= seq![p[0]] + pd); }
            }
            assert(is_proper_prefix(q, p) == is_proper_prefix(qd, pd)) by {
                if q.len() < p.len() {
                    if p.subrange(0, q.len() as int) == q {
                        assert(pd.subrange(0, qd.len() as int) =~= qd);
                    }
                    if pd.subrange(0, qd.len() as int) == qd {
                        assert forall|i: int| 0 <= i < q.len() implies p.subrange(0, q.len() as int)[i] == q[i] by {
                            if i > 0 { assert(pd.subrange(0, qd.len() as int)[i - 1] == qd[i - 1]); }
                        }
                        assert(p.subrange(0, q.len() as int) =~= q);
                    }
                }
            }
            assert(is_proper_prefix(p, q) == is_proper_prefix(pd, qd)) by {
                if p.len() < q.len() {
                    if q.subrange(0, p.len() as int) == p {
                        assert(qd.subrange(0, pd.len() as int) =~= pd);
                    }
                    if qd.subrange(0, pd.len() as int) == pd {
                        assert forall|i: int| 0 <= i < p.len() implies q.subrange(0, p.len() as int)[i] == p[i] by {
                            if i > 0 { assert(qd.subrange(0, pd.len() as int)[i - 1] == pd[i - 1]); }
                        }
                        assert(q.subrange(0, p.len() as int) =~= p);
                    }
                }
            }
            assert(leaf_at(old_root, q) == child_leaf(old_root, p[0], qd));
        }
    }
}

/// Stores `leaf` at `path[start..]` below `root`, creating branches on the way
/// and replacing whatever was there.
fn insert_leaf_from(root: &mut ConfigMap, path: &[String], start: usize, leaf: SnapshotLeafValue)
    requires
        start < path@.len(),
        tree_wf(*old(root)),
    ensures
        tree_wf(*final(root)),
        forall|q: Seq<Seq<char>>| #[trigger] leaf_at(*final(root), q) == leaf_after_insert(*old(root), strs(path@).skip(start as int), leaf@, q),
    decreases path@.len() - start,
{
    let ghost p = strs(path@).skip(start as int);
    let ghost old_root = *root;
    let ghost lv = leaf@;
    let key = path[start].clone();
    assert(p[0] == key@);
    proof { lemma_tree_wf_map(old_root); }
    if start + 1 == path.len() {
        root.insert(key, SnapshotValueNode::Leaf(leaf));
        proof {
            lemma_tree_wf_from_map(*root);
            assert forall|q: Seq<Seq<char>>| #[trigger] leaf_at(*root, q) == leaf_after_insert(old_root, p, lv, q) by {
                if q.len() == 0 {
                    assert(is_proper_prefix(q, p)) by { assert(p.subrange(0, 0) =~= q); }
                } else if q[0] != p[0] {
                    assert(q != p);
                    assert(!is_proper_prefix(p, q)) by { if p.len() < q.len() { assert(q.subrange(0, 1)[0] == q[0]); } }
                } else if q.len() == 1 {
                    assert(q =~= p);
                } else {
                    assert(is_proper_prefix(p, q)) by { assert(q.subrange(0, 1) =~= p); }
                }
            }
        }
        return;
    }
    let mut children: ConfigMap = match root.remove(key.as_str()) {
        Some(SnapshotValueNode::Branch(c)) => c,
        _ => StrMap::new(),
    };
    let ghost oc = children;
    proof {
        if !(old_root.map().dom().contains(p[0]) && old_root.map()[p[0]] is Branch) {
            lemma_tree_wf_from_entries(oc, 0);
        }
        assert forall|q: Seq<Seq<char>>| #[trigger] leaf_at(oc, q) == child_leaf(old_root, p[0], q) by {
            if !(old_root.map().dom().contains(p[0]) && old_root.map()[p[0]] is Branch) {
                assert(oc.map() == Map::<Seq<char>, SnapshotValueNode>::empty());
            }
        }
    }
    insert_leaf_from(&mut children, path, start + 1, leaf);
    let ghost mid = *root;
    let ghost nc = children;
    root.insert(key, SnapshotValueNode::Branch(children));
    proof {
        assert(strs(path@).skip(start + 1) =~= p.drop_first());
        assert(root.map() =~= old_root.map().insert(p[0], SnapshotValueNode::Branch(nc)));
        assert forall|q: Seq<Seq<char>>| #[trigger] leaf_at(nc, q) == (if q == p.drop_first() { Some(lv) }
            else if is_proper_prefix(q, p.drop_first()) || is_proper_prefix(p.drop_first(), q) { None }
            else { child_leaf(old_root, p[0], q) }) by {
            assert(leaf_at(nc, q) == leaf_after_insert(oc, p.drop_first(), lv, q));
        }
        lemma_leaf_after_insert_child(old_root, nc, *root, p, lv);
        lemma_tree_wf_from_map(*root);
    }
}

/// Stores `leaf` at `path` below `root`, creating intermediate branches and
/// replacing a leaf or subtree found on the way. An empty path changes nothing.
pub fn insert_config_leaf(tree: &mut ConfigTree, path: &[String], leaf: SnapshotLeafValue)
    ensures
        path@.len() == 0 ==> *final(tree) == *old(tree),
        path@.len() > 0 ==> forall|q: Seq<Seq<char>>| #[trigger] leaf_at(final(tree).top(), q) == leaf_after_insert(old(tree).top(), strs(path@), leaf@, q),
{
    proof { use_type_invariant(&*tree); }
    if path.len() == 0 {
        return;
    }
    let mut root: ConfigMap = StrMap::new();
    proof { lemma_tree_wf_from_entries(root, 0); }
    std::mem::swap(&mut root, &mut tree.root);
    insert_leaf_from(&mut root, path, 0, leaf);
    tree.root = root;
    assert(strs(path@).skip(0) =~= strs(path@));
}

/// A flattened leaf: its full path and value.
#[derive(Debug)]
pub struct SnapshotValueEntry {
    pub path: Vec<String>,
    pub leaf: SnapshotLeafValue,
}

/// Views of flattened leaves.
pub open spec fn entries_view(s: Seq<SnapshotValueEntry>) -> Seq<(Seq<Seq<char>>, LeafView)> {
    s.map_values(|e: SnapshotValueEntry| (strs(e.path@), e.leaf@))
}

/// Leaves with `pre` put in front of every path.
pub open spec fn prefixed(s: Seq<(Seq<Seq<char>>, LeafView)>, pre: Seq<Seq<char>>) -> Seq<(Seq<Seq<char>>, LeafView)> {
    s.map_values(|e: (Seq<Seq<char>>, LeafView)| (pre + e.0, e.1))
}

proof fn lemma_prefixed_concat(a: Seq<(Seq<Seq<char>>, LeafView)>, b: Seq<(Seq<Seq<char>>, LeafView)>, pre: Seq<Seq<char>>)
    ensures
        prefixed(a + b, pre) == prefixed(a, pre) + prefixed(b, pre),
{
    assert(prefixed(a + b, pre) =~= prefixed(a, pre) + prefixed(b, pre));
}

proof fn lemma_prefixed_nested(s: Seq<(Seq<Seq<char>>, LeafView)>, pre: Seq<Seq<char>>, k: Seq<char>)
    ensures
        prefixed(s.map_values(|e: (Seq<Seq<char>>, LeafView)| (seq![k] + e.0, e.1)), pre) == prefixed(s, pre.push(k)),
{
    assert forall|i: int| 0 <= i < s.len() implies (pre + (seq![k] + s[i].0)) == pre.push(k) + s[i].0 by {
        assert(pre + (seq![k] + s[i].0) =~= pre.push(k) + s[i].0);
    }
    assert(prefixed(s.map_values(|e: (Seq<Seq<char>>, LeafView)| (seq![k] + e.0, e.1)), pre) =~= prefixed(s, pre.push(k)));
}

fn flatten_into(m: &ConfigMap, prefix: &mut Vec<String>, out: &mut Vec<SnapshotValueEntry>)
    ensures
        strs(final(prefix)@) == strs(old(prefix)@),
        entries_view(final(out)@) == entries_view(old(out)@) + prefixed(flat(*m), strs(old(prefix)@)),
    decreases m,
{
    let ghost pre = strs(prefix@);
    let ghost out0 = entries_view(out@);
    let ghost mut done: Seq<(Seq<Seq<char>>, LeafView)> = Seq::empty();
    let n = m.len();
    let mut i: usize = 0;
    proof {
        assert(flat(*m) =~= done + flat_from(*m, 0));
        assert(prefixed(done, pre) =~= Seq::<(Seq<Seq<char>>, LeafView)>::empty());
        assert(entries_view(out@) =~= out0 + prefixed(done, pre));
    }
    while i < n
        invariant
            n == m.seq().len(),
            i <= n,
            flat(*m) == done + flat_from(*m, i as int),
            entries_view(out@) == out0 + prefixed(done, pre),
            strs(prefix@) == pre,
        decreases n - i,
    {
        let e = m.entry_at(i);
        let ghost k = e.0@;
        proof { lemma_entry_decreases(*m, i as int); }
        let ghost head = match m.seq()[i as int].1 {
            SnapshotValueNode::Leaf(l) => seq![(seq![k], l@)],
            SnapshotValueNode::Branch(c) => flat(c).map_values(|x: (Seq<Seq<char>>, LeafView)| (seq![k] + x.0, x.1)),
        };
        assert(flat_from(*m, i as int) == head + flat_from(*m, i + 1));
        match &e.1 {
            SnapshotValueNode::Leaf(l) => {
                let mut path = copy_strings(prefix);
                path.push(copy_string(&e.0));
                let ghost pv = strs(path@);
                assert(pv =~= pre.push(k));
                let ghost ob = out@;
                let ent = SnapshotValueEntry { path, leaf: l.copy() };
                let ghost eg = ent;
                out.push(ent);
                proof {
                    assert(out@ =~= ob.push(eg));
                    assert(entries_view(out@) =~= entries_view(ob).push((pre.push(k), l@)));
                    assert(pre + seq![k] =~= pre.push(k));
                    assert(prefixed(head, pre)[0] == (pre.push(k), l@));
                    assert(prefixed(head, pre) =~= seq![(pre.push(k), l@)]);
                    lemma_prefixed_concat(done, head, pre);
                    assert(entries_view(out@) =~= out0 + prefixed(done + head, pre));
                }
            },
            SnapshotValueNode::Branch(c) => {
                let ghost before = entries_view(out@);
                prefix.push(copy_string(&e.0));
                assert(strs(prefix@) =~= pre.push(k));
                flatten_into(c, prefix, out);
                let ghost full = prefix@;
                prefix.pop();
                proof {
                    assert(prefix@ =~= full.drop_last());
                    assert(strs(full) == pre.push(k));
                    assert(strs(prefix@) =~= strs(full).drop_last());
                    assert(strs(prefix@) =~= pre);
                    lemma_prefixed_nested(flat(*c), pre, k);
                    lemma_prefixed_concat(done, head, pre);
                    assert(entries_view(out@) =~= out0 + prefixed(done + head, pre));
                }
            },
        }
        proof {
            assert(done + head + flat_from(*m, i + 1) =~= done + (head + flat_from(*m, i + 1)));
            done = done + head;
        }
        i = i + 1;
    }
    proof {
        assert(flat_from(*m, n as int) =~= Seq::<(Seq<Seq<char>>, LeafView)>::empty());
        assert(done + flat_from(*m, n as int) =~= done);
    }
}

/// All leaves of the tree with their full paths, depth first in key order.
pub fn flatten_config(tree: &ConfigTree) -> (r: Vec<SnapshotValueEntry>)
    ensures
        entries_view(r@) == flat(tree.top()),
{
    let mut out: Vec<SnapshotValueEntry> = Vec::new();
    let mut prefix: Vec<String> = Vec::new();
    flatten_into(tree.top_level(), &mut prefix, &mut out);
    proof {
        assert(strs(Seq::<String>::empty()) =~= Seq::<Seq<char>>::empty());
        assert(prefixed(flat(tree.top()), Seq::empty()) =~= flat(tree.top())) by {
            assert forall|i: int| 0 <= i < flat(tree.top()).len() implies Seq::<Seq<char>>::empty() + flat(tree.top())[i].0 == flat(tree.top())[i].0 by {
                assert(Seq::<Seq<char>>::empty() + flat(tree.top())[i].0 =~= flat(tree.top())[i].0);
            }
        }
        assert(entries_view(out@) =~= flat(tree.top()));
    }
    out
}

/// Every flattened leaf is found again at its path.
pub proof fn lemma_flat_sound(m: ConfigMap)
    requires
        tree_wf(m),
    ensures
        forall|j: int| 0 <= j < flat(m).len() ==> (#[trigger] flat(m)[j]).0.len() > 0 && leaf_at(m, flat(m)[j].0) == Some(flat(m)[j].1),
    decreases m,
{
    lemma_flat_from_sound(m, 0);
}

proof fn lemma_flat_from_sound(m: ConfigMap, i: int)
    requires
        tree_wf(m),
        0 <= i,
    ensures
        forall|j: int| 0 <= j < flat_from(m, i).len() ==> (#[trigger] flat_from(m, i)[j]).0.len() > 0 && leaf_at(m, flat_from(m, i)[j].0) == Some(flat_from(m, i)[j].1),
    decreases m, m.seq().len() - i,
{
    if i < m.seq().len() {
        lemma_entry_decreases(m, i);
        lemma_flat_from_sound(m, i + 1);
        lemma_tree_wf_map(m);
        lemma_sorted_entries_map(m.seq());
        let k = m.seq()[i].0@;
        assert(m.map()[k] == m.seq()[i].1);
        let head = match m.seq()[i].1 {
            SnapshotValueNode::Leaf(l) => seq![(seq![k], l@)],
            SnapshotValueNode::Branch(c) => flat(c).map_values(|e: (Seq<Seq<char>>, LeafView)| (seq![k] + e.0, e.1)),
        };
        assert(flat_from(m, i) == head + flat_from(m, i + 1));
        match m.seq()[i].1 {
            SnapshotValueNode::Leaf(l) => {},
            SnapshotValueNode::Branch(c) => {
                lemma_flat_sound(c);
                assert forall|j: int| 0 <= j < head.len() implies (#[trigger] head[j]).0.len() > 0 && leaf_at(m, head[j].0) == Some(head[j].1) by {
                    let e = flat(c)[j];
                    assert(head[j] == (seq![k] + e.0, e.1));
                    assert((seq![k] + e.0).drop_first() =~= e.0);
                }
            },
        }
        assert forall|j: int| 0 <= j < flat_from(m, i).len() implies (#[trigger] flat_from(m, i)[j]).0.len() > 0 && leaf_at(m, flat_from(m, i)[j].0) == Some(flat_from(m, i)[j].1) by {
            if j < head.len() {
                assert(flat_from(m, i)[j] == head[j]);
            } else {
                assert(flat_from(m, i)[j] == flat_from(m, i + 1)[j - head.len()]);
            }
        }
    }
}

/// A leaf path has no leaf above or below it.
pub proof fn lemma_leaf_paths_exclusive(m: ConfigMap, p: Seq<Seq<char>>, q: Seq<Seq<char>>)
    requires
        leaf_at(m, p) is Some,
        is_proper_prefix(q, p) || is_proper_prefix(p, q),
    ensures
        leaf_at(m, q) is None,
    decreases p.len(),
{
    if q.len() > 0 && p.len() > 1 {
        assert(q[0] == p[0]) by {
            if is_proper_prefix(q, p) { assert(p.subrange(0, q.len() as int)[0] == p[0]); }
            else { assert(q.subrange(0, p.len() as int)[0] == q[0]); }
        }
        if q.len() > 1 {
            let c = m.map()[p[0]]->Branch_0;
            assert(is_proper_prefix(q.drop_first(), p.drop_first()) || is_proper_prefix(p.drop_first(), q.drop_first())) by {
                if is_proper_prefix(q, p) {
                    assert(p.drop_first().subrange(0, q.drop_first().len() as int) =~= q.drop_first()) by {
                        assert forall|t: int| 0 <= t < q.drop_first().len() implies p.drop_first().subrange(0, q.drop_first().len() as int)[t] == q.drop_first()[t] by {
                            assert(p.subrange(0, q.len() as int)[t + 1] == q[t + 1]);
                        }
                    }
                } else {
                    assert(q.drop_first().subrange(0, p.drop_first().len() as int) =~= p.drop_first()) by {
                        assert forall|t: int| 0 <= t < p.drop_first().len() implies q.drop_first().subrange(0, p.drop_first().len() as int)[t] == p.drop_first()[t] by {
                            assert(q.subrange(0, p.len() as int)[t + 1] == p[t + 1]);
                        }
                    }
                }
            }
            lemma_leaf_paths_exclusive(c, p.drop_first(), q.drop_first());
        }
    } else if q.len() > 0 && p.len() == 1 {
        if is_proper_prefix(p, q) {
            assert(q.subrange(0, 1)[0] == q[0]);
        }
    }
}

/// The leaf at `l` matches a memory location.
pub open spec fn leaf_matches(l: LeafView, space: u8, offset: Seq<char>) -> bool {
    l.space == Some(space) && l.offset == Some(offset)
}

/// `j` is the first flattened leaf matching the location.
pub open spec fn is_first_match(s: Seq<(Seq<Seq<char>>, LeafView)>, space: u8, offset: Seq<char>, j: int) -> bool {
    &&& 0 <= j < s.len()
    &&& leaf_matches(s[j].1, space, offset)
    &&& forall|t: int| 0 <= t < j ==> !leaf_matches(#[trigger] s[t].1, space, offset)
}

fn leaf_is_at(l: &SnapshotLeafValue, space: u8, offset: &str) -> (b: bool)
    ensures
        b == leaf_matches(l@, space, offset@),
{
    match (l.space, &l.offset) {
        (Some(sp), Some(o)) => sp == space && str_eq(o.as_str(), offset),
        _ => false,
    }
}

/// Path of the first leaf (depth first, in key order) stored at the location.
fn find_match(m: &ConfigMap, space: u8, offset: &str) -> (r: Option<Vec<String>>)
    ensures
        match r {
            Some(p) => exists|j: int| is_first_match(flat(*m), space, offset@, j) && flat(*m)[j].0 == strs(p@),
            None => forall|j: int| 0 <= j < flat(*m).len() ==> !leaf_matches(#[trigger] flat(*m)[j].1, space, offset@),
        },
    decreases m,
{
    let ghost off = offset@;
    let ghost mut done: Seq<(Seq<Seq<char>>, LeafView)> = Seq::empty();
    let n = m.len();
    let mut i: usize = 0;
    proof { assert(flat(*m) =~= done + flat_from(*m, 0)); }
    while i < n
        invariant
            n == m.seq().len(),
            i <= n,
            off == offset@,
            flat(*m) == done + flat_from(*m, i as int),
            forall|t: int| 0 <= t < done.len() ==> !leaf_matches(#[trigger] done[t].1, space, off),
        decreases n - i,
    {
        let e = m.entry_at(i);
        let ghost k = e.0@;
        proof { lemma_entry_decreases(*m, i as int); }
        let ghost head = match m.seq()[i as int].1 {
            SnapshotValueNode::Leaf(l) => seq![(seq![k], l@)],
            SnapshotValueNode::Branch(c) => flat(c).map_values(|x: (Seq<Seq<char>>, LeafView)| (seq![k] + x.0, x.1)),
        };
        assert(flat_from(*m, i as int) == head + flat_from(*m, i + 1));
        match &e.1 {
            SnapshotValueNode::Leaf(l) => {
                if leaf_is_at(l, space, offset) {
                    let mut path: Vec<String> = Vec::new();
                    path.push(copy_string(&e.0));
                    proof {
                        let j = done.len() as int;
                        assert(flat(*m)[j] == head[0]);
                        assert(strs(path@) =~= seq![k]);
                        assert(is_first_match(flat(*m), space, off, j)) by {
                            assert forall|t: int| 0 <= t < j implies !leaf_matches(#[trigger] flat(*m)[t].1, space, off) by {
                                assert(flat(*m)[t] == done[t]);
                            }
                        }
                    }
                    return Some(path);
                }
            },
            SnapshotValueNode::Branch(c) => {
                match find_match(c, space, offset) {
                    Some(cp) => {
                        let mut path: Vec<String> = Vec::new();
                        path.push(copy_string(&e.0));
                        let mut t: usize = 0;
                        while t < cp.len()
                            invariant
                                t <= cp@.len(),
                                strs(path@) == seq![k] + strs(cp@.subrange(0, t as int)),
                            decreases cp.len() - t,
                        {
                            let ghost pb = path@;
                            path.push(copy_string(&cp[t]));
                            assert(strs(path@) =~= strs(pb).push(cp@[t as int]@));
                            assert(strs(cp@.subrange(0, t + 1)) =~= strs(cp@.subrange(0, t as int)).push(cp@[t as int]@));
                            assert(strs(path@) =~= seq![k] + strs(cp@.subrange(0, t + 1)));
                            t = t + 1;
                        }
                        proof {
                            assert(cp@.subrange(0, cp@.len() as int) =~= cp@);
                            let jc = choose|jc: int| is_first_match(flat(*c), space, off, jc) && flat(*c)[jc].0 == strs(cp@);
                            let j = done.len() + jc;
                            assert(head[jc] == (seq![k] + flat(*c)[jc].0, flat(*c)[jc].1));
                            assert(flat(*m)[j] == head[jc]);
                            assert(is_first_match(flat(*m), space, off, j)) by {
                                assert forall|t2: int| 0 <= t2 < j implies !leaf_matches(#[trigger] flat(*m)[t2].1, space, off) by {
                                    if t2 < done.len() {
                                        assert(flat(*m)[t2] == done[t2]);
                                    } else {
                                        assert(flat(*m)[t2] == head[t2 - done.len()]);
                                        assert(head[t2 - done.len()].1 == flat(*c)[t2 - done.len()].1);
                                    }
                                }
                            }
                        }
                        return Some(path);
                    },
                    None => {},
                }
            },
        }
        proof {
            assert forall|t: int| 0 <= t < head.len() implies !leaf_matches(#[trigger] head[t].1, space, off) by {
                match m.seq()[i as int].1 {
                    SnapshotValueNode::Leaf(l) => {},
                    SnapshotValueNode::Branch(c) => { assert(head[t].1 == flat(c)[t].1); },
                }
            }
            assert(done + head + flat_from(*m, i + 1) =~= done + (head + flat_from(*m, i + 1)));
            assert forall|t: int| 0 <= t < (done + head).len() implies !leaf_matches(#[trigger] (done + head)[t].1, space, off) by {
                if t < done.len() { assert((done + head)[t] == done[t]); } else { assert((done + head)[t] == head[t - done.len()]); }
            }
            done = done + head;
        }
        i = i + 1;
    }
    proof {
        assert(flat_from(*m, n as int) =~= Seq::<(Seq<Seq<char>>, LeafView)>::empty());
        assert(flat(*m) =~= done);
    }
    None
}

/// Updates the baseline value of the first leaf (depth first, in key order)
/// stored at (`space`, `offset`). Returns whether a leaf was updated.
pub fn update_snapshot_baseline(tree: &mut ConfigTree, space: u8, offset: &str, new_value: &str) -> (r: bool)
    ensures
        baseline_updated(old(tree).top(), final(tree).top(), space, offset@, new_value@, r),
        !r ==> *final(tree) == *old(tree),
{
    let ghost old_top = tree.top();
    let found = find_match(tree.top_level(), space, offset);
    match found {
        Some(p) => {
            let leaf = SnapshotLeafValue { value: String::from_str(new_value), space: Some(space), offset: Some(String::from_str(offset)) };
            let ghost lv = leaf@;
            let ghost pv = strs(p@);
            proof {
                use_type_invariant(&*tree);
                lemma_flat_sound(old_top);
                let j = choose|j: int| is_first_match(flat(old_top), space, offset@, j) && flat(old_top)[j].0 == pv;
                assert(flat(old_top)[j].0.len() > 0);
            }
            insert_config_leaf(tree, p.as_slice(), leaf);
            proof {
                let j = choose|j: int| is_first_match(flat(old_top), space, offset@, j) && flat(old_top)[j].0 == pv;
                assert(leaf_at(old_top, pv) is Some);
                assert forall|q: Seq<Seq<char>>| #[trigger] leaf_at(tree.top(), q) == (if q == flat(old_top)[j].0 {
                    Some(LeafView { value: new_value@, space: Some(space), offset: Some(offset@) })
                } else {
                    leaf_at(old_top, q)
                }) by {
                    if q != pv && (is_proper_prefix(q, pv) || is_proper_prefix(pv, q)) {
                        lemma_leaf_paths_exclusive(old_top, pv, q);
                    }
                }
                assert(is_first_match(flat(old_top), space, offset@, j));
            }
            true
        },
        None => false,
    }
}

/// Reference to the CDI a snapshot was captured against.
#[derive(Debug)]
pub struct CdiReference {
    pub cache_key: String,
    pub version: String,
    pub fingerprint: String,
}

/// SNIP identity strings captured with a snapshot.
#[derive(Debug)]
pub struct SnipSnapshot {
    pub user_name: String,
    pub user_description: String,
    pub manufacturer_name: String,
    pub model_name: String,
}

impl SnipSnapshot {
    /// All-empty SNIP strings.
    pub fn default_value() -> (r: SnipSnapshot)
        ensures
            r.user_name@.len() == 0,
            r.user_description@.len() == 0,
            r.manufacturer_name@.len() == 0,
            r.model_name@.len() == 0,
    {
        SnipSnapshot { user_name: String::new(), user_description: String::new(), manufacturer_name: String::new(), model_name: String::new() }
    }
}

/// Whether every configuration value was captured.
#[derive(Clone, Copy, Debug, PartialEq, Eq, Structural)]
pub enum CaptureStatus {
    Complete,
    Partial,
}

/// A captured node: identity, CDI reference and configuration values.
#[derive(Debug)]
pub struct NodeSnapshot {
    pub node_id: NodeId,
    pub captured_at: String,
    pub capture_status: CaptureStatus,
    pub missing: Vec<String>,
    pub snip: SnipSnapshot,
    pub cdi_ref: CdiReference,
    pub config: ConfigTree,
    pub producer_identified_events: Vec<String>,
}

/// The outcome of a baseline update of `old` into `new` at a location:
/// `r` tells whether some leaf matched; if so the first match (depth first,
/// key order) holds the new value and every other leaf is unchanged.
pub open spec fn baseline_updated(old: ConfigMap, new: ConfigMap, space: u8, offset: Seq<char>, value: Seq<char>, r: bool) -> bool {
    &&& r == exists|j: int| 0 <= j < flat(old).len() && leaf_matches(#[trigger] flat(old)[j].1, space, offset)
    &&& r ==> exists|j: int| #![auto] is_first_match(flat(old), space, offset, j)
            && forall|q: Seq<Seq<char>>| #[trigger] leaf_at(new, q) == (if q == flat(old)[j].0 {
                Some(LeafView { value: value, space: Some(space), offset: Some(offset) })
            } else {
                leaf_at(old, q)
            })
    &&& !r ==> new == old
}

impl NodeSnapshot {
    /// A partial snapshot must say what is missing.
    pub fn validate(&self) -> (r: Result<(), String>)
        ensures
            r is Ok <==> !(self.capture_status == CaptureStatus::Partial && self.missing@.len() == 0),
            r matches Err(m) ==> m@ == "partial snapshots must include missing details"@,
    {
        if self.capture_status == CaptureStatus::Partial && self.missing.len() == 0 {
            return Err(String::from_str("partial snapshots must include missing details"));
        }
        Ok(())
    }

    /// Stores a configuration leaf at `path` (see [`insert_config_leaf`]).
    pub fn add_config_leaf(&mut self, path: &[String], leaf: SnapshotLeafValue)
        ensures
            path@.len() == 0 ==> final(self).config == old(self).config,
            path@.len() > 0 ==> forall|q: Seq<Seq<char>>| #[trigger] leaf_at(final(self).config.top(), q) == leaf_after_insert(old(self).config.top(), strs(path@), leaf@, q),
            final(self).node_id == old(self).node_id,
            final(self).captured_at == old(self).captured_at,
            final(self).capture_status == old(self).capture_status,
            final(self).missing == old(self).missing,
    {
        insert_config_leaf(&mut self.config, path, leaf);
    }

    /// Every configuration leaf with its full path, depth first in key order.
    pub fn flattened_config_entries(&self) -> (r: Vec<SnapshotValueEntry>)
        ensures
            entries_view(r@) == flat(self.config.top()),
    {
        flatten_config(&self.config)
    }
}

/// `Complete` when nothing is missing, `Partial` otherwise.
pub fn capture_status_from_missing(missing: &[String]) -> (r: CaptureStatus)
    ensures
        r == (if missing@.len() == 0 { CaptureStatus::Complete } else { CaptureStatus::Partial }),
{
    if missing.len() == 0 {
        CaptureStatus::Complete
    } else {
        CaptureStatus::Partial
    }
}

/// Text describing a value that could not be captured.
pub fn missing_detail(space: u8, offset_hex: &str, path: &[String]) -> (r: String)
    ensures
        r@ == "space="@ + decimal_digits(space as nat) + " offset="@ + offset_hex@ + " path="@ + join(strs(path@), seq!['/']),
{
    let mut s = String::from_str("space=");
    let d = u64_decimal(space as u64);
    s.append(d.as_str());
    s.append(" offset=");
    s.append(offset_hex);
    s.append(" path=");
    let j = join_strings(path, "/");
    proof {
        reveal_strlit("/");
        assert("/"@ =~= seq!['/']);
    }
    s.append(j.as_str());
    s
}

/// File name of a node snapshot: the uppercased node ID with `.yaml`.
pub fn canonical_node_filename(node_id: &str) -> (r: String)
    ensures
        r@ == unicode_upper(node_id@) + ".yaml"@,
{
    let mut s = to_uppercase(node_id);
    s.append(".yaml");
    s
}

/// Updates a leaf's baseline value (see [`update_snapshot_baseline`]) and,
/// when one was updated, records the new capture time.
pub fn update_snapshot_baseline_and_capture_time(
    snapshot: &mut NodeSnapshot,
    space: u8,
    offset: &str,
    new_value: &str,
    captured_at: &str,
) -> (r: bool)
    ensures
        baseline_updated(old(snapshot).config.top(), final(snapshot).config.top(), space, offset@, new_value@, r),
        r ==> final(snapshot).captured_at@ == captured_at@,
        !r ==> final(snapshot).captured_at == old(snapshot).captured_at,
        !r ==> final(snapshot).config == old(snapshot).config,
        final(snapshot).node_id == old(snapshot).node_id,
        final(snapshot).missing == old(snapshot).missing,
        final(snapshot).capture_status == old(snapshot).capture_status,
{
    let updated = update_snapshot_baseline(&mut snapshot.config, space, offset, new_value);
    if updated {
        snapshot.captured_at = String::from_str(captured_at);
    }
    updated
}

proof fn lemma_flat_from_contains(m: ConfigMap, i: int, j: int, x: (Seq<Seq<char>>, LeafView))
    requires
        0 <= i <= j,
        flat_from(m, j).contains(x),
    ensures
        flat_from(m, i).contains(x),
    decreases j - i,
{
    if i < j {
        lemma_flat_from_contains(m, i + 1, j, x);
        if i < m.seq().len() {
            lemma_entry_decreases(m, i);
            let k = m.seq()[i].0@;
            let head = match m.seq()[i].1 {
                SnapshotValueNode::Leaf(l) => seq![(seq![k], l@)],
                SnapshotValueNode::Branch(c) => flat(c).map_values(|e: (Seq<Seq<char>>, LeafView)| (seq![k] + e.0, e.1)),
            };
            assert(flat_from(m, i) == head + flat_from(m, i + 1));
            let t = choose|t: int| 0 <= t < flat_from(m, i + 1).len() && #[trigger] flat_from(m, i + 1)[t] == x;
            assert((head + flat_from(m, i + 1))[head.len() + t] == x);
        } else {
            assert(flat_from(m, i + 1).len() == 0);
        }
    }
}

/// Every stored leaf is listed by the flattening.
pub proof fn lemma_flat_complete(m: ConfigMap, p: Seq<Seq<char>>)
    requires
        tree_wf(m),
        leaf_at(m, p) is Some,
    ensures
        flat(m).contains((p, leaf_at(m, p)->0)),
    decreases m,
{
    lemma_tree_wf_map(m);
    lemma_sorted_entries_map(m.seq());
    let k = p[0];
    let i = choose|i: int| 0 <= i < m.seq().len() && #[trigger] m.seq()[i].0@ == k;
    assert(m.map()[m.seq()[i].0@] == m.seq()[i].1);
    lemma_entry_decreases(m, i);
    let head = match m.seq()[i].1 {
        SnapshotValueNode::Leaf(l) => seq![(seq![k], l@)],
        SnapshotValueNode::Branch(c) => flat(c).map_values(|e: (Seq<Seq<char>>, LeafView)| (seq![k] + e.0, e.1)),
    };
    assert(flat_from(m, i) == head + flat_from(m, i + 1));
    let x = (p, leaf_at(m, p)->0);
    match m.seq()[i].1 {
        SnapshotValueNode::Leaf(l) => {
            assert(p =~= seq![k]);
            assert((head + flat_from(m, i + 1))[0] == x);
        },
        SnapshotValueNode::Branch(c) => {
            let pd = p.drop_first();
            lemma_flat_complete(c, pd);
            let t = choose|t: int| 0 <= t < flat(c).len() && #[trigger] flat(c)[t] == (pd, leaf_at(c, pd)->0);
            assert(seq![k] + pd =~= p);
            assert(head[t] == x);
            assert((head + flat_from(m, i + 1))[t] == x);
        },
    }
    assert(flat_from(m, i).contains(x));
    lemma_flat_from_contains(m, 0, i, x);
}

/// Flattening lists exactly the stored leaves: a path and value appear in the
/// flattened list if and only if that value is stored at that path.
pub proof fn law_flat_lists_exactly_the_leaves(m: ConfigMap)
    requires
        tree_wf(m),
    ensures
        forall|p: Seq<Seq<char>>, l: LeafView| leaf_at(m, p) == Some(l) <==> #[trigger] flat(m).contains((p, l)),
{
    lemma_flat_sound(m);
    assert forall|p: Seq<Seq<char>>, l: LeafView| leaf_at(m, p) == Some(l) <==> #[trigger] flat(m).contains((p, l)) by {
        if leaf_at(m, p) == Some(l) {
            lemma_flat_complete(m, p);
        }
        if flat(m).contains((p, l)) {
            let j = choose|j: int| 0 <= j < flat(m).len() && #[trigger] flat(m)[j] == (p, l);
            assert(leaf_at(m, flat(m)[j].0) == Some(flat(m)[j].1));
        }
    }
}

/// Reading back a stored leaf gives it; leaves on unrelated paths keep their
/// values; nothing remains above or below the stored path.
pub proof fn law_insert_then_read(m: ConfigMap, p: Seq<Seq<char>>, l: LeafView, q: Seq<Seq<char>>)
    requires
        p.len() > 0,
    ensures
        leaf_after_insert(m, p, l, p) == Some(l),
        !is_proper_prefix(q, p) && !is_proper_prefix(p, q) && q != p ==> leaf_after_insert(m, p, l, q) == leaf_at(m, q),
        is_proper_prefix(q, p) || is_proper_prefix(p, q) ==> leaf_after_insert(m, p, l, q) is None,
{
}

/// Law: flattening after storing `l` at `p` lists `(p, l)`, drops whatever
/// stood above or below `p`, and keeps every other listed leaf: a path and
/// value are listed afterwards exactly when they are `(p, l)` or were listed
/// before on a path unrelated to `p`.
pub proof fn law_flat_after_insert(m: ConfigMap, m2: ConfigMap, p: Seq<Seq<char>>, l: LeafView)
    requires
        tree_wf(m),
        tree_wf(m2),
        p.len() > 0,
        forall|q: Seq<Seq<char>>| #[trigger] leaf_at(m2, q) == leaf_after_insert(m, p, l, q),
    ensures
        forall|q: Seq<Seq<char>>, v: LeafView| #[trigger] flat(m2).contains((q, v)) <==>
            ((q == p && v == l) || (q != p && !is_proper_prefix(q, p) && !is_proper_prefix(p, q) && flat(m).contains((q, v)))),
{
    law_flat_lists_exactly_the_leaves(m);
    law_flat_lists_exactly_the_leaves(m2);
    assert forall|q: Seq<Seq<char>>, v: LeafView| #[trigger] flat(m2).contains((q, v)) <==>
            ((q == p && v == l) || (q != p && !is_proper_prefix(q, p) && !is_proper_prefix(p, q) && flat(m).contains((q, v)))) by {
        assert(leaf_at(m2, q) == leaf_after_insert(m, p, l, q));
        assert(leaf_at(m2, q) == Some(v) <==> flat(m2).contains((q, v)));
        assert(leaf_at(m, q) == Some(v) <==> flat(m).contains((q, v)));
    }
}

} // verus!
