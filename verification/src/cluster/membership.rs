//! Cluster membership.
//!
//! Each node is registered in etcd under a key of its own, with a lease that it refreshes. A
//! watch on these keys keeps the local view of the cluster.

use crate::cluster::config::ClusterConfig;
use crate::cluster::ring::{ring_add, ring_drop, ConsistentHashRing, Ring};
use crate::text::{chars_of, str_eq, string_of_range};
use vstd::prelude::*;

verus! {

/// The time to live of a node's lease, in seconds.
pub const LEASE_TTL_SECS: i64 = 15;

/// How often a node refreshes its lease, in seconds.
pub fn refresh_interval_secs() -> (secs: u64)
    ensures
        secs == 5,
{
    (LEASE_TTL_SECS / 3) as u64
}

/// What the key of every node starts with.
pub open spec fn nodes_prefix() -> Seq<char> {
    "/infralens/nodes/"@
}

/// What the key of every node starts with.
pub fn prefix() -> (out: &'static str)
    ensures
        out@ == nodes_prefix(),
{
    "/infralens/nodes/"
}

/// A node of the cluster.
#[derive(Debug)]
pub struct NodeMeta {
    pub node_id: String,
    pub internal_grpc_addr: String,
    pub version: String,
    pub started_at_ns: u64,
}

/// A node as mathematical values.
pub struct NodeModel {
    pub node_id: Seq<char>,
    pub internal_grpc_addr: Seq<char>,
    pub version: Seq<char>,
    pub started_at_ns: u64,
}

impl View for NodeMeta {
    type V = NodeModel;

    open spec fn view(&self) -> NodeModel {
        NodeModel {
            node_id: self.node_id@,
            internal_grpc_addr: self.internal_grpc_addr@,
            version: self.version@,
            started_at_ns: self.started_at_ns,
        }
    }
}

/// The nodes of a list.
pub open spec fn node_views(v: Seq<NodeMeta>) -> Seq<NodeModel> {
    v.map_values(|n: NodeMeta| n@)
}

impl NodeMeta {
    /// A copy of this node.
    pub fn duplicate(&self) -> (out: NodeMeta)
        ensures
            out@ == self@,
    {
        NodeMeta {
            node_id: self.node_id.clone(),
            internal_grpc_addr: self.internal_grpc_addr.clone(),
            version: self.version.clone(),
            started_at_ns: self.started_at_ns,
        }
    }
}

/// The key under which a node is registered.
pub fn node_key(node_id: &str) -> (out: String)
    ensures
        out@ == nodes_prefix() + node_id@,
{
    let mut out = "/infralens/nodes/".to_string();
    out.append(node_id);
    out
}

/// What a node registers: its key, and what it says of itself.
pub fn registration(config: &ClusterConfig, version: &str, started_at_ns: u64) -> (out: (
    String,
    NodeMeta,
))
    ensures
        out.0@ == nodes_prefix() + config.node_id@,
        out.1@ == (NodeModel {
            node_id: config.node_id@,
            internal_grpc_addr: config.internal_grpc_addr@,
            version: version@,
            started_at_ns,
        }),
{
    let meta = NodeMeta {
        node_id: config.node_id.clone(),
        internal_grpc_addr: config.internal_grpc_addr.clone(),
        version: version.to_string(),
        started_at_ns,
    };
    (node_key(config.node_id.as_str()), meta)
}

/// A key without the prefix at its start, as often as it stands there.
pub open spec fn without_prefix(key: Seq<char>, prefix: Seq<char>) -> Seq<char>
    decreases key.len(),
{
    if prefix.len() > 0 && prefix.len() <= key.len() && key.take(prefix.len() as int) == prefix {
        without_prefix(key.skip(prefix.len() as int), prefix)
    } else {
        key
    }
}

/// The node that a key belongs to.
pub open spec fn node_of_key(key: Seq<char>) -> Seq<char> {
    without_prefix(key, nodes_prefix())
}

/// The node that a key belongs to.
pub fn node_id_of_key(key: &str) -> (out: String)
    ensures
        out@ == node_of_key(key@),
{
    let chars = chars_of(key);
    let lead = chars_of(prefix());
    let n: usize = lead.len();
    let mut from: usize = 0;
    proof {
        reveal_strlit("/infralens/nodes/");
        assert(chars@.skip(0) =~= chars@);
    }
    loop
        invariant
            chars@ == key@,
            lead@ == nodes_prefix(),
            n == lead@.len(),
            n > 0,
            from <= chars@.len(),
            without_prefix(key@, nodes_prefix()) == without_prefix(
                chars@.skip(from as int),
                nodes_prefix(),
            ),
        decreases chars@.len() - from,
    {
        let ghost rest = chars@.skip(from as int);
        if chars.len() - from < n {
            let out = string_of_range(&chars, from, chars.len());
            assert(out@ =~= rest);
            return out;
        }
        let mut k: usize = 0;
        while k < n && chars[from + k] == lead[k]
            invariant
                n == lead@.len(),
                n <= chars.len() - from,
                k <= n,
                from <= chars@.len(),
                forall|i: int| 0 <= i < k ==> chars@[from + i] == #[trigger] lead@[i],
            decreases n - k,
        {
            k = k + 1;
        }
        if k < n {
            assert(rest.take(n as int)[k as int] != lead@[k as int]);
            let out = string_of_range(&chars, from, chars.len());
            assert(out@ =~= rest);
            return out;
        }
        assert(rest.take(n as int) =~= lead@);
        assert(rest.skip(n as int) =~= chars@.skip(from + n));
        from = from + n;
    }
}

// ── View ────────────────────────────────────────────────────────────────────

/// The nodes of the cluster, and where they stand on the ring.
#[derive(Debug)]
pub struct ClusterView {
    pub nodes: Vec<NodeMeta>,
    pub ring: ConsistentHashRing,
}

/// A view as mathematical values.
pub struct ViewModel {
    pub nodes: Seq<NodeModel>,
    pub ring: Ring,
}

impl View for ClusterView {
    type V = ViewModel;

    open spec fn view(&self) -> ViewModel {
        ViewModel { nodes: node_views(self.nodes@), ring: self.ring@ }
    }
}

/// What has happened to a registered key.
pub enum MembershipEvent {
    /// A node was registered.
    Joined(NodeMeta),
    /// The key of a node is gone.
    Left(String),
}

/// The nodes without those that have a name.
pub open spec fn without_node(nodes: Seq<NodeModel>, node_id: Seq<char>) -> Seq<NodeModel> {
    nodes.filter(|n: NodeModel| n.node_id != node_id)
}

/// A view after an event. A node that joins again takes the place of its earlier
/// registration.
pub open spec fn view_after(v: ViewModel, e: MembershipEvent, slots: u32) -> ViewModel {
    match e {
        MembershipEvent::Joined(m) => ViewModel {
            nodes: without_node(v.nodes, m.node_id@).push(m@),
            ring: ring_add(v.ring, m.node_id@, slots),
        },
        MembershipEvent::Left(key) => ViewModel {
            nodes: without_node(v.nodes, node_of_key(key@)),
            ring: ring_drop(v.ring, node_of_key(key@), slots),
        },
    }
}

/// The ring of the given nodes.
pub open spec fn ring_of(nodes: Seq<NodeModel>, slots: u32) -> Ring
    decreases nodes.len(),
{
    if nodes.len() == 0 {
        Seq::empty()
    } else {
        ring_add(ring_of(nodes.drop_last(), slots), nodes.last().node_id, slots)
    }
}

/// The nodes of a list without those that have a name.
fn retain_others(nodes: Vec<NodeMeta>, node_id: &str) -> (out: Vec<NodeMeta>)
    ensures
        node_views(out@) == without_node(node_views(nodes@), node_id@),
{
    let ghost all = node_views(nodes@);
    let ghost keep = |n: NodeModel| n.node_id != node_id@;
    let mut out: Vec<NodeMeta> = Vec::new();
    assert(node_views(out@) =~= all.take(0).filter(keep));
    for i in 0..nodes.len()
        invariant
            all == node_views(nodes@),
            keep == |n: NodeModel| n.node_id != node_id@,
            node_views(out@) == all.take(i as int).filter(keep),
    {
        let ghost before = node_views(out@);
        assert(all.take(i + 1).drop_last() =~= all.take(i as int));
        assert(all.take(i + 1).last() == all[i as int]);
        reveal(Seq::filter);
        if !str_eq(nodes[i].node_id.as_str(), node_id) {
            out.push(nodes[i].duplicate());
            assert(node_views(out@) =~= before.push(all[i as int]));
        }
    }
    assert(all.take(all.len() as int) =~= all);
    out
}

impl ClusterView {
    /// A view of the nodes that are registered, with the given number of positions each.
    pub fn load(nodes: Vec<NodeMeta>, virtual_nodes: u32) -> (v: ClusterView)
        ensures
            v.ring.wf(),
            v.nodes == nodes,
            v@.ring == ring_of(node_views(nodes@), virtual_nodes),
            v.ring.slots() == virtual_nodes,
            v.ring.changes() == nodes@.len(),
    {
        let ghost all = node_views(nodes@);
        let mut ring = ConsistentHashRing::new(virtual_nodes);
        assert(all.take(0) =~= Seq::empty());
        for i in 0..nodes.len()
            invariant
                all == node_views(nodes@),
                ring.wf(),
                ring.slots() == virtual_nodes,
                ring@ == ring_of(all.take(i as int), virtual_nodes),
                ring.changes() == i,
        {
            assert(all.take(i + 1).drop_last() =~= all.take(i as int));
            assert(all.take(i + 1).last() == nodes@[i as int]@);
            ring.add_node(nodes[i].node_id.as_str());
        }
        assert(all.take(all.len() as int) =~= all);
        ClusterView { nodes, ring }
    }

    /// Brings the view up to date with an event.
    pub fn apply(&mut self, event: MembershipEvent)
        requires
            old(self).ring.wf(),
            old(self).ring.changes() < u64::MAX,
        ensures
            final(self).ring.wf(),
            final(self)@ == view_after(old(self)@, event, old(self).ring.slots()),
            final(self).ring.slots() == old(self).ring.slots(),
            final(self).ring.changes() == old(self).ring.changes() + 1,
    {
        let mut nodes: Vec<NodeMeta> = Vec::new();
        core::mem::swap(&mut nodes, &mut self.nodes);
        match event {
            MembershipEvent::Joined(meta) => {
                let mut kept = retain_others(nodes, meta.node_id.as_str());
                self.ring.add_node(meta.node_id.as_str());
                let ghost before = node_views(kept@);
                let ghost m = meta@;
                kept.push(meta);
                assert(node_views(kept@) =~= before.push(m));
                self.nodes = kept;
            },
            MembershipEvent::Left(key) => {
                let node_id = node_id_of_key(key.as_str());
                self.nodes = retain_others(nodes, node_id.as_str());
                self.ring.remove_node(node_id.as_str());
            },
        }
    }

    /// A copy of this view.
    pub fn duplicate(&self) -> (out: ClusterView)
        ensures
            out@ == self@,
            out.ring.slots() == self.ring.slots(),
            out.ring.changes() == self.ring.changes(),
    {
        let ghost all = node_views(self.nodes@);
        let mut nodes: Vec<NodeMeta> = Vec::new();
        for i in 0..self.nodes.len()
            invariant
                all == node_views(self.nodes@),
                nodes@.len() == i,
                node_views(nodes@) =~= all.take(i as int),
        {
            let ghost before = node_views(nodes@);
            nodes.push(self.nodes[i].duplicate());
            assert(node_views(nodes@) =~= before.push(all[i as int]));
        }
        assert(all.take(all.len() as int) =~= all);
        ClusterView { nodes, ring: self.ring.duplicate() }
    }
}

/// Whether a node is among others.
pub open spec fn is_member(nodes: Seq<NodeModel>, node_id: Seq<char>) -> bool {
    exists|i: int| 0 <= i < nodes.len() && (#[trigger] nodes[i]).node_id == node_id
}

/// The address of a node: that of its first registration.
pub open spec fn addr_of(nodes: Seq<NodeModel>, node_id: Seq<char>, i: nat) -> Option<Seq<char>>
    decreases nodes.len() - i,
{
    if i >= nodes.len() {
        None
    } else if nodes[i as int].node_id == node_id {
        Some(nodes[i as int].internal_grpc_addr)
    } else {
        addr_of(nodes, node_id, i + 1)
    }
}

/// The membership of a node in the cluster: its configuration and its view.
pub struct ClusterMembership {
    pub config: ClusterConfig,
    pub view: ClusterView,
}

impl ClusterMembership {
    /// A copy of the current view.
    pub fn view(&self) -> (out: ClusterView)
        ensures
            out@ == self.view@,
            out.ring.slots() == self.view.ring.slots(),
            out.ring.changes() == self.view.ring.changes(),
    {
        self.view.duplicate()
    }

    /// Whether a node is in the view.
    pub fn is_alive(&self, node_id: &str) -> (yes: bool)
        ensures
            yes == is_member(self.view@.nodes, node_id@),
    {
        let ghost all = node_views(self.view.nodes@);
        for i in 0..self.view.nodes.len()
            invariant
                all == node_views(self.view.nodes@),
                forall|j: int| 0 <= j < i ==> (#[trigger] all[j]).node_id != node_id@,
        {
            assert(all[i as int] == self.view.nodes@[i as int]@);
            if str_eq(self.view.nodes[i].node_id.as_str(), node_id) {
                assert(self.view@.nodes[i as int].node_id == node_id@);
                return true;
            }
        }
        false
    }

    /// The address of a node, if it is in the view.
    pub fn grpc_addr(&self, node_id: &str) -> (out: Option<String>)
        ensures
            crate::storage::zone_map::opt_text(out) == addr_of(self.view@.nodes, node_id@, 0),
    {
        find_addr(&self.view.nodes, node_id)
    }
}

/// The address of a node, if it is among others.
pub fn find_addr(nodes: &Vec<NodeMeta>, node_id: &str) -> (out: Option<String>)
    ensures
        crate::storage::zone_map::opt_text(out) == addr_of(node_views(nodes@), node_id@, 0),
{
    let ghost all = node_views(nodes@);
    for i in 0..nodes.len()
        invariant
            all == node_views(nodes@),
            addr_of(all, node_id@, 0) == addr_of(all, node_id@, i as nat),
    {
        assert(all[i as int] == nodes@[i as int]@);
        if str_eq(nodes[i].node_id.as_str(), node_id) {
            return Some(nodes[i].internal_grpc_addr.clone());
        }
    }
    None
}

// ── Laws ────────────────────────────────────────────────────────────────────

/// The node of a node's key is the node, unless its name itself starts like a key.
pub proof fn key_gives_node_back(node_id: Seq<char>)
    requires
        !(nodes_prefix().len() <= node_id.len() && node_id.take(nodes_prefix().len() as int)
            == nodes_prefix()),
    ensures
        node_of_key(nodes_prefix() + node_id) == node_id,
{
    reveal_strlit("/infralens/nodes/");
    let key = nodes_prefix() + node_id;
    assert(key.take(nodes_prefix().len() as int) =~= nodes_prefix());
    assert(key.skip(nodes_prefix().len() as int) =~= node_id);
    assert(without_prefix(node_id, nodes_prefix()) == node_id);
}

/// A node that has joined is in the view, and one that has left is not; other nodes are not
/// concerned.
pub proof fn events_change_one_node(v: ViewModel, e: MembershipEvent, slots: u32, other: Seq<char>)
    ensures
        e matches MembershipEvent::Joined(m) ==> is_member(
            view_after(v, e, slots).nodes,
            m.node_id@,
        ) && (other != m.node_id@ ==> (is_member(view_after(v, e, slots).nodes, other)
            <==> is_member(v.nodes, other))),
        e matches MembershipEvent::Left(key) ==> !is_member(
            view_after(v, e, slots).nodes,
            node_of_key(key@),
        ) && (other != node_of_key(key@) ==> (is_member(view_after(v, e, slots).nodes, other)
            <==> is_member(v.nodes, other))),
{
    let gone = match e {
        MembershipEvent::Joined(m) => m.node_id@,
        MembershipEvent::Left(key) => node_of_key(key@),
    };
    let keep = |n: NodeModel| n.node_id != gone;
    let kept = without_node(v.nodes, gone);
    let after = view_after(v, e, slots).nodes;
    if is_member(kept, gone) {
        let i = choose|i: int| 0 <= i < kept.len() && (#[trigger] kept[i]).node_id == gone;
        v.nodes.lemma_filter_pred(keep, i);
    }
    if other != gone {
        if is_member(v.nodes, other) {
            let i = choose|i: int| 0 <= i < v.nodes.len() && (#[trigger] v.nodes[i]).node_id == other;
            v.nodes.lemma_filter_contains(keep, i);
            let j = choose|j: int| 0 <= j < kept.len() && kept[j] == v.nodes[i];
            assert(kept[j].node_id == other);
            assert(after[j] == kept[j]);
        }
        if is_member(after, other) {
            let i = choose|i: int| 0 <= i < after.len() && (#[trigger] after[i]).node_id == other;
            assert(i < kept.len());
            assert(after[i] == kept[i]);
            assert(kept.contains(kept[i]));
            v.nodes.lemma_filter_contains_rev(keep, kept[i]);
            let j = choose|j: int| 0 <= j < v.nodes.len() && v.nodes[j] == kept[i];
            assert(v.nodes[j].node_id == other);
        }
    }
    if e is Joined {
        assert(after[kept.len() as int].node_id == gone);
    }
}

proof fn lemma_address(nodes: Seq<NodeModel>, node_id: Seq<char>, i: nat, k: int)
    requires
        i <= k < nodes.len(),
        nodes[k].node_id == node_id,
        forall|j: int| i <= j < k ==> (#[trigger] nodes[j]).node_id != node_id,
    ensures
        addr_of(nodes, node_id, i) == Some(nodes[k].internal_grpc_addr),
    decreases k - i,
{
    if i < k {
        assert(nodes[i as int].node_id != node_id);
        lemma_address(nodes, node_id, i + 1, k);
    }
}

proof fn lemma_no_address(nodes: Seq<NodeModel>, node_id: Seq<char>, i: nat)
    requires
        forall|j: int| i <= j < nodes.len() ==> (#[trigger] nodes[j]).node_id != node_id,
    ensures
        addr_of(nodes, node_id, i) is None,
    decreases nodes.len() - i,
{
    if i < nodes.len() {
        assert(nodes[i as int].node_id != node_id);
        lemma_no_address(nodes, node_id, i + 1);
    }
}

/// A node that has joined is found at the address that it joined with, also where it joins
/// again, and one that has left has no address.
pub proof fn nodes_are_found_at_their_last_address(v: ViewModel, e: MembershipEvent, slots: u32)
    ensures
        e matches MembershipEvent::Joined(m) ==> addr_of(view_after(v, e, slots).nodes, m.node_id@, 0)
            == Some(m@.internal_grpc_addr),
        e matches MembershipEvent::Left(key) ==> addr_of(
            view_after(v, e, slots).nodes,
            node_of_key(key@),
            0,
        ) is None,
{
    let gone = match e {
        MembershipEvent::Joined(m) => m.node_id@,
        MembershipEvent::Left(key) => node_of_key(key@),
    };
    let keep = |n: NodeModel| n.node_id != gone;
    let kept = without_node(v.nodes, gone);
    assert(kept == v.nodes.filter(keep));
    assert forall|j: int| 0 <= j < kept.len() implies (#[trigger] kept[j]).node_id != gone by {
        v.nodes.lemma_filter_pred(keep, j);
    }
    match e {
        MembershipEvent::Joined(m) => {
            let after = view_after(v, e, slots).nodes;
            assert(after == kept.push(m@));
            assert forall|j: int| 0 <= j < kept.len() implies (#[trigger] after[j]).node_id
                != gone by {
                assert(after[j] == kept[j]);
            }
            lemma_address(after, gone, 0, kept.len() as int);
        },
        MembershipEvent::Left(key) => {
            lemma_no_address(kept, gone, 0);
        },
    }
}

} // verus!
