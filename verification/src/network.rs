//! The buffer network: a directed graph of nodes where every directed edge
//! owns an ordered queue of packets.
//!
//! Nodes are referenced by dense indices, edges by ordered `(from, to)`
//! pairs.  Each node keeps its outgoing edges in the order they were added,
//! and a hash index from target node to slot for constant-time lookup.

use vstd::prelude::*;
use vstd::std_specs::vec::vec_index_mut;
use crate::packet::Packet;
pub use crate::packet::NodeID;

verus! {

/// An ordered queue of packets: the front is the oldest-inserted packet.
pub type Buffer = Vec<Packet>;

/// An edge of the graph together with its queue of packets.
pub struct EdgeBuffer {
    pub buffer: Buffer,
}

impl EdgeBuffer {
    /// Get a new empty `EdgeBuffer`.
    pub fn new() -> (eb: Self)
        ensures
            eb.buffer@ == Seq::<Packet>::empty(),
    {
        EdgeBuffer { buffer: Vec::new() }
    }
}

/// Hash index from a target node id to the slot of the corresponding edge
/// in the owning node's edge lists.  The map itself is opaque to the
/// verifier; its contents are exposed through `edge_index_entries`.
#[verifier::external_body]
pub struct EdgeIndex {
    map: hashbrown::HashMap<NodeID, usize>,
}

/// The entries held by an `EdgeIndex`.
pub uninterp spec fn edge_index_entries(idx: EdgeIndex) -> Map<NodeID, usize>;

/// The contents of an index with no entries.
pub open spec fn empty_entries() -> Map<NodeID, usize> {
    Map::empty()
}

/// Relies on hashbrown::HashMap::new: a freshly created map holds no
/// entries.
#[verifier::external_body]
fn edge_index_new() -> (idx: EdgeIndex)
    ensures
        edge_index_entries(idx) == empty_entries(),
{
    EdgeIndex { map: hashbrown::HashMap::new() }
}

/// Relies on hashbrown::HashMap::insert: afterwards the key maps to the
/// given value and every other entry is unchanged.
#[verifier::external_body]
fn edge_index_insert(idx: &mut EdgeIndex, key: NodeID, value: usize)
    ensures
        edge_index_entries(*final(idx)) == edge_index_entries(*old(idx)).insert(key, value),
{
    idx.map.insert(key, value);
}

/// Relies on hashbrown::HashMap::get: returns the value stored under the
/// key, or nothing when the key is absent.
#[verifier::external_body]
fn edge_index_get(idx: &EdgeIndex, key: NodeID) -> (r: Option<usize>)
    ensures
        r == if edge_index_entries(*idx).dom().contains(key) {
            Some(edge_index_entries(*idx)[key])
        } else {
            None::<usize>
        },
{
    idx.map.get(&key).copied()
}

/// A node of the graph: its outgoing edges in insertion order, the queue of
/// each such edge, and the hash index from target id to slot.
pub struct Node {
    pub to_ids: Vec<NodeID>,
    pub buffers: Vec<EdgeBuffer>,
    pub index: EdgeIndex,
}

impl Node {
    /// One queue per outgoing edge, no duplicate targets, and the hash
    /// index holds exactly each target mapped to its slot.
    pub open spec fn wf(self) -> bool {
        &&& self.to_ids@.len() == self.buffers@.len()
        &&& forall|i: int, j: int|
            0 <= i < j < self.to_ids@.len() ==> self.to_ids@[i] != self.to_ids@[j]
        &&& forall|i: int|
            0 <= i < self.to_ids@.len() ==> {
                &&& edge_index_entries(self.index).dom().contains(#[trigger] self.to_ids@[i])
                &&& edge_index_entries(self.index)[self.to_ids@[i]] == i
            }
        &&& forall|k: NodeID|
            #[trigger] edge_index_entries(self.index).dom().contains(k)
                ==> self.to_ids@.contains(k)
    }

    /// Get a new node with no outgoing edges.
    pub fn new() -> (n: Self)
        ensures
            n.wf(),
            n.to_ids@ == Seq::<NodeID>::empty(),
            n.buffers@ == Seq::<EdgeBuffer>::empty(),
    {
        let n = Node { to_ids: Vec::new(), buffers: Vec::new(), index: edge_index_new() };
        proof {
            assert forall|k: NodeID|
                #[trigger] edge_index_entries(n.index).dom().contains(k)
                    implies n.to_ids@.contains(k) by {
                assert(!Map::<NodeID, usize>::empty().dom().contains(k));
            }
        }
        n
    }
}

/// The buffer network itself: the vector of nodes owns all storage.
pub struct Network {
    pub nodes: Vec<Node>,
}

/// Two networks have the same nodes and the same edges in the same order;
/// only the queue contents may differ.
pub open spec fn same_shape(a: Network, b: Network) -> bool {
    &&& a.nodes@.len() == b.nodes@.len()
    &&& forall|i: int| 0 <= i < a.nodes@.len() ==> #[trigger] b.nodes@[i].to_ids@ == a.nodes@[i].to_ids@
}

impl Network {
    /// The number of nodes.
    pub open spec fn num_nodes(self) -> nat {
        self.nodes@.len()
    }

    /// Every node is well formed and every edge points at an existing node.
    pub open spec fn wf(self) -> bool {
        &&& self.nodes@.len() <= usize::MAX
        &&& forall|i: int| 0 <= i < self.nodes@.len() ==> (#[trigger] self.nodes@[i]).wf()
        &&& forall|i: int, j: int|
            0 <= i < self.nodes@.len() && 0 <= j < self.nodes@[i].to_ids@.len()
                ==> #[trigger] self.nodes@[i].to_ids@[j] < self.nodes@.len()
    }

    /// There is an edge from `from` to `to`.
    pub open spec fn has_edge(self, from: NodeID, to: NodeID) -> bool {
        from < self.nodes@.len() && self.nodes@[from as int].to_ids@.contains(to)
    }

    /// The slot of edge `(from, to)` among `from`'s outgoing edges.
    pub open spec fn edge_slot(self, from: NodeID, to: NodeID) -> int {
        self.nodes@[from as int].to_ids@.index_of(to)
    }

    /// The queue of packets held by edge `(from, to)`.
    pub open spec fn buffer(self, from: NodeID, to: NodeID) -> Seq<Packet> {
        self.nodes@[from as int].buffers@[self.edge_slot(from, to)].buffer@
    }

    /// The outgoing edges of one node, in insertion order.
    pub open spec fn node_edges(self, from: int) -> Seq<(NodeID, NodeID)> {
        Seq::new(
            self.nodes@[from].to_ids@.len(),
            |j: int| ((from as NodeID), self.nodes@[from].to_ids@[j]),
        )
    }

    /// All edges of the nodes below `n`: grouped by source node in
    /// ascending order, then in edge-insertion order.
    pub open spec fn edges_up_to(self, n: int) -> Seq<(NodeID, NodeID)>
        decreases n,
    {
        if n <= 0 {
            Seq::empty()
        } else {
            self.edges_up_to(n - 1) + self.node_edges(n - 1)
        }
    }

    /// The canonical edge order of the whole network.
    pub open spec fn edges(self) -> Seq<(NodeID, NodeID)> {
        self.edges_up_to(self.num_nodes() as int)
    }

    /// The slot of an existing edge is the unique position of `to` among
    /// `from`'s targets.
    pub proof fn lemma_edge_slot(self, from: NodeID, to: NodeID)
        requires
            self.wf(),
            self.has_edge(from, to),
        ensures
            0 <= self.edge_slot(from, to) < self.nodes@[from as int].to_ids@.len(),
            self.nodes@[from as int].to_ids@[self.edge_slot(from, to)] == to,
            forall|j: int|
                0 <= j < self.nodes@[from as int].to_ids@.len()
                    && self.nodes@[from as int].to_ids@[j] == to ==> j == self.edge_slot(from, to),
    {
        let ids = self.nodes@[from as int].to_ids@;
        assert(exists|i: int| 0 <= i < ids.len() && ids[i] == to);
        let s = self.edge_slot(from, to);
        assert(0 <= s < ids.len() && ids[s] == to);
        assert forall|j: int| 0 <= j < ids.len() && ids[j] == to implies j == s by {
            if j != s {
                assert(self.nodes@[from as int].wf());
            }
        }
    }
}

/// `edges_up_to` depends only on the node count prefix and the target
/// lists, so networks that agree on those agree on their edge order.
pub proof fn lemma_edges_up_to_congruent(a: Network, b: Network, n: int)
    requires
        0 <= n,
        n <= a.nodes@.len(),
        n <= b.nodes@.len(),
        forall|i: int| 0 <= i < n ==> #[trigger] a.nodes@[i].to_ids@ == b.nodes@[i].to_ids@,
    ensures
        a.edges_up_to(n) == b.edges_up_to(n),
    decreases n,
{
    if n > 0 {
        lemma_edges_up_to_congruent(a, b, n - 1);
        assert(a.node_edges(n - 1) =~= b.node_edges(n - 1));
        assert(a.edges_up_to(n) =~= b.edges_up_to(n));
    }
}

/// Every listed edge exists, its source is below `n`, and no edge is
/// listed twice.
pub proof fn lemma_edges_up_to_props(net: Network, n: int)
    requires
        net.wf(),
        0 <= n <= net.nodes@.len(),
    ensures
        forall|k: int|
            0 <= k < net.edges_up_to(n).len() ==> {
                &&& (#[trigger] net.edges_up_to(n)[k]).0 < n
                &&& net.has_edge(net.edges_up_to(n)[k].0, net.edges_up_to(n)[k].1)
            },
        forall|k1: int, k2: int|
            0 <= k1 < k2 < net.edges_up_to(n).len()
                ==> #[trigger] net.edges_up_to(n)[k1] != #[trigger] net.edges_up_to(n)[k2],
    decreases n,
{
    if n > 0 {
        lemma_edges_up_to_props(net, n - 1);
        let prev = net.edges_up_to(n - 1);
        let cur = net.edges_up_to(n);
        let ne = net.node_edges(n - 1);
        assert(cur == prev + ne);
        assert(cur.len() == prev.len() + ne.len());
        assert forall|k: int| 0 <= k < cur.len() implies {
            &&& (#[trigger] cur[k]).0 < n
            &&& net.has_edge(cur[k].0, cur[k].1)
        } by {
            if k < prev.len() {
                assert(cur[k] == prev[k]);
                assert((prev[k]).0 < n - 1);
                assert(net.has_edge(prev[k].0, prev[k].1));
            } else {
                let j = k - prev.len();
                assert(cur[k] == ne[j]);
                assert(ne[j] == (((n - 1) as NodeID), net.nodes@[n - 1].to_ids@[j]));
                assert(net.nodes@[n - 1].to_ids@.contains(ne[j].1));
            }
        }
        assert forall|k1: int, k2: int| 0 <= k1 < k2 < cur.len() implies #[trigger] cur[k1]
            != #[trigger] cur[k2] by {
            if k2 < prev.len() {
                assert(cur[k1] == prev[k1] && cur[k2] == prev[k2]);
                assert(prev[k1] != prev[k2]);
            } else if k1 < prev.len() {
                assert(cur[k1] == prev[k1]);
                assert(cur[k2] == ne[k2 - prev.len()]);
                assert((prev[k1]).0 < n - 1);
                assert((ne[k2 - prev.len()]).0 == (n - 1) as NodeID);
            } else {
                let j1 = k1 - prev.len();
                let j2 = k2 - prev.len();
                assert(cur[k1] == ne[j1] && cur[k2] == ne[j2]);
                assert(net.nodes@[n - 1].wf());
                assert(net.nodes@[n - 1].to_ids@[j1] != net.nodes@[n - 1].to_ids@[j2]);
                assert((ne[j1]).1 != (ne[j2]).1);
            }
        }
    }
}

/// A fresh node has no neighbors, and adding edge `(a, b)` adds exactly
/// `b` to `a`'s neighbor set while leaving the reverse direction alone:
/// no edge from `b` to `a` exists unless it was added itself.
pub proof fn lemma_neighbors_after_add_edge(pre: Network, post: Network, a: NodeID, b: NodeID)
    requires
        a < pre.nodes@.len(),
        post.nodes@.len() == pre.nodes@.len(),
        post.nodes@[a as int].to_ids@ == pre.nodes@[a as int].to_ids@.push(b),
        forall|i: int| 0 <= i < pre.nodes@.len() && i != a ==> post.nodes@[i] == pre.nodes@[i],
    ensures
        post.nodes@[a as int].to_ids@.to_set() == pre.nodes@[a as int].to_ids@.to_set().insert(b),
        b != a ==> (post.has_edge(b, a) <==> pre.has_edge(b, a)),
{
    let s = pre.nodes@[a as int].to_ids@;
    let s2 = post.nodes@[a as int].to_ids@;
    assert forall|x: NodeID| #[trigger] s2.to_set().contains(x) implies s.to_set().insert(
        b,
    ).contains(x) by {
        let i = choose|i: int| 0 <= i < s2.len() && s2[i] == x;
        if i < s.len() {
            assert(s[i] == x);
            assert(s.to_set().contains(x));
        }
    }
    assert forall|x: NodeID| #[trigger] s.to_set().insert(b).contains(x) implies s2.to_set()
        .contains(x) by {
        if x == b {
            assert(s2[s.len() as int] == b);
            assert(s2.contains(x));
        } else {
            assert(s.contains(x));
            let i = choose|i: int| 0 <= i < s.len() && s[i] == x;
            assert(s2[i] == x);
            assert(s2.contains(x));
        }
    }
    assert(s2.to_set() =~= s.to_set().insert(b));
    if b != a && b < pre.nodes@.len() {
        assert(post.nodes@[b as int] == pre.nodes@[b as int]);
    }
}

/// Every existing edge with source below `n` is listed by `edges_up_to`.
pub proof fn lemma_edges_complete(net: Network, f: NodeID, t: NodeID, n: int)
    requires
        net.wf(),
        net.has_edge(f, t),
        (f as int) < n <= net.nodes@.len(),
    ensures
        net.edges_up_to(n).contains((f, t)),
    decreases n,
{
    let prev = net.edges_up_to(n - 1);
    let ne = net.node_edges(n - 1);
    if f as int == n - 1 {
        net.lemma_edge_slot(f, t);
        let s = net.edge_slot(f, t);
        assert(ne[s] == (f, t));
        assert(net.edges_up_to(n)[prev.len() + s] == (f, t));
    } else {
        lemma_edges_complete(net, f, t, n - 1);
        let i = choose|i: int| 0 <= i < prev.len() && prev[i] == (f, t);
        assert(net.edges_up_to(n)[i] == (f, t));
    }
}

impl Network {
    /// Get a new empty network.
    pub fn new() -> (network: Self)
        ensures
            network.wf(),
            network.num_nodes() == 0,
    {
        Network { nodes: Vec::new() }
    }

    /// Add a new node and return its dense index.
    pub fn add_node(&mut self) -> (node_id: NodeID)
        requires
            old(self).wf(),
            old(self).num_nodes() < usize::MAX,
        ensures
            final(self).wf(),
            node_id == old(self).num_nodes(),
            final(self).num_nodes() == old(self).num_nodes() + 1,
            forall|i: int|
                0 <= i < old(self).nodes@.len() ==> final(self).nodes@[i] == old(self).nodes@[i],
            final(self).nodes@[node_id as int].to_ids@ == Seq::<NodeID>::empty(),
            final(self).nodes@[node_id as int].buffers@ == Seq::<EdgeBuffer>::empty(),
            final(self).edges() == old(self).edges(),
    {
        let node_id = self.nodes.len();
        self.nodes.push(Node::new());
        proof {
            lemma_edges_up_to_congruent(*old(self), *self, old(self).nodes@.len() as int);
            assert(self.edges_up_to(self.nodes@.len() as int) =~= self.edges_up_to(
                self.nodes@.len() as int - 1,
            ) + self.node_edges(self.nodes@.len() as int - 1));
            assert(self.node_edges(self.nodes@.len() as int - 1) =~= Seq::<(NodeID, NodeID)>::empty());
            assert(self.edges() =~= old(self).edges());
        }
        node_id
    }

    /// Add a new empty edge buffer between two existing nodes.  The callers
    /// must make sure both nodes exist and the ordered pair does not have a
    /// buffer yet; a violation is a fatal construction error.
    pub fn add_edgebuffer(&mut self, from_id: NodeID, to_id: NodeID)
        requires
            old(self).wf(),
            from_id < old(self).num_nodes(),
            to_id < old(self).num_nodes(),
            !old(self).has_edge(from_id, to_id),
        ensures
            final(self).wf(),
            final(self).num_nodes() == old(self).num_nodes(),
            final(self).nodes@[from_id as int].to_ids@ == old(self).nodes@[
                from_id as int
            ].to_ids@.push(to_id),
            forall|i: int|
                0 <= i < old(self).nodes@.len() && i != from_id ==> final(self).nodes@[i] == old(self).nodes@[i],
            forall|f: NodeID, t: NodeID|
                #[trigger] final(self).has_edge(f, t) <==> (old(self).has_edge(f, t) || (f
                    == from_id && t == to_id)),
            final(self).buffer(from_id, to_id) == Seq::<Packet>::empty(),
            forall|f: NodeID, t: NodeID|
                #[trigger] old(self).has_edge(f, t) ==> final(self).buffer(f, t) == old(
                    self,
                ).buffer(f, t),
    {
        let node = vec_index_mut(&mut self.nodes, from_id);
        let slot = node.to_ids.len();
        node.to_ids.push(to_id);
        node.buffers.push(EdgeBuffer::new());
        edge_index_insert(&mut node.index, to_id, slot);
        proof {
            let oldn = old(self).nodes@[from_id as int];
            let newn = self.nodes@[from_id as int];
            let s = oldn.to_ids@;
            let s2 = newn.to_ids@;
            assert(s2 == s.push(to_id));
            assert(forall|i: int| 0 <= i < s.len() ==> s[i] != to_id) by {
                assert(!s.contains(to_id));
            }
            // The updated node is well formed.
            assert(newn.wf()) by {
                assert(oldn.wf());
                assert forall|i: int| 0 <= i < s2.len() implies {
                    &&& edge_index_entries(newn.index).dom().contains(#[trigger] s2[i])
                    &&& edge_index_entries(newn.index)[s2[i]] == i
                } by {
                    if i < s.len() {
                        assert(s2[i] == s[i]);
                        assert(s[i] != to_id);
                    } else {
                        assert(s2[i] == to_id);
                    }
                }
                assert forall|k: NodeID|
                    #[trigger] edge_index_entries(newn.index).dom().contains(k) implies s2.contains(
                    k,
                ) by {
                    if k == to_id {
                        assert(s2[s.len() as int] == to_id);
                    } else {
                        assert(edge_index_entries(oldn.index).dom().contains(k));
                        assert(s.contains(k));
                        let i = choose|i: int| 0 <= i < s.len() && s[i] == k;
                        assert(s2[i] == k);
                    }
                }
            }
            assert(self.wf()) by {
                assert forall|i: int| 0 <= i < self.nodes@.len() implies (
                #[trigger] self.nodes@[i]).wf() by {
                    if i != from_id {
                        assert(self.nodes@[i] == old(self).nodes@[i]);
                    }
                }
                assert forall|i: int, j: int|
                    0 <= i < self.nodes@.len() && 0 <= j < self.nodes@[i].to_ids@.len() implies
                    #[trigger] self.nodes@[i].to_ids@[j] < self.nodes@.len() by {
                    if i == from_id && j == s.len() {
                        assert(self.nodes@[i].to_ids@[j] == to_id);
                    } else if i == from_id {
                        assert(self.nodes@[i].to_ids@[j] == s[j]);
                    } else {
                        assert(self.nodes@[i] == old(self).nodes@[i]);
                    }
                }
            }
            // Edge existence: exactly the old edges plus the new pair.
            assert forall|f: NodeID, t: NodeID| #[trigger] self.has_edge(f, t) <==> (old(self).has_edge(f, t) || (f == from_id && t == to_id)) by {
                if f == from_id {
                    if self.has_edge(f, t) {
                        let i = choose|i: int| 0 <= i < s2.len() && s2[i] == t;
                        if i < s.len() {
                            assert(s[i] == t);
                            assert(old(self).has_edge(f, t));
                        } else {
                            assert(t == to_id);
                        }
                    }
                    if old(self).has_edge(f, t) {
                        let i = choose|i: int| 0 <= i < s.len() && s[i] == t;
                        assert(s2[i] == t);
                        assert(self.has_edge(f, t));
                    }
                    if t == to_id {
                        assert(s2[s.len() as int] == to_id);
                        assert(self.has_edge(f, t));
                    }
                } else if f < self.nodes@.len() {
                    assert(self.nodes@[f as int] == old(self).nodes@[f as int]);
                }
            }
            // The new buffer sits in the new slot and is empty.
            self.lemma_edge_slot(from_id, to_id);
            assert(s2[s.len() as int] == to_id);
            assert(self.edge_slot(from_id, to_id) == s.len());
            assert(self.buffer(from_id, to_id) =~= Seq::<Packet>::empty());
            // Old buffers are untouched.
            assert forall|f: NodeID, t: NodeID| #[trigger] old(self).has_edge(f, t) implies self
                .buffer(f, t) == old(self).buffer(f, t) by {
                if f == from_id {
                    old(self).lemma_edge_slot(f, t);
                    self.lemma_edge_slot(f, t);
                    let s0 = old(self).edge_slot(f, t);
                    assert(s2[s0] == t);
                    assert(self.edge_slot(f, t) == s0);
                    assert(newn.buffers@[s0] == oldn.buffers@[s0]);
                } else {
                    assert(self.nodes@[f as int] == old(self).nodes@[f as int]);
                }
            }
        }
    }

    /// Get the ids of the nodes reachable over one outgoing edge of the
    /// given node, in edge-insertion order.
    pub fn get_neighbors(&self, node_id: NodeID) -> (r: Vec<NodeID>)
        requires
            node_id < self.num_nodes(),
        ensures
            r@ == self.nodes@[node_id as int].to_ids@,
    {
        let node = &self.nodes[node_id];
        let mut result: Vec<NodeID> = Vec::new();
        let mut i: usize = 0;
        while i < node.to_ids.len()
            invariant
                node == &self.nodes@[node_id as int],
                i <= node.to_ids@.len(),
                result@ == node.to_ids@.take(i as int),
            decreases node.to_ids@.len() - i,
        {
            result.push(node.to_ids[i]);
            proof {
                assert(node.to_ids@.take(i + 1) =~= node.to_ids@.take(i as int).push(
                    node.to_ids@[i as int],
                ));
            }
            i = i + 1;
        }
        proof {
            assert(node.to_ids@.take(node.to_ids@.len() as int) =~= node.to_ids@);
        }
        result
    }

    /// Get the ids of all nodes, in ascending order.
    pub fn get_nodes(&self) -> (r: Vec<NodeID>)
        ensures
            r@.len() == self.num_nodes(),
            forall|i: int| 0 <= i < r@.len() ==> r@[i] == i,
    {
        let mut result: Vec<NodeID> = Vec::new();
        let mut i: usize = 0;
        while i < self.nodes.len()
            invariant
                i <= self.nodes@.len(),
                result@.len() == i,
                forall|j: int| 0 <= j < i ==> result@[j] == j,
            decreases self.nodes@.len() - i,
        {
            result.push(i);
            i = i + 1;
        }
        result
    }

    /// Get the number of nodes in this network.
    pub fn get_num_nodes(&self) -> (r: usize)
        ensures
            r == self.num_nodes(),
    {
        self.nodes.len()
    }

    /// Get all edges as `(from, to)` pairs in the canonical order: grouped
    /// by source node in ascending order, then in edge-insertion order.
    pub fn get_edgebuffers(&self) -> (r: Vec<(NodeID, NodeID)>)
        requires
            self.wf(),
        ensures
            r@ == self.edges(),
    {
        let mut result: Vec<(NodeID, NodeID)> = Vec::new();
        let mut from_id: usize = 0;
        while from_id < self.nodes.len()
            invariant
                self.wf(),
                from_id <= self.nodes@.len(),
                result@ == self.edges_up_to(from_id as int),
            decreases self.nodes@.len() - from_id,
        {
            let node = &self.nodes[from_id];
            let mut j: usize = 0;
            while j < node.to_ids.len()
                invariant
                    self.wf(),
                    node == &self.nodes@[from_id as int],
                    from_id < self.nodes@.len(),
                    j <= node.to_ids@.len(),
                    result@ == self.edges_up_to(from_id as int) + self.node_edges(
                        from_id as int,
                    ).take(j as int),
                decreases node.to_ids@.len() - j,
            {
                result.push((from_id, node.to_ids[j]));
                proof {
                    assert(self.node_edges(from_id as int).take(j + 1) =~= self.node_edges(
                        from_id as int,
                    ).take(j as int).push((from_id, node.to_ids@[j as int])));
                }
                j = j + 1;
            }
            proof {
                let ne = self.node_edges(from_id as int);
                assert(ne.take(ne.len() as int) =~= ne);
                assert(self.edges_up_to(from_id + 1) == self.edges_up_to(from_id as int) + ne);
            }
            from_id = from_id + 1;
        }
        result
    }

    /// Append the given packet to the back of the named buffer.  The edge
    /// must exist; pushing onto a missing edge is a fatal error.
    pub fn add_packet(&mut self, p: Packet, from_id: NodeID, to_id: NodeID)
        requires
            old(self).wf(),
            old(self).has_edge(from_id, to_id),
        ensures
            final(self).wf(),
            same_shape(*old(self), *final(self)),
            final(self).buffer(from_id, to_id) == old(self).buffer(from_id, to_id).push(p),
            forall|f: NodeID, t: NodeID|
                #[trigger] old(self).has_edge(f, t) && !(f == from_id && t == to_id) ==> final(self).buffer(f, t) == old(self).buffer(f, t),
    {
        proof {
            old(self).lemma_edge_slot(from_id, to_id);
        }
        let node = vec_index_mut(&mut self.nodes, from_id);
        let slot_opt = edge_index_get(&node.index, to_id);
        match slot_opt {
            Some(slot) => {
                proof {
                    let i = old(self).edge_slot(from_id, to_id);
                    assert(edge_index_entries(node.index)[node.to_ids@[i]] == i);
                    assert(slot == i);
                }
                let eb = vec_index_mut(&mut node.buffers, slot);
                eb.buffer.push(p);
                proof {
                    self.lemma_frame_after_buffer_update(*old(self), from_id, to_id);
                }
            },
            None => {
                proof {
                    let i = old(self).edge_slot(from_id, to_id);
                    assert(edge_index_entries(node.index).dom().contains(node.to_ids@[i]));
                    assert(false);
                }
            },
        }
    }

    /// After replacing the packets of one buffer and touching nothing else,
    /// the network keeps its shape and all other buffers.
    proof fn lemma_frame_after_buffer_update(self, pre: Network, from_id: NodeID, to_id: NodeID)
        requires
            pre.wf(),
            pre.has_edge(from_id, to_id),
            self.nodes@.len() == pre.nodes@.len(),
            forall|i: int|
                0 <= i < pre.nodes@.len() && i != from_id ==> self.nodes@[i] == pre.nodes@[i],
            self.nodes@[from_id as int].to_ids@ == pre.nodes@[from_id as int].to_ids@,
            self.nodes@[from_id as int].index == pre.nodes@[from_id as int].index,
            self.nodes@[from_id as int].buffers@.len() == pre.nodes@[from_id as int].buffers@.len(),
            forall|j: int|
                0 <= j < pre.nodes@[from_id as int].buffers@.len() && j != pre.edge_slot(
                    from_id,
                    to_id,
                ) ==> self.nodes@[from_id as int].buffers@[j] == pre.nodes@[from_id as int].buffers@[j],
        ensures
            self.wf(),
            same_shape(pre, self),
            self.buffer(from_id, to_id) == self.nodes@[from_id as int].buffers@[pre.edge_slot(
                from_id,
                to_id,
            )].buffer@,
            forall|f: NodeID, t: NodeID|
                #[trigger] pre.has_edge(f, t) && !(f == from_id && t == to_id) ==> self.buffer(f, t)
                    == pre.buffer(f, t),
    {
        pre.lemma_edge_slot(from_id, to_id);
        let slot = pre.edge_slot(from_id, to_id);
        assert forall|i: int| 0 <= i < self.nodes@.len() implies (#[trigger] self.nodes@[i]).wf() by {
            if i != from_id {
                assert(self.nodes@[i] == pre.nodes@[i]);
            } else {
                assert(pre.nodes@[i].wf());
                assert(self.nodes@[i].to_ids@ == pre.nodes@[i].to_ids@);
            }
        }
        assert forall|i: int, j: int|
            0 <= i < self.nodes@.len() && 0 <= j < self.nodes@[i].to_ids@.len() implies #[trigger] self.nodes@[i].to_ids@[j] < self.nodes@.len() by {
            assert(self.nodes@[i].to_ids@ == pre.nodes@[i].to_ids@);
        }
        assert(self.edge_slot(from_id, to_id) == slot) by {
            self.lemma_edge_slot(from_id, to_id);
        }
        assert forall|f: NodeID, t: NodeID|
            #[trigger] pre.has_edge(f, t) && !(f == from_id && t == to_id) implies self.buffer(f, t)
            == pre.buffer(f, t) by {
            assert(self.has_edge(f, t)) by {
                assert(self.nodes@[f as int].to_ids@ == pre.nodes@[f as int].to_ids@);
            }
            pre.lemma_edge_slot(f, t);
            self.lemma_edge_slot(f, t);
            let s0 = pre.edge_slot(f, t);
            assert(self.nodes@[f as int].to_ids@[s0] == t);
            assert(self.edge_slot(f, t) == s0);
            if f == from_id {
                assert(s0 != slot);
                assert(self.nodes@[f as int].buffers@[s0] == pre.nodes@[f as int].buffers@[s0]);
            } else {
                assert(self.nodes@[f as int] == pre.nodes@[f as int]);
            }
        }
    }

    /// Get a read-only view of the named buffer, or nothing when the edge
    /// does not exist: callers can tell an empty buffer from a missing one.
    pub fn get_edgebuffer(&self, from_id: NodeID, to_id: NodeID) -> (r: Option<&EdgeBuffer>)
        requires
            self.wf(),
            from_id < self.num_nodes(),
            to_id < self.num_nodes(),
        ensures
            match r {
                Some(eb) => self.has_edge(from_id, to_id) && eb.buffer@ == self.buffer(
                    from_id,
                    to_id,
                ),
                None => !self.has_edge(from_id, to_id),
            },
    {
        let node = &self.nodes[from_id];
        let slot_opt = edge_index_get(&node.index, to_id);
        match slot_opt {
            Some(slot) => {
                proof {
                    assert(node.to_ids@.contains(to_id));
                    self.lemma_edge_slot(from_id, to_id);
                    let i = self.edge_slot(from_id, to_id);
                    assert(edge_index_entries(node.index)[node.to_ids@[i]] == i);
                    assert(slot == i);
                }
                Some(&node.buffers[slot])
            },
            None => {
                proof {
                    if self.has_edge(from_id, to_id) {
                        self.lemma_edge_slot(from_id, to_id);
                        let i = self.edge_slot(from_id, to_id);
                        assert(edge_index_entries(node.index).dom().contains(node.to_ids@[i]));
                    }
                }
                None
            },
        }
    }

    /// Get a mutable view of the named buffer, or nothing when the edge
    /// does not exist.  The network afterwards holds whatever the caller
    /// left behind the returned reference; everything else is unchanged.
    pub fn get_edgebuffer_mut(&mut self, from_id: NodeID, to_id: NodeID) -> (r: Option<
        &mut EdgeBuffer,
    >)
        requires
            old(self).wf(),
            from_id < old(self).num_nodes(),
            to_id < old(self).num_nodes(),
        ensures
            final(self).wf(),
            match r {
                Some(eb) => {
                    &&& old(self).has_edge(from_id, to_id)
                    &&& (*eb).buffer@ == old(self).buffer(from_id, to_id)
                    &&& final(self).nodes@.len() == old(self).nodes@.len()
                    &&& forall|i: int|
                        0 <= i < old(self).nodes@.len() && i != from_id ==> final(self).nodes@[i]
                            == old(self).nodes@[i]
                    &&& final(self).nodes@[from_id as int].to_ids@ == old(self).nodes@[
                        from_id as int
                    ].to_ids@
                    &&& final(self).nodes@[from_id as int].index == old(self).nodes@[
                        from_id as int
                    ].index
                    &&& final(self).nodes@[from_id as int].buffers@.len() == old(self).nodes@[
                        from_id as int
                    ].buffers@.len()
                    &&& forall|j: int|
                        0 <= j < old(self).nodes@[from_id as int].buffers@.len() && j != old(
                            self,
                        ).edge_slot(from_id, to_id) ==> final(self).nodes@[
                            from_id as int
                        ].buffers@[j] == old(self).nodes@[from_id as int].buffers@[j]
                    &&& final(self).nodes@[from_id as int].buffers@[old(self).edge_slot(
                        from_id,
                        to_id,
                    )] == *final(eb)
                },
                None => !old(self).has_edge(from_id, to_id) && final(self).nodes@ == old(
                    self,
                ).nodes@,
            },
    {
        proof {
            if old(self).has_edge(from_id, to_id) {
                old(self).lemma_edge_slot(from_id, to_id);
            }
        }
        let slot_opt = edge_index_get(&self.nodes[from_id].index, to_id);
        match slot_opt {
            Some(slot) => {
                proof {
                    let node0 = old(self).nodes@[from_id as int];
                    assert(node0.to_ids@.contains(to_id));
                    let i = old(self).edge_slot(from_id, to_id);
                    assert(edge_index_entries(node0.index)[node0.to_ids@[i]] == i);
                    assert(slot == i);
                }
                let node = vec_index_mut(&mut self.nodes, from_id);
                let eb = vec_index_mut(&mut node.buffers, slot);
                Some(eb)
            },
            None => {
                proof {
                    if old(self).has_edge(from_id, to_id) {
                        let node0 = old(self).nodes@[from_id as int];
                        let i = old(self).edge_slot(from_id, to_id);
                        assert(edge_index_entries(node0.index).dom().contains(node0.to_ids@[i]));
                    }
                }
                None
            },
        }
    }

    /// Remove and return the packet at the given position of the named
    /// buffer.
    pub fn remove_packet(&mut self, from_id: NodeID, to_id: NodeID, idx: usize) -> (p: Packet)
        requires
            old(self).wf(),
            old(self).has_edge(from_id, to_id),
            idx < old(self).buffer(from_id, to_id).len(),
        ensures
            final(self).wf(),
            same_shape(*old(self), *final(self)),
            p == old(self).buffer(from_id, to_id)[idx as int],
            final(self).buffer(from_id, to_id) == old(self).buffer(from_id, to_id).remove(
                idx as int,
            ),
            forall|f: NodeID, t: NodeID|
                #[trigger] old(self).has_edge(f, t) && !(f == from_id && t == to_id) ==> final(self).buffer(f, t) == old(self).buffer(f, t),
    {
        proof {
            old(self).lemma_edge_slot(from_id, to_id);
        }
        let node = vec_index_mut(&mut self.nodes, from_id);
        let slot_opt = edge_index_get(&node.index, to_id);
        match slot_opt {
            Some(slot) => {
                proof {
                    let i = old(self).edge_slot(from_id, to_id);
                    assert(edge_index_entries(node.index)[node.to_ids@[i]] == i);
                    assert(slot == i);
                }
                let eb = vec_index_mut(&mut node.buffers, slot);
                let p = eb.buffer.remove(idx);
                proof {
                    self.lemma_frame_after_buffer_update(*old(self), from_id, to_id);
                }
                p
            },
            None => {
                proof {
                    let i = old(self).edge_slot(from_id, to_id);
                    assert(edge_index_entries(node.index).dom().contains(node.to_ids@[i]));
                    assert(false);
                }
                // Unreachable: the edge exists, so the index holds its slot.
                Packet { id: 0, path: Vec::new(), path_idx: 0, injection_rd: 0 }
            },
        }
    }

    /// Atomically remove and return all packets of the named buffer,
    /// leaving it empty; nothing when the edge does not exist.
    pub fn take_buffer(&mut self, from_id: NodeID, to_id: NodeID) -> (r: Option<Buffer>)
        requires
            old(self).wf(),
            from_id < old(self).num_nodes(),
            to_id < old(self).num_nodes(),
        ensures
            final(self).wf(),
            same_shape(*old(self), *final(self)),
            match r {
                Some(buf) => {
                    &&& old(self).has_edge(from_id, to_id)
                    &&& buf@ == old(self).buffer(from_id, to_id)
                    &&& final(self).buffer(from_id, to_id) == Seq::<Packet>::empty()
                },
                None => !old(self).has_edge(from_id, to_id) && final(self).nodes@ == old(self).nodes@,
            },
            forall|f: NodeID, t: NodeID|
                #[trigger] old(self).has_edge(f, t) && !(f == from_id && t == to_id) ==> final(self).buffer(f, t) == old(self).buffer(f, t),
    {
        let node = vec_index_mut(&mut self.nodes, from_id);
        let slot_opt = edge_index_get(&node.index, to_id);
        match slot_opt {
            Some(slot) => {
                proof {
                    assert(node.to_ids@.contains(to_id));
                    old(self).lemma_edge_slot(from_id, to_id);
                    let i = old(self).edge_slot(from_id, to_id);
                    assert(edge_index_entries(node.index)[node.to_ids@[i]] == i);
                    assert(slot == i);
                }
                let eb = vec_index_mut(&mut node.buffers, slot);
                let mut taken = EdgeBuffer::new();
                core::mem::swap(&mut taken, eb);
                proof {
                    self.lemma_frame_after_buffer_update(*old(self), from_id, to_id);
                }
                Some(taken.buffer)
            },
            None => {
                proof {
                    if old(self).has_edge(from_id, to_id) {
                        old(self).lemma_edge_slot(from_id, to_id);
                        let i = old(self).edge_slot(from_id, to_id);
                        assert(edge_index_entries(node.index).dom().contains(node.to_ids@[i]));
                    }
                    assert(self.nodes@ =~= old(self).nodes@);
                }
                None
            },
        }
    }
}

/// Construct a path network: `num_buffers + 1` nodes in a row, with one
/// edge buffer from each node to its successor.
pub fn construct_path(num_buffers: usize) -> (network: Network)
    requires
        num_buffers < usize::MAX,
    ensures
        network.wf(),
        network.num_nodes() == num_buffers + 1,
        forall|f: NodeID, t: NodeID|
            #[trigger] network.has_edge(f, t) <==> (f < num_buffers && t == f + 1),
        forall|f: NodeID, t: NodeID|
            #[trigger] network.has_edge(f, t) ==> network.buffer(f, t) == Seq::<Packet>::empty(),
{
    let mut network = Network::new();
    let mut i: usize = 0;
    while i < num_buffers + 1
        invariant
            network.wf(),
            i <= num_buffers + 1,
            num_buffers < usize::MAX,
            network.num_nodes() == i,
            forall|f: NodeID, t: NodeID| !(#[trigger] network.has_edge(f, t)),
        decreases num_buffers + 1 - i,
    {
        let ghost pre = network;
        network.add_node();
        proof {
            assert forall|f: NodeID, t: NodeID| !(#[trigger] network.has_edge(f, t)) by {
                if f < network.nodes@.len() {
                    if f < pre.nodes@.len() {
                        assert(network.nodes@[f as int] == pre.nodes@[f as int]);
                        assert(!pre.has_edge(f, t));
                    } else {
                        assert(network.nodes@[f as int].to_ids@.len() == 0);
                    }
                }
            }
        }
        i = i + 1;
    }
    let mut buff_id: usize = 0;
    while buff_id < num_buffers
        invariant
            network.wf(),
            buff_id <= num_buffers,
            num_buffers < usize::MAX,
            network.num_nodes() == num_buffers + 1,
            forall|f: NodeID, t: NodeID|
                #[trigger] network.has_edge(f, t) <==> (f < buff_id && t == f + 1),
            forall|f: NodeID, t: NodeID|
                #[trigger] network.has_edge(f, t) ==> network.buffer(f, t) == Seq::<
                    Packet,
                >::empty(),
        decreases num_buffers - buff_id,
    {
        let ghost pre = network;
        network.add_edgebuffer(buff_id, buff_id + 1);
        proof {
            assert forall|f: NodeID, t: NodeID| #[trigger] network.has_edge(f, t) implies network
                .buffer(f, t) == Seq::<Packet>::empty() by {
                if !(f == buff_id && t == buff_id + 1) {
                    assert(pre.has_edge(f, t));
                }
            }
        }
        buff_id = buff_id + 1;
    }
    network
}

} // verus!
