//! Greedy protocols: every round, every buffer sends up to `capacity`
//! packets one hop forward.  Greedy FIFO serves each buffer from the
//! front, in insertion order; greedy LIS serves the packets that have
//! waited longest, by smallest injection round.

use vstd::prelude::*;
use crate::network::{Network, lemma_edges_up_to_props, lemma_edges_complete, same_shape};
use crate::packet::{NodeID, Packet};
use super::{
    absorbed_of, advanced, all_routable, arrivals, replay_moves, replayable, routable,
};

verus! {

/// How many packets a greedy protocol removes from a buffer: the capacity,
/// or the whole buffer if it is shorter.
pub open spec fn greedy_count(b: Seq<Packet>, capacity: nat) -> int {
    if capacity <= b.len() {
        capacity as int
    } else {
        b.len() as int
    }
}

/// The packets greedy FIFO removes from one buffer: the front of the
/// queue, each advanced one hop.
pub open spec fn fifo_taken(b: Seq<Packet>, capacity: nat) -> Seq<Packet> {
    Seq::new(greedy_count(b, capacity) as nat, |j: int| advanced(b[j]))
}

/// What greedy FIFO leaves in one buffer.
pub open spec fn fifo_left(b: Seq<Packet>, capacity: nat) -> Seq<Packet> {
    b.skip(greedy_count(b, capacity))
}

/// The packets greedy FIFO moves, over the buffers of the first `k` edges
/// in canonical order.
pub open spec fn fifo_moved_up_to(n: Network, capacity: nat, k: int) -> Seq<Packet>
    decreases k,
{
    if k <= 0 {
        Seq::empty()
    } else {
        fifo_moved_up_to(n, capacity, k - 1) + fifo_taken(
            n.buffer(n.edges()[k - 1].0, n.edges()[k - 1].1),
            capacity,
        )
    }
}

/// All packets greedy FIFO moves in one round, in canonical edge order.
pub open spec fn fifo_moved(n: Network, capacity: nat) -> Seq<Packet> {
    fifo_moved_up_to(n, capacity, n.edges().len() as int)
}

/// No buffer loses more than `capacity` packets to one greedy round.
pub proof fn lemma_greedy_capacity(b: Seq<Packet>, capacity: nat)
    ensures
        b.len() - fifo_left(b, capacity).len() <= capacity,
        fifo_taken(b, capacity).len() <= capacity,
{
}

/// Every packet greedy FIFO moves can be replayed: its cursor is in range
/// and, unless it absorbs, its target buffer exists.
proof fn lemma_fifo_moved_replayable(n: Network, capacity: nat, k: int)
    requires
        n.wf(),
        all_routable(n),
        0 <= k <= n.edges().len(),
    ensures
        forall|j: int|
            0 <= j < fifo_moved_up_to(n, capacity, k).len() ==> replayable(
                n,
                #[trigger] fifo_moved_up_to(n, capacity, k)[j],
            ),
    decreases k,
{
    if k > 0 {
        lemma_fifo_moved_replayable(n, capacity, k - 1);
        lemma_edges_up_to_props(n, n.nodes@.len() as int);
        let e = n.edges()[k - 1];
        assert(n.has_edge(e.0, e.1));
        let b = n.buffer(e.0, e.1);
        let taken = fifo_taken(b, capacity);
        let prev = fifo_moved_up_to(n, capacity, k - 1);
        assert forall|j: int|
            0 <= j < fifo_moved_up_to(n, capacity, k).len() implies replayable(
            n,
            #[trigger] fifo_moved_up_to(n, capacity, k)[j],
        ) by {
            if j < prev.len() {
                assert(fifo_moved_up_to(n, capacity, k)[j] == prev[j]);
            } else {
                let i = j - prev.len();
                assert(fifo_moved_up_to(n, capacity, k)[j] == taken[i]);
                assert(taken[i] == advanced(b[i]));
                assert(routable(n, b[i]));
                lemma_advanced_replayable(n, b[i]);
            }
        }
    }
}

/// Advancing a routable packet yields a replayable one.
proof fn lemma_advanced_replayable(n: Network, q: Packet)
    requires
        routable(n, q),
    ensures
        replayable(n, advanced(q)),
{
    let p = advanced(q);
    assert(p.path_idx == q.path_idx + 1);
    if !p.will_absorb() {
        assert(n.has_edge(q.path@[q.path_idx + 1], q.path@[q.path_idx + 2]));
    }
}

/// The greedy FIFO protocol: each round every buffer sends up to
/// `capacity` packets from its front, oldest-inserted first.
pub struct GreedyFIFO {
    pub capacity: usize,
}

impl GreedyFIFO {
    /// Get a new `GreedyFIFO` with the given per-buffer capacity.
    pub fn new(capacity: usize) -> (r: Self)
        ensures
            r.capacity == capacity,
    {
        GreedyFIFO { capacity }
    }

    /// Remove up to `capacity` packets from the front of the named buffer
    /// and advance each of them one hop.
    fn get_buffer_packets_to_fwd(&self, from_id: NodeID, to_id: NodeID, network: &mut Network) -> (r:
        Vec<Packet>)
        requires
            old(network).wf(),
            old(network).has_edge(from_id, to_id),
            forall|k: int|
                0 <= k < old(network).buffer(from_id, to_id).len() ==> (#[trigger] old(network).buffer(from_id, to_id)[k]).wf() && old(network).buffer(from_id, to_id)[k].path_idx
                    + 1 < old(network).buffer(from_id, to_id)[k].path@.len(),
        ensures
            final(network).wf(),
            same_shape(*old(network), *final(network)),
            r@ == fifo_taken(old(network).buffer(from_id, to_id), self.capacity as nat),
            final(network).buffer(from_id, to_id) == fifo_left(
                old(network).buffer(from_id, to_id),
                self.capacity as nat,
            ),
            forall|f: NodeID, t: NodeID|
                #[trigger] old(network).has_edge(f, t) && !(f == from_id && t == to_id) ==> final(network).buffer(f, t) == old(network).buffer(f, t),
    {
        let ghost b0 = old(network).buffer(from_id, to_id);
        let load = match network.get_edgebuffer(from_id, to_id) {
            Some(eb) => eb.buffer.len(),
            None => 0,
        };
        let num_to_fwd = if self.capacity < load {
            self.capacity
        } else {
            load
        };
        proof {
            assert(num_to_fwd == greedy_count(b0, self.capacity as nat));
        }
        let mut r: Vec<Packet> = Vec::new();
        let mut i: usize = 0;
        while i < num_to_fwd
            invariant
                network.wf(),
                same_shape(*old(network), *network),
                old(network).wf(),
                old(network).has_edge(from_id, to_id),
                network.has_edge(from_id, to_id),
                i <= num_to_fwd,
                num_to_fwd <= b0.len(),
                b0 == old(network).buffer(from_id, to_id),
                forall|k: int|
                    0 <= k < b0.len() ==> (#[trigger] b0[k]).wf() && b0[k].path_idx + 1
                        < b0[k].path@.len(),
                network.buffer(from_id, to_id) == b0.skip(i as int),
                r@.len() == i,
                forall|j: int| 0 <= j < i ==> r@[j] == advanced(b0[j]),
                forall|f: NodeID, t: NodeID|
                    #[trigger] old(network).has_edge(f, t) && !(f == from_id && t == to_id)
                        ==> network.buffer(f, t) == old(network).buffer(f, t),
            decreases num_to_fwd - i,
        {
            let ghost mid = *network;
            let mut p = network.remove_packet(from_id, to_id, 0);
            proof {
                assert(b0.skip(i as int)[0] == b0[i as int]);
                assert(p == b0[i as int]);
                assert(b0.skip(i as int).remove(0) =~= b0.skip(i + 1));
                assert forall|f: NodeID, t: NodeID|
                    #[trigger] old(network).has_edge(f, t) && !(f == from_id && t
                        == to_id) implies network.buffer(f, t) == old(network).buffer(f, t) by {
                    assert(mid.nodes@[f as int].to_ids@ == old(network).nodes@[f as int].to_ids@);
                    assert(mid.has_edge(f, t));
                    assert(mid.buffer(f, t) == old(network).buffer(f, t));
                }
            }
            p.increment_path_idx();
            proof {
                assert(p == advanced(b0[i as int]));
            }
            r.push(p);
            i = i + 1;
        }
        proof {
            assert(r@ =~= fifo_taken(b0, self.capacity as nat));
        }
        r
    }

    /// One greedy FIFO round: for every edge in canonical order, remove up
    /// to `capacity` packets from the front of its buffer and advance
    /// them; then re-insert the moved packets, returning those absorbed.
    pub fn forward_packets(&mut self, network: &mut Network) -> (absorbed: Vec<Packet>)
        requires
            old(network).wf(),
            all_routable(*old(network)),
        ensures
            *final(self) == *old(self),
            final(network).wf(),
            same_shape(*old(network), *final(network)),
            absorbed@ == absorbed_of(fifo_moved(*old(network), old(self).capacity as nat)),
            forall|f: NodeID, t: NodeID|
                #[trigger] old(network).has_edge(f, t) ==> final(network).buffer(f, t) == fifo_left(
                    old(network).buffer(f, t),
                    old(self).capacity as nat,
                ) + arrivals(fifo_moved(*old(network), old(self).capacity as nat), f, t),
    {
        let ghost net0 = *old(network);
        let ghost cap = self.capacity as nat;
        let mut packets_to_fwd: Vec<Packet> = Vec::new();
        let eb_ids = network.get_edgebuffers();
        proof {
            lemma_edges_up_to_props(net0, net0.nodes@.len() as int);
        }
        let mut k: usize = 0;
        while k < eb_ids.len()
            invariant
                self.capacity as nat == cap,
                network.wf(),
                net0.wf(),
                all_routable(net0),
                same_shape(net0, *network),
                eb_ids@ == net0.edges(),
                k <= eb_ids@.len(),
                packets_to_fwd@ == fifo_moved_up_to(net0, cap, k as int),
                forall|f: NodeID, t: NodeID|
                    #[trigger] net0.has_edge(f, t) ==> network.buffer(f, t) == (
                    if net0.edges().take(k as int).contains((f, t)) {
                        fifo_left(net0.buffer(f, t), cap)
                    } else {
                        net0.buffer(f, t)
                    }),
            decreases eb_ids@.len() - k,
        {
            let edge = eb_ids[k];
            let (from_id, to_id) = (edge.0, edge.1);
            proof {
                lemma_edges_up_to_props(net0, net0.nodes@.len() as int);
                assert(net0.has_edge(from_id, to_id));
                // This edge was not processed yet: the canonical list has
                // no duplicates.
                if net0.edges().take(k as int).contains((from_id, to_id)) {
                    let j = choose|j: int|
                        0 <= j < k && #[trigger] net0.edges().take(k as int)[j] == (from_id, to_id);
                    assert(net0.edges()[j] == net0.edges()[k as int]);
                    assert(false);
                }
                assert(network.buffer(from_id, to_id) == net0.buffer(from_id, to_id));
                assert(network.has_edge(from_id, to_id));
            }
            let ghost mid = *network;
            let mut moved = self.get_buffer_packets_to_fwd(from_id, to_id, network);
            packets_to_fwd.append(&mut moved);
            proof {
                assert(packets_to_fwd@ == fifo_moved_up_to(net0, cap, k + 1));
                assert forall|f: NodeID, t: NodeID| #[trigger] net0.has_edge(f, t) implies network
                    .buffer(f, t) == (if net0.edges().take(k + 1).contains((f, t)) {
                    fifo_left(net0.buffer(f, t), cap)
                } else {
                    net0.buffer(f, t)
                }) by {
                    let e = (f, t);
                    if f == from_id && t == to_id {
                        assert(net0.edges().take(k + 1)[k as int] == e);
                        assert(net0.edges().take(k + 1).contains(e));
                    } else {
                        assert(mid.nodes@[f as int].to_ids@ == net0.nodes@[f as int].to_ids@);
                        assert(mid.has_edge(f, t));
                        assert(network.buffer(f, t) == mid.buffer(f, t));
                        if net0.edges().take(k + 1).contains(e) {
                            let j = choose|j: int|
                                0 <= j < k + 1 && #[trigger] net0.edges().take(k + 1)[j] == e;
                            assert(net0.edges()[j] == e);
                            assert(j != k);
                            assert(net0.edges().take(k as int)[j] == e);
                            assert(net0.edges().take(k as int).contains(e));
                        } else if net0.edges().take(k as int).contains(e) {
                            let j = choose|j: int|
                                0 <= j < k && #[trigger] net0.edges().take(k as int)[j] == e;
                            assert(net0.edges().take(k + 1)[j] == e);
                            assert(net0.edges().take(k + 1).contains(e));
                        }
                    }
                }
            }
            k = k + 1;
        }
        proof {
            assert(net0.edges().take(net0.edges().len() as int) =~= net0.edges());
            assert forall|f: NodeID, t: NodeID| #[trigger] net0.has_edge(f, t) implies network
                .buffer(f, t) == fifo_left(net0.buffer(f, t), cap) by {
                lemma_edges_complete(net0, f, t, net0.nodes@.len() as int);
            }
            lemma_fifo_moved_replayable(net0, cap, net0.edges().len() as int);
            assert forall|j: int| 0 <= j < packets_to_fwd@.len() implies replayable(
                *network,
                #[trigger] packets_to_fwd@[j],
            ) by {
                assert(replayable(net0, packets_to_fwd@[j]));
                let p = packets_to_fwd@[j];
                if !p.will_absorb() {
                    assert(net0.has_edge(p.path@[p.path_idx as int], p.path@[p.path_idx + 1]));
                }
            }
        }
        let ghost stripped = *network;
        let absorbed = replay_moves(network, packets_to_fwd);
        proof {
            assert forall|f: NodeID, t: NodeID| #[trigger] net0.has_edge(f, t) implies network
                .buffer(f, t) == fifo_left(net0.buffer(f, t), cap) + arrivals(
                fifo_moved(net0, cap),
                f,
                t,
            ) by {
                assert(stripped.has_edge(f, t));
            }
        }
        absorbed
    }
}

/// The first position of the smallest injection round among the first `n`
/// packets of a buffer, mirroring a left-to-right scan that only moves on
/// a strictly smaller round.
pub open spec fn min_rd_idx_up_to(s: Seq<Packet>, n: int) -> int
    decreases n,
{
    if n <= 1 {
        0
    } else {
        let prev = min_rd_idx_up_to(s, n - 1);
        if s[n - 1].injection_rd < s[prev].injection_rd {
            n - 1
        } else {
            prev
        }
    }
}

/// The first position of the smallest injection round in a buffer.
pub open spec fn min_rd_idx(s: Seq<Packet>) -> int {
    min_rd_idx_up_to(s, s.len() as int)
}

/// The scan position stays in range and really is minimal.
pub proof fn lemma_min_rd_idx_bounds(s: Seq<Packet>, n: int)
    requires
        1 <= n <= s.len(),
    ensures
        0 <= min_rd_idx_up_to(s, n) < n,
        forall|i: int|
            0 <= i < n ==> s[min_rd_idx_up_to(s, n)].injection_rd <= (#[trigger] s[i]).injection_rd,
    decreases n,
{
    if n > 1 {
        lemma_min_rd_idx_bounds(s, n - 1);
    }
}

/// The packets greedy LIS removes from one buffer: repeatedly the packet
/// with the smallest injection round, each advanced one hop.
pub open spec fn lis_taken(b: Seq<Packet>, k: int) -> Seq<Packet>
    decreases k,
{
    if k <= 0 || b.len() == 0 {
        Seq::empty()
    } else {
        seq![advanced(b[min_rd_idx(b)])] + lis_taken(b.remove(min_rd_idx(b)), k - 1)
    }
}

/// What greedy LIS leaves in one buffer after removing `k` packets.
pub open spec fn lis_left(b: Seq<Packet>, k: int) -> Seq<Packet>
    decreases k,
{
    if k <= 0 || b.len() == 0 {
        b
    } else {
        lis_left(b.remove(min_rd_idx(b)), k - 1)
    }
}

/// Greedy LIS removes at most `k` packets from one buffer.
pub proof fn lemma_lis_capacity(b: Seq<Packet>, k: int)
    requires
        k >= 0,
    ensures
        b.len() - lis_left(b, k).len() <= k,
        lis_taken(b, k).len() <= k,
    decreases k,
{
    if k > 0 && b.len() > 0 {
        if b.len() >= 1 {
            lemma_min_rd_idx_bounds(b, b.len() as int);
        }
        lemma_lis_capacity(b.remove(min_rd_idx(b)), k - 1);
    }
}

/// The packets greedy LIS moves, over the buffers of the first `k` edges
/// in canonical order.
pub open spec fn lis_moved_up_to(n: Network, capacity: nat, k: int) -> Seq<Packet>
    decreases k,
{
    if k <= 0 {
        Seq::empty()
    } else {
        let b = n.buffer(n.edges()[k - 1].0, n.edges()[k - 1].1);
        lis_moved_up_to(n, capacity, k - 1) + lis_taken(b, greedy_count(b, capacity))
    }
}

/// All packets greedy LIS moves in one round, in canonical edge order.
pub open spec fn lis_moved(n: Network, capacity: nat) -> Seq<Packet> {
    lis_moved_up_to(n, capacity, n.edges().len() as int)
}

/// Advancing a routable packet that does not absorb keeps it routable.
proof fn lemma_advanced_routable(n: Network, q: Packet)
    requires
        routable(n, q),
        !advanced(q).will_absorb(),
    ensures
        routable(n, advanced(q)),
{
    let p = advanced(q);
    assert forall|j: int| p.path_idx <= j < p.path@.len() - 1 implies n.has_edge(
        #[trigger] p.path@[j],
        p.path@[j + 1],
    ) by {
        assert(n.has_edge(q.path@[j], q.path@[j + 1]));
    }
}

/// Every packet greedy FIFO moves that does not absorb is routable.
proof fn lemma_fifo_moved_routable(n: Network, capacity: nat, k: int)
    requires
        n.wf(),
        all_routable(n),
        0 <= k <= n.edges().len(),
    ensures
        forall|j: int|
            0 <= j < fifo_moved_up_to(n, capacity, k).len() && !(
            #[trigger] fifo_moved_up_to(n, capacity, k)[j]).will_absorb() ==> routable(
                n,
                fifo_moved_up_to(n, capacity, k)[j],
            ),
    decreases k,
{
    if k > 0 {
        lemma_fifo_moved_routable(n, capacity, k - 1);
        lemma_edges_up_to_props(n, n.nodes@.len() as int);
        let e = n.edges()[k - 1];
        assert(n.has_edge(e.0, e.1));
        let b = n.buffer(e.0, e.1);
        let taken = fifo_taken(b, capacity);
        let prev = fifo_moved_up_to(n, capacity, k - 1);
        assert forall|j: int|
            0 <= j < fifo_moved_up_to(n, capacity, k).len() && !(
            #[trigger] fifo_moved_up_to(n, capacity, k)[j]).will_absorb() implies routable(
            n,
            fifo_moved_up_to(n, capacity, k)[j],
        ) by {
            if j < prev.len() {
                assert(fifo_moved_up_to(n, capacity, k)[j] == prev[j]);
            } else {
                let i = j - prev.len();
                assert(fifo_moved_up_to(n, capacity, k)[j] == taken[i]);
                assert(taken[i] == advanced(b[i]));
                assert(routable(n, b[i]));
                lemma_advanced_routable(n, b[i]);
            }
        }
    }
}

/// Every packet greedy LIS takes from a buffer of routable packets that
/// does not absorb is routable.
proof fn lemma_lis_taken_routable(net: Network, b: Seq<Packet>, k: int)
    requires
        forall|i: int| 0 <= i < b.len() ==> routable(net, #[trigger] b[i]),
    ensures
        forall|j: int|
            0 <= j < lis_taken(b, k).len() && !(#[trigger] lis_taken(b, k)[j]).will_absorb()
                ==> routable(net, lis_taken(b, k)[j]),
    decreases k,
{
    if k > 0 && b.len() > 0 {
        lemma_min_rd_idx_bounds(b, b.len() as int);
        let idx = min_rd_idx(b);
        let rest = b.remove(idx);
        assert forall|i: int| 0 <= i < rest.len() implies routable(net, #[trigger] rest[i]) by {
            if i < idx {
                assert(rest[i] == b[i]);
            } else {
                assert(rest[i] == b[i + 1]);
            }
        }
        lemma_lis_taken_routable(net, rest, k - 1);
        assert forall|j: int|
            0 <= j < lis_taken(b, k).len() && !(#[trigger] lis_taken(b, k)[j]).will_absorb() implies
            routable(net, lis_taken(b, k)[j]) by {
            if j == 0 {
                assert(lis_taken(b, k)[0] == advanced(b[idx]));
                lemma_advanced_routable(net, b[idx]);
            } else {
                assert(lis_taken(b, k)[j] == lis_taken(rest, k - 1)[j - 1]);
            }
        }
    }
}

/// Every packet greedy LIS moves that does not absorb is routable.
proof fn lemma_lis_moved_routable(n: Network, capacity: nat, k: int)
    requires
        n.wf(),
        all_routable(n),
        0 <= k <= n.edges().len(),
    ensures
        forall|j: int|
            0 <= j < lis_moved_up_to(n, capacity, k).len() && !(
            #[trigger] lis_moved_up_to(n, capacity, k)[j]).will_absorb() ==> routable(
                n,
                lis_moved_up_to(n, capacity, k)[j],
            ),
    decreases k,
{
    if k > 0 {
        lemma_lis_moved_routable(n, capacity, k - 1);
        lemma_edges_up_to_props(n, n.nodes@.len() as int);
        let e = n.edges()[k - 1];
        assert(n.has_edge(e.0, e.1));
        let b = n.buffer(e.0, e.1);
        let taken = lis_taken(b, greedy_count(b, capacity));
        let prev = lis_moved_up_to(n, capacity, k - 1);
        lemma_lis_taken_routable(n, b, greedy_count(b, capacity));
        assert forall|j: int|
            0 <= j < lis_moved_up_to(n, capacity, k).len() && !(
            #[trigger] lis_moved_up_to(n, capacity, k)[j]).will_absorb() implies routable(
            n,
            lis_moved_up_to(n, capacity, k)[j],
        ) by {
            if j < prev.len() {
                assert(lis_moved_up_to(n, capacity, k)[j] == prev[j]);
            } else {
                assert(lis_moved_up_to(n, capacity, k)[j] == taken[j - prev.len()]);
            }
        }
    }
}

/// What greedy LIS leaves in a buffer comes from that buffer.
proof fn lemma_lis_left_membership(b: Seq<Packet>, k: int)
    ensures
        forall|m: int| 0 <= m < lis_left(b, k).len() ==> b.contains(#[trigger] lis_left(b, k)[m]),
    decreases k,
{
    if k > 0 && b.len() > 0 {
        lemma_min_rd_idx_bounds(b, b.len() as int);
        let idx = min_rd_idx(b);
        let rest = b.remove(idx);
        lemma_lis_left_membership(rest, k - 1);
        assert(lis_left(b, k) == lis_left(rest, k - 1));
        assert forall|m: int| 0 <= m < lis_left(b, k).len() implies b.contains(
            #[trigger] lis_left(b, k)[m],
        ) by {
            assert(lis_left(b, k)[m] == lis_left(rest, k - 1)[m]);
            assert(rest.contains(lis_left(rest, k - 1)[m]));
            let m0 = choose|m0: int| 0 <= m0 < rest.len() && rest[m0] == lis_left(b, k)[m];
            if m0 < idx {
                assert(b[m0] == rest[m0]);
            } else {
                assert(b[m0 + 1] == rest[m0]);
            }
        }
    } else {
        assert forall|m: int| 0 <= m < lis_left(b, k).len() implies b.contains(
            #[trigger] lis_left(b, k)[m],
        ) by {
            assert(lis_left(b, k)[m] == b[m]);
        }
    }
}

/// Routability carries over to a network of the same shape.
proof fn lemma_routable_same_shape(pre: Network, post: Network, p: Packet)
    requires
        routable(pre, p),
        same_shape(pre, post),
    ensures
        routable(post, p),
{
    assert forall|j: int| p.path_idx <= j < p.path@.len() - 1 implies post.has_edge(
        #[trigger] p.path@[j],
        p.path@[j + 1],
    ) by {
        assert(pre.has_edge(p.path@[j], p.path@[j + 1]));
        assert(post.nodes@[p.path@[j] as int].to_ids@ == pre.nodes@[p.path@[j] as int].to_ids@);
    }
}

/// One greedy FIFO round keeps every queued packet routable: the round
/// can be applied again, so a packet crosses one buffer per round until
/// it is absorbed.
pub proof fn lemma_fifo_round_preserves_routable(pre: Network, post: Network, capacity: nat)
    requires
        pre.wf(),
        all_routable(pre),
        post.wf(),
        same_shape(pre, post),
        forall|f: NodeID, t: NodeID|
            #[trigger] pre.has_edge(f, t) ==> post.buffer(f, t) == fifo_left(
                pre.buffer(f, t),
                capacity,
            ) + arrivals(fifo_moved(pre, capacity), f, t),
    ensures
        all_routable(post),
{
    lemma_fifo_moved_routable(pre, capacity, pre.edges().len() as int);
    assert forall|f: NodeID, t: NodeID, k: int|
        post.has_edge(f, t) && 0 <= k < post.buffer(f, t).len() implies routable(
        post,
        #[trigger] post.buffer(f, t)[k],
    ) by {
        assert(pre.nodes@[f as int].to_ids@ == post.nodes@[f as int].to_ids@);
        assert(pre.has_edge(f, t));
        let left = fifo_left(pre.buffer(f, t), capacity);
        let arr = arrivals(fifo_moved(pre, capacity), f, t);
        let p = post.buffer(f, t)[k];
        if k < left.len() {
            let count = greedy_count(pre.buffer(f, t), capacity);
            assert(p == pre.buffer(f, t)[count + k]);
            assert(routable(pre, p));
        } else {
            super::lemma_filter_membership(
                fifo_moved(pre, capacity),
                |q: Packet| super::goes_to(q, f, t),
            );
            assert(p == arr[k - left.len()]);
            assert(fifo_moved(pre, capacity).contains(p));
            let m0 = choose|m0: int|
                0 <= m0 < fifo_moved(pre, capacity).len() && fifo_moved(pre, capacity)[m0] == p;
            fifo_moved(pre, capacity).lemma_filter_pred(
                |q: Packet| super::goes_to(q, f, t),
                k - left.len(),
            );
            assert(!p.will_absorb());
            assert(routable(pre, p));
        }
        lemma_routable_same_shape(pre, post, p);
    }
}

/// One greedy LIS round keeps every queued packet routable.
pub proof fn lemma_lis_round_preserves_routable(pre: Network, post: Network, capacity: nat)
    requires
        pre.wf(),
        all_routable(pre),
        post.wf(),
        same_shape(pre, post),
        forall|f: NodeID, t: NodeID|
            #[trigger] pre.has_edge(f, t) ==> post.buffer(f, t) == lis_left(
                pre.buffer(f, t),
                greedy_count(pre.buffer(f, t), capacity),
            ) + arrivals(lis_moved(pre, capacity), f, t),
    ensures
        all_routable(post),
{
    lemma_lis_moved_routable(pre, capacity, pre.edges().len() as int);
    assert forall|f: NodeID, t: NodeID, k: int|
        post.has_edge(f, t) && 0 <= k < post.buffer(f, t).len() implies routable(
        post,
        #[trigger] post.buffer(f, t)[k],
    ) by {
        assert(pre.nodes@[f as int].to_ids@ == post.nodes@[f as int].to_ids@);
        assert(pre.has_edge(f, t));
        let b = pre.buffer(f, t);
        let left = lis_left(b, greedy_count(b, capacity));
        let arr = arrivals(lis_moved(pre, capacity), f, t);
        let p = post.buffer(f, t)[k];
        if k < left.len() {
            lemma_lis_left_membership(b, greedy_count(b, capacity));
            assert(b.contains(p));
            let m0 = choose|m0: int| 0 <= m0 < b.len() && b[m0] == p;
            assert(routable(pre, p));
        } else {
            super::lemma_filter_membership(
                lis_moved(pre, capacity),
                |q: Packet| super::goes_to(q, f, t),
            );
            assert(p == arr[k - left.len()]);
            assert(lis_moved(pre, capacity).contains(p));
            let m0 = choose|m0: int|
                0 <= m0 < lis_moved(pre, capacity).len() && lis_moved(pre, capacity)[m0] == p;
            lis_moved(pre, capacity).lemma_filter_pred(
                |q: Packet| super::goes_to(q, f, t),
                k - left.len(),
            );
            assert(!p.will_absorb());
            assert(routable(pre, p));
        }
        lemma_routable_same_shape(pre, post, p);
    }
}

/// Absorption under the greedy protocols: a buffer holding a single
/// packet, under a positive capacity, sends exactly that packet one hop
/// forward and keeps nothing, whichever service order is in use.
pub proof fn lemma_greedy_absorption_step(b: Seq<Packet>, capacity: nat)
    requires
        b.len() == 1,
        capacity >= 1,
    ensures
        fifo_taken(b, capacity) == seq![advanced(b[0])],
        fifo_left(b, capacity) == Seq::<Packet>::empty(),
        lis_taken(b, greedy_count(b, capacity)) == seq![advanced(b[0])],
        lis_left(b, greedy_count(b, capacity)) == Seq::<Packet>::empty(),
{
    assert(greedy_count(b, capacity) == 1);
    assert(fifo_taken(b, capacity) =~= seq![advanced(b[0])]);
    assert(fifo_left(b, capacity) =~= Seq::<Packet>::empty());
    assert(min_rd_idx(b) == 0);
    assert(b.remove(0) =~= Seq::<Packet>::empty());
    assert(lis_taken(Seq::<Packet>::empty(), 0) =~= Seq::<Packet>::empty());
    assert(lis_left(Seq::<Packet>::empty(), 0) =~= Seq::<Packet>::empty());
    assert(lis_taken(b, 1) =~= seq![advanced(b[0])]);
    assert(lis_left(b, 1) =~= Seq::<Packet>::empty());
}

/// Every packet greedy LIS takes from a buffer of routable packets can be
/// replayed.
proof fn lemma_lis_taken_replayable(net: Network, b: Seq<Packet>, k: int)
    requires
        forall|i: int| 0 <= i < b.len() ==> routable(net, #[trigger] b[i]),
    ensures
        forall|j: int|
            0 <= j < lis_taken(b, k).len() ==> replayable(net, #[trigger] lis_taken(b, k)[j]),
    decreases k,
{
    if k > 0 && b.len() > 0 {
        lemma_min_rd_idx_bounds(b, b.len() as int);
        let idx = min_rd_idx(b);
        let rest = b.remove(idx);
        assert forall|i: int| 0 <= i < rest.len() implies routable(net, #[trigger] rest[i]) by {
            if i < idx {
                assert(rest[i] == b[i]);
            } else {
                assert(rest[i] == b[i + 1]);
            }
        }
        lemma_lis_taken_replayable(net, rest, k - 1);
        lemma_advanced_replayable(net, b[idx]);
        assert forall|j: int| 0 <= j < lis_taken(b, k).len() implies replayable(
            net,
            #[trigger] lis_taken(b, k)[j],
        ) by {
            if j == 0 {
                assert(lis_taken(b, k)[0] == advanced(b[idx]));
            } else {
                assert(lis_taken(b, k)[j] == lis_taken(rest, k - 1)[j - 1]);
            }
        }
    }
}

/// Every packet greedy LIS moves can be replayed.
proof fn lemma_lis_moved_replayable(n: Network, capacity: nat, k: int)
    requires
        n.wf(),
        all_routable(n),
        0 <= k <= n.edges().len(),
    ensures
        forall|j: int|
            0 <= j < lis_moved_up_to(n, capacity, k).len() ==> replayable(
                n,
                #[trigger] lis_moved_up_to(n, capacity, k)[j],
            ),
    decreases k,
{
    if k > 0 {
        lemma_lis_moved_replayable(n, capacity, k - 1);
        lemma_edges_up_to_props(n, n.nodes@.len() as int);
        let e = n.edges()[k - 1];
        assert(n.has_edge(e.0, e.1));
        let b = n.buffer(e.0, e.1);
        let taken = lis_taken(b, greedy_count(b, capacity));
        let prev = lis_moved_up_to(n, capacity, k - 1);
        lemma_lis_taken_replayable(n, b, greedy_count(b, capacity));
        assert forall|j: int|
            0 <= j < lis_moved_up_to(n, capacity, k).len() implies replayable(
            n,
            #[trigger] lis_moved_up_to(n, capacity, k)[j],
        ) by {
            if j < prev.len() {
                assert(lis_moved_up_to(n, capacity, k)[j] == prev[j]);
            } else {
                assert(lis_moved_up_to(n, capacity, k)[j] == taken[j - prev.len()]);
            }
        }
    }
}

/// The position of the packet with the smallest injection round, earliest
/// position first.
fn min_rd_position(buffer: &Vec<Packet>) -> (idx: usize)
    requires
        buffer@.len() > 0,
    ensures
        idx == min_rd_idx(buffer@),
{
    let mut min_injection_rd: usize = usize::MAX;
    let mut min_injection_idx: usize = 0;
    let mut i: usize = 0;
    while i < buffer.len()
        invariant
            i <= buffer@.len(),
            buffer@.len() > 0,
            i == 0 ==> min_injection_idx == 0 && min_injection_rd == usize::MAX,
            i > 0 ==> {
                &&& min_injection_idx == min_rd_idx_up_to(buffer@, i as int)
                &&& min_injection_idx < i
                &&& min_injection_rd == buffer@[min_injection_idx as int].injection_rd
            },
        decreases buffer@.len() - i,
    {
        if buffer[i].injection_rd < min_injection_rd {
            min_injection_idx = i;
            min_injection_rd = buffer[i].injection_rd;
        }
        proof {
            if i > 0 {
                lemma_min_rd_idx_bounds(buffer@, i as int);
            }
        }
        i = i + 1;
    }
    min_injection_idx
}

/// The greedy LIS ("longest in system") protocol: each round every buffer
/// sends up to `capacity` of its longest-waiting packets, by smallest
/// injection round, one hop forward.
pub struct GreedyLIS {
    pub capacity: usize,
}

impl GreedyLIS {
    /// Get a new `GreedyLIS` with the given per-buffer capacity.
    pub fn new(capacity: usize) -> (r: Self)
        ensures
            r.capacity == capacity,
    {
        GreedyLIS { capacity }
    }

    /// Remove up to `capacity` packets from the named buffer, each the one
    /// with the smallest injection round still present, and advance each
    /// of them one hop.
    fn get_buffer_packets_to_fwd(&self, from_id: NodeID, to_id: NodeID, network: &mut Network) -> (r:
        Vec<Packet>)
        requires
            old(network).wf(),
            old(network).has_edge(from_id, to_id),
            forall|k: int|
                0 <= k < old(network).buffer(from_id, to_id).len() ==> (#[trigger] old(network).buffer(from_id, to_id)[k]).wf() && old(network).buffer(from_id, to_id)[k].path_idx
                    + 1 < old(network).buffer(from_id, to_id)[k].path@.len(),
        ensures
            final(network).wf(),
            same_shape(*old(network), *final(network)),
            r@ == lis_taken(
                old(network).buffer(from_id, to_id),
                greedy_count(old(network).buffer(from_id, to_id), self.capacity as nat),
            ),
            final(network).buffer(from_id, to_id) == lis_left(
                old(network).buffer(from_id, to_id),
                greedy_count(old(network).buffer(from_id, to_id), self.capacity as nat),
            ),
            forall|f: NodeID, t: NodeID|
                #[trigger] old(network).has_edge(f, t) && !(f == from_id && t == to_id) ==> final(network).buffer(f, t) == old(network).buffer(f, t),
    {
        let ghost b0 = old(network).buffer(from_id, to_id);
        let load = match network.get_edgebuffer(from_id, to_id) {
            Some(eb) => eb.buffer.len(),
            None => 0,
        };
        let num_to_fwd = if self.capacity < load {
            self.capacity
        } else {
            load
        };
        proof {
            assert(num_to_fwd == greedy_count(b0, self.capacity as nat));
        }
        let mut r: Vec<Packet> = Vec::new();
        let mut i: usize = 0;
        while i < num_to_fwd
            invariant
                network.wf(),
                same_shape(*old(network), *network),
                old(network).wf(),
                old(network).has_edge(from_id, to_id),
                network.has_edge(from_id, to_id),
                i <= num_to_fwd,
                num_to_fwd <= b0.len(),
                b0 == old(network).buffer(from_id, to_id),
                network.buffer(from_id, to_id).len() == b0.len() - i,
                forall|k: int|
                    0 <= k < network.buffer(from_id, to_id).len() ==> (#[trigger] network.buffer(
                        from_id,
                        to_id,
                    )[k]).wf() && network.buffer(from_id, to_id)[k].path_idx + 1 < network.buffer(
                        from_id,
                        to_id,
                    )[k].path@.len(),
                lis_taken(b0, num_to_fwd as int) == r@ + lis_taken(
                    network.buffer(from_id, to_id),
                    num_to_fwd - i,
                ),
                lis_left(b0, num_to_fwd as int) == lis_left(
                    network.buffer(from_id, to_id),
                    num_to_fwd - i,
                ),
                forall|f: NodeID, t: NodeID|
                    #[trigger] old(network).has_edge(f, t) && !(f == from_id && t == to_id)
                        ==> network.buffer(f, t) == old(network).buffer(f, t),
            decreases num_to_fwd - i,
        {
            let ghost cur = network.buffer(from_id, to_id);
            let m_idx = match network.get_edgebuffer(from_id, to_id) {
                Some(eb) => min_rd_position(&eb.buffer),
                None => 0,
            };
            proof {
                lemma_min_rd_idx_bounds(cur, cur.len() as int);
            }
            let ghost mid = *network;
            let mut p = network.remove_packet(from_id, to_id, m_idx);
            proof {
                assert(p == cur[min_rd_idx(cur)]);
                assert forall|f: NodeID, t: NodeID|
                    #[trigger] old(network).has_edge(f, t) && !(f == from_id && t
                        == to_id) implies network.buffer(f, t) == old(network).buffer(f, t) by {
                    assert(mid.nodes@[f as int].to_ids@ == old(network).nodes@[f as int].to_ids@);
                    assert(mid.has_edge(f, t));
                    assert(mid.buffer(f, t) == old(network).buffer(f, t));
                }
            }
            p.increment_path_idx();
            proof {
                assert(p == advanced(cur[min_rd_idx(cur)]));
            }
            r.push(p);
            proof {
                let rest = network.buffer(from_id, to_id);
                assert(rest == cur.remove(min_rd_idx(cur)));
                assert forall|k: int| 0 <= k < rest.len() implies (#[trigger] rest[k]).wf()
                    && rest[k].path_idx + 1 < rest[k].path@.len() by {
                    if k < min_rd_idx(cur) {
                        assert(rest[k] == cur[k]);
                    } else {
                        assert(rest[k] == cur[k + 1]);
                    }
                }
                assert(lis_taken(cur, num_to_fwd - i) == seq![advanced(cur[min_rd_idx(cur)])]
                    + lis_taken(rest, num_to_fwd - i - 1));
                assert(r@ + lis_taken(rest, num_to_fwd - i - 1) =~= lis_taken(
                    b0,
                    num_to_fwd as int,
                ));
            }
            i = i + 1;
        }
        proof {
            assert(lis_taken(network.buffer(from_id, to_id), 0) =~= Seq::<Packet>::empty());
            assert(r@ =~= lis_taken(b0, num_to_fwd as int));
        }
        r
    }

    /// One greedy LIS round: for every edge in canonical order, remove up
    /// to `capacity` packets with the smallest injection rounds from its
    /// buffer and advance them; then re-insert the moved packets,
    /// returning those absorbed.
    pub fn forward_packets(&mut self, network: &mut Network) -> (absorbed: Vec<Packet>)
        requires
            old(network).wf(),
            all_routable(*old(network)),
        ensures
            *final(self) == *old(self),
            final(network).wf(),
            same_shape(*old(network), *final(network)),
            absorbed@ == absorbed_of(lis_moved(*old(network), old(self).capacity as nat)),
            forall|f: NodeID, t: NodeID|
                #[trigger] old(network).has_edge(f, t) ==> final(network).buffer(f, t) == lis_left(
                    old(network).buffer(f, t),
                    greedy_count(old(network).buffer(f, t), old(self).capacity as nat),
                ) + arrivals(lis_moved(*old(network), old(self).capacity as nat), f, t),
    {
        let ghost net0 = *old(network);
        let ghost cap = self.capacity as nat;
        let mut packets_to_fwd: Vec<Packet> = Vec::new();
        let eb_ids = network.get_edgebuffers();
        proof {
            lemma_edges_up_to_props(net0, net0.nodes@.len() as int);
        }
        let mut k: usize = 0;
        while k < eb_ids.len()
            invariant
                self.capacity as nat == cap,
                network.wf(),
                net0.wf(),
                all_routable(net0),
                same_shape(net0, *network),
                eb_ids@ == net0.edges(),
                k <= eb_ids@.len(),
                packets_to_fwd@ == lis_moved_up_to(net0, cap, k as int),
                forall|f: NodeID, t: NodeID|
                    #[trigger] net0.has_edge(f, t) ==> network.buffer(f, t) == (
                    if net0.edges().take(k as int).contains((f, t)) {
                        lis_left(net0.buffer(f, t), greedy_count(net0.buffer(f, t), cap))
                    } else {
                        net0.buffer(f, t)
                    }),
            decreases eb_ids@.len() - k,
        {
            let edge = eb_ids[k];
            let (from_id, to_id) = (edge.0, edge.1);
            proof {
                lemma_edges_up_to_props(net0, net0.nodes@.len() as int);
                assert(net0.has_edge(from_id, to_id));
                if net0.edges().take(k as int).contains((from_id, to_id)) {
                    let j = choose|j: int|
                        0 <= j < k && #[trigger] net0.edges().take(k as int)[j] == (from_id, to_id);
                    assert(net0.edges()[j] == net0.edges()[k as int]);
                    assert(false);
                }
                assert(network.buffer(from_id, to_id) == net0.buffer(from_id, to_id));
                assert(network.has_edge(from_id, to_id));
            }
            let ghost mid = *network;
            let mut moved = self.get_buffer_packets_to_fwd(from_id, to_id, network);
            packets_to_fwd.append(&mut moved);
            proof {
                assert(packets_to_fwd@ == lis_moved_up_to(net0, cap, k + 1));
                assert forall|f: NodeID, t: NodeID| #[trigger] net0.has_edge(f, t) implies network
                    .buffer(f, t) == (if net0.edges().take(k + 1).contains((f, t)) {
                    lis_left(net0.buffer(f, t), greedy_count(net0.buffer(f, t), cap))
                } else {
                    net0.buffer(f, t)
                }) by {
                    let e = (f, t);
                    if f == from_id && t == to_id {
                        assert(net0.edges().take(k + 1)[k as int] == e);
                        assert(net0.edges().take(k + 1).contains(e));
                    } else {
                        assert(mid.nodes@[f as int].to_ids@ == net0.nodes@[f as int].to_ids@);
                        assert(mid.has_edge(f, t));
                        assert(network.buffer(f, t) == mid.buffer(f, t));
                        if net0.edges().take(k + 1).contains(e) {
                            let j = choose|j: int|
                                0 <= j < k + 1 && #[trigger] net0.edges().take(k + 1)[j] == e;
                            assert(net0.edges()[j] == e);
                            assert(j != k);
                            assert(net0.edges().take(k as int)[j] == e);
                            assert(net0.edges().take(k as int).contains(e));
                        } else if net0.edges().take(k as int).contains(e) {
                            let j = choose|j: int|
                                0 <= j < k && #[trigger] net0.edges().take(k as int)[j] == e;
                            assert(net0.edges().take(k + 1)[j] == e);
                            assert(net0.edges().take(k + 1).contains(e));
                        }
                    }
                }
            }
            k = k + 1;
        }
        proof {
            assert(net0.edges().take(net0.edges().len() as int) =~= net0.edges());
            assert forall|f: NodeID, t: NodeID| #[trigger] net0.has_edge(f, t) implies network
                .buffer(f, t) == lis_left(net0.buffer(f, t), greedy_count(net0.buffer(f, t), cap))
                by {
                lemma_edges_complete(net0, f, t, net0.nodes@.len() as int);
            }
            lemma_lis_moved_replayable(net0, cap, net0.edges().len() as int);
            assert forall|j: int| 0 <= j < packets_to_fwd@.len() implies replayable(
                *network,
                #[trigger] packets_to_fwd@[j],
            ) by {
                assert(replayable(net0, packets_to_fwd@[j]));
                let p = packets_to_fwd@[j];
                if !p.will_absorb() {
                    assert(net0.has_edge(p.path@[p.path_idx as int], p.path@[p.path_idx + 1]));
                }
            }
        }
        let ghost stripped = *network;
        let absorbed = replay_moves(network, packets_to_fwd);
        proof {
            assert forall|f: NodeID, t: NodeID| #[trigger] net0.has_edge(f, t) implies network
                .buffer(f, t) == lis_left(net0.buffer(f, t), greedy_count(net0.buffer(f, t), cap))
                + arrivals(lis_moved(net0, cap), f, t) by {
                assert(stripped.has_edge(f, t));
            }
        }
        absorbed
    }
}

} // verus!
