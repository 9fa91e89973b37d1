//! The OED-with-swap protocol.
//!
//! The protocol runs on a path network whose buffers sit on the edges
//! `(i, i + 1)`.  Every round it decides, from a single snapshot of all
//! buffer loads and extremal packets, which buffers forward their oldest
//! packet and which push their youngest packet one hop back, and only then
//! applies the moves.

use vstd::prelude::*;
use vstd::pervasive::unreached;
use crate::network::{Network, same_shape};
use crate::packet::{NodeID, Packet};
use super::priority::{lis_higher_priority, spec_higher_priority};
use super::{absorbed_of, advanced, arrivals, replay_moves, replayable, retreated};

verus! {

/// The queue on chain edge `(i, i + 1)`.
pub open spec fn path_buffer(n: Network, i: int) -> Seq<Packet> {
    n.buffer(i as NodeID, (i + 1) as NodeID)
}

/// The network carries a path: at least two nodes, and an edge from every
/// node to its successor.
pub open spec fn chain_network(n: Network) -> bool {
    &&& n.num_nodes() >= 2
    &&& forall|i: int|
        0 <= i < n.num_nodes() - 1 ==> #[trigger] n.has_edge(i as NodeID, (i + 1) as NodeID)
}

/// A packet sitting in chain buffer `i` that OED can move: its route is a
/// consecutive run of nodes, the packet sits at node `i` with at least one
/// hop to travel, and a packet not at its route's start occupies a buffer
/// other than buffer zero only with a positive cursor.
pub open spec fn chain_packet(n: Network, p: Packet, i: int) -> bool {
    &&& p.wf()
    &&& p.path_idx + 1 < p.path@.len()
    &&& p.path@[p.path_idx as int] == i
    &&& forall|j: int| 0 <= j < p.path@.len() ==> #[trigger] p.path@[j] == p.path@[0] + j
    &&& forall|j: int| 0 <= j < p.path@.len() ==> #[trigger] p.path@[j] < n.num_nodes()
    &&& (i > 0 ==> p.path_idx > 0)
}

/// Every packet of every chain buffer can be moved by OED.
pub open spec fn chain_state(n: Network) -> bool {
    forall|i: int, k: int|
        0 <= i < n.num_nodes() - 1 && 0 <= k < path_buffer(n, i).len() ==> chain_packet(
            n,
            #[trigger] path_buffer(n, i)[k],
            i,
        )
}

/// The first position of the highest-priority (oldest) packet among the
/// first `n` packets, mirroring a left-to-right scan.
pub open spec fn oldest_idx_up_to(s: Seq<Packet>, n: int) -> int
    decreases n,
{
    if n <= 1 {
        0
    } else {
        let prev = oldest_idx_up_to(s, n - 1);
        if spec_higher_priority(s[n - 1], s[prev]) {
            n - 1
        } else {
            prev
        }
    }
}

/// The first position of the highest-priority (oldest) packet.
pub open spec fn oldest_idx(s: Seq<Packet>) -> int {
    oldest_idx_up_to(s, s.len() as int)
}

/// The first position of the lowest-priority (youngest) packet among the
/// first `n` packets.
pub open spec fn youngest_idx_up_to(s: Seq<Packet>, n: int) -> int
    decreases n,
{
    if n <= 1 {
        0
    } else {
        let prev = youngest_idx_up_to(s, n - 1);
        if spec_higher_priority(s[prev], s[n - 1]) {
            n - 1
        } else {
            prev
        }
    }
}

/// The first position of the lowest-priority (youngest) packet.
pub open spec fn youngest_idx(s: Seq<Packet>) -> int {
    youngest_idx_up_to(s, s.len() as int)
}

/// The highest-priority packet of a buffer.
pub open spec fn oldest(s: Seq<Packet>) -> Packet {
    s[oldest_idx(s)]
}

/// The lowest-priority packet of a buffer.
pub open spec fn youngest(s: Seq<Packet>) -> Packet {
    s[youngest_idx(s)]
}

/// The oldest-scan position is in range and no packet beats it.
pub proof fn lemma_oldest_idx_bounds(s: Seq<Packet>, n: int)
    requires
        1 <= n <= s.len(),
    ensures
        0 <= oldest_idx_up_to(s, n) < n,
        forall|i: int| 0 <= i < n ==> !spec_higher_priority(#[trigger] s[i], s[oldest_idx_up_to(s, n)]),
    decreases n,
{
    if n > 1 {
        lemma_oldest_idx_bounds(s, n - 1);
    }
}

/// The youngest-scan position is in range and beats no packet.
pub proof fn lemma_youngest_idx_bounds(s: Seq<Packet>, n: int)
    requires
        1 <= n <= s.len(),
    ensures
        0 <= youngest_idx_up_to(s, n) < n,
        forall|i: int|
            0 <= i < n ==> !spec_higher_priority(s[youngest_idx_up_to(s, n)], #[trigger] s[i]),
    decreases n,
{
    if n > 1 {
        lemma_youngest_idx_bounds(s, n - 1);
    }
}

/// The OED criterion for chain buffer `i`: its load beats the next
/// buffer's load, or ties it at an odd value.  The last buffer has no next
/// buffer and passes whenever it is non-empty.
pub open spec fn oed_criterion(n: Network, i: int) -> bool {
    if i == n.num_nodes() - 2 {
        path_buffer(n, i).len() > 0
    } else {
        let this_load = path_buffer(n, i).len();
        let next_load = path_buffer(n, i + 1).len();
        this_load > next_load || (this_load == next_load && this_load % 2 == 1)
    }
}

/// Chain buffer `i` forwards its oldest packet: it is non-empty and is the
/// last buffer, or meets the OED criterion, or its oldest packet beats the
/// next buffer's youngest.
pub open spec fn should_fwd(n: Network, i: int) -> bool {
    path_buffer(n, i).len() > 0 && {
        ||| i == n.num_nodes() - 2
        ||| oed_criterion(n, i)
        ||| spec_higher_priority(oldest(path_buffer(n, i)), youngest(path_buffer(n, i + 1)))
    }
}

/// Chain buffer `i` sends its youngest packet one hop back: it and the
/// previous buffer are non-empty, the previous buffer fails the OED
/// criterion, and its oldest packet beats this buffer's youngest.
pub open spec fn should_bwd(n: Network, i: int) -> bool {
    &&& path_buffer(n, i).len() > 0
    &&& i > 0
    &&& path_buffer(n, i - 1).len() > 0
    &&& !oed_criterion(n, i - 1)
    &&& spec_higher_priority(oldest(path_buffer(n, i - 1)), youngest(path_buffer(n, i)))
}

/// Chain buffer `i` after its forward move, if any.
pub open spec fn after_fwd(n: Network, i: int) -> Seq<Packet> {
    let b = path_buffer(n, i);
    if should_fwd(n, i) {
        b.remove(oldest_idx(b))
    } else {
        b
    }
}

/// What one OED round removes from chain buffer `i`: first the oldest
/// packet if the buffer forwards, then the youngest of the remainder if it
/// swaps backward.
pub open spec fn oed_stripped_chain(n: Network, i: int) -> Seq<Packet> {
    let b1 = after_fwd(n, i);
    if should_bwd(n, i) {
        b1.remove(youngest_idx(b1))
    } else {
        b1
    }
}

/// The packets chain buffer `i` contributes to the moved list: the
/// forwarded packet advanced, then the swapped packet retreated.
pub open spec fn moved_from(n: Network, i: int) -> Seq<Packet> {
    let b = path_buffer(n, i);
    let b1 = after_fwd(n, i);
    let fwd = if should_fwd(n, i) {
        seq![advanced(b[oldest_idx(b)])]
    } else {
        Seq::empty()
    };
    let bwd = if should_bwd(n, i) {
        seq![retreated(b1[youngest_idx(b1)])]
    } else {
        Seq::empty()
    };
    fwd + bwd
}

/// The packets the first `k` chain buffers move, in buffer order.
pub open spec fn oed_moved_up_to(n: Network, k: int) -> Seq<Packet>
    decreases k,
{
    if k <= 0 {
        Seq::empty()
    } else {
        oed_moved_up_to(n, k - 1) + moved_from(n, k - 1)
    }
}

/// All packets one OED round moves, in buffer order, forward moves before
/// backward moves within one buffer.
pub open spec fn oed_moved(n: Network) -> Seq<Packet> {
    oed_moved_up_to(n, n.num_nodes() - 1)
}

/// What one OED round leaves in the buffer of edge `(f, t)` before the
/// moved packets are re-inserted: chain buffers lose their moved packets,
/// any other buffer is untouched.
pub open spec fn oed_stripped(n: Network, f: NodeID, t: NodeID) -> Seq<Packet> {
    if t == f + 1 && (f as int) + 1 < n.num_nodes() {
        oed_stripped_chain(n, f as int)
    } else {
        n.buffer(f, t)
    }
}

/// On a chain network the edge from node `i` to node `i + 1` exists.
pub proof fn lemma_chain_edge(n: Network, i: int)
    requires
        n.wf(),
        chain_network(n),
        0 <= i < n.num_nodes() - 1,
    ensures
        n.has_edge(i as NodeID, (i + 1) as NodeID),
{
}

/// A buffer that swaps backward holds at least two packets when it also
/// forwards, and at least one after the forward move.
pub proof fn lemma_bwd_load(n: Network, i: int)
    requires
        0 <= i < n.num_nodes() - 1,
        should_bwd(n, i),
    ensures
        path_buffer(n, i).len() >= 2,
        after_fwd(n, i).len() >= 1,
{
    let lp = path_buffer(n, i - 1).len();
    let li = path_buffer(n, i).len();
    assert(i - 1 < n.num_nodes() - 2);
    assert(!(lp > li || (lp == li && lp % 2 == 1)));
    if li < 2 {
        assert(li == 1 && lp >= 1);
        assert(lp <= li);
        assert(false);
    }
    if should_fwd(n, i) {
        lemma_oldest_idx_bounds(path_buffer(n, i), li as int);
    }
}

/// The OED-with-swap protocol: forwards the oldest packet of a buffer
/// when the local load comparison or the priority comparison says so, and
/// may push a buffer's youngest packet one hop back to smooth overload.
pub struct OEDWithSwap;

impl OEDWithSwap {
    /// Get a new `OEDWithSwap`.
    pub fn new() -> (r: Self)
        ensures
            r == OEDWithSwap,
    {
        OEDWithSwap
    }

    /// Push the packet to the back of the buffer between its current and
    /// next node.
    pub fn add_packet(&mut self, p: Packet, network: &mut Network)
        requires
            old(network).wf(),
            p.path_idx + 1 < p.path@.len(),
            old(network).has_edge(p.path@[p.path_idx as int], p.path@[p.path_idx + 1]),
        ensures
            final(network).wf(),
            same_shape(*old(network), *final(network)),
            final(network).buffer(p.path@[p.path_idx as int], p.path@[p.path_idx + 1]) == old(
                network,
            ).buffer(p.path@[p.path_idx as int], p.path@[p.path_idx + 1]).push(p),
            forall|f: NodeID, t: NodeID|
                #[trigger] old(network).has_edge(f, t) && !(f == p.path@[p.path_idx as int] && t
                    == p.path@[p.path_idx + 1]) ==> final(network).buffer(f, t) == old(
                    network,
                ).buffer(f, t),
    {
        let cur = p.cur_node().unwrap();
        let next = p.next_node().unwrap();
        network.add_packet(p, cur, next);
    }

    /// The position of the highest-priority (oldest) packet of the named
    /// buffer, earliest position first; absent when the buffer is empty.
    fn highest_priority_idx(&self, from_id: NodeID, to_id: NodeID, network: &Network) -> (r: Option<
        usize,
    >)
        requires
            network.wf(),
            network.has_edge(from_id, to_id),
        ensures
            match r {
                Some(i) => network.buffer(from_id, to_id).len() > 0 && i == oldest_idx(
                    network.buffer(from_id, to_id),
                ),
                None => network.buffer(from_id, to_id).len() == 0,
            },
    {
        proof {
            assert(network.nodes@[from_id as int].wf());
        }
        let eb = match network.get_edgebuffer(from_id, to_id) {
            Some(eb) => eb,
            None => {
                proof {
                    assert(false);
                }
                return None;
            },
        };
        if eb.buffer.len() == 0 {
            return None;
        }
        let ghost s = network.buffer(from_id, to_id);
        let mut hipri_idx: usize = 0;
        let mut i: usize = 1;
        while i < eb.buffer.len()
            invariant
                eb.buffer@ == s,
                s.len() > 0,
                1 <= i <= s.len(),
                hipri_idx < i,
                hipri_idx == oldest_idx_up_to(s, i as int),
            decreases s.len() - i,
        {
            if lis_higher_priority(&eb.buffer[i], &eb.buffer[hipri_idx]) {
                hipri_idx = i;
            }
            proof {
                lemma_oldest_idx_bounds(s, i + 1);
            }
            i = i + 1;
        }
        Some(hipri_idx)
    }

    /// The position of the lowest-priority (youngest) packet of the named
    /// buffer, earliest position first; absent when the buffer is empty.
    fn lowest_priority_idx(&self, from_id: NodeID, to_id: NodeID, network: &Network) -> (r: Option<
        usize,
    >)
        requires
            network.wf(),
            network.has_edge(from_id, to_id),
        ensures
            match r {
                Some(i) => network.buffer(from_id, to_id).len() > 0 && i == youngest_idx(
                    network.buffer(from_id, to_id),
                ),
                None => network.buffer(from_id, to_id).len() == 0,
            },
    {
        let eb = match network.get_edgebuffer(from_id, to_id) {
            Some(eb) => eb,
            None => {
                proof {
                    assert(false);
                }
                return None;
            },
        };
        if eb.buffer.len() == 0 {
            return None;
        }
        let ghost s = network.buffer(from_id, to_id);
        let mut lopri_idx: usize = 0;
        let mut i: usize = 1;
        while i < eb.buffer.len()
            invariant
                eb.buffer@ == s,
                s.len() > 0,
                1 <= i <= s.len(),
                lopri_idx < i,
                lopri_idx == youngest_idx_up_to(s, i as int),
            decreases s.len() - i,
        {
            if lis_higher_priority(&eb.buffer[lopri_idx], &eb.buffer[i]) {
                lopri_idx = i;
            }
            proof {
                lemma_youngest_idx_bounds(s, i + 1);
            }
            i = i + 1;
        }
        Some(lopri_idx)
    }
}

/// The load of chain buffer `i`.
fn chain_load(network: &Network, i: usize) -> (r: usize)
    requires
        network.wf(),
        i < network.num_nodes() - 1,
        network.has_edge(i, (i + 1) as NodeID),
    ensures
        r == path_buffer(*network, i as int).len(),
{
    match network.get_edgebuffer(i, i + 1) {
        Some(eb) => eb.buffer.len(),
        None => unreached(),
    }
}

/// A read-only view of the packet at one position of chain buffer `i`.
fn chain_packet_at<'a>(network: &'a Network, i: usize, idx: usize) -> (p: &'a Packet)
    requires
        network.wf(),
        i < network.num_nodes() - 1,
        network.has_edge(i, (i + 1) as NodeID),
        idx < path_buffer(*network, i as int).len(),
    ensures
        *p == path_buffer(*network, i as int)[idx as int],
{
    match network.get_edgebuffer(i, i + 1) {
        Some(eb) => &eb.buffer[idx],
        None => unreached(),
    }
}

impl OEDWithSwap {
    /// Decide, from one snapshot of the network, whether each chain buffer
    /// forwards its oldest packet and whether it sends its youngest packet
    /// backward.
    fn get_should_forward_or_backward(&self, network: &Network) -> (r: Vec<(bool, bool)>)
        requires
            network.wf(),
            chain_network(*network),
        ensures
            r@.len() == network.num_nodes() - 1,
            forall|i: int|
                0 <= i < r@.len() ==> (#[trigger] r@[i]).0 == should_fwd(*network, i) && r@[i].1
                    == should_bwd(*network, i),
    {
        let num_nodes = network.get_num_nodes();
        let mut result: Vec<(bool, bool)> = Vec::new();
        let mut i: usize = 0;
        while i < num_nodes - 1
            invariant
                network.wf(),
                chain_network(*network),
                num_nodes == network.num_nodes(),
                i <= num_nodes - 1,
                result@.len() == i,
                forall|j: int|
                    0 <= j < i ==> (#[trigger] result@[j]).0 == should_fwd(*network, j)
                        && result@[j].1 == should_bwd(*network, j),
            decreases num_nodes - 1 - i,
        {
            proof {
                lemma_chain_edge(*network, i as int);
            }
            let this_load = chain_load(network, i);
            let should_forward: bool;
            if this_load == 0 {
                should_forward = false;
            } else if i == num_nodes - 2 {
                should_forward = true;
            } else {
                proof {
                    lemma_chain_edge(*network, i + 1);
                }
                let next_load = chain_load(network, i + 1);
                if this_load > next_load || (this_load == next_load && this_load % 2 == 1) {
                    should_forward = true;
                } else {
                    let o = match self.highest_priority_idx(i, i + 1, network) {
                        Some(o) => o,
                        None => unreached(),
                    };
                    let y = match self.lowest_priority_idx(i + 1, i + 2, network) {
                        Some(y) => y,
                        None => unreached(),
                    };
                    proof {
                        lemma_oldest_idx_bounds(
                            path_buffer(*network, i as int),
                            path_buffer(*network, i as int).len() as int,
                        );
                        lemma_youngest_idx_bounds(
                            path_buffer(*network, i + 1),
                            path_buffer(*network, i + 1).len() as int,
                        );
                    }
                    should_forward = lis_higher_priority(
                        chain_packet_at(network, i, o),
                        chain_packet_at(network, i + 1, y),
                    );
                }
            }
            let should_backward: bool;
            if this_load == 0 || i == 0 {
                should_backward = false;
            } else {
                proof {
                    lemma_chain_edge(*network, i - 1);
                }
                let prev_load = chain_load(network, i - 1);
                if prev_load == 0 {
                    should_backward = false;
                } else if prev_load > this_load || (prev_load == this_load && prev_load % 2 == 1) {
                    should_backward = false;
                } else {
                    let o = match self.highest_priority_idx(i - 1, i, network) {
                        Some(o) => o,
                        None => unreached(),
                    };
                    let y = match self.lowest_priority_idx(i, i + 1, network) {
                        Some(y) => y,
                        None => unreached(),
                    };
                    proof {
                        lemma_oldest_idx_bounds(
                            path_buffer(*network, i - 1),
                            path_buffer(*network, i - 1).len() as int,
                        );
                        lemma_youngest_idx_bounds(
                            path_buffer(*network, i as int),
                            path_buffer(*network, i as int).len() as int,
                        );
                    }
                    should_backward = lis_higher_priority(
                        chain_packet_at(network, i - 1, o),
                        chain_packet_at(network, i, y),
                    );
                }
            }
            proof {
                assert(should_forward == should_fwd(*network, i as int));
                assert(should_backward == should_bwd(*network, i as int));
            }
            result.push((should_forward, should_backward));
            i = i + 1;
        }
        result
    }

    /// Remove from each chain buffer, in buffer order, the packets one OED
    /// round moves: the forwarded oldest packet advanced, then the swapped
    /// youngest packet retreated.
    fn get_packets_to_fwd_and_bwd(&mut self, network: &mut Network) -> (result: Vec<Packet>)
        requires
            old(network).wf(),
            chain_network(*old(network)),
            chain_state(*old(network)),
        ensures
            final(network).wf(),
            same_shape(*old(network), *final(network)),
            result@ == oed_moved(*old(network)),
            forall|f: NodeID, t: NodeID|
                #[trigger] old(network).has_edge(f, t) ==> final(network).buffer(f, t)
                    == oed_stripped(*old(network), f, t),
    {
        let ghost net0 = *old(network);
        let forward_or_backward = self.get_should_forward_or_backward(network);
        let num_nodes = network.get_num_nodes();
        let mut result: Vec<Packet> = Vec::new();
        proof {
            assert(result@ =~= oed_moved_up_to(net0, 0));
        }
        let mut from_id: usize = 0;
        while from_id < num_nodes - 1
            invariant
                network.wf(),
                net0.wf(),
                chain_network(net0),
                chain_state(net0),
                same_shape(net0, *network),
                num_nodes == net0.num_nodes(),
                from_id <= num_nodes - 1,
                forward_or_backward@.len() == num_nodes - 1,
                forall|j: int|
                    0 <= j < num_nodes - 1 ==> (#[trigger] forward_or_backward@[j]).0
                        == should_fwd(net0, j) && forward_or_backward@[j].1 == should_bwd(net0, j),
                result@ == oed_moved_up_to(net0, from_id as int),
                forall|f: NodeID, t: NodeID|
                    #[trigger] net0.has_edge(f, t) ==> network.buffer(f, t) == (
                    if t == f + 1 && (f as int) + 1 < net0.num_nodes() && (f as int) < from_id {
                        oed_stripped_chain(net0, f as int)
                    } else {
                        net0.buffer(f, t)
                    }),
            decreases num_nodes - 1 - from_id,
        {
            let to_id = from_id + 1;
            let ghost b0 = path_buffer(net0, from_id as int);
            proof {
                lemma_chain_edge(net0, from_id as int);
                assert(net0.has_edge(from_id, to_id));
                assert(network.buffer(from_id, to_id) == b0);
                assert(network.nodes@[from_id as int].to_ids@ == net0.nodes@[
                    from_id as int
                ].to_ids@);
                assert(network.has_edge(from_id, to_id));
            }
            let flags = forward_or_backward[from_id];
            let forward = flags.0;
            let backward = flags.1;
            let load = chain_load(network, from_id);
            if load > 0 {
                if forward {
                    let o_idx = match self.highest_priority_idx(from_id, to_id, network) {
                        Some(o) => o,
                        None => unreached(),
                    };
                    proof {
                        lemma_oldest_idx_bounds(b0, b0.len() as int);
                    }
                    let ghost mid = *network;
                    let mut p = network.remove_packet(from_id, to_id, o_idx);
                    proof {
                        assert(p == b0[oldest_idx(b0)]);
                        assert(chain_packet(net0, p, from_id as int));
                        assert forall|f: NodeID, t: NodeID|
                            #[trigger] net0.has_edge(f, t) && !(f == from_id && t
                                == to_id) implies network.buffer(f, t) == mid.buffer(f, t) by {
                            assert(mid.nodes@[f as int].to_ids@ == net0.nodes@[f as int].to_ids@);
                            assert(mid.has_edge(f, t));
                        }
                    }
                    p.increment_path_idx();
                    proof {
                        assert(p == advanced(b0[oldest_idx(b0)]));
                    }
                    result.push(p);
                }
                if backward {
                    let ghost b1 = after_fwd(net0, from_id as int);
                    proof {
                        lemma_bwd_load(net0, from_id as int);
                        assert(network.buffer(from_id, to_id) == b1);
                    }
                    let y_idx = match self.lowest_priority_idx(from_id, to_id, network) {
                        Some(y) => y,
                        None => unreached(),
                    };
                    proof {
                        lemma_youngest_idx_bounds(b1, b1.len() as int);
                        // The youngest of the remainder is a packet of the
                        // original buffer, so it can be moved.
                        if should_fwd(net0, from_id as int) {
                            lemma_oldest_idx_bounds(b0, b0.len() as int);
                            if youngest_idx(b1) < oldest_idx(b0) {
                                assert(b1[youngest_idx(b1)] == b0[youngest_idx(b1)]);
                            } else {
                                assert(b1[youngest_idx(b1)] == b0[youngest_idx(b1) + 1]);
                            }
                        }
                        assert(chain_packet(net0, b1[youngest_idx(b1)], from_id as int));
                    }
                    let ghost mid = *network;
                    let mut p = network.remove_packet(from_id, to_id, y_idx);
                    proof {
                        assert(p == b1[youngest_idx(b1)]);
                        assert forall|f: NodeID, t: NodeID|
                            #[trigger] net0.has_edge(f, t) && !(f == from_id && t
                                == to_id) implies network.buffer(f, t) == mid.buffer(f, t) by {
                            assert(mid.nodes@[f as int].to_ids@ == net0.nodes@[f as int].to_ids@);
                            assert(mid.has_edge(f, t));
                        }
                    }
                    p.decrement_path_idx();
                    proof {
                        assert(p == retreated(b1[youngest_idx(b1)]));
                    }
                    result.push(p);
                }
            }
            proof {
                // The moved list grows by exactly this buffer's moves.
                assert(oed_moved_up_to(net0, from_id + 1) == oed_moved_up_to(net0, from_id as int)
                    + moved_from(net0, from_id as int));
                if load == 0 {
                    assert(!should_fwd(net0, from_id as int));
                    assert(!should_bwd(net0, from_id as int));
                    assert(moved_from(net0, from_id as int) =~= Seq::<Packet>::empty());
                    assert(result@ =~= oed_moved_up_to(net0, from_id + 1));
                } else {
                    assert(forward == should_fwd(net0, from_id as int));
                    assert(backward == should_bwd(net0, from_id as int));
                    assert(result@ =~= oed_moved_up_to(net0, from_id + 1));
                }
                // This buffer now holds what the round leaves it.
                assert(network.buffer(from_id, to_id) == oed_stripped_chain(
                    net0,
                    from_id as int,
                ));
                assert forall|f: NodeID, t: NodeID| #[trigger] net0.has_edge(f, t) implies network
                    .buffer(f, t) == (if t == f + 1 && (f as int) + 1 < net0.num_nodes() && (
                f as int) < from_id + 1 {
                    oed_stripped_chain(net0, f as int)
                } else {
                    net0.buffer(f, t)
                }) by {}
            }
            from_id = from_id + 1;
        }
        proof {
            assert(result@ == oed_moved(net0));
            assert forall|f: NodeID, t: NodeID| #[trigger] net0.has_edge(f, t) implies network
                .buffer(f, t) == oed_stripped(net0, f, t) by {}
        }
        result
    }

    /// One OED-with-swap round: decide all moves from the snapshot at the
    /// start of the round, apply them, and return the absorbed packets.
    pub fn forward_packets(&mut self, network: &mut Network) -> (absorbed: Vec<Packet>)
        requires
            old(network).wf(),
            chain_network(*old(network)),
            chain_state(*old(network)),
        ensures
            *final(self) == *old(self),
            final(network).wf(),
            same_shape(*old(network), *final(network)),
            absorbed@ == absorbed_of(oed_moved(*old(network))),
            forall|f: NodeID, t: NodeID|
                #[trigger] old(network).has_edge(f, t) ==> final(network).buffer(f, t)
                    == oed_stripped(*old(network), f, t) + arrivals(
                    oed_moved(*old(network)),
                    f,
                    t,
                ),
    {
        let ghost net0 = *old(network);
        let to_fwd_and_bwd = self.get_packets_to_fwd_and_bwd(network);
        proof {
            lemma_oed_moved_replayable(net0, net0.num_nodes() - 1);
            assert forall|j: int| 0 <= j < to_fwd_and_bwd@.len() implies replayable(
                *network,
                #[trigger] to_fwd_and_bwd@[j],
            ) by {
                assert(replayable(net0, to_fwd_and_bwd@[j]));
                let p = to_fwd_and_bwd@[j];
                if !p.will_absorb() {
                    let f = p.path@[p.path_idx as int];
                    assert(net0.has_edge(f, p.path@[p.path_idx + 1]));
                    assert(network.nodes@[f as int].to_ids@ == net0.nodes@[f as int].to_ids@);
                }
            }
        }
        let ghost stripped = *network;
        let absorbed = replay_moves(network, to_fwd_and_bwd);
        proof {
            assert forall|f: NodeID, t: NodeID| #[trigger] net0.has_edge(f, t) implies network
                .buffer(f, t) == oed_stripped(net0, f, t) + arrivals(oed_moved(net0), f, t) by {
                assert(stripped.nodes@[f as int].to_ids@ == net0.nodes@[f as int].to_ids@);
                assert(stripped.has_edge(f, t));
            }
        }
        absorbed
    }
}

/// With a single packet in the network, the first `k` chain buffers move
/// exactly that packet once its buffer has been scanned, and nothing else.
proof fn lemma_single_packet_moved(n: Network, i: int, k: int)
    requires
        n.wf(),
        chain_network(n),
        chain_state(n),
        0 <= i < n.num_nodes() - 1,
        path_buffer(n, i).len() == 1,
        forall|j: int| 0 <= j < n.num_nodes() - 1 && j != i ==> path_buffer(n, j).len() == 0,
        0 <= k <= n.num_nodes() - 1,
    ensures
        oed_moved_up_to(n, k) == if k > i {
            seq![advanced(path_buffer(n, i)[0])]
        } else {
            Seq::<Packet>::empty()
        },
    decreases k,
{
    if k > 0 {
        lemma_single_packet_moved(n, i, k - 1);
        let j = k - 1;
        if j == i {
            assert(should_fwd(n, i)) by {
                if i != n.num_nodes() - 2 {
                    assert(path_buffer(n, i + 1).len() == 0);
                    assert(oed_criterion(n, i));
                }
            }
            assert(!should_bwd(n, i)) by {
                if i > 0 {
                    assert(path_buffer(n, i - 1).len() == 0);
                }
            }
            assert(oldest_idx(path_buffer(n, i)) == 0);
            assert(moved_from(n, i) =~= seq![advanced(path_buffer(n, i)[0])]);
            assert(oed_moved_up_to(n, k) =~= seq![advanced(path_buffer(n, i)[0])]);
        } else {
            assert(path_buffer(n, j).len() == 0);
            assert(!should_fwd(n, j));
            assert(!should_bwd(n, j));
            assert(moved_from(n, j) =~= Seq::<Packet>::empty());
            assert(oed_moved_up_to(n, k) =~= oed_moved_up_to(n, k - 1));
        }
    }
}

/// Absorption: with a single packet and no competing traffic, one OED
/// round advances that packet by exactly one hop.  The round reports it
/// absorbed exactly when the advance brings its cursor to the last node of
/// its route, and never before: otherwise the packet is re-inserted one
/// buffer further along, with its cursor one step higher.
#[verifier::spinoff_prover]
#[verifier::rlimit(50)]
pub proof fn lemma_absorption_step(n: Network, i: int)
    requires
        n.wf(),
        chain_network(n),
        chain_state(n),
        0 <= i < n.num_nodes() - 1,
        path_buffer(n, i).len() == 1,
        forall|j: int| 0 <= j < n.num_nodes() - 1 && j != i ==> path_buffer(n, j).len() == 0,
    ensures
        oed_moved(n) == seq![advanced(path_buffer(n, i)[0])],
        oed_stripped_chain(n, i) == Seq::<Packet>::empty(),
        advanced(path_buffer(n, i)[0]).will_absorb() <==> path_buffer(n, i)[0].path_idx + 2
            == path_buffer(n, i)[0].path@.len(),
        absorbed_of(oed_moved(n)) == if advanced(path_buffer(n, i)[0]).will_absorb() {
            seq![advanced(path_buffer(n, i)[0])]
        } else {
            Seq::<Packet>::empty()
        },
        !advanced(path_buffer(n, i)[0]).will_absorb() ==> arrivals(
            oed_moved(n),
            (i + 1) as NodeID,
            (i + 2) as NodeID,
        ) == seq![advanced(path_buffer(n, i)[0])],
{
    let b = path_buffer(n, i);
    let p = b[0];
    lemma_single_packet_moved(n, i, n.num_nodes() - 1);
    assert(chain_packet(n, p, i));
    assert(should_fwd(n, i)) by {
        if i != n.num_nodes() - 2 {
            assert(path_buffer(n, i + 1).len() == 0);
            assert(oed_criterion(n, i));
        }
    }
    assert(!should_bwd(n, i)) by {
        if i > 0 {
            assert(path_buffer(n, i - 1).len() == 0);
        }
    }
    assert(oldest_idx(b) == 0);
    assert(oed_stripped_chain(n, i) =~= Seq::<Packet>::empty());
    lemma_moved_empty_single(advanced(p));
    if !advanced(p).will_absorb() {
        assert(p.path@[p.path_idx as int] == p.path@[0] + p.path_idx);
        assert(p.path@[p.path_idx + 1] == p.path@[0] + (p.path_idx + 1));
        assert(p.path@[p.path_idx + 2] == p.path@[0] + (p.path_idx + 2));
        assert(super::goes_to(advanced(p), (i + 1) as NodeID, (i + 2) as NodeID));
    }
}

/// The absorbed packets and arrivals of a one-packet moved list.
proof fn lemma_moved_empty_single(p: Packet)
    ensures
        absorbed_of(seq![p]) == if p.will_absorb() {
            seq![p]
        } else {
            Seq::<Packet>::empty()
        },
        forall|f: NodeID, t: NodeID|
            #[trigger] arrivals(seq![p], f, t) == if super::goes_to(p, f, t) {
                seq![p]
            } else {
                Seq::<Packet>::empty()
            },
{
    super::lemma_moved_empty();
    assert(seq![p] =~= Seq::<Packet>::empty().push(p));
    super::lemma_moved_push(Seq::<Packet>::empty(), p);
    assert forall|f: NodeID, t: NodeID| #[trigger] arrivals(seq![p], f, t) == if super::goes_to(
        p,
        f,
        t,
    ) {
        seq![p]
    } else {
        Seq::<Packet>::empty()
    } by {
        assert(arrivals(seq![p], f, t) == arrivals(Seq::<Packet>::empty().push(p), f, t));
        if super::goes_to(p, f, t) {
            assert(arrivals(Seq::<Packet>::empty(), f, t).push(p) =~= seq![p]);
        }
    }
}

/// Every route starts at node zero: the standard single-destination
/// setting, where a packet in chain buffer `i` carries cursor `i`.
pub open spec fn rooted(n: Network) -> bool {
    forall|i: int, k: int|
        0 <= i < n.num_nodes() - 1 && 0 <= k < path_buffer(n, i).len() ==> (
        #[trigger] path_buffer(n, i)[k]).path@[0] == 0
}

/// What holds of every packet an OED round moves, in a rooted chain
/// state: unless it absorbs, it is again a well-placed chain packet of
/// the buffer it is re-inserted into.
pub open spec fn moved_ok(n: Network, p: Packet) -> bool {
    &&& p.wf()
    &&& (!p.will_absorb() ==> {
        &&& p.path_idx + 1 < p.path@.len()
        &&& p.path@[0] == 0
        &&& (forall|j: int| 0 <= j < p.path@.len() ==> #[trigger] p.path@[j] == p.path@[0] + j)
        &&& (forall|j: int| 0 <= j < p.path@.len() ==> #[trigger] p.path@[j] < n.num_nodes())
    })
}

/// In a rooted chain state, every moved packet of the first `k` buffers
/// satisfies `moved_ok`.
proof fn lemma_oed_moved_ok(n: Network, k: int)
    requires
        n.wf(),
        chain_network(n),
        chain_state(n),
        rooted(n),
        0 <= k <= n.num_nodes() - 1,
    ensures
        forall|j: int|
            0 <= j < oed_moved_up_to(n, k).len() ==> moved_ok(n, #[trigger] oed_moved_up_to(n, k)[j]),
    decreases k,
{
    if k > 0 {
        lemma_oed_moved_ok(n, k - 1);
        let i = k - 1;
        let b = path_buffer(n, i);
        let b1 = after_fwd(n, i);
        let prev = oed_moved_up_to(n, k - 1);
        let here = moved_from(n, i);
        if should_fwd(n, i) {
            lemma_oldest_idx_bounds(b, b.len() as int);
            let q = b[oldest_idx(b)];
            assert(chain_packet(n, q, i));
            assert(q.path@[0] == 0);
            assert(moved_ok(n, advanced(q)));
        }
        if should_bwd(n, i) {
            lemma_bwd_load(n, i);
            lemma_youngest_idx_bounds(b1, b1.len() as int);
            if should_fwd(n, i) {
                lemma_oldest_idx_bounds(b, b.len() as int);
                if youngest_idx(b1) < oldest_idx(b) {
                    assert(b1[youngest_idx(b1)] == b[youngest_idx(b1)]);
                } else {
                    assert(b1[youngest_idx(b1)] == b[youngest_idx(b1) + 1]);
                }
            }
            let q = b1[youngest_idx(b1)];
            assert(chain_packet(n, q, i));
            assert(q.path@[0] == 0);
            let p = retreated(q);
            assert(!p.will_absorb());
            assert(moved_ok(n, p));
        }
        assert forall|j: int| 0 <= j < oed_moved_up_to(n, k).len() implies moved_ok(
            n,
            #[trigger] oed_moved_up_to(n, k)[j],
        ) by {
            if j < prev.len() {
                assert(oed_moved_up_to(n, k)[j] == prev[j]);
            } else {
                assert(oed_moved_up_to(n, k)[j] == here[j - prev.len()]);
            }
        }
    }
}

/// One OED round keeps the chain invariants: on a rooted chain state, the
/// network after the round is again a rooted chain state, so the round
/// can be applied again.  Together with the absorption lemma this carries
/// a packet across any number of rounds.
pub proof fn lemma_oed_round_preserves_chain(pre: Network, post: Network)
    requires
        pre.wf(),
        chain_network(pre),
        chain_state(pre),
        rooted(pre),
        post.wf(),
        same_shape(pre, post),
        forall|f: NodeID, t: NodeID|
            #[trigger] pre.has_edge(f, t) ==> post.buffer(f, t) == oed_stripped(pre, f, t)
                + arrivals(oed_moved(pre), f, t),
    ensures
        chain_network(post),
        chain_state(post),
        rooted(post),
{
    assert(post.num_nodes() == pre.num_nodes());
    assert forall|i: int|
        0 <= i < post.num_nodes() - 1 implies #[trigger] post.has_edge(
        i as NodeID,
        (i + 1) as NodeID,
    ) by {
        lemma_chain_edge(pre, i);
        assert(post.nodes@[i].to_ids@ == pre.nodes@[i].to_ids@);
    }
    lemma_oed_moved_ok(pre, pre.num_nodes() - 1);
    assert forall|i: int, k: int|
        0 <= i < post.num_nodes() - 1 && 0 <= k < path_buffer(post, i).len() implies {
        &&& chain_packet(post, #[trigger] path_buffer(post, i)[k], i)
        &&& path_buffer(post, i)[k].path@[0] == 0
    } by {
        let f = i as NodeID;
        let t = (i + 1) as NodeID;
        lemma_chain_edge(pre, i);
        assert(pre.has_edge(f, t));
        let b = path_buffer(pre, i);
        let stripped = oed_stripped(pre, f, t);
        let arr = arrivals(oed_moved(pre), f, t);
        assert(path_buffer(post, i) == stripped + arr);
        assert(stripped == oed_stripped_chain(pre, i));
        let p = path_buffer(post, i)[k];
        if k < stripped.len() {
            // A packet the round left in place was already a rooted chain
            // packet of this buffer.
            let b1 = after_fwd(pre, i);
            assert forall|m: int| 0 <= m < b1.len() implies b.contains(#[trigger] b1[m]) by {
                if should_fwd(pre, i) {
                    lemma_oldest_idx_bounds(b, b.len() as int);
                    if m < oldest_idx(b) {
                        assert(b1[m] == b[m]);
                    } else {
                        assert(b1[m] == b[m + 1]);
                    }
                } else {
                    assert(b1[m] == b[m]);
                }
            }
            assert forall|m: int| 0 <= m < stripped.len() implies b.contains(
                #[trigger] stripped[m],
            ) by {
                if should_bwd(pre, i) {
                    lemma_bwd_load(pre, i);
                    lemma_youngest_idx_bounds(b1, b1.len() as int);
                    if m < youngest_idx(b1) {
                        assert(stripped[m] == b1[m]);
                    } else {
                        assert(stripped[m] == b1[m + 1]);
                    }
                    assert(b.contains(stripped[m]));
                } else {
                    assert(stripped[m] == b1[m]);
                }
            }
            assert(b.contains(p));
            let m0 = choose|m0: int| 0 <= m0 < b.len() && b[m0] == p;
            assert(chain_packet(pre, p, i));
            assert(chain_packet(post, p, i));
            assert(p.path@[0] == 0);
        } else {
            // An arriving packet was moved here: it satisfies `moved_ok`
            // and its route places it exactly in this buffer.
            let j = k - stripped.len();
            assert(p == arr[j]);
            super::lemma_filter_membership(
                oed_moved(pre),
                |q: Packet| super::goes_to(q, f, t),
            );
            assert(oed_moved(pre).contains(p));
            let m0 = choose|m0: int|
                0 <= m0 < oed_moved(pre).len() && oed_moved(pre)[m0] == p;
            assert(moved_ok(pre, p));
            assert(super::goes_to(p, f, t)) by {
                assert(arr[j] == oed_moved(pre).filter(
                    |q: Packet| super::goes_to(q, f, t),
                )[j]);
                oed_moved(pre).lemma_filter_pred(|q: Packet| super::goes_to(q, f, t), j);
            }
            assert(!p.will_absorb());
            assert(p.path@[p.path_idx as int] == f);
            assert(p.path@[p.path_idx as int] == p.path@[0] + p.path_idx);
            assert(p.path_idx == i);
            assert(chain_packet(post, p, i));
        }
    }
}

/// Every packet an OED round moves can be replayed: its cursor is in
/// range and its target buffer is a chain edge that exists.
proof fn lemma_oed_moved_replayable(n: Network, k: int)
    requires
        n.wf(),
        chain_network(n),
        chain_state(n),
        0 <= k <= n.num_nodes() - 1,
    ensures
        forall|j: int|
            0 <= j < oed_moved_up_to(n, k).len() ==> replayable(
                n,
                #[trigger] oed_moved_up_to(n, k)[j],
            ),
    decreases k,
{
    if k > 0 {
        lemma_oed_moved_replayable(n, k - 1);
        let i = k - 1;
        let b = path_buffer(n, i);
        let b1 = after_fwd(n, i);
        let prev = oed_moved_up_to(n, k - 1);
        let here = moved_from(n, i);
        if should_fwd(n, i) {
            lemma_oldest_idx_bounds(b, b.len() as int);
            let q = b[oldest_idx(b)];
            assert(chain_packet(n, q, i));
            let p = advanced(q);
            assert(q.path@[q.path_idx as int] == q.path@[0] + q.path_idx);
            if !p.will_absorb() {
                assert(q.path@[q.path_idx + 1] == q.path@[0] + (q.path_idx + 1));
                assert(q.path@[q.path_idx + 2] == q.path@[0] + (q.path_idx + 2));
                assert(q.path@[q.path_idx + 2] < n.num_nodes());
                lemma_chain_edge(n, i + 1);
                assert(n.has_edge(p.path@[p.path_idx as int], p.path@[p.path_idx + 1]));
            }
            assert(replayable(n, p));
        }
        if should_bwd(n, i) {
            lemma_bwd_load(n, i);
            lemma_youngest_idx_bounds(b1, b1.len() as int);
            if should_fwd(n, i) {
                lemma_oldest_idx_bounds(b, b.len() as int);
                if youngest_idx(b1) < oldest_idx(b) {
                    assert(b1[youngest_idx(b1)] == b[youngest_idx(b1)]);
                } else {
                    assert(b1[youngest_idx(b1)] == b[youngest_idx(b1) + 1]);
                }
            }
            let q = b1[youngest_idx(b1)];
            assert(chain_packet(n, q, i));
            let p = retreated(q);
            assert(q.path@[q.path_idx as int] == q.path@[0] + q.path_idx);
            assert(q.path@[q.path_idx - 1] == q.path@[0] + (q.path_idx - 1));
            assert(!p.will_absorb());
            lemma_chain_edge(n, i - 1);
            assert(n.has_edge(p.path@[p.path_idx as int], p.path@[p.path_idx + 1]));
            assert(replayable(n, p));
        }
        assert forall|j: int| 0 <= j < oed_moved_up_to(n, k).len() implies replayable(
            n,
            #[trigger] oed_moved_up_to(n, k)[j],
        ) by {
            if j < prev.len() {
                assert(oed_moved_up_to(n, k)[j] == prev[j]);
            } else {
                assert(oed_moved_up_to(n, k)[j] == here[j - prev.len()]);
            }
        }
    }
}

} // verus!
