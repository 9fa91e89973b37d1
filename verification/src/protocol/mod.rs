//! Forwarding protocols: each round they decide which packets move through
//! the network, apply the moves, and report the packets that were absorbed.
//!
//! Every protocol works in two phases.  First it removes the packets to be
//! moved from their buffers and advances (or retreats) their cursors,
//! reading only the state the network had at the start of the round.  Then
//! it replays the list of moved packets: a packet whose next advance is the
//! absorption step goes to the result, every other packet is appended to
//! the buffer between its current and next node.

pub mod greedy;
pub mod oed;
pub mod priority;

use vstd::prelude::*;
use crate::network::{Network, same_shape};
use crate::packet::{NodeID, Packet};
use self::greedy::{GreedyFIFO, GreedyLIS, fifo_left, fifo_moved, greedy_count, lis_left, lis_moved};
use self::oed::{OEDWithSwap, chain_network, chain_state, oed_moved, oed_stripped};

verus! {

/// The packet with its cursor advanced one hop.
pub open spec fn advanced(p: Packet) -> Packet {
    Packet { path_idx: (p.path_idx + 1) as usize, ..p }
}

/// The packet with its cursor moved one hop back.
pub open spec fn retreated(p: Packet) -> Packet {
    Packet { path_idx: (p.path_idx - 1) as usize, ..p }
}

/// A moved packet that is not absorbed is re-inserted into the buffer
/// between its current and its next node.
pub open spec fn goes_to(p: Packet, f: NodeID, t: NodeID) -> bool {
    !p.will_absorb() && p.path@[p.path_idx as int] == f && p.path@[p.path_idx + 1] == t
}

/// Of the moved packets, those re-inserted into edge `(f, t)`, in order.
pub open spec fn arrivals(moved: Seq<Packet>, f: NodeID, t: NodeID) -> Seq<Packet> {
    moved.filter(|p: Packet| goes_to(p, f, t))
}

/// Of the moved packets, those reported absorbed, in order.
pub open spec fn absorbed_of(moved: Seq<Packet>) -> Seq<Packet> {
    moved.filter(|p: Packet| p.will_absorb())
}

/// A moved packet the replay phase can handle: its cursor is in range, and
/// unless it is about to be absorbed, the buffer it is re-inserted into
/// exists.
pub open spec fn replayable(n: Network, p: Packet) -> bool {
    &&& p.wf()
    &&& p.path_idx < p.path@.len()
    &&& (!p.will_absorb() ==> p.path_idx + 1 < p.path@.len() && n.has_edge(
        p.path@[p.path_idx as int],
        p.path@[p.path_idx + 1],
    ))
}

/// A packet sitting in a buffer that a greedy protocol can move: it still
/// has at least one hop to travel and the rest of its route runs along
/// existing edges.
pub open spec fn routable(n: Network, p: Packet) -> bool {
    &&& p.wf()
    &&& p.path_idx + 1 < p.path@.len()
    &&& forall|j: int|
        p.path_idx <= j < p.path@.len() - 1 ==> n.has_edge(
            #[trigger] p.path@[j],
            p.path@[j + 1],
        )
}

/// Every packet in every buffer of the network is routable.
pub open spec fn all_routable(n: Network) -> bool {
    forall|f: NodeID, t: NodeID, k: int|
        n.has_edge(f, t) && 0 <= k < n.buffer(f, t).len() ==> routable(
            n,
            #[trigger] n.buffer(f, t)[k],
        )
}

/// A freshly injected packet whose route is the full path of a chain
/// network, with its cursor below the second-to-last node, is routable:
/// the greedy protocols can move it.
pub proof fn lemma_injected_packet_routable(n: Network, p: Packet)
    requires
        n.wf(),
        chain_network(n),
        n.num_nodes() < usize::MAX,
        p.path@.len() == n.num_nodes(),
        forall|j: int| 0 <= j < p.path@.len() ==> #[trigger] p.path@[j] == j,
        p.path_idx + 2 < p.path@.len(),
    ensures
        routable(n, p),
        oed::chain_packet(n, p, p.path_idx as int),
{
    assert forall|j: int| p.path_idx <= j < p.path@.len() - 1 implies n.has_edge(
        #[trigger] p.path@[j],
        p.path@[j + 1],
    ) by {
        oed::lemma_chain_edge(n, j);
        assert(p.path@[j] == j && p.path@[j + 1] == j + 1);
    }
}

/// Every packet of a filtered sequence comes from the sequence itself.
pub proof fn lemma_filter_membership(s: Seq<Packet>, pred: spec_fn(Packet) -> bool)
    ensures
        forall|k: int| 0 <= k < s.filter(pred).len() ==> s.contains(#[trigger] s.filter(pred)[k]),
    decreases s.len(),
{
    reveal(Seq::filter);
    if s.len() > 0 {
        let head = s.drop_last();
        lemma_filter_membership(head, pred);
        assert forall|k: int| 0 <= k < s.filter(pred).len() implies s.contains(
            #[trigger] s.filter(pred)[k],
        ) by {
            if k < head.filter(pred).len() {
                assert(s.filter(pred)[k] == head.filter(pred)[k]);
                assert(head.contains(head.filter(pred)[k]));
                let i = choose|i: int| 0 <= i < head.len() && head[i] == head.filter(pred)[k];
                assert(s[i] == head[i]);
            } else {
                assert(s.filter(pred)[k] == s.last());
            }
        }
    }
}

/// Appending one packet to a moved list extends its absorbed packets and
/// its per-edge arrivals by at most that packet.
pub proof fn lemma_moved_push(moved: Seq<Packet>, p: Packet)
    ensures
        absorbed_of(moved.push(p)) == if p.will_absorb() {
            absorbed_of(moved).push(p)
        } else {
            absorbed_of(moved)
        },
        forall|f: NodeID, t: NodeID|
            #[trigger] arrivals(moved.push(p), f, t) == if goes_to(p, f, t) {
                arrivals(moved, f, t).push(p)
            } else {
                arrivals(moved, f, t)
            },
{
    reveal(Seq::filter);
    assert(moved.push(p).drop_last() =~= moved);
    assert(moved.push(p).last() == p);
    if p.will_absorb() {
        assert(absorbed_of(moved.push(p)) =~= absorbed_of(moved).push(p));
    }
    assert forall|f: NodeID, t: NodeID| #[trigger] arrivals(moved.push(p), f, t) == if goes_to(
        p,
        f,
        t,
    ) {
        arrivals(moved, f, t).push(p)
    } else {
        arrivals(moved, f, t)
    } by {
        if goes_to(p, f, t) {
            assert(arrivals(moved.push(p), f, t) =~= arrivals(moved, f, t).push(p));
        } else {
            assert(arrivals(moved.push(p), f, t) =~= arrivals(moved, f, t));
        }
    }
}

/// An empty moved list absorbs nothing and delivers nothing.
pub proof fn lemma_moved_empty()
    ensures
        absorbed_of(Seq::empty()) == Seq::<Packet>::empty(),
        forall|f: NodeID, t: NodeID| #[trigger] arrivals(Seq::empty(), f, t) == Seq::<
            Packet,
        >::empty(),
{
    reveal(Seq::filter);
}

/// Replay the moved packets in order: packets about to absorb go to the
/// result, all others are appended to the buffer between their current and
/// next node.
fn replay_moves(network: &mut Network, moved: Vec<Packet>) -> (absorbed: Vec<Packet>)
    requires
        old(network).wf(),
        forall|k: int| 0 <= k < moved@.len() ==> replayable(*old(network), #[trigger] moved@[k]),
    ensures
        final(network).wf(),
        same_shape(*old(network), *final(network)),
        absorbed@ == absorbed_of(moved@),
        forall|f: NodeID, t: NodeID|
            #[trigger] old(network).has_edge(f, t) ==> final(network).buffer(f, t) == old(network).buffer(f, t) + arrivals(moved@, f, t),
    decreases moved@.len(),
{
    let ghost all = moved@;
    let mut moved = moved;
    let mut absorbed: Vec<Packet> = Vec::new();
    proof {
        lemma_moved_empty();
        assert forall|f: NodeID, t: NodeID| #[trigger] old(network).has_edge(f, t) implies old(network).buffer(f, t) == old(network).buffer(f, t) + arrivals(all.take(0), f, t) by {
            assert(all.take(0) =~= Seq::<Packet>::empty());
            assert(old(network).buffer(f, t) =~= old(network).buffer(f, t) + arrivals(
                all.take(0),
                f,
                t,
            ));
        }
    }
    while moved.len() > 0
        invariant
            network.wf(),
            same_shape(*old(network), *network),
            moved@.len() <= all.len(),
            moved@ == all.skip(all.len() - moved@.len()),
            forall|k: int| 0 <= k < all.len() ==> replayable(*old(network), #[trigger] all[k]),
            absorbed@ == absorbed_of(all.take(all.len() - moved@.len())),
            forall|f: NodeID, t: NodeID|
                #[trigger] old(network).has_edge(f, t) ==> network.buffer(f, t) == old(network).buffer(f, t) + arrivals(all.take(all.len() - moved@.len()), f, t),
        decreases moved@.len(),
    {
        let ghost k = all.len() - moved@.len();
        let p = moved.remove(0);
        proof {
            assert(all.skip(k)[0] == all[k]);
            assert(p == all[k]);
            assert(moved@ =~= all.skip(k + 1));
            assert(all.take(k + 1) =~= all.take(k).push(p));
            lemma_moved_push(all.take(k), p);
        }
        if !p.should_be_absorbed() {
            let cur = p.cur_node().unwrap();
            let next = p.next_node().unwrap();
            let ghost pre = *network;
            network.add_packet(p, cur, next);
            proof {
                assert forall|f: NodeID, t: NodeID| #[trigger] old(network).has_edge(f, t) implies
                    network.buffer(f, t) == old(network).buffer(f, t) + arrivals(
                    all.take(k + 1),
                    f,
                    t,
                ) by {
                    if f == cur && t == next {
                        assert(goes_to(p, f, t));
                        assert((old(network).buffer(f, t) + arrivals(all.take(k), f, t)).push(p)
                            =~= old(network).buffer(f, t) + arrivals(all.take(k), f, t).push(p));
                    } else {
                        assert(!goes_to(p, f, t));
                        assert(pre.has_edge(f, t));
                    }
                }
            }
        } else {
            absorbed.push(p);
        }
    }
    proof {
        assert(all.take(all.len() as int) =~= all);
    }
    absorbed
}

/// The forwarding protocol in use: a closed set of variants dispatched by
/// `match`.
pub enum Protocol {
    OEDWithSwap(OEDWithSwap),
    GreedyFIFO(GreedyFIFO),
    GreedyLIS(GreedyLIS),
}

/// What each protocol variant asks of the network before a round: greedy
/// variants move packets on any network whose packets are routable, OED
/// runs on a path network.
pub open spec fn forward_requires(p: Protocol, n: Network) -> bool {
    match p {
        Protocol::OEDWithSwap(_) => chain_network(n) && chain_state(n),
        Protocol::GreedyFIFO(_) => all_routable(n),
        Protocol::GreedyLIS(_) => all_routable(n),
    }
}

/// The packets one round of the given protocol moves, in order.
pub open spec fn round_moved(p: Protocol, n: Network) -> Seq<Packet> {
    match p {
        Protocol::OEDWithSwap(_) => oed_moved(n),
        Protocol::GreedyFIFO(g) => fifo_moved(n, g.capacity as nat),
        Protocol::GreedyLIS(g) => lis_moved(n, g.capacity as nat),
    }
}

/// What one round of the given protocol leaves in the buffer of edge
/// `(f, t)` before the moved packets are re-inserted.
pub open spec fn round_stripped(p: Protocol, n: Network, f: NodeID, t: NodeID) -> Seq<Packet> {
    match p {
        Protocol::OEDWithSwap(_) => oed_stripped(n, f, t),
        Protocol::GreedyFIFO(g) => fifo_left(n.buffer(f, t), g.capacity as nat),
        Protocol::GreedyLIS(g) => lis_left(
            n.buffer(f, t),
            greedy_count(n.buffer(f, t), g.capacity as nat),
        ),
    }
}

impl Protocol {
    /// Get a new OED-with-swap protocol.
    pub fn new_oed_with_swap() -> (r: Self)
        ensures
            r is OEDWithSwap,
    {
        Self::OEDWithSwap(OEDWithSwap::new())
    }

    /// Get a new greedy FIFO protocol with the given per-buffer capacity.
    pub fn new_greedy_fifo(capacity: usize) -> (r: Self)
        ensures
            r == Self::GreedyFIFO(GreedyFIFO { capacity }),
    {
        Self::GreedyFIFO(GreedyFIFO::new(capacity))
    }

    /// Push the packet to the back of the buffer between its current and
    /// next node.  Every variant inserts this way.
    pub fn add_packet(&mut self, p: Packet, network: &mut Network)
        requires
            old(network).wf(),
            p.path_idx + 1 < p.path@.len(),
            old(network).has_edge(p.path@[p.path_idx as int], p.path@[p.path_idx + 1]),
        ensures
            *final(self) == *old(self),
            final(network).wf(),
            same_shape(*old(network), *final(network)),
            final(network).buffer(p.path@[p.path_idx as int], p.path@[p.path_idx + 1]) == old(network).buffer(p.path@[p.path_idx as int], p.path@[p.path_idx + 1]).push(p),
            forall|f: NodeID, t: NodeID|
                #[trigger] old(network).has_edge(f, t) && !(f == p.path@[p.path_idx as int] && t
                    == p.path@[p.path_idx + 1]) ==> final(network).buffer(f, t) == old(network).buffer(f, t),
    {
        let cur = p.cur_node().unwrap();
        let next = p.next_node().unwrap();
        network.add_packet(p, cur, next);
    }

    /// One round of the protocol in use: decide which packets move from
    /// the state at the start of the round, apply all moves, and return
    /// the packets that were absorbed.
    pub fn forward_packets(&mut self, network: &mut Network) -> (absorbed: Vec<Packet>)
        requires
            old(network).wf(),
            forward_requires(*old(self), *old(network)),
        ensures
            *final(self) == *old(self),
            final(network).wf(),
            same_shape(*old(network), *final(network)),
            absorbed@ == absorbed_of(round_moved(*old(self), *old(network))),
            forall|f: NodeID, t: NodeID|
                #[trigger] old(network).has_edge(f, t) ==> final(network).buffer(f, t)
                    == round_stripped(*old(self), *old(network), f, t) + arrivals(
                    round_moved(*old(self), *old(network)),
                    f,
                    t,
                ),
    {
        match self {
            Self::OEDWithSwap(protocol) => protocol.forward_packets(network),
            Self::GreedyFIFO(protocol) => protocol.forward_packets(network),
            Self::GreedyLIS(protocol) => protocol.forward_packets(network),
        }
    }
}

} // verus!
