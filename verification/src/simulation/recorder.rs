//! Data shaping for recorded output: the smoothed-configuration view of
//! the network, which reports, walking the edges from the back, the
//! longest-waiting packet seen so far for each buffer.

use vstd::prelude::*;
use crate::network::Network;
use crate::packet::{NodeID, Packet};
use crate::protocol::greedy::min_rd_idx;

verus! {

/// The id and injection round of a packet: all the smoothing needs.
pub open spec fn pair_of(p: Packet) -> (usize, usize) {
    (p.id, p.injection_rd)
}

/// The ids and injection rounds of a buffer's packets, in order.
pub open spec fn pairs_of(b: Seq<Packet>) -> Seq<(usize, usize)> {
    b.map_values(|p: Packet| pair_of(p))
}

/// The first position of the smallest injection round among the first `n`
/// pairs.
pub open spec fn min_pair_rd_idx_up_to(s: Seq<(usize, usize)>, n: int) -> int
    decreases n,
{
    if n <= 1 {
        0
    } else {
        let prev = min_pair_rd_idx_up_to(s, n - 1);
        if s[n - 1].1 < s[prev].1 {
            n - 1
        } else {
            prev
        }
    }
}

/// The first position of the smallest injection round among the pairs.
pub open spec fn min_pair_rd_idx(s: Seq<(usize, usize)>) -> int {
    min_pair_rd_idx_up_to(s, s.len() as int)
}

/// The pair-scan position stays in range.
pub proof fn lemma_min_pair_rd_idx_bounds(s: Seq<(usize, usize)>, n: int)
    requires
        1 <= n <= s.len(),
    ensures
        0 <= min_pair_rd_idx_up_to(s, n) < n,
    decreases n,
{
    if n > 1 {
        lemma_min_pair_rd_idx_bounds(s, n - 1);
    }
}

/// The edge at position `j` of the canonical order walked from the back.
pub open spec fn rev_edge(n: Network, j: int) -> (NodeID, NodeID) {
    n.edges()[n.edges().len() - 1 - j]
}

/// The smoothing queue after the first `j` edges of the reversed walk:
/// each edge adds its buffer's pairs and then loses the pair with the
/// smallest injection round, if any.
pub open spec fn smooth_queue(n: Network, j: int) -> Seq<(usize, usize)>
    decreases j,
{
    if j <= 0 {
        Seq::empty()
    } else {
        let pool = smooth_queue(n, j - 1) + pairs_of(
            n.buffer(rev_edge(n, j - 1).0, rev_edge(n, j - 1).1),
        );
        if pool.len() == 0 {
            pool
        } else {
            pool.remove(min_pair_rd_idx(pool))
        }
    }
}

/// The smoothing queue right after edge `j`'s buffer joined it, before
/// its pop.
pub open spec fn smooth_pool(n: Network, j: int) -> Seq<(usize, usize)> {
    smooth_queue(n, j) + pairs_of(n.buffer(rev_edge(n, j).0, rev_edge(n, j).1))
}

/// What the smoothed view reports for edge `j` of the reversed walk: the
/// longest-waiting pair of the pool, or nothing when the pool is empty.
pub open spec fn smooth_entry(n: Network, j: int) -> Option<(usize, usize)> {
    let pool = smooth_pool(n, j);
    if pool.len() == 0 {
        None
    } else {
        Some(pool[min_pair_rd_idx(pool)])
    }
}

/// Draining a queue: repeatedly the pair with the smallest injection
/// round, earliest position first.
pub open spec fn smooth_leftover(q: Seq<(usize, usize)>) -> Seq<(usize, usize)>
    decreases q.len(),
    via smooth_leftover_decreases
{
    if q.len() == 0 {
        Seq::empty()
    } else {
        seq![q[min_pair_rd_idx(q)]] + smooth_leftover(q.remove(min_pair_rd_idx(q)))
    }
}

#[via_fn]
proof fn smooth_leftover_decreases(q: Seq<(usize, usize)>) {
    if q.len() > 0 {
        lemma_min_pair_rd_idx_bounds(q, q.len() as int);
    }
}

/// One row of the smoothed-configuration view: the buffer and the packet
/// reported for it, as its id and injection round, absent when no packet
/// is left to report.
pub struct SmoothedConfigEntry {
    pub buffer_from: NodeID,
    pub buffer_to: NodeID,
    pub packet: Option<(usize, usize)>,
}

/// The position of the pair with the smallest injection round, earliest
/// position first.
fn min_pair_rd_position(queue: &Vec<(usize, usize)>) -> (idx: usize)
    requires
        queue@.len() > 0,
    ensures
        idx == min_pair_rd_idx(queue@),
        idx < queue@.len(),
{
    let mut min_injection_rd: usize = usize::MAX;
    let mut min_injection_idx: usize = 0;
    let mut i: usize = 0;
    while i < queue.len()
        invariant
            i <= queue@.len(),
            queue@.len() > 0,
            i == 0 ==> min_injection_idx == 0 && min_injection_rd == usize::MAX,
            i > 0 ==> {
                &&& min_injection_idx == min_pair_rd_idx_up_to(queue@, i as int)
                &&& min_injection_idx < i
                &&& min_injection_rd == queue@[min_injection_idx as int].1
            },
        decreases queue@.len() - i,
    {
        if queue[i].1 < min_injection_rd {
            min_injection_idx = i;
            min_injection_rd = queue[i].1;
        }
        proof {
            if i > 0 {
                lemma_min_pair_rd_idx_bounds(queue@, i as int);
            }
        }
        i = i + 1;
    }
    min_injection_idx
}

/// The smoothed-configuration view of the network: walking the edges in
/// reverse canonical order, each buffer's packets join a queue and the
/// queue reports its longest-waiting packet for that buffer; the pairs
/// still queued afterwards come out in the same longest-waiting order.
pub fn smoothed_config_entries(network: &Network) -> (r: (
    Vec<SmoothedConfigEntry>,
    Vec<(usize, usize)>,
))
    requires
        network.wf(),
    ensures
        r.0@.len() == network.edges().len(),
        forall|j: int|
            0 <= j < r.0@.len() ==> {
                &&& (#[trigger] r.0@[j]).buffer_from == rev_edge(*network, j).0
                &&& r.0@[j].buffer_to == rev_edge(*network, j).1
                &&& r.0@[j].packet == smooth_entry(*network, j)
            },
        r.1@ == smooth_leftover(smooth_queue(*network, network.edges().len() as int)),
{
    let eb_ids = network.get_edgebuffers();
    let mut rows: Vec<SmoothedConfigEntry> = Vec::new();
    let mut queue: Vec<(usize, usize)> = Vec::new();
    proof {
        crate::network::lemma_edges_up_to_props(*network, network.nodes@.len() as int);
    }
    let mut j: usize = 0;
    while j < eb_ids.len()
        invariant
            network.wf(),
            eb_ids@ == network.edges(),
            j <= eb_ids@.len(),
            queue@ == smooth_queue(*network, j as int),
            rows@.len() == j,
            forall|t: int|
                0 <= t < j ==> {
                    &&& (#[trigger] rows@[t]).buffer_from == rev_edge(*network, t).0
                    &&& rows@[t].buffer_to == rev_edge(*network, t).1
                    &&& rows@[t].packet == smooth_entry(*network, t)
                },
        decreases eb_ids@.len() - j,
    {
        let e = eb_ids[eb_ids.len() - 1 - j];
        proof {
            crate::network::lemma_edges_up_to_props(*network, network.nodes@.len() as int);
            assert(e == rev_edge(*network, j as int));
            assert(network.has_edge(e.0, e.1));
        }
        let eb = match network.get_edgebuffer(e.0, e.1) {
            Some(eb) => eb,
            None => vstd::pervasive::unreached(),
        };
        let ghost b = network.buffer(e.0, e.1);
        let mut t: usize = 0;
        while t < eb.buffer.len()
            invariant
                eb.buffer@ == b,
                t <= b.len(),
                queue@ == smooth_queue(*network, j as int) + pairs_of(b).take(t as int),
            decreases b.len() - t,
        {
            queue.push((eb.buffer[t].id, eb.buffer[t].injection_rd));
            proof {
                assert(pairs_of(b).take(t + 1) =~= pairs_of(b).take(t as int).push(pair_of(b[
                    t as int
                ])));
            }
            t = t + 1;
        }
        proof {
            assert(pairs_of(b).take(b.len() as int) =~= pairs_of(b));
            assert(queue@ == smooth_pool(*network, j as int));
        }
        if queue.len() == 0 {
            rows.push(SmoothedConfigEntry { buffer_from: e.0, buffer_to: e.1, packet: None });
        } else {
            let m = min_pair_rd_position(&queue);
            let pair = queue.remove(m);
            rows.push(SmoothedConfigEntry { buffer_from: e.0, buffer_to: e.1, packet: Some(pair) });
        }
        j = j + 1;
    }
    let ghost finalq = smooth_queue(*network, network.edges().len() as int);
    let mut leftover: Vec<(usize, usize)> = Vec::new();
    proof {
        assert(leftover@ + smooth_leftover(queue@) =~= smooth_leftover(finalq));
    }
    while queue.len() > 0
        invariant
            smooth_leftover(finalq) == leftover@ + smooth_leftover(queue@),
        decreases queue@.len(),
    {
        let m = min_pair_rd_position(&queue);
        let ghost pre = queue@;
        let pair = queue.remove(m);
        leftover.push(pair);
        proof {
            assert(smooth_leftover(pre) == seq![pre[min_pair_rd_idx(pre)]] + smooth_leftover(
                queue@,
            ));
            assert(leftover@ + smooth_leftover(queue@) =~= smooth_leftover(finalq));
        }
    }
    proof {
        assert(smooth_leftover(queue@) =~= Seq::<(usize, usize)>::empty());
        assert(leftover@ =~= smooth_leftover(finalq));
    }
    (rows, leftover)
}

/// Remove and return the packet with the smallest injection round,
/// earliest position first; nothing when the queue is empty.
pub fn pop_oldest_packet(queue: &mut Vec<Packet>) -> (r: Option<Packet>)
    ensures
        match r {
            Some(p) => {
                &&& old(queue)@.len() > 0
                &&& p == old(queue)@[min_rd_idx(old(queue)@)]
                &&& final(queue)@ == old(queue)@.remove(min_rd_idx(old(queue)@))
            },
            None => old(queue)@.len() == 0 && final(queue)@ == old(queue)@,
        },
{
    if queue.len() == 0 {
        return None;
    }
    let mut min_injection_rd: usize = usize::MAX;
    let mut min_injection_idx: usize = 0;
    let mut i: usize = 0;
    while i < queue.len()
        invariant
            i <= queue@.len(),
            queue@.len() > 0,
            i == 0 ==> min_injection_idx == 0 && min_injection_rd == usize::MAX,
            i > 0 ==> {
                &&& min_injection_idx == crate::protocol::greedy::min_rd_idx_up_to(
                    queue@,
                    i as int,
                )
                &&& min_injection_idx < i
                &&& min_injection_rd == queue@[min_injection_idx as int].injection_rd
            },
        decreases queue@.len() - i,
    {
        if queue[i].injection_rd < min_injection_rd {
            min_injection_idx = i;
            min_injection_rd = queue[i].injection_rd;
        }
        proof {
            if i > 0 {
                crate::protocol::greedy::lemma_min_rd_idx_bounds(queue@, i as int);
            }
        }
        i = i + 1;
    }
    Some(queue.remove(min_injection_idx))
}

} // verus!
