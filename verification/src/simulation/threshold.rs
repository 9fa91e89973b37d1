//! Termination predicates: they decide, from the round number and the
//! network state, when a simulation run should stop.

use vstd::prelude::*;
use crate::network::Network;

verus! {

/// The total number of packets queued in the network: the loads of all
/// buffers of the first `k` edges in canonical order, summed.
pub open spec fn total_load_up_to(n: Network, k: int) -> int
    decreases k,
{
    if k <= 0 {
        0
    } else {
        total_load_up_to(n, k - 1) + n.buffer(n.edges()[k - 1].0, n.edges()[k - 1].1).len()
    }
}

/// The total number of packets queued in the network.
pub open spec fn total_load(n: Network) -> int {
    total_load_up_to(n, n.edges().len() as int)
}

/// Used to end a simulation run.
pub enum Threshold {
    Timed(TimedThreshold),
    TotalLoad(TotalLoadThreshold),
}

/// Whether the given threshold stops the run at this round and network
/// state.
pub open spec fn stops(t: Threshold, rd: usize, n: Network) -> bool {
    match t {
        Threshold::Timed(t) => rd >= t.max_rds,
        Threshold::TotalLoad(t) => total_load(n) >= t.max_load,
    }
}

impl Threshold {
    /// Get a timed threshold with the given maximum number of rounds.
    pub fn timed_from_rds(max_rds: usize) -> (r: Self)
        ensures
            r == Threshold::Timed(TimedThreshold { max_rds }),
    {
        Self::Timed(TimedThreshold::new(max_rds))
    }

    /// Check whether the simulation should terminate, from the round
    /// number and the network state.
    pub fn check_termination(&mut self, rd: usize, network: &Network) -> (r: bool)
        requires
            network.wf(),
            total_load(*network) <= usize::MAX,
        ensures
            *final(self) == *old(self),
            r == stops(*old(self), rd, *network),
    {
        match self {
            Self::Timed(t) => t.check_termination(rd, network),
            Self::TotalLoad(t) => t.check_termination(rd, network),
        }
    }
}

/// Ends a run once a given number of rounds has elapsed.
pub struct TimedThreshold {
    pub max_rds: usize,
}

impl TimedThreshold {
    /// Create a timed threshold with the given maximum number of rounds.
    fn new(max_rds: usize) -> (r: Self)
        ensures
            r.max_rds == max_rds,
    {
        TimedThreshold { max_rds }
    }

    /// The run stops once the round counter reaches the bound.
    fn check_termination(&mut self, rd: usize, _network: &Network) -> (r: bool)
        ensures
            *final(self) == *old(self),
            r == (rd >= old(self).max_rds),
    {
        rd >= self.max_rds
    }
}

/// Ends a run once the network holds a given total number of packets.
pub struct TotalLoadThreshold {
    pub max_load: usize,
}

impl TotalLoadThreshold {
    /// The run stops once the summed buffer loads reach the bound.
    fn check_termination(&mut self, _rd: usize, network: &Network) -> (r: bool)
        requires
            network.wf(),
            total_load(*network) <= usize::MAX,
        ensures
            *final(self) == *old(self),
            r == (total_load(*network) >= old(self).max_load),
    {
        let mut sum: usize = 0;
        let eb_ids = network.get_edgebuffers();
        proof {
            lemma_total_load_monotonic(*network, 0, network.edges().len() as int);
        }
        let mut k: usize = 0;
        while k < eb_ids.len()
            invariant
                network.wf(),
                eb_ids@ == network.edges(),
                k <= eb_ids@.len(),
                sum == total_load_up_to(*network, k as int),
                total_load_up_to(*network, k as int) <= total_load(*network),
                total_load(*network) <= usize::MAX,
            decreases eb_ids@.len() - k,
        {
            let edge = eb_ids[k];
            proof {
                crate::network::lemma_edges_up_to_props(*network, network.nodes@.len() as int);
                assert(network.has_edge(edge.0, edge.1));
                lemma_total_load_monotonic(*network, k + 1, network.edges().len() as int);
            }
            let load = match network.get_edgebuffer(edge.0, edge.1) {
                Some(eb) => eb.buffer.len(),
                None => 0,
            };
            sum = sum + load;
            k = k + 1;
        }
        sum >= self.max_load
    }
}

/// Prefix sums of buffer loads only grow.
proof fn lemma_total_load_monotonic(n: Network, k1: int, k2: int)
    requires
        0 <= k1 <= k2,
    ensures
        total_load_up_to(n, k1) <= total_load_up_to(n, k2),
    decreases k2 - k1,
{
    if k1 < k2 {
        lemma_total_load_monotonic(n, k1, k2 - 1);
    }
}

} // verus!
