//! Adversaries: they decide which packets enter the network each round.

pub mod path_random;
pub mod preset;

use vstd::prelude::*;
use crate::network::Network;
use crate::packet::Packet;
use self::path_random::{SDPathRandomAdversary, SDPathRandomBurstyAdversary, full_path};

verus! {

/// The stochastic adversary in use: a closed set of variants dispatched
/// by `match`.
pub enum Adversary {
    SDPathRandom(SDPathRandomAdversary),
    SDPathRandomBursty(SDPathRandomBurstyAdversary),
}

/// What each adversary variant asks before a round: a usable random
/// source, room for fresh ids, and a path network of at least three
/// nodes.
pub open spec fn injection_requires(a: Adversary, n: Network) -> bool {
    match a {
        Adversary::SDPathRandom(ad) => ad.rng.wf() && ad.factory.cur_id < usize::MAX
            && n.num_nodes() >= 3,
        Adversary::SDPathRandomBursty(ad) => ad.wf() && ad.factory.cur_id <= usize::MAX - ad.sigma
            - 1 && n.num_nodes() >= 3,
    }
}

impl Adversary {
    /// Get the packets to inject this round.  Every injected packet
    /// carries the full path as its route, the given injection round, and
    /// a fresh id; its cursor stays below the second-to-last node.
    pub fn get_next_packets(&mut self, network: &Network, rd: usize) -> (r: Vec<Packet>)
        requires
            injection_requires(*old(self), *network),
        ensures
            forall|k: int|
                0 <= k < r@.len() ==> {
                    &&& full_path(*network, #[trigger] r@[k])
                    &&& r@[k].injection_rd == rd
                    &&& r@[k].path_idx < network.num_nodes() - 2
                },
    {
        match self {
            Self::SDPathRandom(a) => a.get_next_packets(network, rd),
            Self::SDPathRandomBursty(a) => a.get_next_packets(network, rd),
        }
    }
}

} // verus!
