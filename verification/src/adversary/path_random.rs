//! Stochastic adversaries for a path network: they inject packets with
//! the full path as their route, at a random position.

use vstd::prelude::*;
use crate::network::Network;
use crate::packet::{NodeID, Packet, PacketFactory, PacketPath};
use crate::simulation::random::SimRng;

verus! {

/// A route running over every node of a path network: `0, 1, .., n - 1`.
pub open spec fn full_path(n: Network, p: Packet) -> bool {
    &&& p.path@.len() == n.num_nodes()
    &&& forall|j: int| 0 <= j < p.path@.len() ==> #[trigger] p.path@[j] == j
}

/// The route `0, 1, .., num_nodes - 1`.
fn collect_full_path(num_nodes: usize) -> (r: PacketPath)
    ensures
        r@.len() == num_nodes,
        forall|j: int| 0 <= j < r@.len() ==> #[trigger] r@[j] == j,
{
    let mut path: PacketPath = Vec::new();
    let mut j: usize = 0;
    while j < num_nodes
        invariant
            j <= num_nodes,
            path@.len() == j,
            forall|i: int| 0 <= i < j ==> #[trigger] path@[i] == i,
        decreases num_nodes - j,
    {
        path.push(j);
        j = j + 1;
    }
    path
}

/// A single-destination path adversary: each round it injects one packet
/// with the full path as its route, at a random buffer of the path.
pub struct SDPathRandomAdversary {
    pub factory: PacketFactory,
    pub rng: SimRng,
    pub seed: Option<u64>,
}

impl SDPathRandomAdversary {
    /// Get a new unseeded `SDPathRandomAdversary`.
    pub fn new() -> (r: Self)
        ensures
            r.rng.wf(),
            r.factory.cur_id == 0,
            r.seed is None,
    {
        SDPathRandomAdversary { factory: PacketFactory::new(), rng: SimRng::new(), seed: None }
    }

    /// Get a new `SDPathRandomAdversary` from the given seed.
    pub fn from_seed(seed: u64) -> (r: Self)
        ensures
            r.rng.wf(),
            r.factory.cur_id == 0,
            r.seed == Some(seed),
    {
        SDPathRandomAdversary {
            factory: PacketFactory::new(),
            rng: SimRng::from_seed(seed),
            seed: Some(seed),
        }
    }

    /// Mint one packet with the full path as its route, injected at a
    /// random buffer below the second-to-last node.
    pub fn get_next_packets(&mut self, network: &Network, rd: usize) -> (r: Vec<Packet>)
        requires
            old(self).rng.wf(),
            old(self).factory.cur_id < usize::MAX,
            network.num_nodes() >= 3,
        ensures
            final(self).rng.wf(),
            final(self).factory.cur_id == old(self).factory.cur_id + 1,
            final(self).seed == old(self).seed,
            r@.len() == 1,
            full_path(*network, r@[0]),
            r@[0].injection_rd == rd,
            r@[0].id == old(self).factory.cur_id,
            r@[0].path_idx < network.num_nodes() - 2,
    {
        let dest_id: NodeID = network.get_num_nodes() - 1;
        let src_id = self.rng.rand_int(dest_id - 1);
        let path = collect_full_path(dest_id + 1);
        let p = self.factory.create_packet(path, rd, src_id);
        let mut r: Vec<Packet> = Vec::new();
        r.push(p);
        r
    }
}

/// A single-destination "bursty" path adversary: each round it injects a
/// random number of packets, bounded so that an average of at most one
/// packet per round plus a burst allowance of `sigma` is kept.
pub struct SDPathRandomBurstyAdversary {
    pub factory: PacketFactory,
    pub rng: SimRng,
    pub seed: Option<u64>,
    pub sigma: usize,
    pub xi: usize,
}

impl SDPathRandomBurstyAdversary {
    /// The burst debt never exceeds the allowance, and the allowance
    /// leaves room for the range arithmetic.
    pub open spec fn wf(self) -> bool {
        &&& self.rng.wf()
        &&& self.xi <= self.sigma
        &&& self.sigma <= usize::MAX - 2
    }

    /// Get a new unseeded `SDPathRandomBurstyAdversary`.
    pub fn new(sigma: usize) -> (r: Self)
        requires
            sigma <= usize::MAX - 2,
        ensures
            r.wf(),
            r.factory.cur_id == 0,
            r.sigma == sigma,
            r.seed is None,
    {
        SDPathRandomBurstyAdversary {
            factory: PacketFactory::new(),
            rng: SimRng::new(),
            seed: None,
            sigma,
            xi: 0,
        }
    }

    /// Get a new `SDPathRandomBurstyAdversary` from the given seed.
    pub fn from_seed(seed: u64, sigma: usize) -> (r: Self)
        requires
            sigma <= usize::MAX - 2,
        ensures
            r.wf(),
            r.factory.cur_id == 0,
            r.sigma == sigma,
            r.seed == Some(seed),
    {
        SDPathRandomBurstyAdversary {
            factory: PacketFactory::new(),
            rng: SimRng::from_seed(seed),
            seed: Some(seed),
            sigma,
            xi: 0,
        }
    }

    /// Mint between zero and `sigma - xi + 1` packets, each with the full
    /// path as its route at a random position, and update the burst debt.
    pub fn get_next_packets(&mut self, network: &Network, rd: usize) -> (r: Vec<Packet>)
        requires
            old(self).wf(),
            old(self).factory.cur_id <= usize::MAX - old(self).sigma - 1,
            network.num_nodes() >= 3,
        ensures
            final(self).wf(),
            final(self).sigma == old(self).sigma,
            final(self).seed == old(self).seed,
            r@.len() <= old(self).sigma - old(self).xi + 1,
            final(self).factory.cur_id == old(self).factory.cur_id + r@.len(),
            forall|k: int|
                0 <= k < r@.len() ==> {
                    &&& full_path(*network, #[trigger] r@[k])
                    &&& r@[k].injection_rd == rd
                    &&& r@[k].id == old(self).factory.cur_id + k
                    &&& r@[k].path_idx < network.num_nodes() - 2
                },
    {
        // The possible numbers of packets to inject are 0 to
        // `sigma - xi + 1`; one is chosen uniformly.
        let num_to_inject = self.rng.rand_int(self.sigma - self.xi + 2);
        let mut next_packets: Vec<Packet> = Vec::new();
        let mut k: usize = 0;
        while k < num_to_inject
            invariant
                k <= num_to_inject,
                num_to_inject <= old(self).sigma - old(self).xi + 1,
                self.rng.wf(),
                self.sigma == old(self).sigma,
                self.xi == old(self).xi,
                self.seed == old(self).seed,
                self.xi <= self.sigma,
                self.sigma <= usize::MAX - 2,
                old(self).factory.cur_id <= usize::MAX - old(self).sigma - 1,
                self.factory.cur_id == old(self).factory.cur_id + k,
                network.num_nodes() >= 3,
                next_packets@.len() == k,
                forall|j: int|
                    0 <= j < k ==> {
                        &&& full_path(*network, #[trigger] next_packets@[j])
                        &&& next_packets@[j].injection_rd == rd
                        &&& next_packets@[j].id == old(self).factory.cur_id + j
                        &&& next_packets@[j].path_idx < network.num_nodes() - 2
                    },
            decreases num_to_inject - k,
        {
            let dest_id: NodeID = network.get_num_nodes() - 1;
            let src_id = self.rng.rand_int(dest_id - 1);
            let path = collect_full_path(dest_id + 1);
            let p = self.factory.create_packet(path, rd, src_id);
            next_packets.push(p);
            k = k + 1;
        }
        // Update the burst debt.
        if self.xi + num_to_inject == 0 {
            self.xi = 0;
        } else {
            self.xi = self.xi + num_to_inject - 1;
        }
        next_packets
    }
}

} // verus!
