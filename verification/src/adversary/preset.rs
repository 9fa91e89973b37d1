//! The preset adversary: it injects, round by round, exactly the packets
//! it was given at construction time.

use vstd::prelude::*;
use crate::network::Network;
use crate::packet::{Packet, PacketFactory, PacketPath};

verus! {

/// A recipe for one packet: its route and its initial cursor.
pub struct InjectionConfig {
    pub path: PacketPath,
    pub path_idx: usize,
}

impl InjectionConfig {
    /// Make a new `InjectionConfig`.
    pub fn new(path: PacketPath, path_idx: usize) -> (r: Self)
        ensures
            r.path@ == path@,
            r.path_idx == path_idx,
    {
        InjectionConfig { path, path_idx }
    }
}

/// An adversary which injects a preset list of packets each round.
pub struct PresetAdversary {
    pub factory: PacketFactory,
    pub rds: usize,
    pub to_inject: Vec<Vec<InjectionConfig>>,
}

impl PresetAdversary {
    /// Create a `PresetAdversary` from one list of packet recipes per
    /// round.
    pub fn from_injection_configs(to_inject: Vec<Vec<InjectionConfig>>) -> (r: Self)
        ensures
            r.to_inject@ == to_inject@,
            r.rds == to_inject@.len(),
            r.factory.cur_id == 0,
    {
        let rds = to_inject.len();
        PresetAdversary { to_inject, rds, factory: PacketFactory::new() }
    }

    /// The preset number of rounds of this adversary.
    pub fn rds(&self) -> (r: usize)
        ensures
            r == self.rds,
    {
        self.rds
    }

    /// Mint the packets of the next round: each recipe becomes a packet
    /// with the next unused id, the recipe's route and cursor, and the
    /// given injection round.
    pub fn get_next_packets(&mut self, _network: &Network, rd: usize) -> (r: Vec<Packet>)
        requires
            old(self).to_inject@.len() > 0,
            old(self).factory.cur_id + old(self).to_inject@[0]@.len() <= usize::MAX,
        ensures
            r@.len() == old(self).to_inject@[0]@.len(),
            forall|k: int|
                0 <= k < r@.len() ==> {
                    &&& (#[trigger] r@[k]).path@ == old(self).to_inject@[0]@[k].path@
                    &&& r@[k].path_idx == old(self).to_inject@[0]@[k].path_idx
                    &&& r@[k].injection_rd == rd
                    &&& r@[k].id == old(self).factory.cur_id + k
                },
            final(self).to_inject@ == old(self).to_inject@.skip(1),
            final(self).rds == old(self).rds,
            final(self).factory.cur_id == old(self).factory.cur_id + old(self).to_inject@[0]@.len(),
    {
        let ghost recipes = old(self).to_inject@[0]@;
        let mut next_packets: Vec<Packet> = Vec::new();
        let mut next_injections = self.to_inject.remove(0);
        proof {
            assert(self.to_inject@ =~= old(self).to_inject@.skip(1));
        }
        let num_injections = next_injections.len();
        let mut k: usize = 0;
        while k < num_injections
            invariant
                k <= num_injections,
                num_injections == recipes.len(),
                next_injections@ == recipes.skip(k as int),
                self.factory.cur_id == old(self).factory.cur_id + k,
                old(self).factory.cur_id + recipes.len() <= usize::MAX,
                self.to_inject@ == old(self).to_inject@.skip(1),
                self.rds == old(self).rds,
                next_packets@.len() == k,
                forall|j: int|
                    0 <= j < k ==> {
                        &&& (#[trigger] next_packets@[j]).path@ == recipes[j].path@
                        &&& next_packets@[j].path_idx == recipes[j].path_idx
                        &&& next_packets@[j].injection_rd == rd
                        &&& next_packets@[j].id == old(self).factory.cur_id + j
                    },
            decreases num_injections - k,
        {
            let next_injection = next_injections.remove(0);
            proof {
                assert(recipes.skip(k as int)[0] == recipes[k as int]);
                assert(next_injections@ =~= recipes.skip(k + 1));
            }
            let p = self.factory.create_packet(next_injection.path, rd, next_injection.path_idx);
            next_packets.push(p);
            k = k + 1;
        }
        next_packets
    }
}

} // verus!
