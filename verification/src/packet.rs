//! Packets and the factory that mints them.
//!
//! A `Packet` carries an identity, a route of node indices, a cursor into
//! that route, and its injection round.  Ids are unique within one
//! `PacketFactory`, which is the only intended way to create packets.

use vstd::prelude::*;

verus! {

/// A node is named by its dense index in the network.
pub type NodeID = usize;

/// The route of node indices that a packet must traverse.
pub type PacketPath = Vec<NodeID>;

/// A packet in the buffer network: a unique id, a route, a cursor into the
/// route, and the round on which the packet entered the network.
#[derive(Clone)]
pub struct Packet {
    pub id: usize,
    pub path: PacketPath,
    pub path_idx: usize,
    pub injection_rd: usize,
}

impl Packet {
    /// The cursor never runs past the end of the route, and the route is
    /// short enough that index arithmetic stays within machine range.
    pub open spec fn wf(self) -> bool {
        self.path_idx <= self.path@.len() && self.path@.len() < usize::MAX
    }

    /// The packet has reached the end of its route and left the network.
    pub open spec fn absorbed(self) -> bool {
        self.path_idx == self.path@.len()
    }

    /// The next advance of the cursor is the absorption step.
    pub open spec fn will_absorb(self) -> bool {
        self.path_idx + 1 == self.path@.len()
    }

    /// Get this packet's id.
    pub fn get_id(&self) -> (r: usize)
        ensures
            r == self.id,
    {
        self.id
    }

    /// Advance the cursor one step along the route.  An absorbed packet must
    /// never be advanced further.
    pub fn increment_path_idx(&mut self)
        requires
            old(self).wf(),
            !old(self).absorbed(),
        ensures
            final(self).path_idx == old(self).path_idx + 1,
            final(self).id == old(self).id,
            final(self).path == old(self).path,
            final(self).injection_rd == old(self).injection_rd,
            final(self).wf(),
    {
        self.path_idx = self.path_idx + 1;
    }

    /// Move the cursor one step back along the route.  A packet at the start
    /// of its route must never be pushed back further.
    pub fn decrement_path_idx(&mut self)
        requires
            old(self).path_idx > 0,
        ensures
            final(self).path_idx == old(self).path_idx - 1,
            final(self).id == old(self).id,
            final(self).path == old(self).path,
            final(self).injection_rd == old(self).injection_rd,
    {
        self.path_idx = self.path_idx - 1;
    }

    /// Check whether this packet has been absorbed.
    pub fn is_absorbed(&self) -> (r: bool)
        ensures
            r == self.absorbed(),
    {
        self.path_idx == self.path.len()
    }

    /// Check whether this packet will be absorbed by its next advance.
    pub fn should_be_absorbed(&self) -> (r: bool)
        ensures
            r == self.will_absorb(),
    {
        self.path.len() > 0 && self.path_idx == self.path.len() - 1
    }

    /// Get the injection round of this packet.
    pub fn get_injection_rd(&self) -> (r: usize)
        ensures
            r == self.injection_rd,
    {
        self.injection_rd
    }

    /// The id of the node the packet currently occupies, absent once the
    /// packet is absorbed.
    pub fn cur_node(&self) -> (r: Option<NodeID>)
        ensures
            r == if self.path_idx < self.path@.len() {
                Some(self.path@[self.path_idx as int])
            } else {
                None::<NodeID>
            },
    {
        if self.path_idx < self.path.len() {
            Some(self.path[self.path_idx])
        } else {
            None
        }
    }

    /// The id of the node the packet occupies next if forwarded, absent if
    /// the packet is absorbed or about to be absorbed.
    pub fn next_node(&self) -> (r: Option<NodeID>)
        ensures
            r == if self.path_idx + 1 < self.path@.len() {
                Some(self.path@[self.path_idx + 1])
            } else {
                None::<NodeID>
            },
    {
        if self.path_idx < self.path.len() && self.path_idx + 1 < self.path.len() {
            Some(self.path[self.path_idx + 1])
        } else {
            None
        }
    }

    /// The number of steps this packet still travels, counting the
    /// absorption step itself.
    pub fn dist_to_go(&self) -> (r: usize)
        requires
            self.wf(),
        ensures
            r == self.path@.len() - self.path_idx + 1,
    {
        self.path.len() - self.path_idx + 1
    }

    /// Get the current cursor into the route.
    pub fn get_path_idx(&self) -> (r: usize)
        ensures
            r == self.path_idx,
    {
        self.path_idx
    }

    /// Get a reference to this packet's route.
    pub fn get_path(&self) -> (r: &PacketPath)
        ensures
            r == &self.path,
    {
        &self.path
    }

    /// Get a mutable reference to this packet's route.
    pub fn get_path_mut(&mut self) -> (r: &mut PacketPath)
        ensures
            *r == old(self).path,
            *final(self) == (Packet { path: *final(r), ..*old(self) }),
    {
        &mut self.path
    }
}

impl PartialEq for Packet {
    /// Two packets are equal exactly when their ids are equal; no other
    /// field takes part in equality.
    fn eq(&self, other: &Self) -> (r: bool) {
        self.id == other.id
    }
}

impl vstd::std_specs::cmp::PartialEqSpecImpl for Packet {
    open spec fn obeys_eq_spec() -> bool {
        true
    }

    open spec fn eq_spec(&self, other: &Packet) -> bool {
        self.id == other.id
    }
}

/// Mints packets with ids that strictly increase, so that ids are unique
/// within one factory's lifetime.
#[derive(Default, Clone)]
pub struct PacketFactory {
    pub cur_id: usize,
}

impl PacketFactory {
    /// Create a new factory whose first packet gets id 0.
    pub fn new() -> (f: Self)
        ensures
            f.cur_id == 0,
    {
        PacketFactory { cur_id: 0 }
    }

    /// Create a packet with the next unused id and the given route, round,
    /// and initial cursor.
    pub fn create_packet(&mut self, path: PacketPath, injection_rd: usize, path_idx: usize) -> (p:
        Packet)
        requires
            old(self).cur_id < usize::MAX,
        ensures
            p.id == old(self).cur_id,
            p.path@ == path@,
            p.path_idx == path_idx,
            p.injection_rd == injection_rd,
            final(self).cur_id == old(self).cur_id + 1,
    {
        let p = Packet { id: self.cur_id, path, path_idx, injection_rd };
        self.cur_id = self.cur_id + 1;
        p
    }
}

} // verus!
