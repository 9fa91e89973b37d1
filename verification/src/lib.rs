//! Simulation core for adversarial queueing on networks of bounded buffers:
//! packets with preassigned routes advance hop by hop under a forwarding
//! protocol, and the library proves how each round moves them.

pub mod adversary;
pub mod network;
pub mod packet;
pub mod protocol;
pub mod simulation;
