use aqt_sim::network::{construct_path, Network};
use aqt_sim::packet::{Packet, PacketFactory, PacketPath};
use aqt_sim::protocol::greedy::{GreedyFIFO, GreedyLIS};
use aqt_sim::protocol::oed::OEDWithSwap;
use aqt_sim::protocol::priority::lis_higher_priority;
use aqt_sim::protocol::Protocol;

const PATH_LEN: usize = 10;

fn setup_network_and_packet_path() -> (Network, PacketPath) {
    (construct_path(PATH_LEN), (0..PATH_LEN).collect())
}

#[test]
fn test_absorption() {
    let (mut network, packet_path) = setup_network_and_packet_path();
    let mut factory = PacketFactory::new();
    // 0
    // -  ==>  -
    // 9       9
    //
    let p1 = factory.create_packet(packet_path.clone(), 0, 8);
    let mut oed = OEDWithSwap::new();
    oed.add_packet(p1, &mut network);

    oed.forward_packets(&mut network);

    let b9 = &network.get_edgebuffer(8, 9).unwrap().buffer;
    assert_eq!(b9.len(), 0);
}

#[test]
fn test_absorption_multiple_packets_in_last() {
    let (mut network, packet_path) = setup_network_and_packet_path();
    let mut factory = PacketFactory::new();
    // 1
    // 0       1
    // -  ==>  -
    // 9       9
    //
    let p1 = factory.create_packet(packet_path.clone(), 0, 8);
    let p2 = factory.create_packet(packet_path.clone(), 1, 8);
    let p2_c = p2.clone();
    let mut oed = OEDWithSwap::new();
    oed.add_packet(p1, &mut network);
    oed.add_packet(p2, &mut network);

    oed.forward_packets(&mut network);

    let b9 = &network.get_edgebuffer(8, 9).unwrap().buffer;
    assert!(b9.contains(&p2_c));
}

#[test]
fn test_forward_oldest() {
    let (mut network, packet_path) = setup_network_and_packet_path();
    let mut factory = PacketFactory::new();
    // 1
    // 0         1 0
    // ---  ==>  ---
    // 0 1       0 1
    //
    let p1 = factory.create_packet(packet_path.clone(), 0, 0);
    let p2 = factory.create_packet(packet_path.clone(), 1, 0);

    let (p1_c, p2_c) = (p1.clone(), p2.clone());

    network.add_packet(p1, 0, 1);
    network.add_packet(p2, 0, 1);

    let mut oed = OEDWithSwap::new();
    oed.forward_packets(&mut network);

    let b1 = &network.get_edgebuffer(0, 1).unwrap().buffer;
    let b2 = &network.get_edgebuffer(1, 2).unwrap().buffer;

    assert!(b1.contains(&p2_c));
    assert!(b2.contains(&p1_c));
}

#[test]
fn test_even_swap() {
    let (mut network, packet_path) = setup_network_and_packet_path();
    let mut factory = PacketFactory::new();
    // 3 2       3
    // 0 1       2 0 1
    // ----- ==> -----
    // 0 1 2     0 1 2
    let p1 = factory.create_packet(packet_path.clone(), 0, 0);
    let p2 = factory.create_packet(packet_path.clone(), 1, 1);
    let p3 = factory.create_packet(packet_path.clone(), 2, 1);
    let p4 = factory.create_packet(packet_path.clone(), 3, 0);

    let (p1_c, p2_c, p3_c, p4_c) = (p1.clone(), p2.clone(), p3.clone(), p4.clone());

    network.add_packet(p1, 0, 1);
    network.add_packet(p2, 1, 2);
    network.add_packet(p3, 1, 2);
    network.add_packet(p4, 0, 1);

    let mut oed = OEDWithSwap::new();
    oed.forward_packets(&mut network);

    let b1 = &network.get_edgebuffer(0, 1).unwrap().buffer;
    let b2 = &network.get_edgebuffer(1, 2).unwrap().buffer;
    let b3 = &network.get_edgebuffer(2, 3).unwrap().buffer;

    assert!(b1.contains(&p4_c));
    assert!(b1.contains(&p3_c));
    assert!(b2.contains(&p1_c));
    assert!(b3.contains(&p2_c));
}

#[test]
fn test_odd_no_swap() {
    let (mut network, packet_path) = setup_network_and_packet_path();
    let mut factory = PacketFactory::new();
    // 4 5         0
    // 3 2       4 5
    // 0 1       3 2 1
    // ----- ==> -----
    // 0 1 2     0 1 2
    //
    let p1 = factory.create_packet(packet_path.clone(), 0, 0);
    let p2 = factory.create_packet(packet_path.clone(), 1, 1);
    let p3 = factory.create_packet(packet_path.clone(), 2, 1);
    let p4 = factory.create_packet(packet_path.clone(), 3, 0);
    let p5 = factory.create_packet(packet_path.clone(), 4, 0);
    let p6 = factory.create_packet(packet_path.clone(), 5, 1);

    let (p1_c, p2_c, p3_c, p4_c, p5_c, p6_c) = (
        p1.clone(),
        p2.clone(),
        p3.clone(),
        p4.clone(),
        p5.clone(),
        p6.clone(),
    );

    network.add_packet(p1, 0, 1);
    network.add_packet(p2, 1, 2);
    network.add_packet(p3, 1, 2);
    network.add_packet(p4, 0, 1);
    network.add_packet(p5, 0, 1);
    network.add_packet(p6, 1, 2);

    let mut oed = OEDWithSwap::new();
    oed.forward_packets(&mut network);

    let b1 = &network.get_edgebuffer(0, 1).unwrap().buffer;
    let b2 = &network.get_edgebuffer(1, 2).unwrap().buffer;
    let b3 = &network.get_edgebuffer(2, 3).unwrap().buffer;

    assert!(b1.contains(&p4_c));
    assert!(b1.contains(&p5_c));
    assert!(b2.contains(&p6_c));
    assert!(b2.contains(&p3_c));
    assert!(b2.contains(&p1_c));
    assert!(b3.contains(&p2_c));
}

#[test]
fn test_odd_swap() {
    let (mut network, packet_path) = setup_network_and_packet_path();
    let mut factory = PacketFactory::new();
    //   0
    // 1 2       2 1 0
    // ----- ==> -----
    // 0 1 2     0 1 2
    //
    let p1 = factory.create_packet(packet_path.clone(), 0, 1);
    let p2 = factory.create_packet(packet_path.clone(), 1, 0);
    let p3 = factory.create_packet(packet_path.clone(), 2, 1);

    let (p1_c, p2_c, p3_c) = (p1.clone(), p2.clone(), p3.clone());

    network.add_packet(p1, 1, 2);
    network.add_packet(p2, 0, 1);
    network.add_packet(p3, 1, 2);

    let mut oed = OEDWithSwap::new();
    oed.forward_packets(&mut network);

    let b1 = &network.get_edgebuffer(0, 1).unwrap().buffer;
    let b2 = &network.get_edgebuffer(1, 2).unwrap().buffer;
    let b3 = &network.get_edgebuffer(2, 3).unwrap().buffer;

    assert!(b1.contains(&p3_c));
    assert!(b2.contains(&p2_c));
    assert!(b3.contains(&p1_c));
}

#[test]
fn test_absorbed_packet_is_returned() {
    // A packet on the last buffer of a ten-buffer path leaves the network
    // after one round and comes back in the absorbed list.
    let (mut network, packet_path) = setup_network_and_packet_path();
    let mut factory = PacketFactory::new();
    let p1 = factory.create_packet(packet_path.clone(), 0, 8);
    let p1_c = p1.clone();
    let mut oed = OEDWithSwap::new();
    oed.add_packet(p1, &mut network);

    let absorbed = oed.forward_packets(&mut network);

    assert_eq!(absorbed.len(), 1);
    assert!(absorbed.contains(&p1_c));
    assert!(network.get_edgebuffer(8, 9).unwrap().buffer.is_empty());
}

#[test]
fn test_absorbed_on_exact_round() {
    // A lone packet crosses one buffer per round: injected at the first of
    // three buffers, it is absorbed on the third round and never before.
    let mut network = construct_path(3);
    let mut factory = PacketFactory::new();
    let p1 = factory.create_packet(vec![0, 1, 2, 3], 0, 0);
    let mut oed = OEDWithSwap::new();
    oed.add_packet(p1, &mut network);

    let absorbed_rd1 = oed.forward_packets(&mut network);
    assert!(absorbed_rd1.is_empty());
    assert_eq!(network.get_edgebuffer(1, 2).unwrap().buffer.len(), 1);

    let absorbed_rd2 = oed.forward_packets(&mut network);
    assert!(absorbed_rd2.is_empty());
    assert_eq!(network.get_edgebuffer(2, 3).unwrap().buffer.len(), 1);

    let absorbed_rd3 = oed.forward_packets(&mut network);
    assert_eq!(absorbed_rd3.len(), 1);
    assert_eq!(absorbed_rd3[0].get_id(), 0);
}

#[test]
fn test_odd_tie_always_forwards() {
    // Loads [1, 1] on the first two buffers: an odd tie passes the OED
    // criterion, so both buffers forward.
    let (mut network, packet_path) = setup_network_and_packet_path();
    let mut factory = PacketFactory::new();
    let p1 = factory.create_packet(packet_path.clone(), 0, 0);
    let p2 = factory.create_packet(packet_path.clone(), 1, 1);
    let (p1_c, p2_c) = (p1.clone(), p2.clone());

    network.add_packet(p1, 0, 1);
    network.add_packet(p2, 1, 2);

    let mut oed = OEDWithSwap::new();
    oed.forward_packets(&mut network);

    let b1 = &network.get_edgebuffer(0, 1).unwrap().buffer;
    let b2 = &network.get_edgebuffer(1, 2).unwrap().buffer;
    let b3 = &network.get_edgebuffer(2, 3).unwrap().buffer;
    assert!(b1.is_empty());
    assert!(b2.contains(&p1_c));
    assert!(b3.contains(&p2_c));
}

#[test]
fn test_greedy_fifo_respects_capacity() {
    // Three packets in one buffer and capacity one: exactly one packet
    // leaves the buffer in one round, and it is the front one.
    let (mut network, packet_path) = setup_network_and_packet_path();
    let mut factory = PacketFactory::new();
    let p1 = factory.create_packet(packet_path.clone(), 5, 0);
    let p2 = factory.create_packet(packet_path.clone(), 1, 0);
    let p3 = factory.create_packet(packet_path.clone(), 2, 0);
    let p1_c = p1.clone();

    network.add_packet(p1, 0, 1);
    network.add_packet(p2, 0, 1);
    network.add_packet(p3, 0, 1);

    let mut fifo = GreedyFIFO::new(1);
    let absorbed = fifo.forward_packets(&mut network);

    assert!(absorbed.is_empty());
    let b1 = &network.get_edgebuffer(0, 1).unwrap().buffer;
    let b2 = &network.get_edgebuffer(1, 2).unwrap().buffer;
    assert_eq!(b1.len(), 2);
    // FIFO serves insertion order, not age: the front packet moved even
    // though it is the youngest by injection round.
    assert_eq!(b2.len(), 1);
    assert!(b2.contains(&p1_c));
}

#[test]
fn test_greedy_fifo_capacity_two() {
    let (mut network, packet_path) = setup_network_and_packet_path();
    let mut factory = PacketFactory::new();
    let p1 = factory.create_packet(packet_path.clone(), 0, 0);
    let p2 = factory.create_packet(packet_path.clone(), 1, 0);
    let p3 = factory.create_packet(packet_path.clone(), 2, 0);
    let (p1_c, p2_c, p3_c) = (p1.clone(), p2.clone(), p3.clone());

    network.add_packet(p1, 0, 1);
    network.add_packet(p2, 0, 1);
    network.add_packet(p3, 0, 1);

    let mut fifo = GreedyFIFO::new(2);
    fifo.forward_packets(&mut network);

    let b1 = &network.get_edgebuffer(0, 1).unwrap().buffer;
    let b2 = &network.get_edgebuffer(1, 2).unwrap().buffer;
    assert_eq!(b1.len(), 1);
    assert!(b1.contains(&p3_c));
    assert_eq!(b2.len(), 2);
    assert!(b2.contains(&p1_c));
    assert!(b2.contains(&p2_c));
}

#[test]
fn test_greedy_lis_serves_longest_in_system() {
    // Injection rounds [5, 1, 3] and capacity two: the packets of rounds
    // 1 and 3 move, the round-5 packet stays.
    let (mut network, packet_path) = setup_network_and_packet_path();
    let mut factory = PacketFactory::new();
    let p1 = factory.create_packet(packet_path.clone(), 5, 0);
    let p2 = factory.create_packet(packet_path.clone(), 1, 0);
    let p3 = factory.create_packet(packet_path.clone(), 3, 0);
    let (p1_c, p2_c, p3_c) = (p1.clone(), p2.clone(), p3.clone());

    network.add_packet(p1, 0, 1);
    network.add_packet(p2, 0, 1);
    network.add_packet(p3, 0, 1);

    let mut lis = GreedyLIS::new(2);
    let absorbed = lis.forward_packets(&mut network);

    assert!(absorbed.is_empty());
    let b1 = &network.get_edgebuffer(0, 1).unwrap().buffer;
    let b2 = &network.get_edgebuffer(1, 2).unwrap().buffer;
    assert_eq!(b1.len(), 1);
    assert!(b1.contains(&p1_c));
    assert!(b2.contains(&p2_c));
    assert!(b2.contains(&p3_c));
}

#[test]
fn test_protocol_enum_dispatch() {
    let (mut network, packet_path) = setup_network_and_packet_path();
    let mut factory = PacketFactory::new();
    let p1 = factory.create_packet(packet_path.clone(), 0, 8);
    let p1_c = p1.clone();

    let mut protocol = Protocol::new_oed_with_swap();
    protocol.add_packet(p1, &mut network);
    let absorbed = protocol.forward_packets(&mut network);
    assert!(absorbed.contains(&p1_c));

    let mut fifo = Protocol::new_greedy_fifo(3);
    let p2 = factory.create_packet(packet_path.clone(), 1, 0);
    fifo.add_packet(p2, &mut network);
    let absorbed = fifo.forward_packets(&mut network);
    assert!(absorbed.is_empty());
    assert_eq!(network.get_edgebuffer(1, 2).unwrap().buffer.len(), 1);
}

#[test]
fn test_lis_higher_priority_total_order() {
    let mut factory = PacketFactory::new();
    let p = factory.create_packet(vec![0, 1], 0, 0);
    let q = factory.create_packet(vec![0, 1], 0, 0);
    let r = factory.create_packet(vec![0, 1], 2, 0);

    // Irreflexive.
    assert!(!lis_higher_priority(&p, &p));
    // Keyed first by injection round, then by id.
    assert!(lis_higher_priority(&p, &q));
    assert!(!lis_higher_priority(&q, &p));
    assert!(lis_higher_priority(&q, &r));
    // Transitive along the chain p, q, r.
    assert!(lis_higher_priority(&p, &r));
    // Total on distinct ids.
    assert!(lis_higher_priority(&p, &q) || lis_higher_priority(&q, &p));
}

#[test]
fn test_packet_equality_is_by_id() {
    let mut factory = PacketFactory::new();
    let p = factory.create_packet(vec![0, 1, 2], 0, 0);
    let mut q = p.clone();
    q.increment_path_idx();
    // The cursor differs but the id matches.
    assert!(p == q);
    let r = factory.create_packet(vec![0, 1, 2], 0, 0);
    assert!(p != r);
}
