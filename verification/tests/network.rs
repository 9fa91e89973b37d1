use aqt_sim::network::{construct_path, Network, NodeID};
use aqt_sim::packet::PacketFactory;

fn setup_test_graph() -> Network {
    let mut network = Network::new();

    let a_id = network.add_node();
    let b_id = network.add_node();
    let c_id = network.add_node();
    let d_id = network.add_node();

    network.add_edgebuffer(a_id, b_id);
    network.add_edgebuffer(a_id, c_id);
    network.add_edgebuffer(c_id, b_id);
    network.add_edgebuffer(b_id, c_id);
    network.add_edgebuffer(a_id, d_id);
    network.add_edgebuffer(b_id, d_id);

    network
}

#[test]
fn test_get_neighbors() {
    let network = setup_test_graph();

    let (a_id, b_id, c_id, d_id) = (0, 1, 2, 3);

    let a_neighbors = network.get_neighbors(a_id);
    let b_neighbors = network.get_neighbors(b_id);
    let c_neighbors = network.get_neighbors(c_id);
    let d_neighbors = network.get_neighbors(d_id);

    let expect_a_neighbors = vec![b_id, c_id, d_id];
    let expect_b_neighbors = vec![c_id, d_id];
    let expect_c_neighbors = vec![b_id];
    let expect_d_neighbors: Vec<NodeID> = vec![];

    assert!(a_neighbors.into_iter().all(|neighbor| expect_a_neighbors.contains(&neighbor)));
    assert!(b_neighbors.into_iter().all(|neighbor| expect_b_neighbors.contains(&neighbor)));
    assert!(c_neighbors.into_iter().all(|neighbor| expect_c_neighbors.contains(&neighbor)));
    assert!(d_neighbors.into_iter().all(|neighbor| expect_d_neighbors.contains(&neighbor)));
}

#[test]
fn test_get_nodes() {
    let network = setup_test_graph();
    let node_ids = network.get_nodes();
    let expect_node_ids = vec![0, 1, 2, 3];
    assert!(node_ids.into_iter().all(|node_id| expect_node_ids.contains(&node_id)));
}

#[test]
fn test_get_edgebuffers() {
    let network = setup_test_graph();
    let (a_id, b_id, c_id, d_id) = (0, 1, 2, 3);
    let eb_ids = network.get_edgebuffers();
    let expect_eb_ids = vec![
        (a_id, b_id),
        (a_id, c_id),
        (c_id, b_id),
        (b_id, c_id),
        (a_id, d_id),
        (b_id, d_id),
    ];
    assert!(eb_ids.into_iter().all(|eb_id_pair| expect_eb_ids.contains(&eb_id_pair)))
}

#[test]
fn test_add_packet_and_get_edgebuffer() {
    let mut network = setup_test_graph();
    let (a_id, b_id) = (0, 1);
    let mut factory = PacketFactory::new();
    let p = factory.create_packet(Vec::new(), 0, 0);
    let p2 = p.clone();

    {
        let eb = network.get_edgebuffer(a_id, b_id).unwrap();
        assert!(!eb.buffer.contains(&p2));
    }

    network.add_packet(p, a_id, b_id);
    let eb = network.get_edgebuffer(a_id, b_id).unwrap();
    assert!(eb.buffer.contains(&p2));
}

#[test]
fn test_add_packet_and_take_buffer() {
    let mut network = setup_test_graph();
    let (b_id, d_id) = (1, 3);
    let mut factory = PacketFactory::new();
    let p = factory.create_packet(Vec::new(), 0, 0);
    let p2 = p.clone();
    network.add_packet(p, b_id, d_id);

    let buff = network.take_buffer(b_id, d_id).unwrap();
    assert!(buff.contains(&p2));

    let new_eb = network.get_edgebuffer(b_id, d_id).unwrap();
    assert!(new_eb.buffer.len() == 0);
}

#[test]
fn test_neighbors_empty_before_edges() {
    let mut network = Network::new();
    let a_id = network.add_node();
    assert!(network.get_neighbors(a_id).is_empty());

    let b_id = network.add_node();
    network.add_edgebuffer(a_id, b_id);
    assert_eq!(network.get_neighbors(a_id), vec![b_id]);
    // The reverse direction was never added.
    assert!(network.get_edgebuffer(b_id, a_id).is_none());
    assert!(network.get_neighbors(b_id).is_empty());
}

#[test]
fn test_construct_path_shape() {
    let network = construct_path(4);
    assert_eq!(network.get_num_nodes(), 5);
    assert_eq!(network.get_edgebuffers(), vec![(0, 1), (1, 2), (2, 3), (3, 4)]);
    for from_id in 0..4 {
        let eb = network.get_edgebuffer(from_id, from_id + 1).unwrap();
        assert!(eb.buffer.is_empty());
    }
    assert!(network.get_edgebuffer(1, 0).is_none());
}

#[test]
fn test_missing_buffer_is_absent_not_empty() {
    let network = setup_test_graph();
    // Edge (2, 3) was never added: the lookup reports an absent buffer.
    assert!(network.get_edgebuffer(2, 3).is_none());
    // Edge (0, 3) exists but holds nothing: the lookup reports empty.
    assert!(network.get_edgebuffer(0, 3).unwrap().buffer.is_empty());
}

#[test]
fn test_take_buffer_missing_edge() {
    let mut network = setup_test_graph();
    assert!(network.take_buffer(3, 0).is_none());
}
