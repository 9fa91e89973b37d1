use aqt_sim::adversary::preset::{InjectionConfig, PresetAdversary};
use aqt_sim::adversary::path_random::{SDPathRandomAdversary, SDPathRandomBurstyAdversary};
use aqt_sim::adversary::Adversary;
use aqt_sim::network::construct_path;
use aqt_sim::packet::PacketFactory;
use aqt_sim::simulation::random::SimRng;
use aqt_sim::simulation::recorder::{pop_oldest_packet, smoothed_config_entries};
use aqt_sim::simulation::threshold::{Threshold, TotalLoadThreshold};

#[test]
fn test_factory_ids_strictly_increase() {
    let mut factory = PacketFactory::new();
    let p0 = factory.create_packet(vec![0, 1], 7, 0);
    let p1 = factory.create_packet(vec![0, 1, 2], 8, 1);
    assert_eq!(p0.get_id(), 0);
    assert_eq!(p1.get_id(), 1);
    assert_eq!(p0.get_injection_rd(), 7);
    assert_eq!(p1.get_path_idx(), 1);
    assert_eq!(p1.get_path(), &vec![0, 1, 2]);
}

#[test]
fn test_packet_route_queries() {
    let mut factory = PacketFactory::new();
    let mut p = factory.create_packet(vec![3, 5, 7], 0, 0);
    assert_eq!(p.cur_node(), Some(3));
    assert_eq!(p.next_node(), Some(5));
    assert!(!p.is_absorbed());
    assert!(!p.should_be_absorbed());
    assert_eq!(p.dist_to_go(), 4);

    p.increment_path_idx();
    assert_eq!(p.cur_node(), Some(5));
    assert_eq!(p.next_node(), Some(7));

    p.increment_path_idx();
    assert_eq!(p.cur_node(), Some(7));
    assert_eq!(p.next_node(), None);
    assert!(p.should_be_absorbed());

    p.increment_path_idx();
    assert!(p.is_absorbed());
    assert_eq!(p.cur_node(), None);

    p.decrement_path_idx();
    assert_eq!(p.get_path_idx(), 2);
}

#[test]
fn test_preset_adversary_injects_recipes() {
    let round0 = vec![
        InjectionConfig::new(vec![0, 1, 2, 3], 0),
        InjectionConfig::new(vec![0, 1, 2, 3], 1),
    ];
    let round1 = vec![InjectionConfig::new(vec![0, 1, 2, 3], 2)];
    let mut adversary = PresetAdversary::from_injection_configs(vec![round0, round1]);
    assert_eq!(adversary.rds(), 2);

    let network = construct_path(3);
    let packets = adversary.get_next_packets(&network, 0);
    assert_eq!(packets.len(), 2);
    assert_eq!(packets[0].get_id(), 0);
    assert_eq!(packets[0].get_path_idx(), 0);
    assert_eq!(packets[1].get_id(), 1);
    assert_eq!(packets[1].get_path_idx(), 1);
    assert_eq!(packets[0].get_injection_rd(), 0);

    let packets = adversary.get_next_packets(&network, 1);
    assert_eq!(packets.len(), 1);
    assert_eq!(packets[0].get_id(), 2);
    assert_eq!(packets[0].get_injection_rd(), 1);
    assert_eq!(packets[0].get_path_idx(), 2);
}

#[test]
fn test_sd_path_random_adversary_injects_full_path() {
    let network = construct_path(9);
    let mut adversary = SDPathRandomAdversary::from_seed(42);
    let packets = adversary.get_next_packets(&network, 3);
    assert_eq!(packets.len(), 1);
    let p = &packets[0];
    assert_eq!(p.get_injection_rd(), 3);
    assert_eq!(p.get_path(), &(0..10).collect::<Vec<usize>>());
    assert!(p.get_path_idx() < 8);
}

#[test]
fn test_adversary_enum_seeded_runs_repeat() {
    let network = construct_path(9);
    let mut a1 = Adversary::SDPathRandom(SDPathRandomAdversary::from_seed(7));
    let mut a2 = Adversary::SDPathRandom(SDPathRandomAdversary::from_seed(7));
    for rd in 0..20 {
        let p1 = a1.get_next_packets(&network, rd);
        let p2 = a2.get_next_packets(&network, rd);
        assert_eq!(p1.len(), p2.len());
        assert_eq!(p1[0].get_path_idx(), p2[0].get_path_idx());
    }
}

#[test]
fn test_bursty_adversary_respects_burst_allowance() {
    let network = construct_path(9);
    let mut adversary = SDPathRandomBurstyAdversary::from_seed(11, 4);
    let mut next_id = 0;
    for rd in 0..50 {
        let packets = adversary.get_next_packets(&network, rd);
        // Never more than sigma + 1 packets at once.
        assert!(packets.len() <= 5);
        for p in &packets {
            assert_eq!(p.get_id(), next_id);
            next_id += 1;
            assert_eq!(p.get_injection_rd(), rd);
            assert_eq!(p.get_path(), &(0..10).collect::<Vec<usize>>());
            assert!(p.get_path_idx() < 8);
        }
    }
}

#[test]
fn test_get_edgebuffer_mut_edits_buffer() {
    let mut network = construct_path(2);
    let mut factory = PacketFactory::new();
    let p = factory.create_packet(vec![0, 1, 2], 0, 0);
    network.add_packet(p, 0, 1);

    assert!(network.get_edgebuffer_mut(1, 0).is_none());
    let eb = network.get_edgebuffer_mut(0, 1).unwrap();
    assert_eq!(eb.buffer.len(), 1);
    eb.buffer.clear();
    assert!(network.get_edgebuffer(0, 1).unwrap().buffer.is_empty());
}

#[test]
fn test_sim_rng_stays_below_bound() {
    let mut rng = SimRng::from_seed(5);
    for _ in 0..100 {
        assert!(rng.rand_int(3) < 3);
    }
    let mut unseeded = SimRng::new();
    for _ in 0..100 {
        assert!(unseeded.rand_int(7) < 7);
    }
}

#[test]
fn test_timed_threshold_stops_at_bound() {
    let network = construct_path(2);
    let mut threshold = Threshold::timed_from_rds(5);
    assert!(!threshold.check_termination(4, &network));
    assert!(threshold.check_termination(5, &network));
    assert!(threshold.check_termination(6, &network));
}

#[test]
fn test_total_load_threshold_counts_all_buffers() {
    let mut network = construct_path(3);
    let mut factory = PacketFactory::new();
    let p0 = factory.create_packet(vec![0, 1, 2, 3], 0, 0);
    let p1 = factory.create_packet(vec![0, 1, 2, 3], 0, 2);
    network.add_packet(p0, 0, 1);
    network.add_packet(p1, 2, 3);

    let mut threshold = Threshold::TotalLoad(TotalLoadThreshold { max_load: 2 });
    assert!(threshold.check_termination(0, &network));
    let mut higher = Threshold::TotalLoad(TotalLoadThreshold { max_load: 3 });
    assert!(!higher.check_termination(0, &network));
}

#[test]
fn test_pop_oldest_packet_picks_first_minimum() {
    let mut factory = PacketFactory::new();
    let p0 = factory.create_packet(vec![0, 1], 4, 0);
    let p1 = factory.create_packet(vec![0, 1], 2, 0);
    let p2 = factory.create_packet(vec![0, 1], 2, 0);
    let (id1, id2) = (p1.get_id(), p2.get_id());

    let mut queue = vec![p0, p1, p2];
    // Two packets tie at round 2: the earlier position wins.
    let popped = pop_oldest_packet(&mut queue).unwrap();
    assert_eq!(popped.get_id(), id1);
    let popped = pop_oldest_packet(&mut queue).unwrap();
    assert_eq!(popped.get_id(), id2);
    let popped = pop_oldest_packet(&mut queue).unwrap();
    assert_eq!(popped.get_injection_rd(), 4);
    assert!(pop_oldest_packet(&mut queue).is_none());
}

#[test]
fn test_smoothed_config_entries() {
    // Buffers (0,1) and (1,2) hold one packet each; walking from the back,
    // the last buffer reports its own packet and the first buffer reports
    // its own, leaving nothing queued.
    let mut network = construct_path(2);
    let mut factory = PacketFactory::new();
    let p0 = factory.create_packet(vec![0, 1, 2], 3, 0);
    let p1 = factory.create_packet(vec![0, 1, 2], 1, 1);
    let (id0, id1) = (p0.get_id(), p1.get_id());
    network.add_packet(p0, 0, 1);
    network.add_packet(p1, 1, 2);

    let (rows, leftover) = smoothed_config_entries(&network);
    assert_eq!(rows.len(), 2);
    assert_eq!((rows[0].buffer_from, rows[0].buffer_to), (1, 2));
    assert_eq!(rows[0].packet, Some((id1, 1)));
    assert_eq!((rows[1].buffer_from, rows[1].buffer_to), (0, 1));
    assert_eq!(rows[1].packet, Some((id0, 3)));
    assert!(leftover.is_empty());
}

#[test]
fn test_smoothed_config_entries_queues_younger_packets() {
    // Both packets sit in the last buffer: the back edge reports the
    // older one, the front edge then reports the younger one from the
    // queue, and nothing is left over.
    let mut network = construct_path(2);
    let mut factory = PacketFactory::new();
    let p0 = factory.create_packet(vec![0, 1, 2], 5, 1);
    let p1 = factory.create_packet(vec![0, 1, 2], 2, 1);
    let (id0, id1) = (p0.get_id(), p1.get_id());
    network.add_packet(p0, 1, 2);
    network.add_packet(p1, 1, 2);

    let (rows, leftover) = smoothed_config_entries(&network);
    assert_eq!(rows.len(), 2);
    assert_eq!(rows[0].packet, Some((id1, 2)));
    assert_eq!(rows[1].packet, Some((id0, 5)));
    assert!(leftover.is_empty());
}

#[test]
fn test_smoothed_config_entries_leftover() {
    // Three packets in the very first buffer: one is reported for each of
    // the two edges, the third drains into the leftover list.
    let mut network = construct_path(2);
    let mut factory = PacketFactory::new();
    let p0 = factory.create_packet(vec![0, 1, 2], 9, 0);
    let p1 = factory.create_packet(vec![0, 1, 2], 4, 0);
    let p2 = factory.create_packet(vec![0, 1, 2], 6, 0);
    let ids = (p0.get_id(), p1.get_id(), p2.get_id());
    network.add_packet(p0, 0, 1);
    network.add_packet(p1, 0, 1);
    network.add_packet(p2, 0, 1);

    let (rows, leftover) = smoothed_config_entries(&network);
    assert_eq!(rows.len(), 2);
    assert_eq!(rows[0].packet, None);
    assert_eq!(rows[1].packet, Some((ids.1, 4)));
    assert_eq!(leftover, vec![(ids.2, 6), (ids.0, 9)]);
}
