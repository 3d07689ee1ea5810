use mesh_localization::mac::{key_to_mac, mac_to_key};
use mesh_localization::node_state::{Link, NodeState, UNKNOWN_DISTANCE};
use mesh_localization::routing::{
    all_estimated_distances, collect_nodes, dijkstra_path, dijkstra_rssi,
};
use mesh_localization::tasks::{calculate_state, matrix_incomplete, process_packet};
use mesh_localization::topology::Topology;
use mesh_localization::mds::MDS;

const ONE: i32 = 65536;

fn link(d: i32) -> Link {
    Link { dist: d * ONE, ema_rssi: -50 * ONE - d }
}

#[test]
fn mac_keys_round_trip_and_keep_order() {
    let a = [0x12, 0x34, 0x56, 0x78, 0x9a, 0xbc];
    let k = mac_to_key(a);
    assert_eq!(k, 0x1234_5678_9abc);
    assert_eq!(key_to_mac(k), a);
    let b = [0x12, 0x34, 0x56, 0x78, 0x9b, 0x00];
    assert!(a < b);
    assert!(mac_to_key(a) < mac_to_key(b));
    let c = [0x00, 0xff, 0xff, 0xff, 0xff, 0xff];
    assert!(c < a && mac_to_key(c) < mac_to_key(a));
}

/// A line A - B - C with a long direct link A - C, plus D reachable only
/// from C and E heard of only through C's measurements.
fn line_state() -> NodeState {
    let (a, b, c, d) = (1u64, 2u64, 3u64, 4u64);
    let mut s = NodeState::new(a);
    s.update_distance_from_self(a, b, link(1));
    s.update_distance_from_self(a, c, link(10));
    s.update_measurements_from_neighbor(b, vec![(a, link(1)), (c, link(2))]);
    s.update_measurements_from_neighbor(c, vec![(b, link(2)), (d, link(3)), (5, link(4))]);
    s.register_neighbour(d);
    s
}

#[test]
fn dijkstra_prefers_the_shorter_route() {
    let s = line_state();
    let nb = s.neighbours.keys();
    assert_eq!(nb, vec![1, 2, 3, 4]);
    let neighbours_copy = line_state();
    let t = Topology::new(s);
    let p = dijkstra_path(&t, 3, &neighbours_copy.neighbours).unwrap();
    assert_eq!(p, vec![1, 2, 3]);
    let p = dijkstra_path(&t, 4, &neighbours_copy.neighbours).unwrap();
    assert_eq!(p, vec![1, 2, 3, 4]);
    assert_eq!(dijkstra_path(&t, 1, &neighbours_copy.neighbours).unwrap(), vec![1]);
}

#[test]
fn dijkstra_unreachable_and_unknown_targets() {
    let s = line_state();
    let nb = line_state();
    let t = Topology::new(s);
    // 5 was measured by C but is not a tracked node.
    assert_eq!(dijkstra_path(&t, 5, &nb.neighbours), None);
    // 9 is unknown.
    assert_eq!(dijkstra_path(&t, 9, &nb.neighbours), None);
    // A node known only through a topology announcement and never measured.
    let mut t2 = Topology::new(line_state());
    t2.update_topology(7, vec![], 1, 0);
    assert_eq!(collect_nodes(&t2, &nb.neighbours), vec![1, 2, 3, 4, 7]);
    assert_eq!(dijkstra_path(&t2, 7, &nb.neighbours), None);
}

#[test]
fn dijkstra_rssi_lists_each_hop() {
    let nb = line_state();
    let t = Topology::new(line_state());
    let h = dijkstra_rssi(&t, 3, &nb.neighbours).unwrap();
    assert_eq!(h, vec![link(1).ema_rssi, link(2).ema_rssi]);
    assert_eq!(dijkstra_rssi(&t, 1, &nb.neighbours).unwrap(), Vec::<i32>::new());
    assert_eq!(dijkstra_rssi(&t, 9, &nb.neighbours), None);
}

#[test]
fn estimated_distances_skip_self_and_direct_neighbours() {
    let nb = line_state();
    let t = Topology::new(line_state());
    let mut est = all_estimated_distances(&t, &nb.neighbours);
    est.sort();
    // B and C are measured directly; D is 1 + 2 + 3 away; E (5) is 1 + 2 + 4.
    assert_eq!(est, vec![(4, 6 * ONE as i64), (5, 7 * ONE as i64)]);
}

#[test]
fn estimated_distances_without_own_entry() {
    // A node whose own entry was replaced by an empty one measures nothing.
    let mut s = NodeState::new(1);
    s.update_measurements_from_neighbor(2, vec![(3, link(1))]);
    let nb = NodeState::new(1);
    let t = Topology::new(s);
    assert_eq!(all_estimated_distances(&t, &nb.neighbours), vec![]);
}

#[test]
fn neighbour_matrix_sorted_with_unknowns() {
    let mut s = NodeState::new(30);
    s.update_distance_from_self(30, 10, link(2));
    s.update_measurements_from_neighbor(10, vec![(30, link(3))]);
    s.register_neighbour(20);
    let m = s.neighbour_matrix();
    // order 10, 20, 30
    assert_eq!(m.len(), 3);
    assert_eq!(m[0], vec![0, UNKNOWN_DISTANCE, 3 * ONE]);
    assert_eq!(m[1], vec![UNKNOWN_DISTANCE, 0, UNKNOWN_DISTANCE]);
    assert_eq!(m[2], vec![2 * ONE, UNKNOWN_DISTANCE, 0]);
    assert_eq!(s.sorted_nodes(), vec![10, 20, 30]);
    assert!(matrix_incomplete(&m));
}

#[test]
fn neighbour_matrix_caps_at_swarm_size() {
    let mut s = NodeState::new(100);
    for k in 0..12u64 {
        s.register_neighbour(50 - k);
    }
    let m = s.neighbour_matrix();
    assert_eq!(m.len(), 10);
    // the first ten nodes of the table: 100, 50, 49, ..., 42
    let mut expected: Vec<u64> = (42..=50).collect();
    expected.push(100);
    assert_eq!(s.sorted_nodes(), expected);
}

#[test]
fn tc_message_layout_and_sequence() {
    let mut s = NodeState::new(0x0102_0304_0506);
    s.register_neighbour(0xaabb_ccdd_eeff);
    let mut t = Topology::new(s);
    let m1 = t.generate_tc_message();
    assert_eq!(
        m1,
        vec![1, 2, 3, 4, 5, 6, 0, 0, 0, 1, 1, 2, 3, 4, 5, 6, 0xaa, 0xbb, 0xcc, 0xdd, 0xee, 0xff]
    );
    let m2 = t.generate_tc_message();
    assert_eq!(&m2[6..10], &[0, 0, 0, 2]);
}

#[test]
fn topology_keeps_the_newest_announcement() {
    let mut t = Topology::new(NodeState::new(1));
    t.update_topology(9, vec![1, 2], 5, 100);
    t.update_topology(9, vec![3], 4, 200);
    t.update_topology(9, vec![4], 5, 300);
    assert_eq!(t.table_keys(), vec![9]);
    let nb = NodeState::new(1);
    // still the first announcement: its neighbours are not nodes of the table
    assert_eq!(collect_nodes(&t, &nb.neighbours), vec![1, 9]);
    t.update_topology(9, vec![7], 6, 400);
    t.update_topology(8, vec![], -3, 500);
    assert_eq!(t.table_keys(), vec![9, 8]);
    assert_eq!(t.own_mac(), 1);
}

#[test]
fn process_packet_records_links() {
    let mut s = NodeState::new(1);
    process_packet(&mut s, 2, link(4), Some(vec![(1, link(5)), (3, link(6))]));
    process_packet(&mut s, 3, link(7), None);
    assert_eq!(s.neighbours.get_link(1, 2).map(|l| l.dist), Some(4 * ONE));
    assert_eq!(s.neighbours.get_link(1, 3).map(|l| l.dist), Some(7 * ONE));
    assert_eq!(s.neighbours.get_link(2, 3).map(|l| l.dist), Some(6 * ONE));
    assert_eq!(s.neighbours.get_link(3, 1).map(|l| l.dist), None);
    process_packet(&mut s, 2, link(8), None);
    assert_eq!(s.neighbours.get_link(1, 2).map(|l| l.dist), Some(8 * ONE));
    assert_eq!(s.neighbours.keys(), vec![1, 2]);
}

#[test]
fn calculate_state_waits_for_a_complete_matrix() {
    let words: Vec<u32> = vec![0x8000_0000, 0, 0, 0];
    let half = Link { dist: ONE / 2, ema_rssi: -50 * ONE };
    let mut s = NodeState::new(1);
    s.update_distance_from_self(1, 2, half);
    let mut mds = MDS::new();
    // 2 has not reported yet
    s.register_neighbour(2);
    assert_eq!(calculate_state(&mut s, &mut mds, &words), None);
    assert!(s.mds.is_empty());
    s.update_measurements_from_neighbor(2, vec![(1, half)]);
    let layout = calculate_state(&mut s, &mut mds, &words).unwrap();
    // The random start already lies 0.5 apart, as measured, and stays.
    assert_eq!(layout, vec![(ONE / 4, 0), (-ONE / 4, 0)]);
    assert_eq!(s.mds, layout);
}

#[test]
fn own_measurements_are_what_is_broadcast() {
    let s = line_state();
    let own = s.own_measurements();
    assert_eq!(own.len(), 2);
    assert_eq!(own[0].0, 2);
    assert_eq!(own[0].1.dist, ONE);
    assert_eq!(own[1].0, 3);
    assert_eq!(own[1].1.dist, 10 * ONE);
    let fresh = NodeState::new(9);
    assert!(fresh.own_measurements().is_empty());
}
