use mesh_localization::kabsch::{align, align_or_keep};
use mesh_localization::mds::{subtract_mean, MDS};
use mesh_localization::node_state::{Link, NodeState};
use mesh_localization::routing::{all_estimated_distances, dijkstra_path};
use mesh_localization::telemetry::parse_endpoint;
use mesh_localization::topology::Topology;

const ONE: i32 = 65536;

#[test]
fn parse_endpoint_reads_back_dotted_quads() {
    for &(a, b, c, d) in &[(0u8, 0u8, 0u8, 0u8), (255, 255, 255, 255), (10, 0, 99, 7), (192, 168, 1, 100)] {
        let text = format!("{a}.{b}.{c}.{d}");
        let e = parse_endpoint(&text, 1883);
        assert_eq!(e.octets, [a, b, c, d]);
        assert_eq!(e.port, 1883);
    }
}

#[test]
fn subtract_mean_twice_is_once() {
    let p = vec![(3 * ONE + 7, -ONE), (-5, 2 * ONE + 1), (ONE / 3, 11), (i32::MAX, i32::MIN)];
    let once = subtract_mean(&p);
    assert_eq!(once.len(), p.len());
    assert_eq!(subtract_mean(&once), once);
}

#[test]
fn mds_same_layout_for_transposed_distances() {
    let d = vec![
        vec![0, 3 * ONE, 5 * ONE],
        vec![2 * ONE, 0, 4 * ONE],
        vec![3 * ONE, 6 * ONE, 0],
    ];
    let dt: Vec<Vec<i32>> = (0..3).map(|i| (0..3).map(|j| d[j][i]).collect()).collect();
    let words: Vec<u32> = vec![1, 0x8000_0000, 0x4000_0000, 0xc000_0000, 7, 0xffff_ffff];
    let mut m1 = MDS::new();
    let mut m2 = MDS::new();
    let l1 = m1.compute(d, &words).clone();
    let l2 = m2.compute(dt, &words).clone();
    assert_eq!(l1, l2);
}

#[test]
fn mds_without_restart_needs_no_random_words() {
    let d = vec![vec![0, 2 * ONE], vec![2 * ONE, 0]];
    let mut m = MDS::new();
    let first = m.compute(d.clone(), &[5, 0x9000_0000, 17, 0x1000_0000]).clone();
    let second = m.compute(d, &[]).clone();
    assert_eq!(first.len(), 2);
    assert_eq!(second.len(), 2);
}

#[test]
fn align_or_keep_agrees_with_align_in_range() {
    let reference = vec![(ONE, 0), (0, ONE), (-ONE, 0), (0, -ONE), (ONE / 2, ONE / 2)];
    let current: Vec<(i32, i32)> = reference.iter().map(|&(x, y)| (-y + 2 * ONE, x + 3 * ONE)).collect();
    assert_eq!(align_or_keep(&current, &reference), align(&current, &reference));
    let short = vec![(1, 2)];
    assert_eq!(align_or_keep(&short, &reference), short);
}

fn link(d: i32) -> Link {
    Link { dist: d * ONE, ema_rssi: -50 * ONE }
}

#[test]
fn zero_length_links_give_a_simple_route() {
    let mut s = NodeState::new(1);
    s.update_distance_from_self(1, 2, link(0));
    s.update_measurements_from_neighbor(2, vec![(1, link(0)), (3, link(0))]);
    s.update_measurements_from_neighbor(3, vec![(2, link(0)), (1, link(0))]);
    let nb = s.neighbours.keys();
    assert_eq!(nb, vec![1, 2, 3]);
    let mut copy = NodeState::new(1);
    copy.update_distance_from_self(1, 2, link(0));
    copy.update_measurements_from_neighbor(2, vec![(1, link(0)), (3, link(0))]);
    copy.update_measurements_from_neighbor(3, vec![(2, link(0)), (1, link(0))]);
    let t = Topology::new(s);
    let p = dijkstra_path(&t, 3, &copy.neighbours).unwrap();
    let mut sorted = p.clone();
    sorted.sort();
    sorted.dedup();
    assert_eq!(sorted.len(), p.len());
    assert_eq!(p, vec![1, 2, 3]);
}

#[test]
fn estimates_match_route_lengths() {
    // A - B (1), B - C (2), C - D (3); A hears only B.
    let build = || {
        let mut s = NodeState::new(1);
        s.update_distance_from_self(1, 2, link(1));
        s.update_measurements_from_neighbor(2, vec![(1, link(1)), (3, link(2))]);
        s.update_measurements_from_neighbor(3, vec![(2, link(2)), (4, link(3))]);
        s.register_neighbour(4);
        s
    };
    let nb = build();
    let t = Topology::new(build());
    let est = all_estimated_distances(&t, &nb.neighbours);
    for (m, x) in est {
        let p = dijkstra_path(&t, m, &nb.neighbours).unwrap();
        let mut len: i64 = 0;
        for w in p.windows(2) {
            let l = nb.neighbours.get_link(w[0], w[1]).unwrap();
            len += l.dist as i64;
        }
        assert_eq!(len, x);
    }
}

#[test]
fn rssi_hops_follow_the_returned_route_on_ties() {
    // A reaches D through B or through C, both 2 long, with different RSSI.
    let build = || {
        let mut s = NodeState::new(1);
        s.update_distance_from_self(1, 2, Link { dist: ONE, ema_rssi: -40 * ONE });
        s.update_distance_from_self(1, 3, Link { dist: ONE, ema_rssi: -70 * ONE });
        s.update_measurements_from_neighbor(2, vec![(4, Link { dist: ONE, ema_rssi: -41 * ONE })]);
        s.update_measurements_from_neighbor(3, vec![(4, Link { dist: ONE, ema_rssi: -71 * ONE })]);
        s.register_neighbour(4);
        s
    };
    let nb = build();
    let t = Topology::new(build());
    let p = mesh_localization::routing::dijkstra_path(&t, 4, &nb.neighbours).unwrap();
    let h = mesh_localization::routing::dijkstra_rssi(&t, 4, &nb.neighbours).unwrap();
    assert_eq!(h.len(), p.len() - 1);
    for i in 0..h.len() {
        assert_eq!(h[i], nb.neighbours.get_link(p[i], p[i + 1]).unwrap().ema_rssi);
    }
}

#[test]
fn parse_endpoint_reads_letters_as_wrapped_digits() {
    // 'a' is read as the digit 97 - 48 = 49: 1 * 10 + 49 = 59.
    assert_eq!(parse_endpoint("1a.2.3.4", 80).octets, [59, 2, 3, 4]);
}
