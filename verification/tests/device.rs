use mesh_localization::metrics::{
    cycles_since, MovingAvg, NodePerfState, PerformanceMetrics, CPU_CLOCK_HZ, MOVING_AVG_WINDOW,
};
use mesh_localization::packet::{RxPacket, MAX_PAYLOAD};
use mesh_localization::screen::{mds_view, table_rows, ScreenMode};
use mesh_localization::telemetry::{parse_endpoint, TELEMETRY_PORT};
use mesh_localization::ui::{AppState, UiEvent};

const ONE: i32 = 65536;

#[test]
fn parse_endpoint_dotted_quad() {
    let e = parse_endpoint("10.62.198.13", 1883);
    assert_eq!(e.octets, [10, 62, 198, 13]);
    assert_eq!(e.port, 1883);
    let e = parse_endpoint("192.168.1.100", TELEMETRY_PORT);
    assert_eq!(e.octets, [192, 168, 1, 100]);
    assert_eq!(e.port, 8080);
}

#[test]
fn parse_endpoint_short_and_wrapping_groups() {
    assert_eq!(parse_endpoint("1.2", 1).octets, [1, 2, 0, 0]);
    assert_eq!(parse_endpoint("", 1).octets, [0, 0, 0, 0]);
    // 300 does not fit in a byte: it is cut to 300 % 256
    assert_eq!(parse_endpoint("300.1.1.1", 1).octets, [44, 1, 1, 1]);
}

#[test]
fn rx_packet_copies_and_truncates() {
    let src = [1, 2, 3, 4, 5, 6];
    let p = RxPacket::from_payload(src, -40, &[9, 8, 7]);
    assert_eq!(p.src, src);
    assert_eq!(p.rssi, -40);
    assert_eq!(p.len, 3);
    assert_eq!(p.payload(), &[9, 8, 7]);
    assert!(p.data[3..].iter().all(|&b| b == 0));
    let big: Vec<u8> = (0..300u32).map(|i| i as u8).collect();
    let p = RxPacket::from_payload(src, 0, &big);
    assert_eq!(p.len, MAX_PAYLOAD);
    assert_eq!(p.payload(), &big[..256]);
}

#[test]
fn performance_metrics_start_at_zero() {
    let m = PerformanceMetrics::new();
    assert_eq!(m.broadcast_hello_cycles, 0);
    assert_eq!(m.update_screen_table_cycles, 0);
    let d = PerformanceMetrics::default();
    assert_eq!(d.calc_state_mds_total_cycles, 0);
    assert_eq!(CPU_CLOCK_HZ, 160_000_000);
}

#[test]
fn cycles_since_across_the_wrap() {
    assert_eq!(cycles_since(100, 250), 150);
    assert_eq!(cycles_since(u32::MAX - 5, 4), 10);
    assert_eq!(cycles_since(7, 7), 0);
}

#[test]
fn moving_average_keeps_last_twenty() {
    let mut m = MovingAvg::new();
    assert_eq!(m.len(), 0);
    assert_eq!(m.total(), 0);
    for v in 1..=25u32 {
        m.push(v);
    }
    assert_eq!(m.len(), MOVING_AVG_WINDOW);
    // 6 + 7 + ... + 25
    assert_eq!(m.total(), (6..=25).sum::<u32>());
}

#[test]
fn moving_average_total_wraps() {
    let mut m = MovingAvg::new();
    m.push(u32::MAX);
    m.push(2);
    assert_eq!(m.total(), 1);
}

#[test]
fn node_perf_state_tracks_three_timings() {
    let mut m = PerformanceMetrics::new();
    m.broadcast_hello_cycles = 10;
    m.process_packet_hello_cycles = 20;
    m.calc_state_mds_total_cycles = 30;
    let mut s = NodePerfState::new(m);
    assert_eq!(s.broadcast_avg.total(), 10);
    m.broadcast_hello_cycles = 14;
    s.update(m);
    assert_eq!(s.latest.broadcast_hello_cycles, 14);
    assert_eq!(s.broadcast_avg.total(), 24);
    assert_eq!(s.broadcast_avg.len(), 2);
    assert_eq!(s.process_avg.total(), 40);
    assert_eq!(s.calculate_avg.total(), 60);
}

#[test]
fn app_state_handles_events() {
    let mut app = AppState::new();
    assert_eq!(app.status, "Waiting for data...");
    app.handle(UiEvent::Positions(vec![(ONE, 0)]));
    assert_eq!(app.positions, Some(vec![(ONE, 0)]));
    let mut m = PerformanceMetrics::new();
    m.broadcast_hello_cycles = 5;
    app.handle(UiEvent::Perf { node_id: "1".to_string(), metrics: m });
    app.handle(UiEvent::Perf { node_id: "2".to_string(), metrics: m });
    m.broadcast_hello_cycles = 7;
    app.handle(UiEvent::Perf { node_id: "1".to_string(), metrics: m });
    assert_eq!(app.perf_nodes.len(), 2);
    assert_eq!(app.perf_nodes[0].0, "1");
    assert_eq!(app.perf_nodes[0].1.broadcast_avg.total(), 12);
    assert_eq!(app.perf_nodes[1].1.broadcast_avg.total(), 5);
    app.handle(UiEvent::Error("MQTT error".to_string()));
    assert_eq!(app.status, "MQTT error");
}

#[test]
fn table_rows_target_first_then_nearest() {
    let macs = vec![10u64, 20, 30, 40, 50];
    let unknown = i32::MAX;
    // this node is 30
    let distances = vec![
        vec![0, 0, 0, 0, 0],
        vec![0, 0, 0, 0, 0],
        vec![5 * ONE, unknown, 0, 2 * ONE, 9 * ONE],
        vec![0, 0, 0, 0, 0],
        vec![0, 0, 0, 0, 0],
    ];
    let rows = table_rows(&macs, &distances, 30, Some(50));
    assert_eq!(
        rows,
        vec![(4, Some(9 * ONE)), (3, Some(2 * ONE)), (0, Some(5 * ONE)), (1, None)]
    );
    let rows = table_rows(&macs, &distances, 30, None);
    assert_eq!(
        rows,
        vec![(3, Some(2 * ONE)), (0, Some(5 * ONE)), (4, Some(9 * ONE)), (1, None)]
    );
    // unknown own position: row 0 (all zeros here) stands for this node
    let rows = table_rows(&macs, &distances, 99, None);
    assert_eq!(rows.len(), 4);
    assert!(rows.iter().all(|r| r.0 != 0 && r.1 == Some(0)));
}

#[test]
fn mds_view_centres_on_this_node() {
    let macs = vec![1u64, 2, 3];
    let mds = vec![(ONE, ONE), (2 * ONE, 3 * ONE), (0, 0)];
    let v = mds_view(&macs, &mds, 2, None).unwrap();
    assert_eq!(v.current, 1);
    assert_eq!(v.points, vec![(0, (-ONE, -2 * ONE)), (2, (-2 * ONE, -3 * ONE))]);
    let path = vec![2u64, 3, 9];
    let v = mds_view(&macs, &mds, 2, Some(&path)).unwrap();
    assert_eq!(v.points, vec![(2, (-2 * ONE, -3 * ONE))]);
    assert!(mds_view(&macs, &Vec::new(), 2, None).is_none());
    assert!(ScreenMode::Mds != ScreenMode::Table);
}
