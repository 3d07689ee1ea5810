use mesh_localization::metrics::{PerformanceMetrics, TelemetryMessage};
use mesh_localization::telemetry::{telemetry_body_bytes, telemetry_request};
use mesh_localization::ui::{message_event, topic_node, UiEvent};

#[test]
fn telemetry_body_is_json() {
    let b = telemetry_body_bytes("3", 4);
    assert_eq!(String::from_utf8(b).unwrap(), r#"{"id":"3","num_neighbors":4}"#);
    let b = telemetry_body_bytes("node-a", -120);
    assert_eq!(
        String::from_utf8(b).unwrap(),
        r#"{"id":"node-a","num_neighbors":-120}"#
    );
    let b = telemetry_body_bytes("0", i32::MIN);
    assert_eq!(
        String::from_utf8(b).unwrap(),
        r#"{"id":"0","num_neighbors":-2147483648}"#
    );
}

#[test]
fn telemetry_request_is_http_post() {
    let r = telemetry_request("192.168.1.100", "0", 3);
    let body = r#"{"id":"0","num_neighbors":3}"#;
    let expected = format!(
        "POST /update HTTP/1.0\r\nHost: 192.168.1.100\r\nContent-Type: application/json\r\nContent-Length: {}\r\nConnection: close\r\n\r\n{}",
        body.len(),
        body
    );
    assert_eq!(String::from_utf8(r).unwrap(), expected);
    assert_eq!(body.len(), 28);
}

#[test]
fn topic_node_takes_second_field() {
    assert_eq!(topic_node("telemetry/7"), "7");
    assert_eq!(topic_node("telemetry/12/extra"), "12");
    assert_eq!(topic_node("telemetry/"), "");
    assert_eq!(topic_node("telemetry"), "?");
    assert_eq!(topic_node("/x"), "x");
}

#[test]
fn layouts_only_from_node_zero() {
    let pos = vec![(65536, 0), (0, 65536)];
    match message_event("0".to_string(), TelemetryMessage::Mds(pos.clone())) {
        Some(UiEvent::Positions(p)) => assert_eq!(p, pos),
        _ => panic!("expected positions"),
    }
    assert!(message_event("1".to_string(), TelemetryMessage::Mds(pos)).is_none());
    assert!(message_event(
        "0".to_string(),
        TelemetryMessage::Log {
            msg: "hello".to_string()
        }
    )
    .is_none());
}

#[test]
fn perf_from_every_node() {
    let mut m = PerformanceMetrics::new();
    m.broadcast_hello_cycles = 160;
    match message_event("4".to_string(), TelemetryMessage::Perf(m)) {
        Some(UiEvent::Perf { node_id, metrics }) => {
            assert_eq!(node_id, "4");
            assert_eq!(metrics.broadcast_hello_cycles, 160);
        }
        _ => panic!("expected perf"),
    }
}
