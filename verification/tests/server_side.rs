use ws_bench::messages::{decode_response, encode_request, Request};
use ws_bench::metrics::{
    chart_time_bounds, chart_value_top, Metrics, SeriesKind, CHART_WINDOW_MS, MAX_POINTS,
};
use ws_bench::server::{closes_view, respond_to, KeyPress, SocketMessage, SocketReply};
use std::collections::VecDeque;

#[test]
fn new_metrics_are_empty() {
    let m = Metrics::default();
    assert_eq!(m.current_packets, 0);
    assert_eq!(m.current_bytes, 0);
    assert!(m.packets_series.is_empty());
    assert!(m.bytes_series.is_empty());
}

#[test]
fn packets_are_counted_and_saturate() {
    let mut m = Metrics::new();
    m.record_packet(100);
    m.record_packet(28);
    assert_eq!(m.current_packets, 2);
    assert_eq!(m.current_bytes, 128);
    assert_eq!(m.last_packet_bytes, 28);
    m.current_bytes = u64::MAX - 1;
    m.current_packets = u64::MAX;
    m.record_packet(10);
    assert_eq!(m.current_bytes, u64::MAX);
    assert_eq!(m.current_packets, u64::MAX);
}

#[test]
fn sample_doubles_counts_and_resets() {
    let mut m = Metrics::new();
    m.record_packet(10);
    m.record_packet(20);
    m.push_sample(500);
    assert_eq!(m.packets_series, VecDeque::from(vec![(500, 4)]));
    assert_eq!(m.bytes_series, VecDeque::from(vec![(500, 60)]));
    assert_eq!(m.last_packets, 2);
    assert_eq!(m.last_bytes, 30);
    assert_eq!(m.current_packets, 0);
    assert_eq!(m.current_bytes, 0);
    assert_eq!(m.last_packet_bytes, 20);
}

#[test]
fn series_keep_the_most_recent_samples() {
    let mut m = Metrics::new();
    for i in 0..(MAX_POINTS as u64 + 10) {
        m.record_packet(i);
        m.push_sample(i * 500);
    }
    assert_eq!(m.packets_series.len(), MAX_POINTS);
    assert_eq!(m.series(SeriesKind::Bytes).len(), MAX_POINTS);
    assert_eq!(m.packets_series.front(), Some(&(10 * 500, 2)));
    assert_eq!(m.bytes_series.back(), Some(&(249 * 500, 498)));
}

#[test]
fn chart_window_bounds() {
    assert_eq!(chart_time_bounds(500, CHART_WINDOW_MS), (0, 1000));
    assert_eq!(chart_time_bounds(90_000, CHART_WINDOW_MS), (30_000, 90_000));
}

#[test]
fn chart_value_top_is_a_fifth_above_the_peak() {
    let pts: VecDeque<(u64, u128)> = VecDeque::from(vec![(0, 500), (1000, 10), (2000, 3)]);
    assert_eq!(chart_value_top(&pts, 1000, 3000), 12);
    assert_eq!(chart_value_top(&pts, 0, 3000), 600);
    assert_eq!(chart_value_top(&pts, 5000, 6000), 1);
    let ones: VecDeque<(u64, u128)> = VecDeque::from(vec![(0, 1), (1, 0)]);
    assert_eq!(chart_value_top(&ones, 0, 10), 1);
    let odd: VecDeque<(u64, u128)> = VecDeque::from(vec![(0, 7)]);
    assert_eq!(chart_value_top(&odd, 0, 10), 9);
}

#[test]
fn binary_request_is_answered_with_receipt() {
    let req = Request { action: "bench".to_string(), payload: "A".repeat(64) };
    let bytes = encode_request(&req);
    let msg = SocketMessage::Binary(bytes.clone());
    let mut m = Metrics::new();
    m.record_message(&msg);
    assert_eq!(m.current_packets, 1);
    assert_eq!(m.current_bytes, bytes.len() as u64);
    match respond_to(&msg) {
        SocketReply::Send(out) => {
            assert_eq!(decode_response(&out).unwrap().result, "server received 64 bytes");
        }
        other => panic!("unexpected reply {:?}", other),
    }
}

#[test]
fn garbage_is_counted_but_not_answered() {
    let msg = SocketMessage::Binary(vec![0xff, 0xff]);
    let mut m = Metrics::new();
    m.record_message(&msg);
    assert_eq!(m.current_packets, 1);
    assert_eq!(respond_to(&msg), SocketReply::Undecodable);
}

#[test]
fn control_messages() {
    let mut m = Metrics::new();
    m.record_message(&SocketMessage::Ping(vec![1, 2]));
    assert_eq!(m.current_packets, 0);
    assert_eq!(respond_to(&SocketMessage::Ping(vec![1, 2])), SocketReply::Pong(vec![1, 2]));
    assert_eq!(respond_to(&SocketMessage::Close), SocketReply::Close);
    assert_eq!(respond_to(&SocketMessage::Failure), SocketReply::Stop);
    assert_eq!(respond_to(&SocketMessage::Other), SocketReply::Ignore);
}

#[test]
fn quit_keys() {
    assert!(closes_view(KeyPress::Char('q'), false));
    assert!(closes_view(KeyPress::Esc, false));
    assert!(closes_view(KeyPress::Char('c'), true));
    assert!(!closes_view(KeyPress::Char('c'), false));
    assert!(!closes_view(KeyPress::Char('x'), true));
    assert!(!closes_view(KeyPress::Other, true));
}
