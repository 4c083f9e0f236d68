use ws_bench::bench::{
    benchmark_sizes, sample_due, stand_in_tick, start_benchmark, start_stand_in, AppState, BenchAction,
    BenchEvent, BenchStatus, BenchTask, Incoming, Phase, Progress, DURATION_MS, SIZE_COUNT,
};
use ws_bench::burst::{INITIAL_BURST_LIMIT, MAX_BURST_LIMIT};
use ws_bench::messages::{bench_request, decode_request, encode_request, encode_response, receipt, Response};

/// Plays a server that answers every request at once and a clock that
/// advances `tick` milliseconds per message; stops after `limit` steps or
/// when `stop_at` steps have been taken (then asks to stop).
fn run(st: &mut AppState, tick: u64, stop_at: Option<usize>) -> (BenchTask, usize) {
    let mut task = start_benchmark(st);
    let mut now: u64 = 1_000_000;
    let mut action = task.step(st, BenchEvent::Connected).action;
    let mut steps = 0usize;
    loop {
        steps += 1;
        if Some(steps) == stop_at {
            st.request_stop();
        }
        let event = match action {
            BenchAction::SendPing => BenchEvent::PingSent { ok: true, now_ms: now },
            BenchAction::AwaitPing => {
                now += 3;
                let reply = encode_response(&Response { result: "pong".to_string() });
                BenchEvent::PingAnswered { reply: Some(reply), now_ms: now }
            }
            BenchAction::Send => BenchEvent::Sent { error: None, now_ms: now },
            BenchAction::Receive => {
                now += tick;
                let req = decode_request(task.message()).unwrap();
                let reply = encode_response(&receipt(&req));
                BenchEvent::Received { message: Incoming::Binary(reply), now_ms: now }
            }
            BenchAction::Pause => {
                now += 1000;
                BenchEvent::Resumed { now_ms: now }
            }
            BenchAction::Finish => return (task, steps),
            BenchAction::Ignore => panic!("event did not fit"),
        };
        let before = st.progress;
        let out = task.step(st, event);
        assert!(!out.undecodable_reply);
        action = out.action;
        let c = task.controller();
        assert!(c.burst_limit <= MAX_BURST_LIMIT);
        // the progress shown never goes back
        let after = st.progress;
        assert!(
            before.steps_done < after.steps_done
                || (before.steps_done == after.steps_done && before.elapsed_ms <= after.elapsed_ms)
        );
        // every request sent is answered or outstanding
        assert_eq!(c.packets_sent, c.replies_received + c.outstanding);
        if c.wait_for_reply {
            assert!(c.outstanding <= 1);
        }
    }
}

#[test]
fn sizes_are_powers_of_two() {
    let sizes = benchmark_sizes();
    assert_eq!(sizes, vec![64, 128, 256, 512, 1024, 2048, 4096, 8192, 16384, 32768]);
}

#[test]
fn initial_state() {
    let st = AppState::default();
    assert!(st.wait_for_reply);
    assert!(st.show_detail_charts);
    assert!(!st.bench_running);
    assert_eq!(st.live_burst_limit, INITIAL_BURST_LIMIT);
    assert!(matches!(st.bench_status, BenchStatus::Idle));
}

#[test]
fn synchronous_run_measures_every_size() {
    let mut st = AppState::new();
    let (task, _) = run(&mut st, 10, None);
    assert_eq!(task.controller().phase, Phase::Done);
    assert!(!st.bench_running);
    assert!(matches!(st.bench_status, BenchStatus::Finished));
    assert_eq!(st.progress, Progress { steps_done: SIZE_COUNT, elapsed_ms: 0 });
    assert_eq!(st.bench_results.len(), SIZE_COUNT);
    assert_eq!(st.run_series.len(), SIZE_COUNT);
    for (i, r) in st.bench_results.iter().enumerate() {
        assert_eq!(r.size, 64usize << i);
        assert_eq!(st.run_series[i].size, 64usize << i);
        // one request per 10 ms round until the time is up
        assert_eq!(r.total_packets, DURATION_MS / 10);
        assert_eq!(r.replies, r.total_packets);
        assert_eq!(r.elapsed_ms, DURATION_MS);
        assert!(!st.run_series[i].samples.is_empty());
    }
    assert_eq!(st.response, format!("server received {} bytes", 32768));
    check_records(&st);
    assert_eq!(st.live_ping_ms, 3);
}

#[test]
fn bursting_run_drains_and_finishes() {
    let mut st = AppState::new();
    st.wait_for_reply = false;
    let (task, _) = run(&mut st, 1, None);
    assert_eq!(task.controller().phase, Phase::Done);
    assert_eq!(st.bench_results.len(), SIZE_COUNT);
    for r in st.bench_results.iter() {
        assert!(r.replies <= r.total_packets);
        assert!(r.total_packets > 0);
        assert!(r.total_bytes > r.total_packets * r.size as u64);
        assert_eq!(r.replies, r.total_packets);
    }
    check_records(&st);
    assert!(matches!(st.bench_status, BenchStatus::Finished));
}

#[test]
fn stop_request_ends_the_run() {
    let mut st = AppState::new();
    let (task, _) = run(&mut st, 10, Some(50));
    assert_eq!(task.controller().phase, Phase::Done);
    assert!(matches!(st.bench_status, BenchStatus::StoppedByUser));
    assert!(!st.bench_running);
    assert!(st.bench_results.is_empty());
}

#[test]
fn unreachable_host_ends_the_run() {
    let mut st = AppState::new();
    let mut task = start_benchmark(&mut st);
    assert!(st.bench_running);
    assert!(matches!(st.bench_status, BenchStatus::OpeningSocket));
    let out = task.step(&mut st, BenchEvent::HostUnavailable);
    assert_eq!(out.action, BenchAction::Finish);
    assert!(!st.bench_running);
    assert!(matches!(st.bench_status, BenchStatus::HostUnavailable));
    // nothing fits any more
    let out = task.step(&mut st, BenchEvent::Connected);
    assert_eq!(out.action, BenchAction::Ignore);
}

#[test]
fn failed_open_reports_both_errors() {
    let mut st = AppState::new();
    let mut task = start_benchmark(&mut st);
    let out = task.step(
        &mut st,
        BenchEvent::OpenFailed { ws_error: "a".to_string(), wss_error: "b".to_string() },
    );
    assert_eq!(out.action, BenchAction::Finish);
    match &st.bench_status {
        BenchStatus::OpenFailed { ws_error, wss_error } => {
            assert_eq!(ws_error, "a");
            assert_eq!(wss_error, "b");
        }
        _ => panic!("wrong status"),
    }
}

#[test]
fn send_failure_closes_the_size() {
    let mut st = AppState::new();
    let mut task = start_benchmark(&mut st);
    task.step(&mut st, BenchEvent::Connected);
    // the ping fails to go out: the first size starts at once
    let out = task.step(&mut st, BenchEvent::PingSent { ok: false, now_ms: 100 });
    assert_eq!(out.action, BenchAction::Send);
    assert_eq!(st.live_size, 64);
    assert!(matches!(st.bench_status, BenchStatus::Benchmarking { size: 64 }));
    let out = task.step(&mut st, BenchEvent::Sent { error: Some("down".to_string()), now_ms: 120 });
    assert_eq!(out.action, BenchAction::Pause);
    assert_eq!(st.bench_results.len(), 1);
    assert_eq!(st.bench_results[0].total_packets, 0);
    assert_eq!(st.bench_results[0].elapsed_ms, 20);
    match &st.bench_status {
        BenchStatus::Completed { result } => assert_eq!(result.size, 64),
        _ => panic!("wrong status"),
    }
    let out = task.step(&mut st, BenchEvent::Resumed { now_ms: 1200 });
    assert_eq!(out.action, BenchAction::Send);
    assert_eq!(st.live_size, 128);
    assert_eq!(task.controller().burst_limit, 7);
}

#[test]
fn undecodable_answer_is_flagged() {
    let mut st = AppState::new();
    let mut task = start_benchmark(&mut st);
    task.step(&mut st, BenchEvent::Connected);
    task.step(&mut st, BenchEvent::PingSent { ok: true, now_ms: 0 });
    let out = task.step(&mut st, BenchEvent::PingAnswered { reply: Some(vec![0xff]), now_ms: 7 });
    assert!(out.undecodable_reply);
    assert_eq!(out.action, BenchAction::Send);
    assert_eq!(st.live_ping_ms, 7);
    assert_eq!(st.response, "");
}

#[test]
fn ended_stream_while_waiting() {
    let mut st = AppState::new();
    let mut task = start_benchmark(&mut st);
    task.step(&mut st, BenchEvent::Connected);
    task.step(&mut st, BenchEvent::PingSent { ok: false, now_ms: 0 });
    task.step(&mut st, BenchEvent::Sent { error: None, now_ms: 1 });
    let out = task.step(&mut st, BenchEvent::Received { message: Incoming::Ended, now_ms: 2 });
    // one request outstanding: drain before closing the size
    assert_eq!(out.action, BenchAction::Receive);
    assert!(matches!(st.bench_status, BenchStatus::SocketClosed));
    let out = task.step(
        &mut st,
        BenchEvent::Received { message: Incoming::Failed("gone".to_string()), now_ms: 3 },
    );
    assert_eq!(out.action, BenchAction::Pause);
    assert_eq!(st.bench_results.len(), 1);
}

#[test]
fn stand_in_run() {
    let mut st = AppState::new();
    start_stand_in(&mut st);
    assert!(st.bench_running);
    assert!(matches!(st.bench_status, BenchStatus::NotImplemented));
    let mut elapsed = 0;
    while stand_in_tick(&mut st, elapsed) {
        elapsed += 50;
    }
    assert_eq!(elapsed, 500);
    assert!(!st.bench_running);
    assert!(matches!(st.bench_status, BenchStatus::StandInFinished));

    let mut st = AppState::new();
    start_stand_in(&mut st);
    st.request_stop();
    assert!(matches!(st.bench_status, BenchStatus::StopRequested));
    assert!(!stand_in_tick(&mut st, 100));
    assert!(matches!(st.bench_status, BenchStatus::StoppedByUser));
}

/// The client's own test: elapsed seconds in double precision, the last
/// sample's seconds (zero before the first), at least a tenth apart.
fn float_due(last_ms: u64, elapsed_ms: u64) -> bool {
    let last = if last_ms == 0 { 0.0 } else { last_ms as f64 / 1000.0 };
    ((elapsed_ms as f64 / 1000.0).max(1e-6) - last) >= 0.1
}

#[test]
fn sample_spacing_matches_double_precision() {
    for e in 0..3000u64 {
        assert_eq!(sample_due(0, e), float_due(0, e), "first sample at {}", e);
    }
    for last in 100..200_000u64 {
        for d in [0u64, 50, 98, 99, 100, 101, 102, 150, 1000] {
            let e = last + d;
            assert_eq!(sample_due(last, e), float_due(last, e), "{} then {}", last, e);
        }
        assert_eq!(sample_due(last, last / 2), float_due(last, last / 2));
    }
    let mut x: u64 = 0x9e37_79b9_7f4a_7c15;
    for _ in 0..200_000 {
        x ^= x << 13;
        x ^= x >> 7;
        x ^= x << 17;
        let last = 100 + (x >> 20);
        let d = [99u64, 100, 101, x % 5000][(x % 4) as usize];
        assert_eq!(sample_due(last, last + d), float_due(last, last + d), "{} then {}", last, last + d);
    }
}

#[test]
fn sample_spacing_at_a_tenth() {
    // 0.3 - 0.2 falls short of 0.1 in double precision
    assert!(!sample_due(200, 300));
    assert!(sample_due(200, 301));
    assert!(sample_due(100, 200));
    assert!(sample_due(0, 100));
    assert!(!sample_due(0, 99));
}

/// Each result counts its requests at the length of the encoded request of its
/// size, and each series is spaced as the client spaces samples.
fn check_records(st: &AppState) {
    for (r, series) in st.bench_results.iter().zip(st.run_series.iter()) {
        let len = encode_request(&bench_request(r.size)).len() as u64;
        assert_eq!(r.total_bytes, r.total_packets * len);
        let mut last = 0u64;
        for p in series.samples.iter() {
            assert!(sample_due(last, p.elapsed_ms));
            assert!(p.elapsed_ms > last);
            assert!(p.elapsed_ms >= 100);
            last = p.elapsed_ms;
        }
    }
}
