//! The benchmark client: the state it shows, and the decisions of a
//! benchmark run.
//!
//! A run sends requests of ten payload sizes, from 64 bytes up to 32 KiB,
//! each for ten seconds.  In synchronous mode it waits for the answer to
//! each request before sending the next; otherwise it sends until the burst
//! limit of unanswered requests is reached and then drains the answers.
//! Every tenth of a second with answers it samples its counters and adapts
//! the burst limit.  After each size it records a result, pauses for a second
//! and starts the next size with seven tenths of the burst limit.
//!
//! `BenchTask::step` takes the state, the client state and what happened on
//! the socket, and gives the next state and what to do next; the program
//! performs that and reports back.  Time is in milliseconds as read from the
//! clock; a clock that runs backwards counts as no time passing.
use vstd::prelude::*;
use crate::burst::{
    adapt_burst_limit, adapted_limit, decay_burst_limit, decayed_limit, INITIAL_BURST_LIMIT,
    MAX_BURST_LIMIT,
};
use crate::wire::{lemma_leb128_len_bound, lemma_utf8_len_bound};
use vstd::utf8::encode_utf8;
use crate::messages::{
    bench_request, decode_response, encode_request, filler, ping_request, request_bytes,
    response_decode, RequestView,
};

verus! {

/// The smallest payload size is `2^MIN_EXP` bytes.
pub const MIN_EXP: u32 = 6;

/// The largest payload size is `2^MAX_EXP` bytes.
pub const MAX_EXP: u32 = 15;

/// The number of payload sizes.
pub const SIZE_COUNT: usize = 10;

/// How long each size is measured, in milliseconds.
pub const DURATION_MS: u64 = 10_000;

/// The least time between two samples of a run, in milliseconds.
pub const SAMPLE_SPACING_MS: u64 = 100;

/// One tenth of a second as a double (`0.1` rounds to
/// `3602879701896397 * 2^-55`), times `2^56`.
pub const TENTH_SCALED: u128 = 7_205_759_403_792_794;

/// The largest `p * 2^i` (for some `i`) that is at most `x`, from `p <= x`.
pub open spec fn binade(x: nat, p: nat) -> nat
    decreases x - p,
{
    if p >= 1 && 2 * p <= x {
        binade(x, 2 * p)
    } else {
        p
    }
}

/// `n / d` rounded to the nearest integer, ties to the even one.
pub open spec fn round_half_even(n: nat, d: nat) -> nat {
    let q = n / d;
    let r = n % d;
    if 2 * r > d || (2 * r == d && q % 2 == 1) {
        q + 1
    } else {
        q
    }
}

/// The double nearest to `e / 1000` (seconds from `e >= 100` milliseconds),
/// times `2^56`: `d = 1000 * 2^j` is chosen so that the quotient
/// `e * 2^56 / d` has 53 bits, and the quotient is rounded to nearest, ties
/// to even, as IEEE division rounds.
pub open spec fn seconds_scaled(e: nat) -> nat {
    let d = binade(16 * e, 1000);
    round_half_even(e * 0x100_0000_0000_0000, d) * (d / 1000)
}

/// Whether a sample is due at `e` milliseconds into a size when the last one
/// was taken at `last` (zero before the first): the client compares the
/// elapsed times as seconds in double precision, `e / 1000 - last / 1000 >=
/// 0.1`.  Both quotients are doubles of the same sign and within a factor of
/// two of each other (or the difference is far above a tenth), so the
/// difference is exact, and the comparison is one of exact multiples of
/// `2^-56`.  (The tests compare this with the double-precision expression.)
#[verifier::opaque]
pub open spec fn spacing_reached(last: nat, e: nat) -> bool {
    e >= SAMPLE_SPACING_MS && (last < SAMPLE_SPACING_MS || seconds_scaled(e) >= seconds_scaled(
        last,
    ) + TENTH_SCALED)
}

/// `binade(x, p)` is `p` times a power of two, at most `x` and more than half
/// of `x`.
proof fn lemma_binade(x: nat, p: nat) -> (k: nat)
    requires
        1 <= p <= x,
    ensures
        binade(x, p) == p * two_pow(k),
        p <= binade(x, p) <= x < 2 * binade(x, p),
    decreases x - p,
{
    if 2 * p <= x {
        let k1 = lemma_binade(x, 2 * p);
        assert(two_pow(k1 + 1) == 2 * two_pow(k1));
        assert(2 * p * two_pow(k1) == p * two_pow(k1 + 1)) by (nonlinear_arith)
            requires
                two_pow(k1 + 1) == 2 * two_pow(k1),
        ;
        k1 + 1
    } else {
        assert(two_pow(0) == 1);
        0
    }
}

proof fn lemma_two_pow_positive(k: nat)
    ensures
        two_pow(k) >= 1,
    decreases k,
{
    if k > 0 {
        lemma_two_pow_positive((k - 1) as nat);
    }
}

/// Rounding to nearest is monotone in the numerator.
proof fn lemma_round_monotone(n1: nat, n2: nat, d: nat)
    requires
        n1 <= n2,
        d >= 1,
    ensures
        round_half_even(n1, d) <= round_half_even(n2, d),
{
    let q1 = n1 / d;
    let q2 = n2 / d;
    assert(q1 <= q2) by (nonlinear_arith)
        requires
            n1 <= n2,
            d >= 1,
            q1 == n1 / d,
            q2 == n2 / d,
    ;
    if q1 == q2 {
        assert(n1 % d <= n2 % d) by (nonlinear_arith)
            requires
                n1 <= n2,
                d >= 1,
                n1 / d == n2 / d,
        ;
    }
}

/// A quotient between `2^52` and `2^53` rounds to between `2^52` and `2^53`.
proof fn lemma_round_bounds(n: nat, d: nat)
    requires
        d >= 1,
        d * 0x10_0000_0000_0000 <= n < d * 0x20_0000_0000_0000,
    ensures
        0x10_0000_0000_0000 <= round_half_even(n, d) <= 0x20_0000_0000_0000,
{
    let q = n / d;
    assert(0x10_0000_0000_0000 <= q < 0x20_0000_0000_0000) by (nonlinear_arith)
        requires
            d >= 1,
            d * 0x10_0000_0000_0000 <= n < d * 0x20_0000_0000_0000,
            q == n / d,
    ;
}

/// Seconds in double precision never go back as milliseconds go forward.
proof fn lemma_seconds_monotone(e1: nat, e2: nat)
    requires
        100 <= e1 <= e2,
    ensures
        seconds_scaled(e1) <= seconds_scaled(e2),
{
    let k1 = lemma_binade(16 * e1, 1000);
    let k2 = lemma_binade(16 * e2, 1000);
    let d1 = binade(16 * e1, 1000);
    let d2 = binade(16 * e2, 1000);
    let n1 = e1 * 0x100_0000_0000_0000;
    let n2 = e2 * 0x100_0000_0000_0000;
    lemma_two_pow_positive(k1);
    lemma_two_pow_positive(k2);
    assert(d1 / 1000 == two_pow(k1));
    assert(d2 / 1000 == two_pow(k2));
    lemma_round_bounds(n1, d1);
    lemma_round_bounds(n2, d2);
    let r1 = round_half_even(n1, d1);
    let r2 = round_half_even(n2, d2);
    if k1 == k2 {
        lemma_round_monotone(n1, n2, d1);
        assert(r1 * two_pow(k1) <= r2 * two_pow(k1)) by (nonlinear_arith)
            requires
                r1 <= r2,
        ;
    } else {
        if k2 < k1 {
            lemma_two_pow_monotone(k2 + 1, k1);
            assert(two_pow(k2 + 1) == 2 * two_pow(k2));
            assert(false);
        }
        lemma_two_pow_monotone(k1 + 1, k2);
        assert(two_pow(k1 + 1) == 2 * two_pow(k1));
        assert(r1 * two_pow(k1) <= r2 * two_pow(k2)) by (nonlinear_arith)
            requires
                r1 <= 0x20_0000_0000_0000,
                0x10_0000_0000_0000 <= r2,
                2 * two_pow(k1) <= two_pow(k2),
        ;
    }
}

/// A sample is due only after the last one (and at least
/// `SAMPLE_SPACING_MS` into the size).
pub proof fn lemma_spacing_increases(last: nat, e: nat)
    requires
        spacing_reached(last, e),
    ensures
        e > last,
        e >= SAMPLE_SPACING_MS,
{
    reveal(spacing_reached);
    if last >= SAMPLE_SPACING_MS && e <= last {
        lemma_seconds_monotone(e, last);
    }
}

proof fn lemma_chain(s: Seq<RunSample>, i: int, j: int)
    requires
        0 <= i < j < s.len(),
        forall|k: int| 0 < k < s.len() ==> s[k - 1].elapsed_ms < #[trigger] s[k].elapsed_ms,
    ensures
        s[i].elapsed_ms < s[j].elapsed_ms,
    decreases j - i,
{
    assert(s[j - 1].elapsed_ms < s[j].elapsed_ms);
    if i < j - 1 {
        lemma_chain(s, i, j - 1);
    }
}

/// Spaced samples come in strictly increasing time, the first at least
/// `SAMPLE_SPACING_MS` into the size.
pub proof fn lemma_samples_increase(s: Seq<RunSample>)
    requires
        spaced(s),
    ensures
        forall|i: int, j: int| 0 <= i < j < s.len() ==> s[i].elapsed_ms < s[j].elapsed_ms,
        s.len() > 0 ==> s[0].elapsed_ms >= SAMPLE_SPACING_MS,
{
    assert forall|k: int| 0 < k < s.len() implies s[k - 1].elapsed_ms
        < #[trigger] s[k].elapsed_ms by {
        assert(spacing_reached(s[k - 1].elapsed_ms as nat, s[k].elapsed_ms as nat));
        lemma_spacing_increases(s[k - 1].elapsed_ms as nat, s[k].elapsed_ms as nat);
    }
    if s.len() > 0 {
        assert(spacing_reached(0, s[0].elapsed_ms as nat));
        lemma_spacing_increases(0, s[0].elapsed_ms as nat);
    }
    assert forall|i: int, j: int| 0 <= i < j < s.len() implies s[i].elapsed_ms
        < s[j].elapsed_ms by {
        lemma_chain(s, i, j);
    }
}

/// `seconds_scaled`, computed.
fn seconds_scaled_of(e: u64) -> (s: u128)
    requires
        e >= 100,
    ensures
        s == seconds_scaled(e as nat),
{
    let x: u128 = 16 * (e as u128);
    let mut p: u128 = 1000;
    while p <= x / 2
        invariant
            1000 <= p <= x,
            x == 16 * (e as nat),
            binade(x as nat, 1000) == binade(x as nat, p as nat),
        decreases x - p,
    {
        p = p * 2;
    }
    assert(binade(x as nat, p as nat) == p);
    let n: u128 = (e as u128) * 0x100_0000_0000_0000;
    let q = n / p;
    let r = n % p;
    let rq: u128 = if 2 * r > p || (2 * r == p && q % 2 == 1) {
        q + 1
    } else {
        q
    };
    let b = p / 1000;
    assert(q * p <= n) by (nonlinear_arith)
        requires
            q == n / p,
            p >= 1000,
    ;
    assert(q * b <= n) by (nonlinear_arith)
        requires
            q * p <= n,
            b == p / 1000,
            p >= 1000,
    ;
    assert(rq * b <= n + b) by (nonlinear_arith)
        requires
            q * b <= n,
            rq <= q + 1,
    ;
    rq * b
}

/// Whether a sample is due `elapsed_ms` into a size, the last one having been
/// taken at `last_ms` (zero before the first).
pub fn sample_due(last_ms: u64, elapsed_ms: u64) -> (due: bool)
    ensures
        due == spacing_reached(last_ms as nat, elapsed_ms as nat),
{
    reveal(spacing_reached);
    if elapsed_ms < SAMPLE_SPACING_MS {
        false
    } else if last_ms < SAMPLE_SPACING_MS {
        true
    } else {
        let later = seconds_scaled_of(elapsed_ms);
        let earlier = seconds_scaled_of(last_ms);
        earlier <= u128::MAX - TENTH_SCALED && later >= earlier + TENTH_SCALED
    }
}

/// The pause between two sizes, in milliseconds.
pub const PAUSE_MS: u64 = 1000;

/// `2^n`.
pub open spec fn two_pow(n: nat) -> nat
    decreases n,
{
    if n == 0 {
        1
    } else {
        2 * two_pow((n - 1) as nat)
    }
}

/// The payload size of step `step`: `2^(MIN_EXP + step)` bytes.
pub open spec fn bench_size(step: nat) -> nat {
    two_pow((MIN_EXP + step) as nat)
}

proof fn lemma_two_pow_monotone(a: nat, b: nat)
    requires
        a <= b,
    ensures
        two_pow(a) <= two_pow(b),
    decreases b,
{
    if a < b {
        lemma_two_pow_monotone(a, (b - 1) as nat);
    }
}

/// The payload size of a step.
fn size_of_step(step: usize) -> (size: usize)
    requires
        step < SIZE_COUNT,
    ensures
        size == bench_size(step as nat),
{
    proof {
        reveal_with_fuel(two_pow, 7);
        lemma_two_pow_monotone((MIN_EXP + step) as nat, 15);
        reveal_with_fuel(two_pow, 16);
    }
    let mut size: usize = 64;
    let mut i: usize = 0;
    while i < step
        invariant
            i <= step < SIZE_COUNT,
            size == two_pow((MIN_EXP + i) as nat),
            two_pow((MIN_EXP + step) as nat) <= 32768,
        decreases step - i,
    {
        proof {
            lemma_two_pow_monotone((MIN_EXP + i + 1) as nat, (MIN_EXP + step) as nat);
        }
        size = size * 2;
        i = i + 1;
    }
    size
}

/// The payload sizes of a benchmark, smallest first.
pub fn benchmark_sizes() -> (sizes: Vec<usize>)
    ensures
        sizes@.len() == SIZE_COUNT,
        forall|i: int| 0 <= i < SIZE_COUNT ==> sizes@[i] == bench_size(i as nat),
{
    let mut sizes: Vec<usize> = Vec::new();
    let mut i: usize = 0;
    while i < SIZE_COUNT
        invariant
            i <= SIZE_COUNT,
            sizes@.len() == i,
            forall|j: int| 0 <= j < i ==> sizes@[j] == bench_size(j as nat),
        decreases SIZE_COUNT - i,
    {
        let s = size_of_step(i);
        sizes.push(s);
        i = i + 1;
    }
    sizes
}

/// How far a benchmark has come: the sizes done, and the milliseconds spent
/// on the current one (at most `DURATION_MS`).  The fraction shown is
/// `(steps_done + elapsed_ms / DURATION_MS) / SIZE_COUNT`.
#[derive(Clone, Copy, PartialEq, Eq, Structural, Debug)]
pub struct Progress {
    pub steps_done: usize,
    pub elapsed_ms: u64,
}

/// What a run has done so far: bytes and requests sent, answers received, in
/// how many milliseconds.  The rates shown are these counts per second.
#[derive(Clone, Copy, PartialEq, Eq, Structural, Debug)]
pub struct Throughput {
    pub bytes: u64,
    pub packets: u64,
    pub replies: u64,
    pub elapsed_ms: u64,
}

/// The outcome of one payload size.
#[derive(Clone, Copy, PartialEq, Eq, Structural, Debug)]
pub struct BenchResult {
    pub size: usize,
    pub total_bytes: u64,
    pub total_packets: u64,
    pub replies: u64,
    pub elapsed_ms: u64,
}

/// A sample of a run: milliseconds since the size started, bytes and
/// requests sent until then.
#[derive(Clone, Copy, PartialEq, Eq, Structural, Debug)]
pub struct RunSample {
    pub elapsed_ms: u64,
    pub bytes: u64,
    pub packets: u64,
}

/// The samples of one payload size.
pub struct RunSeries {
    pub size: usize,
    pub samples: Vec<RunSample>,
}

/// The contents of a `RunSeries`.
pub struct RunSeriesView {
    pub size: usize,
    pub samples: Seq<RunSample>,
}

impl View for RunSeries {
    type V = RunSeriesView;

    open spec fn view(&self) -> RunSeriesView {
        RunSeriesView { size: self.size, samples: self.samples@ }
    }
}

/// The status line of the client.
pub enum BenchStatus {
    /// Nothing has happened yet.
    Idle,
    OpeningSocket,
    /// The page's host could not be read.
    HostUnavailable,
    /// Neither WebSocket URL could be opened; the errors of both attempts.
    OpenFailed { ws_error: String, wss_error: String },
    Starting,
    Benchmarking { size: usize },
    SendFailed { error: String },
    ReadFailed { error: String },
    SocketClosed,
    Completed { result: BenchResult },
    Finished,
    StoppedByUser,
    StopRequested,
    /// The native build has no WebSocket client.
    NotImplemented,
    /// The native build's stand-in run ended.
    StandInFinished,
}

/// The contents of a `BenchStatus`.
pub enum StatusView {
    Idle,
    OpeningSocket,
    HostUnavailable,
    OpenFailed { ws_error: Seq<char>, wss_error: Seq<char> },
    Starting,
    Benchmarking { size: usize },
    SendFailed { error: Seq<char> },
    ReadFailed { error: Seq<char> },
    SocketClosed,
    Completed { result: BenchResult },
    Finished,
    StoppedByUser,
    StopRequested,
    NotImplemented,
    StandInFinished,
}

impl View for BenchStatus {
    type V = StatusView;

    open spec fn view(&self) -> StatusView {
        match self {
            BenchStatus::Idle => StatusView::Idle,
            BenchStatus::OpeningSocket => StatusView::OpeningSocket,
            BenchStatus::HostUnavailable => StatusView::HostUnavailable,
            BenchStatus::OpenFailed { ws_error, wss_error } => StatusView::OpenFailed {
                ws_error: ws_error@,
                wss_error: wss_error@,
            },
            BenchStatus::Starting => StatusView::Starting,
            BenchStatus::Benchmarking { size } => StatusView::Benchmarking { size: *size },
            BenchStatus::SendFailed { error } => StatusView::SendFailed { error: error@ },
            BenchStatus::ReadFailed { error } => StatusView::ReadFailed { error: error@ },
            BenchStatus::SocketClosed => StatusView::SocketClosed,
            BenchStatus::Completed { result } => StatusView::Completed { result: *result },
            BenchStatus::Finished => StatusView::Finished,
            BenchStatus::StoppedByUser => StatusView::StoppedByUser,
            BenchStatus::StopRequested => StatusView::StopRequested,
            BenchStatus::NotImplemented => StatusView::NotImplemented,
            BenchStatus::StandInFinished => StatusView::StandInFinished,
        }
    }
}

/// Everything the client shows, shared between the page and the benchmark.
pub struct AppState {
    /// The text of the last answer of the server.
    pub response: String,
    pub bench_running: bool,
    pub progress: Progress,
    pub bench_status: BenchStatus,
    /// One result per payload size done, in order.
    pub bench_results: Vec<BenchResult>,
    /// The counters of the current size, as last sampled.
    pub live: Throughput,
    pub live_size: usize,
    pub live_burst_limit: u64,
    /// The round trip of the first request, in milliseconds.
    pub live_ping_ms: u64,
    /// Whether each request waits for its answer.
    pub wait_for_reply: bool,
    pub stop_requested: bool,
    /// The samples of each payload size done, in order.
    pub run_series: Vec<RunSeries>,
    pub show_detail_charts: bool,
}

/// The contents of an `AppState`.
pub struct AppView {
    pub response: Seq<char>,
    pub bench_running: bool,
    pub progress: Progress,
    pub bench_status: StatusView,
    pub bench_results: Seq<BenchResult>,
    pub live: Throughput,
    pub live_size: usize,
    pub live_burst_limit: u64,
    pub live_ping_ms: u64,
    pub wait_for_reply: bool,
    pub stop_requested: bool,
    pub run_series: Seq<RunSeriesView>,
    pub show_detail_charts: bool,
}

impl View for AppState {
    type V = AppView;

    open spec fn view(&self) -> AppView {
        AppView {
            response: self.response@,
            bench_running: self.bench_running,
            progress: self.progress,
            bench_status: self.bench_status@,
            bench_results: self.bench_results@,
            live: self.live,
            live_size: self.live_size,
            live_burst_limit: self.live_burst_limit,
            live_ping_ms: self.live_ping_ms,
            wait_for_reply: self.wait_for_reply,
            stop_requested: self.stop_requested,
            run_series: self.run_series@.map_values(|r: RunSeries| r@),
            show_detail_charts: self.show_detail_charts,
        }
    }
}

/// Counters at zero, with no time spent.
pub open spec fn zero_throughput() -> Throughput {
    Throughput { bytes: 0, packets: 0, replies: 0, elapsed_ms: 0 }
}

/// The state of a client that has not run a benchmark: synchronous mode and
/// detail charts on, the burst limit at its initial value, all else empty.
pub open spec fn initial_app() -> AppView {
    AppView {
        response: Seq::empty(),
        bench_running: false,
        progress: Progress { steps_done: 0, elapsed_ms: 0 },
        bench_status: StatusView::Idle,
        bench_results: Seq::empty(),
        live: zero_throughput(),
        live_size: 0,
        live_burst_limit: INITIAL_BURST_LIMIT,
        live_ping_ms: 0,
        wait_for_reply: true,
        stop_requested: false,
        run_series: Seq::empty(),
        show_detail_charts: true,
    }
}

impl AppState {
    /// The state of a client that has not run a benchmark.
    pub fn new() -> (s: AppState)
        ensures
            s@ == initial_app(),
    {
        let s = AppState {
            response: String::new(),
            bench_running: false,
            progress: Progress { steps_done: 0, elapsed_ms: 0 },
            bench_status: BenchStatus::Idle,
            bench_results: Vec::new(),
            live: Throughput { bytes: 0, packets: 0, replies: 0, elapsed_ms: 0 },
            live_size: 0,
            live_burst_limit: INITIAL_BURST_LIMIT,
            live_ping_ms: 0,
            wait_for_reply: true,
            stop_requested: false,
            run_series: Vec::new(),
            show_detail_charts: true,
        };
        assert(s@.run_series =~= Seq::<RunSeriesView>::empty());
        s
    }

    /// The Stop button: asks the running benchmark to stop.
    pub fn request_stop(&mut self)
        ensures
            final(self)@ == (AppView {
                stop_requested: true,
                bench_status: StatusView::StopRequested,
                ..old(self)@
            }),
    {
        self.stop_requested = true;
        self.bench_status = BenchStatus::StopRequested;
    }
}

impl Default for AppState {
    fn default() -> (s: AppState)
        ensures
            s@ == initial_app(),
    {
        AppState::new()
    }
}

/// Where a benchmark run stands.
#[derive(Clone, Copy, PartialEq, Eq, Structural, Debug)]
pub enum Phase {
    /// Waiting for the WebSocket to open.
    Connecting,
    /// The first request (the ping) is being sent.
    PingSending,
    /// Waiting for the answer to the ping.
    PingAwaiting,
    /// A request of the current size is being sent.
    Sending,
    /// Waiting for the answer to the request just sent.
    AwaitingReply,
    /// Receiving answers until none is outstanding; `ending` when the time of
    /// the current size is up.
    Draining { ending: bool },
    /// The pause between two sizes.
    Pausing,
    /// The run is over.
    Done,
}

/// The counters and timers of a run.
#[derive(Clone, Copy, PartialEq, Eq, Structural, Debug)]
pub struct Controller {
    pub phase: Phase,
    pub wait_for_reply: bool,
    /// The index of the current payload size.
    pub step: usize,
    pub size: usize,
    pub burst_limit: u64,
    /// Requests outstanding at the last sample.
    pub last_outstanding: u64,
    /// Samples in a row with nothing outstanding.
    pub calm_samples: usize,
    pub ping_start_ms: u64,
    /// When the current size started.
    pub start_ms: u64,
    /// Milliseconds into the current size at the top of the current round.
    pub elapsed_ms: u64,
    /// Milliseconds between the last answer and the top of the current round.
    pub gap_ms: u64,
    pub bytes_sent: u64,
    pub packets_sent: u64,
    pub replies_received: u64,
    pub outstanding: u64,
    /// Milliseconds into the current size at the last sample.
    pub last_sample_ms: u64,
    /// Milliseconds into the current size at the last answer.
    pub last_received_ms: u64,
}

/// A benchmark run in progress.
pub struct BenchTask {
    ctl: Controller,
    /// The encoded request that the next send sends.
    message: Vec<u8>,
    /// The samples of the current size.
    samples: Vec<RunSample>,
}

/// The contents of a `BenchTask`.
pub struct TaskView {
    pub ctl: Controller,
    pub message: Seq<u8>,
    pub samples: Seq<RunSample>,
}

impl View for BenchTask {
    type V = TaskView;

    closed spec fn view(&self) -> TaskView {
        TaskView { ctl: self.ctl, message: self.message@, samples: self.samples@ }
    }
}

/// What the program does next for the run.
#[derive(Clone, Copy, PartialEq, Eq, Structural, Debug)]
pub enum BenchAction {
    /// Send the ping (`BenchTask::message`), then report `PingSent`.
    SendPing,
    /// Wait for the next message, then report `PingAnswered`.
    AwaitPing,
    /// Send `BenchTask::message`, then report `Sent`.
    Send,
    /// Wait for the next message, then report `Received`.
    Receive,
    /// Wait `PAUSE_MS`, then report `Resumed`.
    Pause,
    /// The run is over.
    Finish,
    /// The event did not fit the phase and changed nothing.
    Ignore,
}

/// The result of a step: what to do next, and whether an answer could not be
/// decoded (the program reports that).
#[derive(Clone, Copy, PartialEq, Eq, Structural, Debug)]
pub struct StepOutcome {
    pub action: BenchAction,
    pub undecodable_reply: bool,
}

/// A message received on the socket.
pub enum Incoming {
    /// A binary frame.
    Binary(Vec<u8>),
    /// A frame of another kind.
    Other,
    /// The socket reported an error.
    Failed(String),
    /// The stream ended.
    Ended,
}

/// What happened since the last step.
pub enum BenchEvent {
    /// The page's host could not be read.
    HostUnavailable,
    /// Neither WebSocket URL could be opened.
    OpenFailed { ws_error: String, wss_error: String },
    /// The WebSocket is open.
    Connected,
    /// The ping was sent (or not); `now_ms` read after sending.
    PingSent { ok: bool, now_ms: u64 },
    /// The next message after the ping: the bytes of a binary frame, or
    /// nothing for any other outcome; `now_ms` read after receiving.
    PingAnswered { reply: Option<Vec<u8>>, now_ms: u64 },
    /// The request was sent, or the error of sending it; `now_ms` read after.
    Sent { error: Option<String>, now_ms: u64 },
    /// A message was received; `now_ms` read after.
    Received { message: Incoming, now_ms: u64 },
    /// The pause is over; `now_ms` read after.
    Resumed { now_ms: u64 },
}

/// The contents of an `Incoming`.
pub enum IncomingView {
    Binary(Seq<u8>),
    Other,
    Failed(Seq<char>),
    Ended,
}

/// The contents of a `BenchEvent`.
pub enum EventView {
    HostUnavailable,
    OpenFailed { ws_error: Seq<char>, wss_error: Seq<char> },
    Connected,
    PingSent { ok: bool, now_ms: u64 },
    PingAnswered { reply: Option<Seq<u8>>, now_ms: u64 },
    Sent { error: Option<Seq<char>>, now_ms: u64 },
    Received { message: IncomingView, now_ms: u64 },
    Resumed { now_ms: u64 },
}

impl View for Incoming {
    type V = IncomingView;

    open spec fn view(&self) -> IncomingView {
        match self {
            Incoming::Binary(b) => IncomingView::Binary(b@),
            Incoming::Other => IncomingView::Other,
            Incoming::Failed(e) => IncomingView::Failed(e@),
            Incoming::Ended => IncomingView::Ended,
        }
    }
}

impl View for BenchEvent {
    type V = EventView;

    open spec fn view(&self) -> EventView {
        match self {
            BenchEvent::HostUnavailable => EventView::HostUnavailable,
            BenchEvent::OpenFailed { ws_error, wss_error } => EventView::OpenFailed {
                ws_error: ws_error@,
                wss_error: wss_error@,
            },
            BenchEvent::Connected => EventView::Connected,
            BenchEvent::PingSent { ok, now_ms } => EventView::PingSent { ok: *ok, now_ms: *now_ms },
            BenchEvent::PingAnswered { reply, now_ms } => EventView::PingAnswered {
                reply: match reply {
                    Some(b) => Some(b@),
                    None => None,
                },
                now_ms: *now_ms,
            },
            BenchEvent::Sent { error, now_ms } => EventView::Sent {
                error: match error {
                    Some(e) => Some(e@),
                    None => None,
                },
                now_ms: *now_ms,
            },
            BenchEvent::Received { message, now_ms } => EventView::Received {
                message: message@,
                now_ms: *now_ms,
            },
            BenchEvent::Resumed { now_ms } => EventView::Resumed { now_ms: *now_ms },
        }
    }
}


/// The request of the ping.
pub open spec fn ping_view() -> RequestView {
    RequestView { action: "ping"@, payload: "p"@ }
}

/// The request of a benchmark round with payload size `size`.
pub open spec fn bench_view(size: nat) -> RequestView {
    RequestView { action: "bench"@, payload: filler(size) }
}

/// The result of a transition: the run, the client state and the action.
pub type Transition = (TaskView, AppView, BenchAction);

/// The run with its counters replaced.
pub open spec fn with_ctl(t: TaskView, c: Controller) -> TaskView {
    TaskView { ctl: c, ..t }
}

/// The run in another phase.
pub open spec fn in_phase(t: TaskView, p: Phase) -> TaskView {
    with_ctl(t, Controller { phase: p, ..t.ctl })
}

/// The client state once the user's stop has been honoured.
pub open spec fn stopped(a: AppView) -> AppView {
    AppView { bench_status: StatusView::StoppedByUser, bench_running: false, ..a }
}

/// The run ends because the user asked it to stop.
pub open spec fn halt(t: TaskView, a: AppView) -> Transition {
    (in_phase(t, Phase::Done), stopped(a), BenchAction::Finish)
}

/// The run ends after the last size.
pub open spec fn finish_benchmark(t: TaskView, a: AppView) -> Transition {
    (
        in_phase(t, Phase::Done),
        AppView {
            bench_running: false,
            progress: Progress { steps_done: SIZE_COUNT, elapsed_ms: 0 },
            bench_status: StatusView::Finished,
            stop_requested: false,
            ..a
        },
        BenchAction::Finish,
    )
}

/// The current size is over: its result and samples are recorded, and the
/// run pauses before the next size.
pub open spec fn finish_size(t: TaskView, a: AppView, now: u64) -> Transition {
    let c = t.ctl;
    let e = now.saturating_sub(c.start_ms);
    let r = BenchResult {
        size: c.size,
        total_bytes: c.bytes_sent,
        total_packets: c.packets_sent,
        replies: c.replies_received,
        elapsed_ms: e,
    };
    (
        TaskView {
            ctl: Controller { step: (c.step + 1) as usize, phase: Phase::Pausing, ..c },
            message: t.message,
            samples: Seq::empty(),
        },
        AppView {
            bench_results: a.bench_results.push(r),
            run_series: a.run_series.push(RunSeriesView { size: c.size, samples: t.samples }),
            bench_status: StatusView::Completed { result: r },
            live: Throughput {
                bytes: c.bytes_sent,
                packets: c.packets_sent,
                replies: c.replies_received,
                elapsed_ms: e,
            },
            ..a
        },
        BenchAction::Pause,
    )
}

/// Draining after the time of the size is up: receive while answers are
/// outstanding and no stop is asked; then finish the size.
pub open spec fn drain_end(t: TaskView, a: AppView, now: u64) -> Transition {
    if t.ctl.outstanding == 0 {
        finish_size(t, a, now)
    } else if a.stop_requested {
        finish_size(t, stopped(a), now)
    } else {
        (in_phase(t, Phase::Draining { ending: true }), a, BenchAction::Receive)
    }
}

/// The time of the size is up (or sending or receiving failed): drain what
/// is outstanding, then finish the size.
pub open spec fn end_size(t: TaskView, a: AppView, now: u64) -> Transition {
    if t.ctl.outstanding > 0 {
        drain_end(t, a, now)
    } else {
        finish_size(t, a, now)
    }
}

/// The top of a round: stop if asked, end the size when its time is up,
/// otherwise send.
pub open spec fn round_top(t: TaskView, a: AppView, now: u64) -> Transition {
    if a.stop_requested {
        halt(t, a)
    } else {
        let e = now.saturating_sub(t.ctl.start_ms);
        let t1 = with_ctl(t, Controller { elapsed_ms: e, ..t.ctl });
        if e >= DURATION_MS {
            end_size(t1, a, now)
        } else {
            (in_phase(t1, Phase::Sending), a, BenchAction::Send)
        }
    }
}

/// The end of a round: when a sample is due (`spacing_reached`), once
/// answers have come, take a sample and adapt the burst limit; then go
/// to the top of the next round.
pub open spec fn end_round(t: TaskView, a: AppView, now: u64) -> Transition {
    let c = t.ctl;
    let e = now.saturating_sub(c.start_ms);
    if spacing_reached(c.last_sample_ms as nat, e as nat) && c.replies_received > 0 {
        let calm: usize = if c.outstanding == 0 {
            c.calm_samples.saturating_add(1)
        } else {
            0
        };
        let b = adapted_limit(
            c.burst_limit as nat,
            c.outstanding as nat,
            c.last_outstanding as nat,
            calm as nat,
            c.gap_ms as nat,
        ) as u64;
        let t1 = TaskView {
            ctl: Controller {
                calm_samples: calm,
                burst_limit: b,
                last_outstanding: c.outstanding,
                last_sample_ms: e,
                ..c
            },
            samples: t.samples.push(
                RunSample { elapsed_ms: e, bytes: c.bytes_sent, packets: c.packets_sent },
            ),
            ..t
        };
        let a1 = AppView {
            live_burst_limit: b,
            live: Throughput {
                bytes: c.bytes_sent,
                packets: c.packets_sent,
                replies: c.replies_received,
                elapsed_ms: e,
            },
            progress: Progress {
                steps_done: c.step,
                elapsed_ms: if c.elapsed_ms < DURATION_MS {
                    c.elapsed_ms
                } else {
                    DURATION_MS
                },
            },
            ..a
        };
        round_top(t1, a1, now)
    } else {
        round_top(t, a, now)
    }
}

/// The run once the last answer came at the top of the current round.
pub open spec fn answered_now(t: TaskView) -> TaskView {
    with_ctl(t, Controller { last_received_ms: t.ctl.elapsed_ms, ..t.ctl })
}

/// Draining in the middle of a size: receive while answers are outstanding
/// and no stop is asked; then end the round.
pub open spec fn drain_mid(t: TaskView, a: AppView, now: u64) -> Transition {
    if t.ctl.outstanding == 0 {
        end_round(answered_now(t), a, now)
    } else if a.stop_requested {
        end_round(answered_now(t), stopped(a), now)
    } else {
        (in_phase(t, Phase::Draining { ending: false }), a, BenchAction::Receive)
    }
}

/// Starts the size of the current step, or ends the run after the last size
/// or when the user asked to stop.
pub open spec fn start_size(t: TaskView, a: AppView, now: u64) -> Transition {
    let c = t.ctl;
    if c.step >= SIZE_COUNT {
        finish_benchmark(t, a)
    } else if a.stop_requested {
        halt(t, a)
    } else {
        let size = bench_size(c.step as nat) as usize;
        let t1 = TaskView {
            ctl: Controller {
                size: size,
                start_ms: now,
                bytes_sent: 0,
                packets_sent: 0,
                replies_received: 0,
                outstanding: 0,
                last_sample_ms: 0,
                last_received_ms: 0,
                ..c
            },
            message: request_bytes(bench_view(size as nat)),
            samples: Seq::empty(),
        };
        let a1 = AppView {
            live_size: size,
            bench_status: StatusView::Benchmarking { size: size },
            progress: Progress { steps_done: c.step, elapsed_ms: 0 },
            live: zero_throughput(),
            ..a
        };
        round_top(t1, a1, now)
    }
}

/// After the ping: show the burst limit and start the first size.
pub open spec fn after_ping(t: TaskView, a: AppView, now: u64) -> Transition {
    start_size(t, AppView { live_burst_limit: t.ctl.burst_limit, ..a }, now)
}

/// An answer of the server: its text becomes the last response if it decodes;
/// the flag tells whether it did not.
pub open spec fn absorb_reply(a: AppView, bytes: Seq<u8>) -> (AppView, bool) {
    match response_decode(bytes) {
        Some(r) => (AppView { response: r, ..a }, false),
        None => (a, true),
    }
}

/// A transition with the flag of an undecodable answer.
pub open spec fn flagged(r: Transition, bad: bool) -> (TaskView, AppView, StepOutcome) {
    (r.0, r.1, StepOutcome { action: r.2, undecodable_reply: bad })
}

/// An answer counted while draining.
pub open spec fn count_drained(t: TaskView) -> TaskView {
    with_ctl(
        t,
        Controller {
            replies_received: t.ctl.replies_received.saturating_add(1),
            outstanding: if t.ctl.outstanding > 0 {
                (t.ctl.outstanding - 1) as u64
            } else {
                0
            },
            ..t.ctl
        },
    )
}

/// Draining goes on after an answer.
pub open spec fn drain_next(ending: bool, t: TaskView, a: AppView, now: u64) -> Transition {
    if ending {
        drain_end(t, a, now)
    } else {
        drain_mid(t, a, now)
    }
}

/// Draining stops on a failed or ended stream.
pub open spec fn drain_exit(ending: bool, t: TaskView, a: AppView, now: u64) -> Transition {
    if ending {
        finish_size(t, a, now)
    } else {
        end_round(answered_now(t), a, now)
    }
}

/// An event that does not fit the phase changes nothing.
pub open spec fn ignored(t: TaskView, a: AppView) -> (TaskView, AppView, StepOutcome) {
    (t, a, StepOutcome { action: BenchAction::Ignore, undecodable_reply: false })
}

/// One step of a benchmark run: the next run, client state and outcome.
pub open spec fn step_model(t: TaskView, a: AppView, e: EventView) -> (
    TaskView,
    AppView,
    StepOutcome,
) {
    let c = t.ctl;
    match c.phase {
        Phase::Connecting => match e {
            EventView::HostUnavailable => flagged(
                (
                    in_phase(t, Phase::Done),
                    AppView {
                        bench_status: StatusView::HostUnavailable,
                        bench_running: false,
                        ..a
                    },
                    BenchAction::Finish,
                ),
                false,
            ),
            EventView::OpenFailed { ws_error, wss_error } => flagged(
                (
                    in_phase(t, Phase::Done),
                    AppView {
                        bench_status: StatusView::OpenFailed { ws_error, wss_error },
                        bench_running: false,
                        ..a
                    },
                    BenchAction::Finish,
                ),
                false,
            ),
            EventView::Connected => flagged(
                (
                    TaskView {
                        ctl: Controller {
                            phase: Phase::PingSending,
                            burst_limit: INITIAL_BURST_LIMIT,
                            ..c
                        },
                        message: request_bytes(ping_view()),
                        ..t
                    },
                    AppView { bench_status: StatusView::Starting, ..a },
                    BenchAction::SendPing,
                ),
                false,
            ),
            _ => ignored(t, a),
        },
        Phase::PingSending => match e {
            EventView::PingSent { ok, now_ms } => if ok {
                flagged(
                    (
                        with_ctl(
                            t,
                            Controller { ping_start_ms: now_ms, phase: Phase::PingAwaiting, ..c },
                        ),
                        a,
                        BenchAction::AwaitPing,
                    ),
                    false,
                )
            } else {
                flagged(after_ping(t, a, now_ms), false)
            },
            _ => ignored(t, a),
        },
        Phase::PingAwaiting => match e {
            EventView::PingAnswered { reply, now_ms } => match reply {
                Some(bytes) => {
                    let a1 = AppView { live_ping_ms: now_ms.saturating_sub(c.ping_start_ms), ..a };
                    let (a2, bad) = absorb_reply(a1, bytes);
                    flagged(after_ping(t, a2, now_ms), bad)
                },
                None => flagged(after_ping(t, a, now_ms), false),
            },
            _ => ignored(t, a),
        },
        Phase::Sending => match e {
            EventView::Sent { error, now_ms } => match error {
                Some(err) => flagged(
                    end_size(t, AppView { bench_status: StatusView::SendFailed { error: err }, ..a }, now_ms),
                    false,
                ),
                None => {
                    let c1 = Controller {
                        bytes_sent: c.bytes_sent.saturating_add(t.message.len() as u64),
                        packets_sent: c.packets_sent.saturating_add(1),
                        outstanding: c.outstanding.saturating_add(1),
                        gap_ms: c.elapsed_ms.saturating_sub(c.last_received_ms),
                        ..c
                    };
                    let t1 = with_ctl(t, c1);
                    if c.wait_for_reply {
                        flagged((in_phase(t1, Phase::AwaitingReply), a, BenchAction::Receive), false)
                    } else if c1.outstanding >= c1.burst_limit {
                        flagged(drain_mid(t1, a, now_ms), false)
                    } else {
                        flagged(end_round(t1, a, now_ms), false)
                    }
                },
            },
            _ => ignored(t, a),
        },
        Phase::AwaitingReply => match e {
            EventView::Received { message, now_ms } => match message {
                IncomingView::Binary(bytes) => {
                    let (a1, bad) = absorb_reply(a, bytes);
                    let t1 = with_ctl(
                        t,
                        Controller {
                            replies_received: c.replies_received.saturating_add(1),
                            outstanding: c.outstanding.saturating_sub(1),
                            last_received_ms: c.elapsed_ms,
                            ..c
                        },
                    );
                    flagged(end_round(t1, a1, now_ms), bad)
                },
                IncomingView::Other => flagged(end_round(answered_now(t), a, now_ms), false),
                IncomingView::Failed(err) => flagged(
                    end_size(t, AppView { bench_status: StatusView::ReadFailed { error: err }, ..a }, now_ms),
                    false,
                ),
                IncomingView::Ended => flagged(
                    end_size(t, AppView { bench_status: StatusView::SocketClosed, ..a }, now_ms),
                    false,
                ),
            },
            _ => ignored(t, a),
        },
        Phase::Draining { ending } => match e {
            EventView::Received { message, now_ms } => match message {
                IncomingView::Binary(bytes) => {
                    let (a1, bad) = absorb_reply(a, bytes);
                    flagged(drain_next(ending, count_drained(t), a1, now_ms), bad)
                },
                IncomingView::Other => flagged(drain_next(ending, t, a, now_ms), false),
                IncomingView::Failed(err) => flagged(
                    drain_exit(
                        ending,
                        t,
                        AppView { bench_status: StatusView::ReadFailed { error: err }, ..a },
                        now_ms,
                    ),
                    false,
                ),
                IncomingView::Ended => flagged(
                    drain_exit(ending, t, AppView { bench_status: StatusView::SocketClosed, ..a }, now_ms),
                    false,
                ),
            },
            _ => ignored(t, a),
        },
        Phase::Pausing => match e {
            EventView::Resumed { now_ms } => flagged(
                start_size(
                    with_ctl(
                        t,
                        Controller { burst_limit: decayed_limit(c.burst_limit as nat) as u64, ..c },
                    ),
                    a,
                    now_ms,
                ),
                false,
            ),
            _ => ignored(t, a),
        },
        Phase::Done => ignored(t, a),
    }
}


/// What holds of a run between steps: the step index stays within the sizes
/// (below their count while a size is measured), and the burst limit within
/// `MAX_BURST_LIMIT`.
pub open spec fn task_wf(t: TaskView) -> bool {
    &&& t.ctl.step <= SIZE_COUNT
    &&& (match t.ctl.phase {
        Phase::Sending | Phase::AwaitingReply | Phase::Draining { .. } => t.ctl.step < SIZE_COUNT,
        _ => true,
    })
    &&& t.ctl.burst_limit <= MAX_BURST_LIMIT
}

/// Decodes an answer of the server into the client state.
fn absorb(st: &mut AppState, bytes: &Vec<u8>) -> (bad: bool)
    ensures
        (final(st)@, bad) == absorb_reply(old(st)@, bytes@),
{
    match decode_response(bytes.as_slice()) {
        Ok(r) => {
            st.response = r.result;
            false
        },
        Err(_) => true,
    }
}

impl BenchTask {
    /// The run is in a consistent state.
    pub closed spec fn wf(&self) -> bool {
        run_ok(self@)
    }

    /// The encoded request that `BenchAction::Send` and `BenchAction::SendPing`
    /// send.
    pub fn message(&self) -> (m: &Vec<u8>)
        ensures
            m@ == self@.message,
    {
        &self.message
    }

    /// The counters and timers of the run.
    pub fn controller(&self) -> (c: Controller)
        ensures
            c == self@.ctl,
    {
        self.ctl
    }

    fn halt(&mut self, st: &mut AppState) -> (r: BenchAction)
        ensures
            (final(self)@, final(st)@, r) == halt(old(self)@, old(st)@),
    {
        st.bench_status = BenchStatus::StoppedByUser;
        st.bench_running = false;
        self.ctl.phase = Phase::Done;
        BenchAction::Finish
    }

    fn finish_benchmark(&mut self, st: &mut AppState) -> (r: BenchAction)
        ensures
            (final(self)@, final(st)@, r) == finish_benchmark(old(self)@, old(st)@),
    {
        st.bench_running = false;
        st.progress = Progress { steps_done: SIZE_COUNT, elapsed_ms: 0 };
        st.bench_status = BenchStatus::Finished;
        st.stop_requested = false;
        self.ctl.phase = Phase::Done;
        BenchAction::Finish
    }

    fn finish_size(&mut self, st: &mut AppState, now: u64) -> (r: BenchAction)
        requires
            old(self).ctl.step < SIZE_COUNT,
        ensures
            (final(self)@, final(st)@, r) == finish_size(old(self)@, old(st)@, now),
    {
        let c = self.ctl;
        let e = now.saturating_sub(c.start_ms);
        let r = BenchResult {
            size: c.size,
            total_bytes: c.bytes_sent,
            total_packets: c.packets_sent,
            replies: c.replies_received,
            elapsed_ms: e,
        };
        let mut samples: Vec<RunSample> = Vec::new();
        std::mem::swap(&mut samples, &mut self.samples);
        let ghost old_series = st.run_series@;
        let series = RunSeries { size: c.size, samples };
        st.run_series.push(series);
        assert(st.run_series@.map_values(|x: RunSeries| x@) =~= old_series.map_values(
            |x: RunSeries| x@,
        ).push(series@));
        st.bench_results.push(r);
        st.bench_status = BenchStatus::Completed { result: r };
        st.live = Throughput {
            bytes: c.bytes_sent,
            packets: c.packets_sent,
            replies: c.replies_received,
            elapsed_ms: e,
        };
        self.ctl.step = c.step + 1;
        self.ctl.phase = Phase::Pausing;
        BenchAction::Pause
    }

    fn drain_end(&mut self, st: &mut AppState, now: u64) -> (r: BenchAction)
        requires
            old(self).ctl.step < SIZE_COUNT,
        ensures
            (final(self)@, final(st)@, r) == drain_end(old(self)@, old(st)@, now),
    {
        if self.ctl.outstanding == 0 {
            self.finish_size(st, now)
        } else if st.stop_requested {
            st.bench_status = BenchStatus::StoppedByUser;
            st.bench_running = false;
            self.finish_size(st, now)
        } else {
            self.ctl.phase = Phase::Draining { ending: true };
            BenchAction::Receive
        }
    }

    fn end_size(&mut self, st: &mut AppState, now: u64) -> (r: BenchAction)
        requires
            old(self).ctl.step < SIZE_COUNT,
        ensures
            (final(self)@, final(st)@, r) == end_size(old(self)@, old(st)@, now),
    {
        if self.ctl.outstanding > 0 {
            self.drain_end(st, now)
        } else {
            self.finish_size(st, now)
        }
    }

    fn round_top(&mut self, st: &mut AppState, now: u64) -> (r: BenchAction)
        requires
            old(self).ctl.step < SIZE_COUNT,
        ensures
            (final(self)@, final(st)@, r) == round_top(old(self)@, old(st)@, now),
    {
        if st.stop_requested {
            self.halt(st)
        } else {
            let e = now.saturating_sub(self.ctl.start_ms);
            self.ctl.elapsed_ms = e;
            if e >= DURATION_MS {
                self.end_size(st, now)
            } else {
                self.ctl.phase = Phase::Sending;
                BenchAction::Send
            }
        }
    }

    fn end_round(&mut self, st: &mut AppState, now: u64) -> (r: BenchAction)
        requires
            old(self).ctl.step < SIZE_COUNT,
        ensures
            (final(self)@, final(st)@, r) == end_round(old(self)@, old(st)@, now),
    {
        let c = self.ctl;
        let e = now.saturating_sub(c.start_ms);
        if sample_due(c.last_sample_ms, e) && c.replies_received > 0 {
            let calm: usize = if c.outstanding == 0 {
                c.calm_samples.saturating_add(1)
            } else {
                0
            };
            let b = adapt_burst_limit(
                c.burst_limit,
                c.outstanding,
                c.last_outstanding,
                calm,
                c.gap_ms,
            );
            self.samples.push(RunSample { elapsed_ms: e, bytes: c.bytes_sent, packets: c.packets_sent });
            self.ctl.calm_samples = calm;
            self.ctl.burst_limit = b;
            self.ctl.last_outstanding = c.outstanding;
            self.ctl.last_sample_ms = e;
            st.live_burst_limit = b;
            st.live = Throughput {
                bytes: c.bytes_sent,
                packets: c.packets_sent,
                replies: c.replies_received,
                elapsed_ms: e,
            };
            st.progress = Progress {
                steps_done: c.step,
                elapsed_ms: if c.elapsed_ms < DURATION_MS {
                    c.elapsed_ms
                } else {
                    DURATION_MS
                },
            };
        }
        self.round_top(st, now)
    }

    fn drain_mid(&mut self, st: &mut AppState, now: u64) -> (r: BenchAction)
        requires
            old(self).ctl.step < SIZE_COUNT,
        ensures
            (final(self)@, final(st)@, r) == drain_mid(old(self)@, old(st)@, now),
    {
        if self.ctl.outstanding == 0 {
            self.ctl.last_received_ms = self.ctl.elapsed_ms;
            self.end_round(st, now)
        } else if st.stop_requested {
            st.bench_status = BenchStatus::StoppedByUser;
            st.bench_running = false;
            self.ctl.last_received_ms = self.ctl.elapsed_ms;
            self.end_round(st, now)
        } else {
            self.ctl.phase = Phase::Draining { ending: false };
            BenchAction::Receive
        }
    }

    fn start_size(&mut self, st: &mut AppState, now: u64) -> (r: BenchAction)
        requires
            old(self).ctl.step <= SIZE_COUNT,
        ensures
            (final(self)@, final(st)@, r) == start_size(old(self)@, old(st)@, now),
    {
        let c = self.ctl;
        if c.step >= SIZE_COUNT {
            self.finish_benchmark(st)
        } else if st.stop_requested {
            self.halt(st)
        } else {
            let size = size_of_step(c.step);
            self.ctl.size = size;
            self.ctl.start_ms = now;
            self.ctl.bytes_sent = 0;
            self.ctl.packets_sent = 0;
            self.ctl.replies_received = 0;
            self.ctl.outstanding = 0;
            self.ctl.last_sample_ms = 0;
            self.ctl.last_received_ms = 0;
            self.message = encode_request(&bench_request(size));
            self.samples = Vec::new();
            st.live_size = size;
            st.bench_status = BenchStatus::Benchmarking { size };
            st.progress = Progress { steps_done: c.step, elapsed_ms: 0 };
            st.live = Throughput { bytes: 0, packets: 0, replies: 0, elapsed_ms: 0 };
            self.round_top(st, now)
        }
    }

    fn after_ping(&mut self, st: &mut AppState, now: u64) -> (r: BenchAction)
        requires
            old(self).ctl.step <= SIZE_COUNT,
        ensures
            (final(self)@, final(st)@, r) == after_ping(old(self)@, old(st)@, now),
    {
        st.live_burst_limit = self.ctl.burst_limit;
        self.start_size(st, now)
    }
}


/// The run just created for a benchmark, before the socket opens.
pub open spec fn initial_task(wait_for_reply: bool) -> TaskView {
    TaskView {
        ctl: Controller {
            phase: Phase::Connecting,
            wait_for_reply: wait_for_reply,
            step: 0,
            size: 0,
            burst_limit: INITIAL_BURST_LIMIT,
            last_outstanding: 0,
            calm_samples: 0,
            ping_start_ms: 0,
            start_ms: 0,
            elapsed_ms: 0,
            gap_ms: 0,
            bytes_sent: 0,
            packets_sent: 0,
            replies_received: 0,
            outstanding: 0,
            last_sample_ms: 0,
            last_received_ms: 0,
        },
        message: Seq::empty(),
        samples: Seq::empty(),
    }
}

/// The client state when a benchmark starts: running, with no results, no
/// samples, no progress and no pending stop.
pub open spec fn started_app(a: AppView) -> AppView {
    AppView {
        bench_running: true,
        bench_results: Seq::empty(),
        progress: Progress { steps_done: 0, elapsed_ms: 0 },
        bench_status: StatusView::OpeningSocket,
        stop_requested: false,
        run_series: Seq::empty(),
        ..a
    }
}

/// Starts a benchmark (the Start button): resets the client state for a new
/// run and gives the run, in the mode the client is set to.  The program then
/// opens the socket and reports the outcome with `step`.
pub fn start_benchmark(st: &mut AppState) -> (task: BenchTask)
    ensures
        final(st)@ == started_app(old(st)@),
        task@ == initial_task(old(st).wait_for_reply),
        task.wf(),
        task@.ctl.wait_for_reply == old(st).wait_for_reply,
        task@.ctl.phase == Phase::Connecting,
{
    st.bench_running = true;
    st.bench_results = Vec::new();
    st.progress = Progress { steps_done: 0, elapsed_ms: 0 };
    st.bench_status = BenchStatus::OpeningSocket;
    st.stop_requested = false;
    st.run_series = Vec::new();
    assert(st.run_series@.map_values(|r: RunSeries| r@) =~= Seq::<RunSeriesView>::empty());
    BenchTask {
        ctl: Controller {
            phase: Phase::Connecting,
            wait_for_reply: st.wait_for_reply,
            step: 0,
            size: 0,
            burst_limit: INITIAL_BURST_LIMIT,
            last_outstanding: 0,
            calm_samples: 0,
            ping_start_ms: 0,
            start_ms: 0,
            elapsed_ms: 0,
            gap_ms: 0,
            bytes_sent: 0,
            packets_sent: 0,
            replies_received: 0,
            outstanding: 0,
            last_sample_ms: 0,
            last_received_ms: 0,
        },
        message: Vec::new(),
        samples: Vec::new(),
    }
}

impl BenchTask {
    /// One step of the run: what happened since the last step changes the run
    /// and the client state as `step_model` says, and gives what to do next.
    pub fn step(&mut self, st: &mut AppState, event: BenchEvent) -> (out: StepOutcome)
        requires
            old(self).wf(),
        ensures
            final(self).wf(),
            (final(self)@, final(st)@, out) == step_model(old(self)@, old(st)@, event@),
    {
        proof {
            lemma_step_run_ok(old(self)@, old(st)@, event@);
        }
        let ignore = StepOutcome { action: BenchAction::Ignore, undecodable_reply: false };
        match self.ctl.phase {
            Phase::Connecting => match event {
                BenchEvent::HostUnavailable => {
                    st.bench_status = BenchStatus::HostUnavailable;
                    st.bench_running = false;
                    self.ctl.phase = Phase::Done;
                    StepOutcome { action: BenchAction::Finish, undecodable_reply: false }
                },
                BenchEvent::OpenFailed { ws_error, wss_error } => {
                    st.bench_status = BenchStatus::OpenFailed { ws_error, wss_error };
                    st.bench_running = false;
                    self.ctl.phase = Phase::Done;
                    StepOutcome { action: BenchAction::Finish, undecodable_reply: false }
                },
                BenchEvent::Connected => {
                    st.bench_status = BenchStatus::Starting;
                    self.ctl.burst_limit = INITIAL_BURST_LIMIT;
                    self.message = encode_request(&ping_request());
                    self.ctl.phase = Phase::PingSending;
                    StepOutcome { action: BenchAction::SendPing, undecodable_reply: false }
                },
                _ => ignore,
            },
            Phase::PingSending => match event {
                BenchEvent::PingSent { ok, now_ms } => {
                    if ok {
                        self.ctl.ping_start_ms = now_ms;
                        self.ctl.phase = Phase::PingAwaiting;
                        StepOutcome { action: BenchAction::AwaitPing, undecodable_reply: false }
                    } else {
                        let action = self.after_ping(st, now_ms);
                        StepOutcome { action, undecodable_reply: false }
                    }
                },
                _ => ignore,
            },
            Phase::PingAwaiting => match event {
                BenchEvent::PingAnswered { reply, now_ms } => match reply {
                    Some(bytes) => {
                        st.live_ping_ms = now_ms.saturating_sub(self.ctl.ping_start_ms);
                        let bad = absorb(st, &bytes);
                        let action = self.after_ping(st, now_ms);
                        StepOutcome { action, undecodable_reply: bad }
                    },
                    None => {
                        let action = self.after_ping(st, now_ms);
                        StepOutcome { action, undecodable_reply: false }
                    },
                },
                _ => ignore,
            },
            Phase::Sending => match event {
                BenchEvent::Sent { error, now_ms } => match error {
                    Some(err) => {
                        st.bench_status = BenchStatus::SendFailed { error: err };
                        let action = self.end_size(st, now_ms);
                        StepOutcome { action, undecodable_reply: false }
                    },
                    None => {
                        let c = self.ctl;
                        let len = self.message.len() as u64;
                        self.ctl.bytes_sent = c.bytes_sent.saturating_add(len);
                        self.ctl.packets_sent = c.packets_sent.saturating_add(1);
                        self.ctl.outstanding = c.outstanding.saturating_add(1);
                        self.ctl.gap_ms = c.elapsed_ms.saturating_sub(c.last_received_ms);
                        if c.wait_for_reply {
                            self.ctl.phase = Phase::AwaitingReply;
                            StepOutcome { action: BenchAction::Receive, undecodable_reply: false }
                        } else if self.ctl.outstanding >= self.ctl.burst_limit {
                            let action = self.drain_mid(st, now_ms);
                            StepOutcome { action, undecodable_reply: false }
                        } else {
                            let action = self.end_round(st, now_ms);
                            StepOutcome { action, undecodable_reply: false }
                        }
                    },
                },
                _ => ignore,
            },
            Phase::AwaitingReply => match event {
                BenchEvent::Received { message, now_ms } => match message {
                    Incoming::Binary(bytes) => {
                        let bad = absorb(st, &bytes);
                        let c = self.ctl;
                        self.ctl.replies_received = c.replies_received.saturating_add(1);
                        self.ctl.outstanding = c.outstanding.saturating_sub(1);
                        self.ctl.last_received_ms = c.elapsed_ms;
                        let action = self.end_round(st, now_ms);
                        StepOutcome { action, undecodable_reply: bad }
                    },
                    Incoming::Other => {
                        self.ctl.last_received_ms = self.ctl.elapsed_ms;
                        let action = self.end_round(st, now_ms);
                        StepOutcome { action, undecodable_reply: false }
                    },
                    Incoming::Failed(err) => {
                        st.bench_status = BenchStatus::ReadFailed { error: err };
                        let action = self.end_size(st, now_ms);
                        StepOutcome { action, undecodable_reply: false }
                    },
                    Incoming::Ended => {
                        st.bench_status = BenchStatus::SocketClosed;
                        let action = self.end_size(st, now_ms);
                        StepOutcome { action, undecodable_reply: false }
                    },
                },
                _ => ignore,
            },
            Phase::Draining { ending } => match event {
                BenchEvent::Received { message, now_ms } => match message {
                    Incoming::Binary(bytes) => {
                        let bad = absorb(st, &bytes);
                        let c = self.ctl;
                        self.ctl.replies_received = c.replies_received.saturating_add(1);
                        self.ctl.outstanding = if c.outstanding > 0 {
                            c.outstanding - 1
                        } else {
                            0
                        };
                        let action = if ending {
                            self.drain_end(st, now_ms)
                        } else {
                            self.drain_mid(st, now_ms)
                        };
                        StepOutcome { action, undecodable_reply: bad }
                    },
                    Incoming::Other => {
                        let action = if ending {
                            self.drain_end(st, now_ms)
                        } else {
                            self.drain_mid(st, now_ms)
                        };
                        StepOutcome { action, undecodable_reply: false }
                    },
                    Incoming::Failed(err) => {
                        st.bench_status = BenchStatus::ReadFailed { error: err };
                        let action = if ending {
                            self.finish_size(st, now_ms)
                        } else {
                            self.ctl.last_received_ms = self.ctl.elapsed_ms;
                            self.end_round(st, now_ms)
                        };
                        StepOutcome { action, undecodable_reply: false }
                    },
                    Incoming::Ended => {
                        st.bench_status = BenchStatus::SocketClosed;
                        let action = if ending {
                            self.finish_size(st, now_ms)
                        } else {
                            self.ctl.last_received_ms = self.ctl.elapsed_ms;
                            self.end_round(st, now_ms)
                        };
                        StepOutcome { action, undecodable_reply: false }
                    },
                },
                _ => ignore,
            },
            Phase::Pausing => match event {
                BenchEvent::Resumed { now_ms } => {
                    self.ctl.burst_limit = decay_burst_limit(self.ctl.burst_limit);
                    let action = self.start_size(st, now_ms);
                    StepOutcome { action, undecodable_reply: false }
                },
                _ => ignore,
            },
            Phase::Done => ignore,
        }
    }
}


/// The records of the client match the run: one result and one series per
/// size done, each of the size of its step.
pub open spec fn books_match(t: TaskView, a: AppView) -> bool {
    &&& records_match(t.ctl.step as nat, a.bench_results, a.run_series)
    &&& progress_ok(a.progress)
}

/// The progress shown is at most the whole: at most all sizes done, at most
/// the whole time of a size spent, and nothing spent past the last size.
pub open spec fn progress_ok(p: Progress) -> bool {
    &&& p.steps_done <= SIZE_COUNT
    &&& p.elapsed_ms <= DURATION_MS
    &&& p.steps_done == SIZE_COUNT ==> p.elapsed_ms == 0
}

/// `a * b`, or `u64::MAX` where that is larger: a count of `a` items of `b`
/// bytes that saturates.
pub open spec fn saturating_product(a: nat, b: nat) -> nat {
    if a * b > u64::MAX {
        u64::MAX as nat
    } else {
        a * b
    }
}

/// The length of the encoded benchmark request of payload size `size`.
pub open spec fn bench_message_len(size: nat) -> nat {
    request_bytes(bench_view(size)).len()
}

/// Every request sent counts the bytes of the encoded request of its size, and,
/// barring a count that saturated, every request sent is either answered or
/// outstanding.
pub open spec fn counted(c: Controller, len: nat) -> bool {
    &&& c.bytes_sent == saturating_product(c.packets_sent as nat, len)
    &&& c.packets_sent < u64::MAX ==> c.packets_sent == c.replies_received + c.outstanding
}

/// The samples of a run are spaced as the client spaces them: the first at
/// least `SAMPLE_SPACING_MS` into the size, each later one due after the one
/// before (`spacing_reached`).
pub open spec fn spaced(s: Seq<RunSample>) -> bool {
    forall|i: int|
        0 <= i < s.len() ==> spacing_reached(
            if i == 0 {
                0
            } else {
                s[i - 1].elapsed_ms as nat
            },
            #[trigger] s[i].elapsed_ms as nat,
        )
}

/// The result of a size: its bytes are its requests times the length of the
/// encoded request of that size, and (barring a count that saturated) it has
/// no more answers than requests.
pub open spec fn result_ok(r: BenchResult) -> bool {
    &&& r.total_bytes == saturating_product(
        r.total_packets as nat,
        bench_message_len(r.size as nat),
    )
    &&& r.total_packets < u64::MAX ==> r.replies <= r.total_packets
}

/// `step` results and series, each of the size of its step, each result
/// counted as requests of that size, each series spaced.
pub open spec fn records_match(
    step: nat,
    results: Seq<BenchResult>,
    series: Seq<RunSeriesView>,
) -> bool {
    &&& results.len() == step
    &&& series.len() == step
    &&& forall|i: int|
        0 <= i < step ==> #[trigger] results[i].size == bench_size(i as nat) && series[i].size
            == bench_size(i as nat) && result_ok(results[i]) && spaced(series[i].samples)
}

/// A size is being measured: the step is below the count, the size is that
/// of the step, the burst limit within its bound, the request sent is the
/// benchmark request of that size, the counters count it, and the samples
/// are spaced, the last one taken at `last_sample_ms` (zero before the first).
pub open spec fn measuring(t: TaskView) -> bool {
    &&& t.ctl.step < SIZE_COUNT
    &&& t.ctl.size == bench_size(t.ctl.step as nat)
    &&& t.ctl.burst_limit <= MAX_BURST_LIMIT
    &&& t.message == request_bytes(bench_view(t.ctl.size as nat))
    &&& counted(t.ctl, t.message.len())
    &&& spaced(t.samples)
    &&& t.samples.len() == 0 ==> t.ctl.last_sample_ms == 0
    &&& t.samples.len() > 0 ==> t.ctl.last_sample_ms == t.samples.last().elapsed_ms
}

/// What holds of a run between steps: it is well formed; while a size is
/// measured, `measuring` holds; and while an answer is awaited, a request is
/// outstanding.
pub open spec fn run_ok(t: TaskView) -> bool {
    &&& task_wf(t)
    &&& (match t.ctl.phase {
        Phase::Sending | Phase::AwaitingReply | Phase::Draining { .. } => measuring(t),
        _ => true,
    })
    &&& (match t.ctl.phase {
        Phase::AwaitingReply | Phase::Draining { .. } => t.ctl.outstanding >= 1,
        _ => true,
    })
}

/// What holds of a run and its client state between steps.
pub open spec fn consistent(t: TaskView, a: AppView) -> bool {
    &&& run_ok(t)
    &&& books_match(t, a)
}

proof fn lemma_size_bound(step: nat)
    requires
        step < SIZE_COUNT,
    ensures
        bench_size(step) <= 32768,
{
    lemma_two_pow_monotone((MIN_EXP + step) as nat, 15);
    reveal_with_fuel(two_pow, 16);
}

proof fn lemma_finish_size(t: TaskView, a: AppView, now: u64)
    requires
        measuring(t),
    ensures
        run_ok(finish_size(t, a, now).0),
        books_match(t, a) ==> books_match(finish_size(t, a, now).0, finish_size(t, a, now).1),
        t.ctl.outstanding == 0 ==> recorded_answered(a, finish_size(t, a, now).1),
{
    let r = finish_size(t, a, now);
    let results = r.1.bench_results;
    let series = r.1.run_series;
    if books_match(t, a) {
        assert forall|i: int| 0 <= i < r.0.ctl.step implies #[trigger] results[i].size
            == bench_size(i as nat) && series[i].size == bench_size(i as nat) && result_ok(
            results[i],
        ) && spaced(series[i].samples) by {
            if i < t.ctl.step {
                assert(results[i] == a.bench_results[i]);
                assert(series[i] == a.run_series[i]);
                assert(a.bench_results[i].size == bench_size(i as nat));
            } else {
                assert(results[i] == results.last());
                assert(series[i].samples == t.samples);
            }
        }
        assert(records_match(r.0.ctl.step as nat, results, series));
    }
}

/// A size recorded between two client states was recorded with every
/// request answered (barring a count that saturated).
pub open spec fn recorded_answered(before: AppView, after: AppView) -> bool {
    after.bench_results.len() > before.bench_results.len() ==> {
        let r = after.bench_results.last();
        r.total_packets < u64::MAX ==> r.replies == r.total_packets
    }
}

/// A failed or ended stream.
pub open spec fn stream_lost(e: EventView) -> bool {
    e matches EventView::Received { message: IncomingView::Failed(_), .. } || e matches EventView::Received { message: IncomingView::Ended, .. }
}

/// Counting a request sent keeps the bytes counted as requests times their
/// length.
proof fn lemma_count_send(p: u64, b: u64, len: nat)
    requires
        1 <= len <= u64::MAX,
        b == saturating_product(p as nat, len),
    ensures
        b.saturating_add(len as u64) == saturating_product(p.saturating_add(1) as nat, len),
{
    assert((p + 1) * len == p * len + len) by (nonlinear_arith);
    assert(p * len >= p) by (nonlinear_arith)
        requires
            len >= 1,
    ;
}

/// The encoded benchmark request of a size takes at least one byte and far
/// less than 2^64.
proof fn lemma_bench_message_len(size: nat)
    requires
        size <= 32768,
    ensures
        1 <= bench_message_len(size) <= 1_000_000,
{
    reveal_strlit("bench");
    let r = bench_view(size);
    lemma_utf8_len_bound(r.action);
    lemma_utf8_len_bound(r.payload);
    lemma_leb128_len_bound(encode_utf8(r.action).len());
    lemma_leb128_len_bound(encode_utf8(r.payload).len());
    lemma_leb128_len_bound(1 * 8 + 2);
    lemma_leb128_len_bound(2 * 8 + 2);
    assert(r.action.len() == 5);
}

proof fn lemma_drain_end(t: TaskView, a: AppView, now: u64)
    requires
        measuring(t),
    ensures
        run_ok(drain_end(t, a, now).0),
        books_match(t, a) ==> books_match(drain_end(t, a, now).0, drain_end(t, a, now).1),
        !a.stop_requested ==> recorded_answered(a, drain_end(t, a, now).1),
{
    lemma_finish_size(t, a, now);
    lemma_finish_size(t, stopped(a), now);
}

proof fn lemma_round_top(t: TaskView, a: AppView, now: u64)
    requires
        measuring(t),
    ensures
        run_ok(round_top(t, a, now).0),
        books_match(t, a) ==> books_match(round_top(t, a, now).0, round_top(t, a, now).1),
        !a.stop_requested ==> recorded_answered(a, round_top(t, a, now).1),
{
    let e = now.saturating_sub(t.ctl.start_ms);
    let t1 = with_ctl(t, Controller { elapsed_ms: e, ..t.ctl });
    lemma_drain_end(t1, a, now);
    lemma_finish_size(t1, a, now);
}

proof fn lemma_end_round(t: TaskView, a: AppView, now: u64)
    requires
        measuring(t),
    ensures
        run_ok(end_round(t, a, now).0),
        books_match(t, a) ==> books_match(end_round(t, a, now).0, end_round(t, a, now).1),
        !a.stop_requested ==> recorded_answered(a, end_round(t, a, now).1),
{
    let c = t.ctl;
    let e = now.saturating_sub(c.start_ms);
    let calm: usize = if c.outstanding == 0 {
        c.calm_samples.saturating_add(1)
    } else {
        0
    };
    let b = adapted_limit(
        c.burst_limit as nat,
        c.outstanding as nat,
        c.last_outstanding as nat,
        calm as nat,
        c.gap_ms as nat,
    ) as u64;
    crate::burst::lemma_adapted_within_max(
        c.burst_limit as nat,
        c.outstanding as nat,
        c.last_outstanding as nat,
        calm as nat,
        c.gap_ms as nat,
    );
    let t1 = TaskView {
        ctl: Controller {
            calm_samples: calm,
            burst_limit: b,
            last_outstanding: c.outstanding,
            last_sample_ms: e,
            ..c
        },
        samples: t.samples.push(
            RunSample { elapsed_ms: e, bytes: c.bytes_sent, packets: c.packets_sent },
        ),
        ..t
    };
    let a1 = AppView {
        live_burst_limit: b,
        live: Throughput {
            bytes: c.bytes_sent,
            packets: c.packets_sent,
            replies: c.replies_received,
            elapsed_ms: e,
        },
        progress: Progress {
            steps_done: c.step,
            elapsed_ms: if c.elapsed_ms < DURATION_MS {
                c.elapsed_ms
            } else {
                DURATION_MS
            },
        },
        ..a
    };
    if spacing_reached(c.last_sample_ms as nat, e as nat) && c.replies_received > 0 {
        lemma_spaced_push(t.samples, c.last_sample_ms, t1.samples.last());
        lemma_round_top(t1, a1, now);
    }
    lemma_round_top(t, a, now);
}

/// A sample due after the last one keeps the samples spaced.
proof fn lemma_spaced_push(s: Seq<RunSample>, last_ms: u64, p: RunSample)
    requires
        spaced(s),
        s.len() == 0 ==> last_ms == 0,
        s.len() > 0 ==> last_ms == s.last().elapsed_ms,
        spacing_reached(last_ms as nat, p.elapsed_ms as nat),
    ensures
        spaced(s.push(p)),
{
    let s1 = s.push(p);
    assert forall|i: int| 0 <= i < s1.len() implies spacing_reached(
        if i == 0 {
            0
        } else {
            s1[i - 1].elapsed_ms as nat
        },
        #[trigger] s1[i].elapsed_ms as nat,
    ) by {
        if i < s.len() {
            assert(s1[i] == s[i]);
            if i > 0 {
                assert(s1[i - 1] == s[i - 1]);
            }
            assert(spacing_reached(
                if i == 0 {
                    0
                } else {
                    s[i - 1].elapsed_ms as nat
                },
                s[i].elapsed_ms as nat,
            ));
        } else {
            if i > 0 {
                assert(s1[i - 1] == s.last());
            }
        }
    }
}

proof fn lemma_drain_mid(t: TaskView, a: AppView, now: u64)
    requires
        measuring(t),
    ensures
        run_ok(drain_mid(t, a, now).0),
        books_match(t, a) ==> books_match(drain_mid(t, a, now).0, drain_mid(t, a, now).1),
        !a.stop_requested ==> recorded_answered(a, drain_mid(t, a, now).1),
{
    lemma_end_round(answered_now(t), a, now);
    lemma_end_round(answered_now(t), stopped(a), now);
}

proof fn lemma_end_size(t: TaskView, a: AppView, now: u64)
    requires
        measuring(t),
    ensures
        run_ok(end_size(t, a, now).0),
        books_match(t, a) ==> books_match(end_size(t, a, now).0, end_size(t, a, now).1),
        !a.stop_requested ==> recorded_answered(a, end_size(t, a, now).1),
{
    lemma_drain_end(t, a, now);
    lemma_finish_size(t, a, now);
}

proof fn lemma_start_size(t: TaskView, a: AppView, now: u64)
    requires
        task_wf(t),
    ensures
        run_ok(start_size(t, a, now).0),
        books_match(t, a) ==> books_match(start_size(t, a, now).0, start_size(t, a, now).1),
        !a.stop_requested ==> recorded_answered(a, start_size(t, a, now).1),
{
    let c = t.ctl;
    if c.step < SIZE_COUNT && !a.stop_requested {
        lemma_size_bound(c.step as nat);
        let size = bench_size(c.step as nat) as usize;
        let t1 = TaskView {
            ctl: Controller {
                size: size,
                start_ms: now,
                bytes_sent: 0,
                packets_sent: 0,
                replies_received: 0,
                outstanding: 0,
                last_sample_ms: 0,
                last_received_ms: 0,
                ..c
            },
            message: request_bytes(bench_view(size as nat)),
            samples: Seq::empty(),
        };
        let a1 = AppView {
            live_size: size,
            bench_status: StatusView::Benchmarking { size: size },
            progress: Progress { steps_done: c.step, elapsed_ms: 0 },
            live: zero_throughput(),
            ..a
        };
        lemma_round_top(t1, a1, now);
    }
}

/// A new run is consistent with the client state it starts from.
pub proof fn lemma_start_consistent(wait_for_reply: bool, a: AppView)
    ensures
        consistent(initial_task(wait_for_reply), started_app(a)),
{
}

/// Every step keeps a run consistent with its client state: the step index
/// stays within the sizes, the burst limit within `MAX_BURST_LIMIT`, the
/// client holds one result and one series per size done, of that size, in
/// order, and the progress it shows never exceeds the whole; the bytes sent
/// are the requests sent times the length of the encoded request of the size
/// (saturating), every request sent is answered or outstanding (barring a
/// count that saturated), a request is outstanding while an answer is awaited,
/// and the samples are spaced as the client spaces them.
pub proof fn lemma_step_consistent(t: TaskView, a: AppView, e: EventView)
    requires
        consistent(t, a),
    ensures
        consistent(step_model(t, a, e).0, step_model(t, a, e).1),
{
    lemma_step_run_ok(t, a, e);
}

/// Every step keeps a run well formed.
#[verifier::spinoff_prover]
#[verifier::rlimit(50)]
proof fn lemma_step_run_ok(t: TaskView, a: AppView, e: EventView)
    requires
        run_ok(t),
    ensures
        run_ok(step_model(t, a, e).0),
        books_match(t, a) ==> books_match(step_model(t, a, e).0, step_model(t, a, e).1),
        !a.stop_requested && !stream_lost(e) ==> recorded_answered(a, step_model(t, a, e).1),
{
    let c = t.ctl;
    match c.phase {
        Phase::PingSending => match e {
            EventView::PingSent { ok, now_ms } => {
                lemma_start_size(t, AppView { live_burst_limit: c.burst_limit, ..a }, now_ms);
            },
            _ => {},
        },
        Phase::PingAwaiting => match e {
            EventView::PingAnswered { reply, now_ms } => {
                lemma_start_size(t, AppView { live_burst_limit: c.burst_limit, ..a }, now_ms);
                match reply {
                    Some(bytes) => {
                        let a1 = AppView { live_ping_ms: now_ms.saturating_sub(c.ping_start_ms), ..a };
                        let a2 = absorb_reply(a1, bytes).0;
                        lemma_start_size(t, AppView { live_burst_limit: c.burst_limit, ..a2 }, now_ms);
                    },
                    None => {},
                }
            },
            _ => {},
        },
        Phase::Sending => match e {
            EventView::Sent { error, now_ms } => {
                match error {
                    Some(err) => {
                        lemma_end_size(
                            t,
                            AppView { bench_status: StatusView::SendFailed { error: err }, ..a },
                            now_ms,
                        );
                    },
                    None => {
                        let c1 = Controller {
                            bytes_sent: c.bytes_sent.saturating_add(t.message.len() as u64),
                            packets_sent: c.packets_sent.saturating_add(1),
                            outstanding: c.outstanding.saturating_add(1),
                            gap_ms: c.elapsed_ms.saturating_sub(c.last_received_ms),
                            ..c
                        };
                        lemma_size_bound(c.step as nat);
                        lemma_bench_message_len(c.size as nat);
                        lemma_count_send(c.packets_sent, c.bytes_sent, t.message.len());
                        lemma_drain_mid(with_ctl(t, c1), a, now_ms);
                        lemma_end_round(with_ctl(t, c1), a, now_ms);
                    },
                }
            },
            _ => {},
        },
        Phase::AwaitingReply => match e {
            EventView::Received { message, now_ms } => match message {
                IncomingView::Binary(bytes) => {
                    let a1 = absorb_reply(a, bytes).0;
                    let t1 = with_ctl(
                        t,
                        Controller {
                            replies_received: c.replies_received.saturating_add(1),
                            outstanding: c.outstanding.saturating_sub(1),
                            last_received_ms: c.elapsed_ms,
                            ..c
                        },
                    );
                    lemma_end_round(t1, a1, now_ms);
                },
                IncomingView::Other => {
                    lemma_end_round(answered_now(t), a, now_ms);
                },
                IncomingView::Failed(err) => {
                    lemma_end_size(
                        t,
                        AppView { bench_status: StatusView::ReadFailed { error: err }, ..a },
                        now_ms,
                    );
                },
                IncomingView::Ended => {
                    lemma_end_size(t, AppView { bench_status: StatusView::SocketClosed, ..a }, now_ms);
                },
            },
            _ => {},
        },
        Phase::Draining { ending } => match e {
            EventView::Received { message, now_ms } => match message {
                IncomingView::Binary(bytes) => {
                    let a1 = absorb_reply(a, bytes).0;
                    lemma_drain_end(count_drained(t), a1, now_ms);
                    lemma_drain_mid(count_drained(t), a1, now_ms);
                },
                IncomingView::Other => {
                    lemma_drain_end(t, a, now_ms);
                    lemma_drain_mid(t, a, now_ms);
                },
                IncomingView::Failed(err) => {
                    let a1 = AppView { bench_status: StatusView::ReadFailed { error: err }, ..a };
                    lemma_finish_size(t, a1, now_ms);
                    lemma_end_round(answered_now(t), a1, now_ms);
                },
                IncomingView::Ended => {
                    let a1 = AppView { bench_status: StatusView::SocketClosed, ..a };
                    lemma_finish_size(t, a1, now_ms);
                    lemma_end_round(answered_now(t), a1, now_ms);
                },
            },
            _ => {},
        },
        Phase::Pausing => match e {
            EventView::Resumed { now_ms } => {
                crate::burst::lemma_limit_rules(c.burst_limit as nat);
                lemma_start_size(
                    with_ctl(t, Controller { burst_limit: decayed_limit(c.burst_limit as nat) as u64, ..c }),
                    a,
                    now_ms,
                );
            },
            _ => {},
        },
        _ => {},
    }
}


/// How long the native build's stand-in run lasts, in milliseconds.
pub const STAND_IN_MS: u64 = 500;

/// How often the stand-in run looks for a stop request, in milliseconds.
pub const STAND_IN_TICK_MS: u64 = 50;

/// Starts the native build's stand-in run, which has no WebSocket client: it
/// marks the benchmark running with the status `NotImplemented`.
pub fn start_stand_in(st: &mut AppState)
    ensures
        final(st)@ == (AppView {
            bench_running: true,
            progress: Progress { steps_done: 0, elapsed_ms: 0 },
            bench_status: StatusView::NotImplemented,
            stop_requested: false,
            run_series: Seq::empty(),
            ..old(st)@
        }),
{
    st.bench_running = true;
    st.progress = Progress { steps_done: 0, elapsed_ms: 0 };
    st.bench_status = BenchStatus::NotImplemented;
    st.stop_requested = false;
    st.run_series = Vec::new();
    assert(st.run_series@.map_values(|r: RunSeries| r@) =~= Seq::<RunSeriesView>::empty());
}

/// A tick of the stand-in run, `elapsed_ms` into it: once `STAND_IN_MS` have
/// passed it finishes; before, a stop request ends it; otherwise it goes on
/// (the program waits `STAND_IN_TICK_MS` and ticks again).
pub fn stand_in_tick(st: &mut AppState, elapsed_ms: u64) -> (goes_on: bool)
    ensures
        goes_on == (elapsed_ms < STAND_IN_MS && !old(st).stop_requested),
        final(st)@ == (if elapsed_ms >= STAND_IN_MS {
            AppView {
                bench_running: false,
                progress: Progress { steps_done: SIZE_COUNT, elapsed_ms: 0 },
                bench_status: StatusView::StandInFinished,
                ..old(st)@
            }
        } else if old(st).stop_requested {
            stopped(old(st)@)
        } else {
            old(st)@
        }),
{
    if elapsed_ms >= STAND_IN_MS {
        st.bench_running = false;
        st.progress = Progress { steps_done: SIZE_COUNT, elapsed_ms: 0 };
        st.bench_status = BenchStatus::StandInFinished;
        false
    } else if st.stop_requested {
        st.bench_status = BenchStatus::StoppedByUser;
        st.bench_running = false;
        false
    } else {
        true
    }
}


/// Once the user has asked to stop, no step sends another benchmark request:
/// every path that would send passes the stop check first.
pub proof fn lemma_stop_sends_nothing(t: TaskView, a: AppView, e: EventView)
    requires
        a.stop_requested,
    ensures
        step_model(t, a, e).2.action != BenchAction::Send,
{
}


/// A size that ends without a stop request and without a failed or ended
/// stream is recorded with every request answered (barring a count that
/// saturated): in synchronous mode each request waits for its answer, and in
/// the other mode the answers outstanding are drained before the size is
/// recorded.
pub proof fn lemma_size_recorded_answered(t: TaskView, a: AppView, e: EventView)
    requires
        consistent(t, a),
        !a.stop_requested,
        !stream_lost(e),
    ensures
        recorded_answered(a, step_model(t, a, e).1),
{
    lemma_step_run_ok(t, a, e);
}

/// In synchronous mode a round that starts with nothing outstanding sends one
/// request, waits for its answer (and nothing else), and, once a binary answer
/// comes, ends with nothing outstanding and one more answer counted, going on
/// to send again, to pause after the size, or to finish; so while answers
/// come, at most one request is ever outstanding.
pub proof fn lemma_sync_round(
    t: TaskView,
    a: AppView,
    sent_ms: u64,
    answered_ms: u64,
    reply: Seq<u8>,
)
    requires
        consistent(t, a),
        t.ctl.wait_for_reply,
        t.ctl.phase == Phase::Sending,
        t.ctl.outstanding == 0,
        t.ctl.packets_sent < u64::MAX,
    ensures
        ({
            let r1 = step_model(t, a, EventView::Sent { error: None, now_ms: sent_ms });
            let r2 = step_model(
                r1.0,
                r1.1,
                EventView::Received { message: IncomingView::Binary(reply), now_ms: answered_ms },
            );
            &&& r1.2.action == BenchAction::Receive
            &&& r1.0.ctl.phase == Phase::AwaitingReply
            &&& r1.0.ctl.outstanding == 1
            &&& r2.0.ctl.outstanding == 0
            &&& r2.0.ctl.replies_received == t.ctl.replies_received + 1
            &&& (r2.2.action == BenchAction::Send || r2.2.action == BenchAction::Pause
                || r2.2.action == BenchAction::Finish)
        }),
{
}

/// `p` is no further than `q`.
pub open spec fn progress_le(p: Progress, q: Progress) -> bool {
    p.steps_done < q.steps_done || (p.steps_done == q.steps_done && p.elapsed_ms <= q.elapsed_ms)
}

/// The progress shown follows the run: none before the first size, the
/// current size and at most the time spent on it while it is measured, fewer
/// sizes than the next one while pausing.
pub open spec fn progress_tracks(t: TaskView, a: AppView) -> bool {
    match t.ctl.phase {
        Phase::Connecting | Phase::PingSending | Phase::PingAwaiting => a.progress == Progress {
            steps_done: 0,
            elapsed_ms: 0,
        } && t.ctl.step == 0,
        Phase::Sending | Phase::AwaitingReply | Phase::Draining { .. } => a.progress.steps_done
            == t.ctl.step && a.progress.elapsed_ms <= t.ctl.elapsed_ms && a.progress.elapsed_ms
            <= DURATION_MS,
        Phase::Pausing => a.progress.steps_done < t.ctl.step,
        Phase::Done => true,
    }
}

/// The time an event was read at (zero for the events without one).
pub open spec fn event_time(e: EventView) -> u64 {
    match e {
        EventView::PingSent { now_ms, .. } => now_ms,
        EventView::PingAnswered { now_ms, .. } => now_ms,
        EventView::Sent { now_ms, .. } => now_ms,
        EventView::Received { now_ms, .. } => now_ms,
        EventView::Resumed { now_ms } => now_ms,
        _ => 0,
    }
}

/// The clock has not gone back since the top of the current round.
pub open spec fn clock_ok(t: TaskView, e: EventView) -> bool {
    match t.ctl.phase {
        Phase::Sending | Phase::AwaitingReply | Phase::Draining { .. } => event_time(e)
            >= t.ctl.start_ms + t.ctl.elapsed_ms,
        _ => true,
    }
}

proof fn lemma_finish_size_progress(t: TaskView, a: AppView, now: u64)
    requires
        measuring(t),
        a.progress.steps_done == t.ctl.step,
    ensures
        progress_tracks(finish_size(t, a, now).0, finish_size(t, a, now).1),
        progress_le(a.progress, finish_size(t, a, now).1.progress),
{
}

proof fn lemma_drain_end_progress(t: TaskView, a: AppView, now: u64)
    requires
        measuring(t),
        a.progress.steps_done == t.ctl.step,
        a.progress.elapsed_ms <= t.ctl.elapsed_ms,
        a.progress.elapsed_ms <= DURATION_MS,
    ensures
        progress_tracks(drain_end(t, a, now).0, drain_end(t, a, now).1),
        progress_le(a.progress, drain_end(t, a, now).1.progress),
{
    lemma_finish_size_progress(t, a, now);
    lemma_finish_size_progress(t, stopped(a), now);
}

proof fn lemma_end_size_progress(t: TaskView, a: AppView, now: u64)
    requires
        measuring(t),
        a.progress.steps_done == t.ctl.step,
        a.progress.elapsed_ms <= t.ctl.elapsed_ms,
        a.progress.elapsed_ms <= DURATION_MS,
    ensures
        progress_tracks(end_size(t, a, now).0, end_size(t, a, now).1),
        progress_le(a.progress, end_size(t, a, now).1.progress),
{
    lemma_drain_end_progress(t, a, now);
    lemma_finish_size_progress(t, a, now);
}

proof fn lemma_round_top_progress(t: TaskView, a: AppView, now: u64)
    requires
        measuring(t),
        a.progress.steps_done == t.ctl.step,
        a.progress.elapsed_ms <= now.saturating_sub(t.ctl.start_ms),
        a.progress.elapsed_ms <= DURATION_MS,
    ensures
        progress_tracks(round_top(t, a, now).0, round_top(t, a, now).1),
        progress_le(a.progress, round_top(t, a, now).1.progress),
{
    let e = now.saturating_sub(t.ctl.start_ms);
    let t1 = with_ctl(t, Controller { elapsed_ms: e, ..t.ctl });
    lemma_end_size_progress(t1, a, now);
}

proof fn lemma_end_round_progress(t: TaskView, a: AppView, now: u64)
    requires
        measuring(t),
        a.progress.steps_done == t.ctl.step,
        a.progress.elapsed_ms <= t.ctl.elapsed_ms,
        a.progress.elapsed_ms <= DURATION_MS,
        now >= t.ctl.start_ms + t.ctl.elapsed_ms,
    ensures
        progress_tracks(end_round(t, a, now).0, end_round(t, a, now).1),
        progress_le(a.progress, end_round(t, a, now).1.progress),
{
    let c = t.ctl;
    let e = now.saturating_sub(c.start_ms);
    if spacing_reached(c.last_sample_ms as nat, e as nat) && c.replies_received > 0 {
        lemma_end_round(t, a, now);
        let calm: usize = if c.outstanding == 0 {
            c.calm_samples.saturating_add(1)
        } else {
            0
        };
        let b = adapted_limit(
            c.burst_limit as nat,
            c.outstanding as nat,
            c.last_outstanding as nat,
            calm as nat,
            c.gap_ms as nat,
        ) as u64;
        crate::burst::lemma_adapted_within_max(
            c.burst_limit as nat,
            c.outstanding as nat,
            c.last_outstanding as nat,
            calm as nat,
            c.gap_ms as nat,
        );
        let t1 = TaskView {
            ctl: Controller {
                calm_samples: calm,
                burst_limit: b,
                last_outstanding: c.outstanding,
                last_sample_ms: e,
                ..c
            },
            samples: t.samples.push(
                RunSample { elapsed_ms: e, bytes: c.bytes_sent, packets: c.packets_sent },
            ),
            ..t
        };
        let a1 = AppView {
            live_burst_limit: b,
            live: Throughput {
                bytes: c.bytes_sent,
                packets: c.packets_sent,
                replies: c.replies_received,
                elapsed_ms: e,
            },
            progress: Progress {
                steps_done: c.step,
                elapsed_ms: if c.elapsed_ms < DURATION_MS {
                    c.elapsed_ms
                } else {
                    DURATION_MS
                },
            },
            ..a
        };
        lemma_spaced_push(t.samples, c.last_sample_ms, t1.samples.last());
        lemma_round_top_progress(t1, a1, now);
    } else {
        lemma_round_top_progress(t, a, now);
    }
}

proof fn lemma_drain_mid_progress(t: TaskView, a: AppView, now: u64)
    requires
        measuring(t),
        a.progress.steps_done == t.ctl.step,
        a.progress.elapsed_ms <= t.ctl.elapsed_ms,
        a.progress.elapsed_ms <= DURATION_MS,
        now >= t.ctl.start_ms + t.ctl.elapsed_ms,
    ensures
        progress_tracks(drain_mid(t, a, now).0, drain_mid(t, a, now).1),
        progress_le(a.progress, drain_mid(t, a, now).1.progress),
{
    lemma_end_round_progress(answered_now(t), a, now);
    lemma_end_round_progress(answered_now(t), stopped(a), now);
}

proof fn lemma_start_size_progress(t: TaskView, a: AppView, now: u64)
    requires
        task_wf(t),
        a.progress.steps_done < t.ctl.step || (t.ctl.step == 0 && a.progress == Progress {
            steps_done: 0,
            elapsed_ms: 0,
        }),
    ensures
        progress_tracks(start_size(t, a, now).0, start_size(t, a, now).1),
        progress_le(a.progress, start_size(t, a, now).1.progress),
{
    let c = t.ctl;
    if c.step < SIZE_COUNT && !a.stop_requested {
        lemma_start_size(t, a, now);
        lemma_size_bound(c.step as nat);
        let size = bench_size(c.step as nat) as usize;
        let t1 = TaskView {
            ctl: Controller {
                size: size,
                start_ms: now,
                bytes_sent: 0,
                packets_sent: 0,
                replies_received: 0,
                outstanding: 0,
                last_sample_ms: 0,
                last_received_ms: 0,
                ..c
            },
            message: request_bytes(bench_view(size as nat)),
            samples: Seq::empty(),
        };
        let a1 = AppView {
            live_size: size,
            bench_status: StatusView::Benchmarking { size: size },
            progress: Progress { steps_done: c.step, elapsed_ms: 0 },
            live: zero_throughput(),
            ..a
        };
        lemma_round_top_progress(t1, a1, now);
    }
}

/// The progress shown never goes back: a new run shows none, and every step
/// on which the clock has not gone back since the top of the current round
/// leaves the progress where it was or moves it forward, and keeps it
/// following the run.
#[verifier::spinoff_prover]
#[verifier::rlimit(50)]
pub proof fn lemma_progress_monotone(t: TaskView, a: AppView, e: EventView)
    requires
        consistent(t, a),
        progress_tracks(t, a),
        clock_ok(t, e),
    ensures
        progress_tracks(step_model(t, a, e).0, step_model(t, a, e).1),
        progress_le(a.progress, step_model(t, a, e).1.progress),
{
    let c = t.ctl;
    match c.phase {
        Phase::PingSending => match e {
            EventView::PingSent { ok, now_ms } => {
                lemma_start_size_progress(t, AppView { live_burst_limit: c.burst_limit, ..a }, now_ms);
            },
            _ => {},
        },
        Phase::PingAwaiting => match e {
            EventView::PingAnswered { reply, now_ms } => {
                lemma_start_size_progress(t, AppView { live_burst_limit: c.burst_limit, ..a }, now_ms);
                match reply {
                    Some(bytes) => {
                        let a1 = AppView { live_ping_ms: now_ms.saturating_sub(c.ping_start_ms), ..a };
                        let a2 = absorb_reply(a1, bytes).0;
                        lemma_start_size_progress(
                            t,
                            AppView { live_burst_limit: c.burst_limit, ..a2 },
                            now_ms,
                        );
                    },
                    None => {},
                }
            },
            _ => {},
        },
        Phase::Sending => match e {
            EventView::Sent { error, now_ms } => {
                match error {
                    Some(err) => {
                        lemma_end_size_progress(
                            t,
                            AppView { bench_status: StatusView::SendFailed { error: err }, ..a },
                            now_ms,
                        );
                    },
                    None => {
                        lemma_step_run_ok(t, a, e);
                        let c1 = Controller {
                            bytes_sent: c.bytes_sent.saturating_add(t.message.len() as u64),
                            packets_sent: c.packets_sent.saturating_add(1),
                            outstanding: c.outstanding.saturating_add(1),
                            gap_ms: c.elapsed_ms.saturating_sub(c.last_received_ms),
                            ..c
                        };
                        lemma_size_bound(c.step as nat);
                        lemma_bench_message_len(c.size as nat);
                        lemma_count_send(c.packets_sent, c.bytes_sent, t.message.len());
                        lemma_drain_mid_progress(with_ctl(t, c1), a, now_ms);
                        lemma_end_round_progress(with_ctl(t, c1), a, now_ms);
                    },
                }
            },
            _ => {},
        },
        Phase::AwaitingReply => match e {
            EventView::Received { message, now_ms } => match message {
                IncomingView::Binary(bytes) => {
                    let a1 = absorb_reply(a, bytes).0;
                    let t1 = with_ctl(
                        t,
                        Controller {
                            replies_received: c.replies_received.saturating_add(1),
                            outstanding: c.outstanding.saturating_sub(1),
                            last_received_ms: c.elapsed_ms,
                            ..c
                        },
                    );
                    lemma_end_round_progress(t1, a1, now_ms);
                },
                IncomingView::Other => {
                    lemma_end_round_progress(answered_now(t), a, now_ms);
                },
                IncomingView::Failed(err) => {
                    lemma_end_size_progress(
                        t,
                        AppView { bench_status: StatusView::ReadFailed { error: err }, ..a },
                        now_ms,
                    );
                },
                IncomingView::Ended => {
                    lemma_end_size_progress(
                        t,
                        AppView { bench_status: StatusView::SocketClosed, ..a },
                        now_ms,
                    );
                },
            },
            _ => {},
        },
        Phase::Draining { ending } => match e {
            EventView::Received { message, now_ms } => match message {
                IncomingView::Binary(bytes) => {
                    let a1 = absorb_reply(a, bytes).0;
                    lemma_drain_end_progress(count_drained(t), a1, now_ms);
                    lemma_drain_mid_progress(count_drained(t), a1, now_ms);
                },
                IncomingView::Other => {
                    lemma_drain_end_progress(t, a, now_ms);
                    lemma_drain_mid_progress(t, a, now_ms);
                },
                IncomingView::Failed(err) => {
                    let a1 = AppView { bench_status: StatusView::ReadFailed { error: err }, ..a };
                    lemma_finish_size_progress(t, a1, now_ms);
                    lemma_end_round_progress(answered_now(t), a1, now_ms);
                },
                IncomingView::Ended => {
                    let a1 = AppView { bench_status: StatusView::SocketClosed, ..a };
                    lemma_finish_size_progress(t, a1, now_ms);
                    lemma_end_round_progress(answered_now(t), a1, now_ms);
                },
            },
            _ => {},
        },
        Phase::Pausing => match e {
            EventView::Resumed { now_ms } => {
                crate::burst::lemma_limit_rules(c.burst_limit as nat);
                lemma_start_size_progress(
                    with_ctl(t, Controller { burst_limit: decayed_limit(c.burst_limit as nat) as u64, ..c }),
                    a,
                    now_ms,
                );
            },
            _ => {},
        },
        _ => {},
    }
}

/// A new run's progress follows it.
pub proof fn lemma_start_progress(wait_for_reply: bool, a: AppView)
    ensures
        progress_tracks(initial_task(wait_for_reply), started_app(a)),
{
}


/// The samples of every size recorded come in strictly increasing time, the
/// first at least `SAMPLE_SPACING_MS` into the size.
pub proof fn lemma_recorded_samples_increase(t: TaskView, a: AppView, i: int)
    requires
        consistent(t, a),
        0 <= i < a.run_series.len(),
    ensures
        forall|j: int, k: int|
            0 <= j < k < a.run_series[i].samples.len() ==> a.run_series[i].samples[j].elapsed_ms
                < a.run_series[i].samples[k].elapsed_ms,
        a.run_series[i].samples.len() > 0 ==> a.run_series[i].samples[0].elapsed_ms
            >= SAMPLE_SPACING_MS,
{
    assert(a.bench_results[i].size == bench_size(i as nat));
    lemma_samples_increase(a.run_series[i].samples);
}


proof fn lemma_mode_kept_within(t: TaskView, a: AppView, now: u64)
    ensures
        finish_size(t, a, now).0.ctl.wait_for_reply == t.ctl.wait_for_reply,
        drain_end(t, a, now).0.ctl.wait_for_reply == t.ctl.wait_for_reply,
        end_size(t, a, now).0.ctl.wait_for_reply == t.ctl.wait_for_reply,
        round_top(t, a, now).0.ctl.wait_for_reply == t.ctl.wait_for_reply,
        end_round(t, a, now).0.ctl.wait_for_reply == t.ctl.wait_for_reply,
        drain_mid(t, a, now).0.ctl.wait_for_reply == t.ctl.wait_for_reply,
        start_size(t, a, now).0.ctl.wait_for_reply == t.ctl.wait_for_reply,
        after_ping(t, a, now).0.ctl.wait_for_reply == t.ctl.wait_for_reply,
{
}

/// A run keeps the mode it was started in: it waits for each answer exactly
/// when the client was set to do so at the start, and no step changes that.
#[verifier::spinoff_prover]
#[verifier::rlimit(50)]
pub proof fn lemma_mode_kept(w: bool, t: TaskView, a: AppView, e: EventView)
    ensures
        initial_task(w).ctl.wait_for_reply == w,
        initial_task(w).ctl.burst_limit == INITIAL_BURST_LIMIT,
        step_model(t, a, e).0.ctl.wait_for_reply == t.ctl.wait_for_reply,
{
    let now = event_time(e);
    lemma_mode_kept_within(t, a, now);
    lemma_mode_kept_within(count_drained(t), a, now);
    lemma_mode_kept_within(answered_now(t), a, now);
    match e {
        EventView::Sent { error, now_ms } => {
            let c = t.ctl;
            let c1 = Controller {
                bytes_sent: c.bytes_sent.saturating_add(t.message.len() as u64),
                packets_sent: c.packets_sent.saturating_add(1),
                outstanding: c.outstanding.saturating_add(1),
                gap_ms: c.elapsed_ms.saturating_sub(c.last_received_ms),
                ..c
            };
            lemma_mode_kept_within(with_ctl(t, c1), a, now);
        },
        EventView::Resumed { now_ms } => {
            lemma_mode_kept_within(
                with_ctl(t, Controller { burst_limit: decayed_limit(t.ctl.burst_limit as nat) as u64, ..t.ctl }),
                a,
                now,
            );
        },
        EventView::Received { message, now_ms } => {
            match message {
                IncomingView::Binary(bytes) => {
                    let c = t.ctl;
                    let t1 = with_ctl(
                        t,
                        Controller {
                            replies_received: c.replies_received.saturating_add(1),
                            outstanding: c.outstanding.saturating_sub(1),
                            last_received_ms: c.elapsed_ms,
                            ..c
                        },
                    );
                    lemma_mode_kept_within(t1, a, now);
                },
                _ => {},
            }
        },
        _ => {},
    }
}

/// In synchronous mode a request sent is followed by waiting for its answer;
/// in bursting mode a request sent that leaves fewer requests outstanding
/// than the burst limit is never followed by waiting for a single answer.
pub proof fn lemma_send_follow_up(t: TaskView, a: AppView, now: u64)
    requires
        t.ctl.phase == Phase::Sending,
    ensures
        t.ctl.wait_for_reply ==> step_model(
            t,
            a,
            EventView::Sent { error: None, now_ms: now },
        ).2.action == BenchAction::Receive && step_model(
            t,
            a,
            EventView::Sent { error: None, now_ms: now },
        ).0.ctl.phase == Phase::AwaitingReply,
        !t.ctl.wait_for_reply && t.ctl.outstanding + 1 < t.ctl.burst_limit ==> step_model(
            t,
            a,
            EventView::Sent { error: None, now_ms: now },
        ).0.ctl.phase != Phase::AwaitingReply,
{
}

/// When a drain in the middle of a size ends (the last outstanding answer
/// came, the stream failed or ended, or a stop was asked), the last answer
/// is dated to the round that drained it: the gap measured at the next send
/// runs from that round's elapsed time, not from an earlier answer.
pub proof fn lemma_mid_drain_dates_answer(t: TaskView, a: AppView, m: IncomingView, now: u64)
    requires
        t.ctl.phase == (Phase::Draining { ending: false }),
        match m {
            IncomingView::Binary(_) => t.ctl.outstanding == 1 || a.stop_requested,
            IncomingView::Other => t.ctl.outstanding == 0 || a.stop_requested,
            _ => true,
        },
    ensures
        step_model(t, a, EventView::Received { message: m, now_ms: now }).0.ctl.last_received_ms
            == t.ctl.elapsed_ms,
{
}

/// While a drain goes on, the date of the last answer is not moved.
pub proof fn lemma_drain_keeps_answer_date(t: TaskView, a: AppView, bytes: Seq<u8>, now: u64)
    requires
        t.ctl.phase == (Phase::Draining { ending: false }),
        t.ctl.outstanding >= 2,
        !a.stop_requested,
    ensures
        step_model(
            t,
            a,
            EventView::Received { message: IncomingView::Binary(bytes), now_ms: now },
        ).0.ctl.last_received_ms == t.ctl.last_received_ms,
        step_model(
            t,
            a,
            EventView::Received { message: IncomingView::Binary(bytes), now_ms: now },
        ).2.action == BenchAction::Receive,
{
}

/// The top of a round takes no sample; where it keeps the samples of a size
/// that has some, it changes neither what is shown nor the counters.
proof fn lemma_round_top_no_sample(t: TaskView, a: AppView, now: u64)
    ensures
        ({
            let r = round_top(t, a, now);
            &&& r.0.samples.len() <= t.samples.len()
            &&& t.samples.len() >= 1 && r.0.samples.len() == t.samples.len() ==> {
                &&& r.0.samples == t.samples
                &&& r.1.live == a.live
                &&& r.1.progress == a.progress
                &&& r.0.ctl.replies_received == t.ctl.replies_received
                &&& r.0.ctl.bytes_sent == t.ctl.bytes_sent
                &&& r.0.ctl.packets_sent == t.ctl.packets_sent
            }
        }),
{
}

proof fn lemma_end_round_sample(t: TaskView, a: AppView, now: u64)
    ensures
        end_round(t, a, now).0.samples.len() <= t.samples.len() + 1,
        ({
            let r = end_round(t, a, now);
            let s = r.0.samples.last();
            r.0.samples.len() == t.samples.len() + 1 ==> {
                &&& r.1.live.bytes == s.bytes
                &&& r.1.live.packets == s.packets
                &&& r.1.live.replies == r.0.ctl.replies_received
                &&& r.1.live.elapsed_ms == s.elapsed_ms
                &&& s.bytes == r.0.ctl.bytes_sent
                &&& s.packets == r.0.ctl.packets_sent
                &&& r.1.progress.steps_done == t.ctl.step
                &&& r.1.progress.elapsed_ms == if t.ctl.elapsed_ms < DURATION_MS {
                    t.ctl.elapsed_ms
                } else {
                    DURATION_MS
                }
            }
        }),
{
    let c = t.ctl;
    let e = now.saturating_sub(c.start_ms);
    lemma_round_top_no_sample(t, a, now);
    if spacing_reached(c.last_sample_ms as nat, e as nat) && c.replies_received > 0 {
        let calm: usize = if c.outstanding == 0 {
            c.calm_samples.saturating_add(1)
        } else {
            0
        };
        let b = adapted_limit(
            c.burst_limit as nat,
            c.outstanding as nat,
            c.last_outstanding as nat,
            calm as nat,
            c.gap_ms as nat,
        ) as u64;
        let t1 = TaskView {
            ctl: Controller {
                calm_samples: calm,
                burst_limit: b,
                last_outstanding: c.outstanding,
                last_sample_ms: e,
                ..c
            },
            samples: t.samples.push(
                RunSample { elapsed_ms: e, bytes: c.bytes_sent, packets: c.packets_sent },
            ),
            ..t
        };
        let a1 = AppView {
            live_burst_limit: b,
            live: Throughput {
                bytes: c.bytes_sent,
                packets: c.packets_sent,
                replies: c.replies_received,
                elapsed_ms: e,
            },
            progress: Progress {
                steps_done: c.step,
                elapsed_ms: if c.elapsed_ms < DURATION_MS {
                    c.elapsed_ms
                } else {
                    DURATION_MS
                },
            },
            ..a
        };
        lemma_round_top_no_sample(t1, a1, now);
    }
}

proof fn lemma_no_sample_elsewhere(t: TaskView, a: AppView, now: u64)
    ensures
        finish_size(t, a, now).0.samples.len() <= t.samples.len(),
        drain_end(t, a, now).0.samples.len() <= t.samples.len(),
        end_size(t, a, now).0.samples.len() <= t.samples.len(),
        start_size(t, a, now).0.samples.len() == 0 || start_size(t, a, now).0.samples.len()
            <= t.samples.len(),
        after_ping(t, a, now).0.samples.len() == 0 || after_ping(t, a, now).0.samples.len()
            <= t.samples.len(),
{
    let c = t.ctl;
    if c.step < SIZE_COUNT && !a.stop_requested {
        let size = bench_size(c.step as nat) as usize;
        let t1 = TaskView {
            ctl: Controller {
                size: size,
                start_ms: now,
                bytes_sent: 0,
                packets_sent: 0,
                replies_received: 0,
                outstanding: 0,
                last_sample_ms: 0,
                last_received_ms: 0,
                ..c
            },
            message: request_bytes(bench_view(size as nat)),
            samples: Seq::empty(),
        };
        let a1 = AppView {
            live_size: size,
            bench_status: StatusView::Benchmarking { size: size },
            progress: Progress { steps_done: c.step, elapsed_ms: 0 },
            live: zero_throughput(),
            ..a
        };
        lemma_round_top_no_sample(t1, a1, now);
    }
    let a2 = AppView { live_burst_limit: c.burst_limit, ..a };
    if c.step < SIZE_COUNT && !a2.stop_requested {
        let size = bench_size(c.step as nat) as usize;
        let t1 = TaskView {
            ctl: Controller {
                size: size,
                start_ms: now,
                bytes_sent: 0,
                packets_sent: 0,
                replies_received: 0,
                outstanding: 0,
                last_sample_ms: 0,
                last_received_ms: 0,
                ..c
            },
            message: request_bytes(bench_view(size as nat)),
            samples: Seq::empty(),
        };
        let a1 = AppView {
            live_size: size,
            bench_status: StatusView::Benchmarking { size: size },
            progress: Progress { steps_done: c.step, elapsed_ms: 0 },
            live: zero_throughput(),
            ..a2
        };
        lemma_round_top_no_sample(t1, a1, now);
    }
}

/// A step that takes a sample shows it: the live counters become the
/// sample's bytes and requests, the answers counted, and the sample's time;
/// and the progress shows the current size and the elapsed time of the round
/// that took it, at most `DURATION_MS`.
#[verifier::spinoff_prover]
#[verifier::rlimit(50)]
pub proof fn lemma_sample_shown(t: TaskView, a: AppView, e: EventView)
    requires
        step_model(t, a, e).0.samples.len() == t.samples.len() + 1,
    ensures
        ({
            let r = step_model(t, a, e);
            let s = r.0.samples.last();
            &&& r.1.live.bytes == s.bytes
            &&& r.1.live.packets == s.packets
            &&& r.1.live.replies == r.0.ctl.replies_received
            &&& r.1.live.elapsed_ms == s.elapsed_ms
            &&& s.bytes == r.0.ctl.bytes_sent
            &&& s.packets == r.0.ctl.packets_sent
            &&& r.1.progress.steps_done == t.ctl.step
            &&& r.1.progress.elapsed_ms == if t.ctl.elapsed_ms < DURATION_MS {
                t.ctl.elapsed_ms
            } else {
                DURATION_MS
            }
        }),
{
    let c = t.ctl;
    match e {
        EventView::PingSent { ok, now_ms } => {
            lemma_no_sample_elsewhere(t, a, now_ms);
        },
        EventView::PingAnswered { reply, now_ms } => {
            lemma_no_sample_elsewhere(t, a, now_ms);
            match reply {
                Some(bytes) => {
                    let a1 = AppView { live_ping_ms: now_ms.saturating_sub(c.ping_start_ms), ..a };
                    let a2 = absorb_reply(a1, bytes).0;
                    lemma_no_sample_elsewhere(t, a2, now_ms);
                },
                None => {},
            }
        },
        EventView::Sent { error, now_ms } => {
            match error {
                Some(err) => {
                    lemma_no_sample_elsewhere(
                        t,
                        AppView { bench_status: StatusView::SendFailed { error: err }, ..a },
                        now_ms,
                    );
                },
                None => {
                    let c1 = Controller {
                        bytes_sent: c.bytes_sent.saturating_add(t.message.len() as u64),
                        packets_sent: c.packets_sent.saturating_add(1),
                        outstanding: c.outstanding.saturating_add(1),
                        gap_ms: c.elapsed_ms.saturating_sub(c.last_received_ms),
                        ..c
                    };
                    let t1 = with_ctl(t, c1);
                    lemma_end_round_sample(t1, a, now_ms);
                    lemma_end_round_sample(answered_now(t1), a, now_ms);
                    lemma_end_round_sample(answered_now(t1), stopped(a), now_ms);
                },
            }
        },
        EventView::Received { message, now_ms } => {
            match message {
                IncomingView::Binary(bytes) => {
                    let a1 = absorb_reply(a, bytes).0;
                    let t1 = with_ctl(
                        t,
                        Controller {
                            replies_received: c.replies_received.saturating_add(1),
                            outstanding: c.outstanding.saturating_sub(1),
                            last_received_ms: c.elapsed_ms,
                            ..c
                        },
                    );
                    lemma_end_round_sample(t1, a1, now_ms);
                    let t2 = count_drained(t);
                    lemma_no_sample_elsewhere(t2, a1, now_ms);
                    lemma_end_round_sample(answered_now(t2), a1, now_ms);
                    lemma_end_round_sample(answered_now(t2), stopped(a1), now_ms);
                },
                IncomingView::Other => {
                    lemma_end_round_sample(answered_now(t), a, now_ms);
                    lemma_no_sample_elsewhere(t, a, now_ms);
                    lemma_end_round_sample(answered_now(t), stopped(a), now_ms);
                },
                IncomingView::Failed(err) => {
                    let a1 = AppView { bench_status: StatusView::ReadFailed { error: err }, ..a };
                    lemma_no_sample_elsewhere(t, a1, now_ms);
                    lemma_end_round_sample(answered_now(t), a1, now_ms);
                },
                IncomingView::Ended => {
                    let a1 = AppView { bench_status: StatusView::SocketClosed, ..a };
                    lemma_no_sample_elsewhere(t, a1, now_ms);
                    lemma_end_round_sample(answered_now(t), a1, now_ms);
                },
            }
        },
        EventView::Resumed { now_ms } => {
            lemma_no_sample_elsewhere(
                with_ctl(t, Controller { burst_limit: decayed_limit(c.burst_limit as nat) as u64, ..c }),
                a,
                now_ms,
            );
        },
        _ => {},
    }
}

} // verus!
