//! What the server counts: packets and bytes received, sampled twice a second
//! into two bounded series of per-second rates, and the bounds of the charts
//! that show those series.
use vstd::prelude::*;
use std::collections::VecDeque;

verus! {

/// How many samples each series keeps (two minutes at two samples a second).
pub const MAX_POINTS: usize = 240;

/// How often the server samples its counters, in milliseconds.
pub const SAMPLE_INTERVAL_MS: u64 = 500;

/// The width of the time window that a chart shows, in milliseconds.
pub const CHART_WINDOW_MS: u64 = 60_000;

/// A sample: milliseconds since the server started, and the rate per second
/// (twice the count of the half second before it).
pub type SamplePoint = (u64, u128);

/// The last `MAX_POINTS` elements of `s` (all of them if there are fewer).
pub open spec fn keep_recent(s: Seq<SamplePoint>) -> Seq<SamplePoint> {
    if s.len() > MAX_POINTS {
        s.skip(s.len() - MAX_POINTS)
    } else {
        s
    }
}

/// The counters of the server and the series of their samples.
pub struct Metrics {
    /// Packets received since the last sample.
    pub current_packets: u64,
    /// Bytes received since the last sample.
    pub current_bytes: u64,
    /// Packets per second, oldest sample first.
    pub packets_series: VecDeque<SamplePoint>,
    /// Bytes per second, oldest sample first.
    pub bytes_series: VecDeque<SamplePoint>,
    /// Packets counted in the last sampled half second.
    pub last_packets: u64,
    /// Bytes counted in the last sampled half second.
    pub last_bytes: u64,
    /// The size of the last packet received.
    pub last_packet_bytes: u64,
}

/// Which of the two series.
#[derive(Clone, Copy, PartialEq, Eq, Structural, Debug)]
pub enum SeriesKind {
    Packets,
    Bytes,
}

/// Drops the oldest elements of `series` until at most `MAX_POINTS` remain.
fn trim_series(series: &mut VecDeque<SamplePoint>)
    ensures
        final(series)@ == keep_recent(old(series)@),
{
    let ghost full = series@;
    while series.len() > MAX_POINTS
        invariant
            series@.len() <= full.len(),
            series@ == full.skip(full.len() - series@.len()),
            series@.len() >= MAX_POINTS || series@.len() == full.len(),
        decreases series@.len(),
    {
        series.pop_front();
        assert(series@ =~= full.skip(full.len() - series@.len()));
    }
    assert(series@ =~= keep_recent(full));
}

impl Metrics {
    /// No packets counted and no samples taken.
    pub fn new() -> (m: Metrics)
        ensures
            m.current_packets == 0,
            m.current_bytes == 0,
            m.packets_series@ == Seq::<SamplePoint>::empty(),
            m.bytes_series@ == Seq::<SamplePoint>::empty(),
            m.last_packets == 0,
            m.last_bytes == 0,
            m.last_packet_bytes == 0,
    {
        Metrics {
            current_packets: 0,
            current_bytes: 0,
            packets_series: VecDeque::new(),
            bytes_series: VecDeque::new(),
            last_packets: 0,
            last_bytes: 0,
            last_packet_bytes: 0,
        }
    }

    /// Counts a received packet of `len` bytes; the counters stop at their
    /// largest value rather than wrap.
    pub fn record_packet(&mut self, len: u64)
        ensures
            final(self).current_packets == if old(self).current_packets == u64::MAX {
                u64::MAX as int
            } else {
                old(self).current_packets + 1
            },
            final(self).current_bytes == if old(self).current_bytes + len > u64::MAX {
                u64::MAX as int
            } else {
                old(self).current_bytes + len
            },
            final(self).last_packet_bytes == len,
            final(self).packets_series@ == old(self).packets_series@,
            final(self).bytes_series@ == old(self).bytes_series@,
            final(self).last_packets == old(self).last_packets,
            final(self).last_bytes == old(self).last_bytes,
    {
        self.current_packets = self.current_packets.saturating_add(1);
        self.current_bytes = self.current_bytes.saturating_add(len);
        self.last_packet_bytes = len;
    }

    /// Closes the current half second at `at_ms`: appends its rates to both
    /// series (dropping the oldest samples beyond `MAX_POINTS`), keeps its
    /// counts as the last ones and starts counting from zero.
    pub fn push_sample(&mut self, at_ms: u64)
        ensures
            final(self).packets_series@ == keep_recent(
                old(self).packets_series@.push((at_ms, (2 * old(self).current_packets) as u128)),
            ),
            final(self).bytes_series@ == keep_recent(
                old(self).bytes_series@.push((at_ms, (2 * old(self).current_bytes) as u128)),
            ),
            final(self).last_packets == old(self).current_packets,
            final(self).last_bytes == old(self).current_bytes,
            final(self).current_packets == 0,
            final(self).current_bytes == 0,
            final(self).last_packet_bytes == old(self).last_packet_bytes,
    {
        let packets: u128 = 2 * (self.current_packets as u128);
        let bytes: u128 = 2 * (self.current_bytes as u128);
        self.packets_series.push_back((at_ms, packets));
        self.bytes_series.push_back((at_ms, bytes));
        self.last_packets = self.current_packets;
        self.last_bytes = self.current_bytes;
        self.current_packets = 0;
        self.current_bytes = 0;
        trim_series(&mut self.packets_series);
        trim_series(&mut self.bytes_series);
    }

    /// The series of the given kind.
    pub fn series(&self, kind: SeriesKind) -> (s: &VecDeque<SamplePoint>)
        ensures
            s@ == match kind {
                SeriesKind::Packets => self.packets_series@,
                SeriesKind::Bytes => self.bytes_series@,
            },
    {
        match kind {
            SeriesKind::Packets => &self.packets_series,
            SeriesKind::Bytes => &self.bytes_series,
        }
    }
}

impl Default for Metrics {
    fn default() -> (m: Metrics)
        ensures
            m.current_packets == 0,
            m.current_bytes == 0,
            m.packets_series@ == Seq::<SamplePoint>::empty(),
            m.bytes_series@ == Seq::<SamplePoint>::empty(),
            m.last_packets == 0,
            m.last_bytes == 0,
            m.last_packet_bytes == 0,
    {
        Metrics::new()
    }
}

/// A series never holds more than `MAX_POINTS` samples after a sample is
/// taken, the new sample is its last element, and the samples it keeps are
/// the most recent ones in their order.
pub proof fn lemma_sample_keeps_recent(s: Seq<SamplePoint>, p: SamplePoint)
    ensures
        keep_recent(s.push(p)).len() <= MAX_POINTS,
        keep_recent(s.push(p)).last() == p,
        forall|i: int|
            0 <= i < keep_recent(s.push(p)).len() ==> #[trigger] keep_recent(s.push(p))[i] == s.push(
                p,
            )[s.push(p).len() - keep_recent(s.push(p)).len() + i],
{
}

/// The time window of a chart at `now_ms`: the last `window_ms` milliseconds,
/// never before zero, and at least up to one second.
pub open spec fn chart_window(now_ms: u64, window_ms: u64) -> (u64, u64) {
    (
        if now_ms > window_ms {
            (now_ms - window_ms) as u64
        } else {
            0
        },
        if now_ms > 1000 {
            now_ms
        } else {
            1000
        },
    )
}

/// The largest value of the samples of `s` taken within `[lo, hi]`, and at
/// least one.
pub open spec fn window_peak(s: Seq<SamplePoint>, lo: u64, hi: u64) -> nat
    decreases s.len(),
{
    if s.len() == 0 {
        1
    } else {
        let rest = window_peak(s.drop_last(), lo, hi);
        let p = s.last();
        if lo <= p.0 <= hi && p.1 > rest {
            p.1 as nat
        } else {
            rest
        }
    }
}

/// The top of the value axis for a peak: one if the peak is one, otherwise a
/// fifth above the peak, rounded up.
pub open spec fn axis_top(peak: nat) -> nat {
    if peak <= 1 {
        1
    } else {
        (6 * peak + 4) / 5
    }
}

/// The peak of a window is at least one and at least every value sampled
/// within the window, and the top of the axis is at least the peak.
pub proof fn lemma_axis_covers_window(s: Seq<SamplePoint>, lo: u64, hi: u64)
    ensures
        window_peak(s, lo, hi) >= 1,
        axis_top(window_peak(s, lo, hi)) >= window_peak(s, lo, hi),
        forall|i: int|
            0 <= i < s.len() && lo <= (#[trigger] s[i]).0 <= hi ==> s[i].1 <= window_peak(
                s,
                lo,
                hi,
            ),
    decreases s.len(),
{
    if s.len() > 0 {
        lemma_axis_covers_window(s.drop_last(), lo, hi);
        assert forall|i: int| 0 <= i < s.len() && lo <= (#[trigger] s[i]).0 <= hi implies s[i].1
            <= window_peak(s, lo, hi) by {
            if i < s.len() - 1 {
                assert(s[i] == s.drop_last()[i]);
            }
        }
    }
}

/// The time window of a chart drawn at `now_ms`.
pub fn chart_time_bounds(now_ms: u64, window_ms: u64) -> (r: (u64, u64))
    ensures
        r == chart_window(now_ms, window_ms),
{
    let lo = now_ms.saturating_sub(window_ms);
    let hi = if now_ms > 1000 {
        now_ms
    } else {
        1000
    };
    (lo, hi)
}

/// The top of the value axis of a chart of `points` over the window
/// `[lo, hi]` (the largest `u128` where the exact top would not fit).
pub fn chart_value_top(points: &VecDeque<SamplePoint>, lo: u64, hi: u64) -> (top: u128)
    ensures
        top == if axis_top(window_peak(points@, lo, hi)) > u128::MAX {
            u128::MAX as nat
        } else {
            axis_top(window_peak(points@, lo, hi))
        },
{
    let mut peak: u128 = 1;
    let mut i: usize = 0;
    while i < points.len()
        invariant
            i <= points@.len(),
            peak == window_peak(points@.take(i as int), lo, hi),
            peak >= 1,
        decreases points@.len() - i,
    {
        let (x, y) = points[i];
        assert(points@.take(i + 1).drop_last() =~= points@.take(i as int));
        if lo <= x && x <= hi && y > peak {
            peak = y;
        }
        i = i + 1;
    }
    assert(points@.take(points@.len() as int) =~= points@);
    if peak <= 1 {
        1
    } else {
        let fifth: u128 = if peak % 5 == 0 {
            peak / 5
        } else {
            peak / 5 + 1
        };
        assert((6 * peak + 4) / 5 == peak + fifth) by (nonlinear_arith)
            requires
                peak % 5 == 0 ==> fifth == peak / 5,
                peak % 5 != 0 ==> fifth == peak / 5 + 1,
        ;
        match peak.checked_add(fifth) {
            Some(top) => top,
            None => u128::MAX,
        }
    }
}

} // verus!
