//! How many requests the client lets go unanswered before it waits for the
//! answers (the burst limit), and how that limit adapts to the connection.
//!
//! The rules scale the limit by 3/4, 6/5 and 7/10.  The client computes them
//! in double precision; the functions here give the same integers (the tests
//! compare them with the double-precision products for every limit up to
//! `MAX_BURST_LIMIT`).
use vstd::prelude::*;

verus! {

/// The burst limit at the start of a benchmark.
pub const INITIAL_BURST_LIMIT: u64 = 10;

/// The burst limit never grows beyond this.
pub const MAX_BURST_LIMIT: u64 = 100_000;

/// A gap without answers longer than this (in milliseconds) lowers the limit.
pub const SLOW_REPLY_GAP_MS: u64 = 500;

/// The limit only grows while answers come within this gap (in milliseconds).
pub const FAST_REPLY_GAP_MS: u64 = 300;

/// The limit only grows after this many samples in a row with nothing
/// outstanding.
pub const CALM_SAMPLES: usize = 4;

/// Three quarters of `b`, rounded down, but at least one; never more than `b`.
pub open spec fn reduced_limit(b: nat) -> nat {
    let n: nat = if 3 * b / 4 >= 1 {
        3 * b / 4
    } else {
        1
    };
    if n < b {
        n
    } else {
        b
    }
}

/// Six fifths of `b`, rounded up, but at most `MAX_BURST_LIMIT`.
pub open spec fn raised_limit(b: nat) -> nat {
    if (6 * b + 4) / 5 > MAX_BURST_LIMIT {
        MAX_BURST_LIMIT as nat
    } else {
        (6 * b + 4) / 5
    }
}

/// The largest power of two that is at most `n` (one for zero).
pub open spec fn pow2_floor(n: nat) -> nat
    decreases n,
{
    if n <= 1 {
        1
    } else {
        2 * pow2_floor(n / 2)
    }
}

/// Seven tenths of `b` as the client computes it: `b * 0.7` in double
/// precision, truncated.  The product falls just below the exact value, and
/// truncation then loses one, exactly when `b` is a multiple of ten whose
/// exact seven tenths `n` lies above 7/4 of the power of two below it.
pub open spec fn decayed_limit(b: nat) -> nat {
    let n = 7 * b / 10;
    if b % 10 == 0 && n >= 1 && 4 * n > 7 * pow2_floor(n) {
        (n - 1) as nat
    } else {
        n
    }
}

/// Whether, at a sample, the limit is lowered: the backlog grew beyond a
/// third of the limit, or answers stopped for longer than `SLOW_REPLY_GAP_MS`.
pub open spec fn congested(b: nat, outstanding: nat, last_outstanding: nat, gap_ms: nat) -> bool {
    (outstanding > last_outstanding && outstanding > (if b / 3 >= 1 {
        b / 3
    } else {
        1
    })) || gap_ms > SLOW_REPLY_GAP_MS
}

/// The limit after a sample: lowered under congestion, raised after
/// `CALM_SAMPLES` calm samples in a row while answers come quickly, else kept.
pub open spec fn adapted_limit(
    b: nat,
    outstanding: nat,
    last_outstanding: nat,
    calm_samples: nat,
    gap_ms: nat,
) -> nat {
    if congested(b, outstanding, last_outstanding, gap_ms) {
        reduced_limit(b)
    } else if calm_samples >= CALM_SAMPLES && b < MAX_BURST_LIMIT && gap_ms < FAST_REPLY_GAP_MS {
        raised_limit(b)
    } else {
        b
    }
}

/// Lowers the limit under congestion.
pub fn reduce_burst_limit(b: u64) -> (r: u64)
    ensures
        r == reduced_limit(b as nat),
{
    let n: u64 = if b / 4 * 3 + b % 4 * 3 / 4 >= 1 {
        b / 4 * 3 + b % 4 * 3 / 4
    } else {
        1
    };
    assert(b / 4 * 3 + b % 4 * 3 / 4 == 3 * b / 4) by (nonlinear_arith);
    if n < b {
        n
    } else {
        b
    }
}

/// Raises the limit after calm samples.
pub fn raise_burst_limit(b: u64) -> (r: u64)
    ensures
        r == raised_limit(b as nat),
{
    let n: u128 = (6 * (b as u128) + 4) / 5;
    if n > MAX_BURST_LIMIT as u128 {
        MAX_BURST_LIMIT
    } else {
        n as u64
    }
}

/// The largest power of two that is at most `n` (one for zero).
fn power_of_two_below(n: u64) -> (p: u64)
    ensures
        p == pow2_floor(n as nat),
{
    let mut m: u64 = n;
    let mut p: u64 = 1;
    while m > 1
        invariant
            pow2_floor(n as nat) == p * pow2_floor(m as nat),
            p >= 1,
            p * m <= n,
        decreases m,
    {
        assert(pow2_floor(m as nat) == 2 * pow2_floor((m / 2) as nat));
        assert(p * 2 <= p * 2 * (m / 2) <= p * m) by (nonlinear_arith)
            requires
                p >= 1,
                m >= 2,
        ;
        assert(p * pow2_floor(m as nat) == (p * 2) * pow2_floor((m / 2) as nat)) by (
        nonlinear_arith)
            requires
                pow2_floor(m as nat) == 2 * pow2_floor((m / 2) as nat),
        ;
        p = p * 2;
        m = m / 2;
    }
    assert(pow2_floor(m as nat) == 1);
    assert(p * pow2_floor(m as nat) == p) by (nonlinear_arith)
        requires
            pow2_floor(m as nat) == 1,
    ;
    p
}

/// The limit for the next payload size: seven tenths of the limit, as the
/// client computes it.
pub fn decay_burst_limit(b: u64) -> (r: u64)
    ensures
        r == decayed_limit(b as nat),
{
    let n: u64 = b / 10 * 7 + b % 10 * 7 / 10;
    assert(b / 10 * 7 + b % 10 * 7 / 10 == 7 * b / 10) by (nonlinear_arith);
    if b % 10 == 0 && n >= 1 {
        let p = power_of_two_below(n);
        if (n as u128) * 4 > (p as u128) * 7 {
            return n - 1;
        }
    }
    n
}

/// The limit after a sample.
pub fn adapt_burst_limit(
    b: u64,
    outstanding: u64,
    last_outstanding: u64,
    calm_samples: usize,
    gap_ms: u64,
) -> (r: u64)
    ensures
        r == adapted_limit(
            b as nat,
            outstanding as nat,
            last_outstanding as nat,
            calm_samples as nat,
            gap_ms as nat,
        ),
{
    let third: u64 = if b / 3 >= 1 {
        b / 3
    } else {
        1
    };
    if (outstanding > last_outstanding && outstanding > third) || gap_ms > SLOW_REPLY_GAP_MS {
        reduce_burst_limit(b)
    } else if calm_samples >= CALM_SAMPLES && b < MAX_BURST_LIMIT && gap_ms < FAST_REPLY_GAP_MS {
        raise_burst_limit(b)
    } else {
        b
    }
}

/// Every rule keeps the limit within `MAX_BURST_LIMIT`; lowering never
/// raises it and leaves at least one when there was one; raising never lowers
/// it and raises a limit between one and the maximum; decay never raises it.
pub proof fn lemma_limit_rules(b: nat)
    ensures
        reduced_limit(b) <= b,
        b >= 1 ==> reduced_limit(b) >= 1,
        b < MAX_BURST_LIMIT ==> b <= raised_limit(b) <= MAX_BURST_LIMIT,
        1 <= b < MAX_BURST_LIMIT ==> raised_limit(b) > b,
        decayed_limit(b) <= b,
{
}

/// The adapted limit stays within `MAX_BURST_LIMIT` when the limit was.
pub proof fn lemma_adapted_within_max(b: nat, o: nat, lo: nat, calm: nat, gap: nat)
    requires
        b <= MAX_BURST_LIMIT,
    ensures
        adapted_limit(b, o, lo, calm, gap) <= MAX_BURST_LIMIT,
{
}


/// The limit is lowered only under congestion: when the backlog has not grown
/// since the last sample and answers came within `SLOW_REPLY_GAP_MS`, the
/// adapted limit is never below the limit.  When the backlog grew beyond a
/// third of the limit (at least one), or answers stopped for longer than
/// `SLOW_REPLY_GAP_MS`, the limit is never raised, and a limit of two or more
/// is lowered.
pub proof fn lemma_lowered_only_under_congestion(
    b: nat,
    outstanding: nat,
    last_outstanding: nat,
    calm: nat,
    gap: nat,
)
    ensures
        outstanding <= last_outstanding && gap <= SLOW_REPLY_GAP_MS ==> adapted_limit(
            b,
            outstanding,
            last_outstanding,
            calm,
            gap,
        ) >= b,
        ((outstanding > last_outstanding && outstanding > b / 3 && outstanding >= 2)
            || gap > SLOW_REPLY_GAP_MS) ==> adapted_limit(b, outstanding, last_outstanding, calm, gap)
            <= b,
        ((outstanding > last_outstanding && outstanding > b / 3 && outstanding >= 2)
            || gap > SLOW_REPLY_GAP_MS) && b >= 2 ==> adapted_limit(
            b,
            outstanding,
            last_outstanding,
            calm,
            gap,
        ) < b,
{
}

/// The limit is raised only after `CALM_SAMPLES` calm samples in a row with
/// answers coming within `FAST_REPLY_GAP_MS`, and then, from below the
/// maximum, to six fifths rounded up, at most the maximum.
pub proof fn lemma_raised_only_when_calm(
    b: nat,
    outstanding: nat,
    last_outstanding: nat,
    calm: nat,
    gap: nat,
)
    ensures
        adapted_limit(b, outstanding, last_outstanding, calm, gap) > b ==> calm >= CALM_SAMPLES
            && gap < FAST_REPLY_GAP_MS && b < MAX_BURST_LIMIT,
        outstanding <= last_outstanding && gap < FAST_REPLY_GAP_MS && calm >= CALM_SAMPLES && b
            < MAX_BURST_LIMIT ==> adapted_limit(b, outstanding, last_outstanding, calm, gap) == if (6
            * b + 4) / 5 > MAX_BURST_LIMIT {
            MAX_BURST_LIMIT as nat
        } else {
            (6 * b + 4) / 5
        },
{
}

} // verus!
