use ws_bench::burst::{
    adapt_burst_limit, decay_burst_limit, raise_burst_limit, reduce_burst_limit,
    INITIAL_BURST_LIMIT, MAX_BURST_LIMIT,
};

#[test]
fn reduce_matches_double_precision_for_every_limit() {
    for b in 0..=MAX_BURST_LIMIT {
        let expected = ((b as f64) * 0.75).max(1.0) as u64;
        let expected = if expected < b { expected } else { b };
        assert_eq!(reduce_burst_limit(b), expected, "limit {}", b);
    }
}

#[test]
fn raise_matches_double_precision_for_every_limit() {
    for b in 0..MAX_BURST_LIMIT {
        let mut expected = ((b as f64) * 1.2).ceil() as u64;
        if expected > MAX_BURST_LIMIT {
            expected = MAX_BURST_LIMIT;
        }
        assert_eq!(raise_burst_limit(b), expected, "limit {}", b);
    }
}

#[test]
fn decay_matches_double_precision_for_every_limit() {
    for b in 0..=MAX_BURST_LIMIT {
        assert_eq!(decay_burst_limit(b), ((b as f64) * 0.7) as u64, "limit {}", b);
    }
}

#[test]
fn decay_loses_one_where_the_product_falls_short() {
    assert_eq!(decay_burst_limit(90), 62);
    assert_eq!(decay_burst_limit(100), 70);
    assert_eq!(decay_burst_limit(10), 7);
    assert_eq!(decay_burst_limit(1), 0);
    assert_eq!(decay_burst_limit(INITIAL_BURST_LIMIT), 7);
}

#[test]
fn adapt_lowers_on_growing_backlog() {
    // backlog 5 grew from 2 and exceeds a third of 12
    assert_eq!(adapt_burst_limit(12, 5, 2, 0, 0), 9);
    // backlog grew but is within a third
    assert_eq!(adapt_burst_limit(12, 4, 2, 0, 0), 12);
}

#[test]
fn adapt_lowers_on_slow_answers() {
    assert_eq!(adapt_burst_limit(100, 0, 0, 10, 501), 75);
    assert_eq!(adapt_burst_limit(1, 0, 0, 0, 501), 1);
    assert_eq!(adapt_burst_limit(100, 0, 0, 0, 500), 100);
}

#[test]
fn adapt_raises_after_calm_samples() {
    assert_eq!(adapt_burst_limit(10, 0, 0, 4, 0), 12);
    assert_eq!(adapt_burst_limit(10, 0, 0, 3, 0), 10);
    assert_eq!(adapt_burst_limit(10, 0, 0, 4, 300), 10);
    assert_eq!(adapt_burst_limit(99_999, 0, 0, 4, 0), MAX_BURST_LIMIT);
    assert_eq!(adapt_burst_limit(MAX_BURST_LIMIT, 0, 0, 4, 0), MAX_BURST_LIMIT);
    assert_eq!(adapt_burst_limit(0, 0, 0, 4, 0), 0);
}
