use rrdt::congestion::{NewReno, NewRenoConfig, RttEstimator};

#[test]
fn initial_window_is_clamped() {
    assert_eq!(NewRenoConfig::default().initial_window, 12000);
    let c = NewReno::default_at(0);
    assert_eq!(c.window(), 12000);
    assert_eq!(c.initial_window(), 12000);
    assert_eq!(c.minimum_window(), 2400);
}

#[test]
fn slow_start_grows_by_acked_bytes() {
    let mut c = NewReno::default_at(100);
    c.on_ack(50, 1000);
    assert_eq!(c.window(), 12000);
    c.on_ack(200, 1000);
    assert_eq!(c.window(), 13000);
    c.on_ack(300, 1200);
    assert_eq!(c.window(), 14200);
}

#[test]
fn loss_halves_window_with_floor() {
    let mut c = NewReno::default_at(0);
    c.on_loss(500, 10, 1200);
    assert_eq!(c.window(), 6000);
    assert_eq!(c.ssthresh, 6000);
    assert_eq!(c.recovery_start_time, 500);
    c.on_loss(600, 400, 1200);
    assert_eq!(c.window(), 6000);
    c.on_loss(700, 501, 1200);
    assert_eq!(c.window(), 3000);
    c.on_loss(800, 701, 1200);
    assert_eq!(c.window(), 2400);
    c.on_loss(900, 801, 1200);
    assert!(c.window() >= 2 * 1200);
}

#[test]
fn congestion_avoidance_adds_a_datagram_per_window() {
    let mut c = NewReno::default_at(0);
    c.on_loss(10, 5, 0);
    assert_eq!(c.window(), 6000);
    c.on_ack(20, 5000);
    assert_eq!(c.window(), 6000);
    assert_eq!(c.bytes_acked, 5000);
    c.on_ack(30, 1500);
    assert_eq!(c.window(), 7200);
    assert_eq!(c.bytes_acked, 500);
    c.on_ack(40, 20000);
    assert_eq!(c.window(), 9600);
    assert_eq!(c.bytes_acked, 20500 - 7200 - 8400);
}

#[test]
fn rtt_estimator_samples() {
    let mut e = RttEstimator::new(100_000);
    assert_eq!(e.rtt(), 333_000);
    assert_eq!(e.rto(), 333_000 + 4 * 166_500 + 100_000);
    e.update(0, 100_000);
    assert_eq!(e.rtt(), 100_000);
    assert_eq!(e.var, 50_000);
    assert_eq!(e.min, 100_000);
    e.update(10_000, 120_000);
    assert_eq!(e.min, 100_000);
    assert_eq!(e.var, (3 * 50_000 + 10_000) / 4);
    assert_eq!(e.rtt(), (7 * 100_000 + 110_000) / 8);
    e.update(50_000, 120_000);
    assert_eq!(e.latest, 120_000);
    assert_eq!(e.rtt(), (7 * 101_250 + 120_000) / 8);
    assert_eq!(e.rto(), e.rtt() + 4 * e.var + 100_000);
}
