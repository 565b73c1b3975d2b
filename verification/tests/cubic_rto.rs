//! Congestion controller and retransmission-timeout estimator behavior.

use ucp::cubic::{icbrt, iw, Cubic};
use ucp::send::Rto;

#[test]
fn initial_window_depends_on_mtu() {
    assert_eq!(iw(1400), 3);
    assert_eq!(iw(1096), 3);
    assert_eq!(iw(1095), 4);
    assert_eq!(iw(576), 4);
}

#[test]
fn slow_start_grows_one_per_ack() {
    let mut c = Cubic::new(1400);
    assert_eq!(c.cwnd, 3);
    for i in 0..10u64 {
        c.on_ack(1, 100, i * 100);
    }
    assert_eq!(c.cwnd, 13);
}

#[test]
fn congestion_event_halves_to_beta() {
    let mut c = Cubic::new(1400);
    // grow to 20 in slow start
    c.on_ack(17, 100, 0);
    assert_eq!(c.cwnd, 20);
    c.on_congestion_event(1, false, 1000);
    // wmax = 20, ssthresh = max(20 * 0.7, 2) = 14
    assert_eq!(c.ssthresh, 14);
    assert_eq!(c.cwnd, 14);
}

#[test]
fn persistent_congestion_collapses_to_min_window() {
    let mut c = Cubic::new(1400);
    c.on_ack(17, 100, 0);
    c.on_congestion_event(1, true, 1000);
    assert_eq!(c.cwnd, 2);
}

#[test]
fn stale_loss_is_ignored() {
    let mut c = Cubic::new(1400);
    c.on_ack(17, 100, 0);
    c.on_congestion_event(1, false, 1000);
    let w = c.cwnd;
    // a loss sent before the last reduction belongs to the old episode
    c.on_congestion_event(500, false, 2000);
    assert_eq!(c.cwnd, w);
}

#[test]
fn integer_cube_root() {
    assert_eq!(icbrt(0), 0);
    assert_eq!(icbrt(7), 1);
    assert_eq!(icbrt(8), 2);
    assert_eq!(icbrt(1000000), 100);
    assert_eq!(icbrt(1000000000000000000), 1000000);
}

#[test]
fn rto_first_sample_is_three_rtts_clamped() {
    let mut r = Rto::new();
    assert_eq!(r.rto_ms, 1000);
    r.compute(600);
    // srtt = 600, rttvar = 300, rto = 600 + 4*300 = 1800
    assert_eq!(r.rto_ms, 1800);

    let mut r = Rto::new();
    r.compute(10);
    // 3 * 10 ms clamps up to the minimum of one second
    assert_eq!(r.rto_ms, 1000);

    let mut r = Rto::new();
    r.compute(60000);
    // clamps down to the maximum of ten seconds
    assert_eq!(r.rto_ms, 10000);
}

#[test]
fn rto_stays_in_bounds_for_any_samples() {
    let mut r = Rto::new();
    for rtt in [0u64, 1, 5, 100000, 3, 999999999, 42] {
        r.compute(rtt);
        assert!(r.rto_ms >= 1000 && r.rto_ms <= 10000);
    }
}

#[test]
fn rto_smooths_later_samples() {
    let mut r = Rto::new();
    r.compute(800);
    r.compute(1600);
    // rttvar = (3*400 + 800)/4 = 500, srtt = (7*800 + 1600)/8 = 900
    assert_eq!(r.srtt_ms, 900);
    assert_eq!(r.rttvar_ms, 500);
    assert_eq!(r.rto_ms, 900 + 4 * 500);
}
