//! CUBIC congestion controller.
//!
//! The controller follows the standard CUBIC equations with `beta = 0.7`
//! and `C = 0.4`.  All quantities are integers: window sizes in hundredths
//! of a window (`*_c` values), times in milliseconds.  `W_max * (1+beta)/2`
//! becomes `wmax_c * 85 / 100`, `W_max * beta` becomes `wmax_c * 7 / 10`,
//! `K = cbrt(W_max (1-beta) / C)` seconds becomes
//! `cbrt(wmax_c * 7_500_000)` milliseconds, and
//! `W_cubic(t) = C (t-K)^3 + W_max` becomes
//! `wmax_c +- 40 |t-K|^3 / 10^9` hundredths.

use vstd::prelude::*;

verus! {

/// Sessions never shrink below two datagrams in flight.
pub const MIN_WINDOW: u32 = 2;

/// The cube-term excursion is clamped at this many milliseconds from `K`.
pub const CUBE_CLAMP_MS: u64 = 1000000000;

/// Initial congestion window for the negotiated MTU.
pub open spec fn spec_iw(mtu: u16) -> u32 {
    if mtu > 1095 {
        3
    } else {
        4
    }
}

pub fn iw(mtu: u16) -> (r: u32)
    ensures
        r == spec_iw(mtu),
{
    if mtu > 1095 {
        return 3;
    }
    4
}

/// `max(0, a - b)`.
pub open spec fn sat_sub(a: int, b: int) -> int {
    if a >= b {
        a - b
    } else {
        0
    }
}

/// `|t - k|` clamped to `CUBE_CLAMP_MS`.
pub open spec fn spec_cube_dist(t: int, k: int) -> int {
    let d = if t >= k {
        t - k
    } else {
        k - t
    };
    if d > CUBE_CLAMP_MS {
        CUBE_CLAMP_MS as int
    } else {
        d
    }
}

/// The cube term `C |d|^3` in hundredths of a window, `d` in milliseconds.
pub open spec fn spec_cube_term(dn: int) -> int {
    40 * dn * dn * dn / 1000000000
}

/// `W_cubic(t)` in hundredths of a window: `wmax_c + 40 (t-k)^3 / 10^9`,
/// with the excursion from `K` clamped.
pub open spec fn spec_w_cubic_c(wmax_c: int, k_ms: int, t: int) -> int {
    if t >= k_ms {
        wmax_c + spec_cube_term(spec_cube_dist(t, k_ms))
    } else {
        wmax_c - spec_cube_term(spec_cube_dist(t, k_ms))
    }
}

/// `W_est(t)` in hundredths of a window:
/// `wmax_c * 0.7 + (9/17) * (t / rtt)` windows; a zero round-trip sample is
/// treated as one millisecond.
pub open spec fn spec_w_est_c(wmax_c: int, t: int, rtt: int) -> int {
    let r = if rtt < 1 {
        1
    } else {
        rtt
    };
    wmax_c * 7 / 10 + 900 * t / (17 * r)
}

/// New `wmax_c` on a congestion event: fast convergence halves the way
/// down when the window never regained the old maximum.
pub open spec fn spec_new_wmax_c(cwnd: u32, wmax_c: u64) -> int {
    if (cwnd as int) * 100 < wmax_c {
        (cwnd as int) * 85
    } else {
        (cwnd as int) * 100
    }
}

/// `max(wmax_c * beta, min_window)` in whole windows.
pub open spec fn spec_new_ssthresh(wmax_c: int, min_window: u32) -> int {
    let t = wmax_c * 7 / 1000;
    if t > min_window {
        t
    } else {
        min_window as int
    }
}

/// CUBIC state.  `cwnd` and `ssthresh` are in whole datagrams, `wmax_c`
/// in hundredths of a datagram, `k_ms` in milliseconds.
pub struct Cubic {
    pub min_window: u32,
    pub wmax_c: u64,
    pub k_ms: u64,
    pub cwnd: u32,
    pub cwnd_inc: u32,
    pub ssthresh: u32,
    pub last_reduction_ms: Option<u64>,
}

/// Integer cube root: the largest `r` with `r^3 <= x`.
pub fn icbrt(x: u64) -> (r: u64)
    ensures
        (r as int) * (r as int) * (r as int) <= x,
        ((r + 1) as int) * ((r + 1) as int) * ((r + 1) as int) > x,
{
    let mut lo: u64 = 0;
    let mut hi: u64 = 2642246;
    proof {
        assert((2642246int) * 2642246 * 2642246 > u64::MAX);
    }
    while lo + 1 < hi
        invariant
            lo < hi <= 2642246,
            (lo as int) * (lo as int) * (lo as int) <= x,
            (hi as int) * (hi as int) * (hi as int) > x,
        decreases hi - lo,
    {
        let mid = lo + (hi - lo) / 2;
        proof {
            assert((mid as int) * (mid as int) <= 2642246 * 2642246 && (mid as int) * (
            mid as int) * (mid as int) <= 2642246 * 2642246 * 2642246) by (nonlinear_arith)
                requires
                    mid <= 2642246,
            ;
        }
        let cube: u128 = (mid as u128) * (mid as u128) * (mid as u128);
        if cube <= x as u128 {
            lo = mid;
        } else {
            hi = mid;
        }
    }
    lo
}

impl Cubic {
    /// State after a congestion event: the reduction applied to `old`, with
    /// `sent_ms` the send time of the lost datagram and `now_ms` the clock.
    /// `K` is left abstract here; `on_congestion_event` pins it as the cube
    /// root the doc above describes.
    pub open spec fn spec_reduced(old: Cubic, persistent: bool, now_ms: u64) -> Cubic {
        let wmax2 = spec_new_wmax_c(old.cwnd, old.wmax_c);
        let ss2 = spec_new_ssthresh(wmax2, old.min_window);
        let base = Cubic {
            min_window: old.min_window,
            wmax_c: wmax2 as u64,
            k_ms: old.k_ms,  // pinned separately
            cwnd: ss2 as u32,
            cwnd_inc: (old.cwnd_inc * 7 / 10) as u32,
            ssthresh: ss2 as u32,
            last_reduction_ms: Some(now_ms),
        };
        if persistent {
            Cubic {
                wmax_c: ((base.cwnd as int) * 100) as u64,
                ssthresh: spec_new_ssthresh((base.cwnd as int) * 100, old.min_window) as u32,
                cwnd: old.min_window,
                cwnd_inc: 0,
                last_reduction_ms: None,
                ..base
            }
        } else {
            base
        }
    }

    pub open spec fn wf(self) -> bool {
        &&& self.min_window == MIN_WINDOW
        &&& self.cwnd >= 1
        &&& self.wmax_c <= 0x6400000000
    }

    pub fn new(mtu: u16) -> (r: Cubic)
        ensures
            r.wf(),
            r.cwnd == spec_iw(mtu),
            r.ssthresh == u32::MAX,
            r.cwnd_inc == 0,
            r.wmax_c == 0,
            r.last_reduction_ms is None,
    {
        Cubic {
            min_window: MIN_WINDOW,
            wmax_c: 0,
            k_ms: 0,
            cwnd: iw(mtu),
            cwnd_inc: 0,
            ssthresh: u32::MAX,
            last_reduction_ms: None,
        }
    }

    /// Window reduction on packet loss.  Ignored when the lost datagram was
    /// sent before the latest reduction (it belongs to the old episode).
    /// On a reduction: `wmax` is updated (with fast convergence),
    /// `ssthresh = max(wmax * beta, min_window)`, the window collapses to
    /// `ssthresh`, and `K` is recomputed.  Persistent congestion resets the
    /// controller to `min_window`.
    /// Relation between the states before and after `on_congestion_event`.
    pub open spec fn on_congestion_post(
        pre: Cubic,
        post: Cubic,
        sent_ms: u64,
        persistent: bool,
        now_ms: u64,
    ) -> bool {
        &&& post.wf()
        &&& (pre.last_reduction_ms matches Some(t) && sent_ms <= t) ==> post == pre
        &&& !(pre.last_reduction_ms matches Some(t) && sent_ms <= t) ==> {
            let target = Cubic::spec_reduced(pre, persistent, now_ms);
            &&& post.min_window == target.min_window
            &&& post.wmax_c == target.wmax_c
            &&& post.cwnd == target.cwnd
            &&& post.cwnd_inc == target.cwnd_inc
            &&& post.ssthresh == target.ssthresh
            &&& post.last_reduction_ms == target.last_reduction_ms
            &&& (post.k_ms as int) * (post.k_ms as int) * (post.k_ms as int) <= spec_new_wmax_c(
                pre.cwnd,
                pre.wmax_c,
            ) * 7500000
            &&& ((post.k_ms + 1) as int) * ((post.k_ms + 1) as int) * ((post.k_ms + 1) as int)
                > spec_new_wmax_c(pre.cwnd, pre.wmax_c) * 7500000
            &&& post.cwnd >= post.min_window
            &&& !persistent ==> post.cwnd == post.ssthresh
            &&& persistent ==> post.cwnd == post.min_window
        }
    }

    pub fn on_congestion_event(&mut self, sent_ms: u64, persistent: bool, now_ms: u64)
        requires
            old(self).wf(),
        ensures
            final(self).wf(),
            Cubic::on_congestion_post(*old(self), *final(self), sent_ms, persistent, now_ms),
    {
        match self.last_reduction_ms {
            Some(t) => {
                if sent_ms <= t {
                    return ;
                }
            },
            None => {},
        }
        self.last_reduction_ms = Some(now_ms);

        let new_wmax: u64 = if (self.cwnd as u64) * 100 < self.wmax_c {
            (self.cwnd as u64) * 85
        } else {
            (self.cwnd as u64) * 100
        };
        self.wmax_c = new_wmax;

        let ss64: u64 = new_wmax * 7 / 1000;
        let ss: u32 = if ss64 > (self.min_window as u64) {
            proof {
                assert(ss64 <= u32::MAX);
            }
            ss64 as u32
        } else {
            self.min_window
        };
        self.ssthresh = ss;
        self.cwnd = ss;
        self.k_ms = icbrt(new_wmax * 7500000);
        let ghost ci = self.cwnd_inc;
        self.cwnd_inc = self.cwnd_inc / 10 * 7 + self.cwnd_inc % 10 * 7 / 10;
        proof {
            assert(ci / 10 * 7 + ci % 10 * 7 / 10 == ci * 7 / 10) by (nonlinear_arith);
        }

        if persistent {
            self.last_reduction_ms = None;
            self.wmax_c = (self.cwnd as u64) * 100;
            let ss64p: u64 = self.wmax_c * 7 / 1000;
            self.ssthresh = if ss64p > (self.min_window as u64) {
                proof {
                    assert(ss64p <= u32::MAX);
                }
                ss64p as u32
            } else {
                self.min_window
            };
            self.cwnd_inc = 0;
            self.cwnd = self.min_window;
        }
    }

    /// Relation between the states before and after `on_ack`.
    pub open spec fn on_ack_post(pre: Cubic, post: Cubic, ack_cnt: u32, rtt_ms: u64, now_ms: u64) -> bool {
        &&& post.wf()
        &&& post.min_window == pre.min_window
        &&& post.ssthresh == pre.ssthresh
        &&& pre.cwnd < pre.ssthresh ==> post.cwnd == (
        if pre.cwnd + ack_cnt <= u32::MAX {
            (pre.cwnd + ack_cnt) as u32
        } else {
            u32::MAX
        }) && post.cwnd_inc == pre.cwnd_inc && post.wmax_c == pre.wmax_c
            && post.last_reduction_ms == pre.last_reduction_ms && post.k_ms == pre.k_ms
        &&& pre.cwnd >= pre.ssthresh ==> {
            // congestion avoidance: the curve parameters in force
            let started = pre.last_reduction_ms is Some;
            let base_wmax = if started {
                pre.wmax_c as int
            } else {
                (pre.cwnd as int) * 100
            };
            let base_k = if started {
                pre.k_ms as int
            } else {
                0
            };
            let t0 = if started {
                pre.last_reduction_ms->0
            } else {
                now_ms
            };
            let t = sat_sub(now_ms as int, t0 as int);
            let wc = spec_w_cubic_c(base_wmax, base_k, t + rtt_ms);
            let we = spec_w_est_c(base_wmax, t, rtt_ms as int);
            let cwnd = pre.cwnd as int;
            let target = if wc < we {
                // TCP-friendly region
                let est = if we / 100 > u32::MAX {
                    u32::MAX as int
                } else {
                    we / 100
                };
                if est > cwnd {
                    est
                } else {
                    cwnd
                }
            } else if cwnd * 100 < wc {
                // concave and convex regions use the same increment
                let sum = cwnd + (wc - cwnd * 100) / (cwnd * 100);
                if sum > u32::MAX {
                    u32::MAX as int
                } else {
                    sum
                }
            } else {
                cwnd
            };
            let inc2 = if pre.cwnd_inc + (target - cwnd) > u32::MAX {
                u32::MAX as int
            } else {
                pre.cwnd_inc + (target - cwnd)
            };
            &&& post.wmax_c == base_wmax
            &&& post.k_ms == base_k
            &&& post.last_reduction_ms == Some(t0)
            &&& post.cwnd == (if inc2 >= 1 {
                if cwnd < u32::MAX {
                    (cwnd + 1) as u32
                } else {
                    u32::MAX
                }
            } else {
                pre.cwnd
            })
            &&& post.cwnd_inc == (if inc2 >= 1 {
                0int
            } else {
                inc2
            })
        }
    }

    /// Window growth on an acknowledgement.  Below `ssthresh` the window
    /// grows by one per acknowledged datagram (slow start).  Above it the
    /// window follows the cubic curve, raised to the TCP-friendly estimate
    /// when that is larger, growing by at most one datagram per call.
    #[verifier::rlimit(80)]
    pub fn on_ack(&mut self, ack_cnt: u32, rtt_ms: u64, now_ms: u64)
        requires
            old(self).wf(),
        ensures
            final(self).wf(),
            Cubic::on_ack_post(*old(self), *final(self), ack_cnt, rtt_ms, now_ms),
    {
        if self.cwnd < self.ssthresh {
            // slow start
            if ack_cnt <= u32::MAX - self.cwnd {
                self.cwnd = self.cwnd + ack_cnt;
            } else {
                self.cwnd = u32::MAX;
            }
            return ;
        }
        let t0: u64 = match self.last_reduction_ms {
            Some(t) => t,
            None => {
                // entering congestion avoidance without a recorded episode:
                // anchor the curve at the current window, now
                self.last_reduction_ms = Some(now_ms);
                self.wmax_c = (self.cwnd as u64) * 100;
                self.k_ms = 0;
                now_ms
            },
        };
        let t: u64 = if now_ms >= t0 {
            now_ms - t0
        } else {
            0
        };

        // W_cubic(t + rtt), in hundredths of a window
        let tr: u128 = t as u128 + rtt_ms as u128;
        let dist: u64 = if tr >= self.k_ms as u128 {
            let d = tr - self.k_ms as u128;
            if d > CUBE_CLAMP_MS as u128 {
                CUBE_CLAMP_MS
            } else {
                d as u64
            }
        } else {
            let d = self.k_ms - (tr as u64);
            if d > CUBE_CLAMP_MS {
                CUBE_CLAMP_MS
            } else {
                d
            }
        };
        proof {
            assert((dist as int) * (dist as int) <= 1000000000 * 1000000000 && (dist as int) * (
            dist as int) * (dist as int) <= 1000000000 * 1000000000 * 1000000000)
                by (nonlinear_arith)
                requires
                    dist <= 1000000000,
            ;
        }
        let cube: u128 = (dist as u128) * (dist as u128) * (dist as u128);
        let term: u128 = 40 * cube / 1000000000;
        let w_cubic: i128 = if tr >= self.k_ms as u128 {
            (self.wmax_c as i128) + (term as i128)
        } else {
            (self.wmax_c as i128) - (term as i128)
        };

        // W_est(t), in hundredths of a window
        let rtt1: u64 = if rtt_ms < 1 {
            1
        } else {
            rtt_ms
        };
        let w_est_wide: u128 = (self.wmax_c as u128) * 7 / 10 + 900 * (t as u128) / (17 * (
        rtt1 as u128));
        let w_est: i128 = w_est_wide as i128;

        let cwnd_c: i128 = (self.cwnd as i128) * 100;
        let mut cubic_cwnd: u32 = self.cwnd;
        if w_cubic < w_est {
            // TCP-friendly region
            let est_w: u128 = w_est_wide / 100;
            let est_c: u32 = if est_w >= u32::MAX as u128 {
                u32::MAX
            } else {
                est_w as u32
            };
            if est_c > cubic_cwnd {
                cubic_cwnd = est_c;
            }
        } else if cwnd_c < w_cubic {
            // concave and convex regions use the same increment
            let inc: i128 = (w_cubic - cwnd_c) / cwnd_c;
            let sum: i128 = (cubic_cwnd as i128) + inc;
            cubic_cwnd = if sum >= u32::MAX as i128 {
                u32::MAX
            } else {
                sum as u32
            };
        }

        proof {
            let started = old(self).last_reduction_ms is Some;
            let base_wmax = if started { old(self).wmax_c as int } else { (old(self).cwnd as int) * 100 };
            let base_k = if started { old(self).k_ms as int } else { 0int };
            let gt0 = if started { old(self).last_reduction_ms->0 } else { now_ms };
            let gt = sat_sub(now_ms as int, gt0 as int);
            assert(t == gt);
            assert(tr == gt + rtt_ms);
            assert(self.wmax_c == base_wmax && self.k_ms == base_k);
            let wc = spec_w_cubic_c(base_wmax, base_k, gt + rtt_ms);
            let we = spec_w_est_c(base_wmax, gt, rtt_ms as int);
            assert(dist == spec_cube_dist(gt + rtt_ms, base_k));
            assert(40 * (dist as int) * (dist as int) * (dist as int) == 40 * ((dist as int) * (
            dist as int) * (dist as int))) by (nonlinear_arith);
            assert(term == spec_cube_term(dist as int));
            assert(w_cubic == wc);
            assert(w_est_wide == we);
            assert(w_est == we);
            let cwndg = old(self).cwnd as int;
            let target = if wc < we {
                let est = if we / 100 > u32::MAX { u32::MAX as int } else { we / 100 };
                if est > cwndg { est } else { cwndg }
            } else if cwndg * 100 < wc {
                let sum = cwndg + (wc - cwndg * 100) / (cwndg * 100);
                if sum > u32::MAX { u32::MAX as int } else { sum }
            } else {
                cwndg
            };
            assert(cubic_cwnd == target);
        }
        // limit growth to one datagram per acknowledged window
        let delta: u32 = cubic_cwnd - self.cwnd;
        if delta <= u32::MAX - self.cwnd_inc {
            self.cwnd_inc = self.cwnd_inc + delta;
        } else {
            self.cwnd_inc = u32::MAX;
        }
        if self.cwnd_inc >= 1 {
            if self.cwnd < u32::MAX {
                self.cwnd = self.cwnd + 1;
            }
            self.cwnd_inc = 0;
        }
    }
}

} // verus!
