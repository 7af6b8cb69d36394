//! Congestion control that sends at a set rate.
//!
//! What the windows come to is worked out in floating point around this module; here is
//! what they are worked out from, and the bounds that they are kept in.
use vstd::prelude::*;

verus! {

/// How many round-trip times are kept.
pub const RTT_WINDOW: usize = 16;

/// The round-trip time, in nanoseconds, that is taken before one is known: 50 ms.
pub const DEFAULT_RTT: u64 = 50_000_000;

/// How long, in nanoseconds, acknowledged and lost data are counted together: one second.
pub const STATS_PERIOD: u64 = 1_000_000_000;

/// The smallest window, in bytes.
pub const MIN_WINDOW: u64 = 32 * 1024;

/// The largest window at the start.
pub const MAX_INITIAL_WINDOW: u64 = 16 * 1024 * 1024;

/// The largest window.
pub const MAX_WINDOW: u64 = 32 * 1024 * 1024;

/// The rate to send at.
#[derive(Debug, Clone, Copy)]
pub struct BrutalConfig {
    /// Bytes per second; 0 sets no limit.
    pub send_bps: u64,
}

impl Default for BrutalConfig {
    fn default() -> (r: Self)
        ensures
            r.send_bps == 50 * 1024 * 1024,
    {
        BrutalConfig { send_bps: 52_428_800 }
    }
}

/// The sum of a list of numbers.
pub open spec fn sum_of(s: Seq<u64>) -> nat
    decreases s.len(),
{
    if s.len() == 0 {
        0
    } else {
        sum_of(s.drop_last()) + s.last() as nat
    }
}

proof fn lemma_sum_bound(s: Seq<u64>)
    ensures
        sum_of(s) <= s.len() * u64::MAX,
    decreases s.len(),
{
    if s.len() > 0 {
        lemma_sum_bound(s.drop_last());
        assert((s.len() - 1) * (u64::MAX as int) + u64::MAX == s.len() * (u64::MAX as int))
            by (nonlinear_arith);
    }
}

/// What is known of a connection. Times are in nanoseconds.
#[derive(Debug)]
pub struct Stats {
    pub ack_count: u64,
    pub loss_count: u64,
    pub window_start: u64,
    pub rtt_samples: Vec<u64>,
}

impl Stats {
    /// No more samples are kept than fit.
    pub open spec fn wf(&self) -> bool {
        self.rtt_samples@.len() <= RTT_WINDOW
    }

    pub fn new(now: u64) -> (r: Self)
        ensures
            r.wf(),
            r.ack_count == 0,
            r.loss_count == 0,
            r.window_start == now,
            r.rtt_samples@.len() == 0,
    {
        Stats { ack_count: 0, loss_count: 0, window_start: now, rtt_samples: Vec::new() }
    }

    /// The mean of the samples.
    pub open spec fn mean_rtt(&self) -> nat {
        if self.rtt_samples@.len() == 0 {
            DEFAULT_RTT as nat
        } else {
            sum_of(self.rtt_samples@) / self.rtt_samples@.len()
        }
    }

    /// The mean round-trip time, rounded down.
    pub fn avg_rtt(&self) -> (r: u64)
        requires
            self.wf(),
        ensures
            r == self.mean_rtt(),
    {
        let n: usize = self.rtt_samples.len();
        if n == 0 {
            return DEFAULT_RTT;
        }
        let ghost s = self.rtt_samples@;
        let mut sum: u128 = 0;
        let mut i: usize = 0;
        assert(s.take(0) =~= Seq::<u64>::empty());
        while i < n
            invariant
                n == s.len(),
                s == self.rtt_samples@,
                i <= n <= 16,
                sum == sum_of(s.take(i as int)),
                sum <= i * 0xffff_ffff_ffff_ffff,
            decreases n - i,
        {
            assert(s.take(i + 1).drop_last() =~= s.take(i as int));
            sum = sum + (self.rtt_samples[i] as u128);
            i = i + 1;
        }
        assert(s.take(n as int) =~= s);
        let mean: u128 = sum / (n as u128);
        proof {
            lemma_sum_bound(s);
            assert(sum <= n * 0xffff_ffff_ffff_ffff);
            assert(mean <= 0xffff_ffff_ffff_ffff) by (nonlinear_arith)
                requires
                    mean == sum / (n as u128),
                    sum <= n * 0xffff_ffff_ffff_ffff,
                    n > 0,
            ;
        }
        mean as u64
    }

    /// Adds a sample; the oldest one makes room.
    pub fn push_rtt(&mut self, rtt: u64)
        requires
            old(self).wf(),
        ensures
            final(self).wf(),
            final(self).ack_count == old(self).ack_count,
            final(self).loss_count == old(self).loss_count,
            final(self).window_start == old(self).window_start,
            final(self).rtt_samples@ == (if old(self).rtt_samples@.len() >= RTT_WINDOW {
                old(self).rtt_samples@.skip(1)
            } else {
                old(self).rtt_samples@
            }).push(rtt),
    {
        if self.rtt_samples.len() >= RTT_WINDOW {
            let oldest = self.rtt_samples.remove(0);
            assert(self.rtt_samples@ =~= old(self).rtt_samples@.skip(1));
        }
        self.rtt_samples.push(rtt);
    }

    /// Starts counting afresh once a second has passed.
    pub fn maybe_reset(&mut self, now: u64)
        ensures
            final(self).rtt_samples@ == old(self).rtt_samples@,
            ({
                let due = now >= old(self).window_start + STATS_PERIOD;
                &&& final(self).ack_count == (if due {
                    0
                } else {
                    old(self).ack_count
                })
                &&& final(self).loss_count == (if due {
                    0
                } else {
                    old(self).loss_count
                })
                &&& final(self).window_start == (if due {
                    now
                } else {
                    old(self).window_start
                })
            }),
    {
        if now >= self.window_start && now - self.window_start >= STATS_PERIOD {
            self.ack_count = 0;
            self.loss_count = 0;
            self.window_start = now;
        }
    }
}

/// `v`, brought between `lo` and `hi`.
pub open spec fn clamped(v: u64, lo: u64, hi: u64) -> u64 {
    if v < lo {
        lo
    } else if v > hi {
        hi
    } else {
        v
    }
}

/// The window that a rate allows, given what it came to before it is bounded. Without a
/// rate there is no limit.
pub open spec fn bounded_window(send_bps: u64, raw: u64, hi: u64) -> u64 {
    if send_bps == 0 {
        u64::MAX
    } else {
        clamped(raw, MIN_WINDOW, hi)
    }
}

fn clamp_window(send_bps: u64, raw: u64, hi: u64) -> (r: u64)
    requires
        MIN_WINDOW <= hi,
    ensures
        r == bounded_window(send_bps, raw, hi),
{
    if send_bps == 0 {
        u64::MAX
    } else if raw < MIN_WINDOW {
        MIN_WINDOW
    } else if raw > hi {
        hi
    } else {
        raw
    }
}

/// The window of one connection.
#[derive(Debug)]
pub struct BrutalController {
    pub config: BrutalConfig,
    pub window: u64,
    pub stats: Stats,
}

impl BrutalController {
    /// The window is in its bounds.
    pub open spec fn wf(&self) -> bool {
        &&& self.stats.wf()
        &&& self.config.send_bps == 0 ==> self.window == u64::MAX
        &&& self.config.send_bps != 0 ==> MIN_WINDOW <= self.window <= MAX_WINDOW
    }

    /// Starts with the window that `raw` comes to.
    pub fn new(config: BrutalConfig, raw: u64, now: u64) -> (r: Self)
        ensures
            r.wf(),
            r.config == config,
            r.window == bounded_window(config.send_bps, raw, MAX_INITIAL_WINDOW),
            r.stats.ack_count == 0,
            r.stats.loss_count == 0,
            r.stats.window_start == now,
            r.stats.rtt_samples@.len() == 0,
    {
        BrutalController {
            config,
            window: clamp_window(config.send_bps, raw, MAX_INITIAL_WINDOW),
            stats: Stats::new(now),
        }
    }

    /// Takes the window that `raw` comes to.
    pub fn recalculate_window(&mut self, raw: u64)
        requires
            old(self).wf(),
        ensures
            final(self).wf(),
            final(self).config == old(self).config,
            final(self).stats == old(self).stats,
            final(self).window == bounded_window(old(self).config.send_bps, raw, MAX_WINDOW),
    {
        self.window = clamp_window(self.config.send_bps, raw, MAX_WINDOW);
    }

    /// Takes note of acknowledged data.
    pub fn on_ack(&mut self, bytes: u64, rtt: u64, now: u64)
        requires
            old(self).wf(),
            old(self).stats.ack_count + bytes <= u64::MAX,
        ensures
            final(self).wf(),
            final(self).config == old(self).config,
            final(self).window == old(self).window,
            ({
                let due = now >= old(self).stats.window_start + STATS_PERIOD;
                &&& final(self).stats.ack_count == (if due {
                    0
                } else {
                    old(self).stats.ack_count + bytes
                })
                &&& final(self).stats.loss_count == (if due {
                    0
                } else {
                    old(self).stats.loss_count
                })
                &&& final(self).stats.window_start == (if due {
                    now
                } else {
                    old(self).stats.window_start
                })
            }),
            final(self).stats.rtt_samples@.last() == rtt,
            final(self).stats.rtt_samples@ == (if old(self).stats.rtt_samples@.len()
                >= RTT_WINDOW {
                old(self).stats.rtt_samples@.skip(1)
            } else {
                old(self).stats.rtt_samples@
            }).push(rtt),
    {
        self.stats.ack_count = self.stats.ack_count + bytes;
        self.stats.push_rtt(rtt);
        self.stats.maybe_reset(now);
    }

    /// Takes note of a loss.
    pub fn on_congestion_event(&mut self, now: u64)
        requires
            old(self).wf(),
            old(self).stats.loss_count < u64::MAX,
        ensures
            final(self).wf(),
            final(self).config == old(self).config,
            final(self).window == old(self).window,
            final(self).stats.rtt_samples@ == old(self).stats.rtt_samples@,
            ({
                let due = now >= old(self).stats.window_start + STATS_PERIOD;
                &&& final(self).stats.ack_count == (if due {
                    0
                } else {
                    old(self).stats.ack_count
                })
                &&& final(self).stats.loss_count == (if due {
                    0
                } else {
                    old(self).stats.loss_count + 1
                })
                &&& final(self).stats.window_start == (if due {
                    now
                } else {
                    old(self).stats.window_start
                })
            }),
    {
        self.stats.loss_count = self.stats.loss_count + 1;
        self.stats.maybe_reset(now);
    }
}

/// Makes the controllers of a server's connections.
#[derive(Debug, Clone, Copy)]
pub struct BrutalFactory {
    pub config: BrutalConfig,
}

impl BrutalFactory {
    pub fn new(send_bps: u64) -> (r: Self)
        ensures
            r.config.send_bps == send_bps,
    {
        BrutalFactory { config: BrutalConfig { send_bps } }
    }

    /// A controller for a new connection.
    pub fn build(&self, raw: u64, now: u64) -> (r: BrutalController)
        ensures
            r.wf(),
            r.config == self.config,
            r.window == bounded_window(self.config.send_bps, raw, MAX_INITIAL_WINDOW),
            r.stats.window_start == now,
            r.stats.rtt_samples@.len() == 0,
    {
        BrutalController::new(self.config, raw, now)
    }
}

proof fn lemma_sum_between(s: Seq<u64>, lo: nat, hi: nat)
    requires
        forall|i: int| 0 <= i < s.len() ==> lo <= #[trigger] s[i] <= hi,
    ensures
        lo * s.len() <= sum_of(s) <= hi * s.len(),
    decreases s.len(),
{
    if s.len() > 0 {
        let n = (s.len() - 1) as nat;
        let init = s.drop_last();
        assert forall|i: int| 0 <= i < init.len() implies lo <= #[trigger] init[i] <= hi by {
            assert(init[i] == s[i]);
        }
        lemma_sum_between(init, lo, hi);
        assert(lo <= s[s.len() - 1] <= hi);
        assert(lo * n + lo == lo * (n + 1)) by (nonlinear_arith);
        assert(hi * n + hi == hi * (n + 1)) by (nonlinear_arith);
    } else {
        assert(lo * 0 == 0 && hi * 0 == 0) by (nonlinear_arith);
    }
}

/// The mean round-trip time lies between the samples, and is 50 ms before there are any.
pub proof fn lemma_mean_between(stats: Stats, lo: nat, hi: nat)
    requires
        forall|i: int| 0 <= i < stats.rtt_samples@.len() ==> lo <= #[trigger] stats.rtt_samples@[i]
            <= hi,
    ensures
        stats.rtt_samples@.len() > 0 ==> lo <= stats.mean_rtt() <= hi,
        stats.rtt_samples@.len() == 0 ==> stats.mean_rtt() == 50 * 1000 * 1000,
{
    let s = stats.rtt_samples@;
    if s.len() > 0 {
        let sum = sum_of(s) as int;
        let n = s.len() as int;
        lemma_sum_between(s, lo, hi);
        assert(lo <= sum / n <= hi) by (nonlinear_arith)
            requires
                lo * n <= sum <= hi * n,
                n > 0,
        ;
    }
}

/// A window is what was worked out, or the nearer of its two bounds: 32 KiB at least, and at
/// most 16 MiB at the start and 32 MiB later. Without a rate there is no bound.
pub proof fn lemma_window_bounds(send_bps: u64, raw: u64)
    requires
        send_bps > 0,
    ensures
        32 * 1024 <= raw <= 16 * 1024 * 1024 ==> bounded_window(send_bps, raw, MAX_INITIAL_WINDOW)
            == raw,
        32 * 1024 <= raw <= 32 * 1024 * 1024 ==> bounded_window(send_bps, raw, MAX_WINDOW) == raw,
        raw < 32 * 1024 ==> bounded_window(send_bps, raw, MAX_INITIAL_WINDOW) == 32 * 1024
            && bounded_window(send_bps, raw, MAX_WINDOW) == 32 * 1024,
        raw > 16 * 1024 * 1024 ==> bounded_window(send_bps, raw, MAX_INITIAL_WINDOW) == 16 * 1024
            * 1024,
        raw > 32 * 1024 * 1024 ==> bounded_window(send_bps, raw, MAX_WINDOW) == 32 * 1024 * 1024,
        bounded_window(0, raw, MAX_WINDOW) == u64::MAX,
{
}

} // verus!
