//! Adaptive worker-count scaling driven by the page-fault rate.
//!
//! Page faults block the faulting thread, so under memory pressure extra
//! threads keep the cores busy while others wait on I/O.
//!
//! - low paging (under 5k faults/sec): one thread per core;
//! - moderate paging (5k to 50k faults/sec): `(cores * 2).clamp(2, 64)`;
//! - heavy paging (50k faults/sec and above): `(cores * 3).clamp(16, 128)`.

use vstd::prelude::*;

verus! {

/// Fault rates below this are low paging pressure.
pub const MODERATE_THRESHOLD: u64 = 5_000;

/// Fault rates at or above this are heavy paging pressure.
pub const HEAVY_THRESHOLD: u64 = 50_000;

/// Classification of system memory paging pressure.
#[derive(Debug, Clone, Copy, PartialEq, Eq, Structural)]
pub enum PagingPressure {
    /// Minimal paging: under 5k faults/sec.
    Low,
    /// Moderate paging: 5k to 50k faults/sec.
    Moderate,
    /// Heavy paging: 50k faults/sec and above.
    Heavy,
}

/// The pressure class of a fault rate.
pub open spec fn pressure_of(faults_per_sec: u64) -> PagingPressure {
    if faults_per_sec < MODERATE_THRESHOLD {
        PagingPressure::Low
    } else if faults_per_sec < HEAVY_THRESHOLD {
        PagingPressure::Moderate
    } else {
        PagingPressure::Heavy
    }
}

/// `x` clamped into `[lo, hi]`.
pub open spec fn clamp_spec(x: int, lo: int, hi: int) -> int {
    if x < lo {
        lo
    } else if x > hi {
        hi
    } else {
        x
    }
}

/// The thread count recommended under `pressure` on `num_cores` cores.
pub open spec fn recommended_spec(pressure: PagingPressure, num_cores: int) -> int {
    match pressure {
        PagingPressure::Low => num_cores,
        PagingPressure::Moderate => clamp_spec(2 * num_cores, 2, 64),
        PagingPressure::Heavy => clamp_spec(3 * num_cores, 16, 128),
    }
}

impl PagingPressure {
    /// Classifies a fault rate.
    pub fn classify(faults_per_sec: u64) -> (r: PagingPressure)
        ensures
            r == pressure_of(faults_per_sec),
    {
        if faults_per_sec < MODERATE_THRESHOLD {
            PagingPressure::Low
        } else if faults_per_sec < HEAVY_THRESHOLD {
            PagingPressure::Moderate
        } else {
            PagingPressure::Heavy
        }
    }
}

/// Calculated page fault rate metrics.
#[derive(Debug, Clone, Copy)]
pub struct PageFaultRate {
    /// Current faults per second.
    pub faults_per_sec: u64,
    /// Classification of current paging pressure.
    pub pressure: PagingPressure,
}

impl PageFaultRate {
    /// Recommended thread count for this page fault rate.
    pub fn recommended_threads(&self, num_cores: usize) -> (r: usize)
        ensures
            r as int == recommended_spec(self.pressure, num_cores as int),
    {
        match self.pressure {
            PagingPressure::Low => num_cores,
            PagingPressure::Moderate => {
                // beyond 64 the product is clamped anyway, so cap it first
                let doubled: usize = if num_cores > 64 { 128 } else { num_cores * 2 };
                clamp_usize(doubled, 2, 64)
            },
            PagingPressure::Heavy => {
                let tripled: usize = if num_cores > 128 { 384 } else { num_cores * 3 };
                clamp_usize(tripled, 16, 128)
            },
        }
    }
}

fn clamp_usize(x: usize, lo: usize, hi: usize) -> (r: usize)
    requires
        lo <= hi,
    ensures
        r as int == clamp_spec(x as int, lo as int, hi as int),
{
    if x < lo {
        lo
    } else if x > hi {
        hi
    } else {
        x
    }
}

/// `a - b`, or zero where `b` is larger.
pub open spec fn sat_sub(a: u64, b: u64) -> u64 {
    if a >= b {
        (a - b) as u64
    } else {
        0
    }
}

/// The fault rate between a sample of `last_faults` faults at second
/// `last_time` and one of `faults` at second `time`: none before a first
/// sample was stored (`last_time` zero) or when no whole second passed.
pub open spec fn rate_between(last_faults: u64, last_time: u64, faults: u64, time: u64) -> Option<
    u64,
> {
    if last_time == 0 || sat_sub(time, last_time) == 0 {
        None
    } else {
        Some((sat_sub(faults, last_faults) / sat_sub(time, last_time)) as u64)
    }
}

/// Page fault statistics sampled from the system.
#[derive(Debug, Clone, Copy)]
pub struct PageFaultSample {
    /// Total page faults since boot.
    pub total_faults: u64,
    /// When the sample was taken, in seconds since the Unix epoch.
    pub timestamp_secs: u64,
}

/// Turns successive fault-count samples into a fault rate.
pub struct PageFaultMonitor {
    /// Last known total fault count.
    last_faults: u64,
    /// When the last sample was taken, in seconds since the Unix epoch;
    /// zero before the first.
    last_sample_time: u64,
    /// Sampling interval, in seconds.
    sample_interval_secs: u64,
}

impl PageFaultMonitor {
    /// The fault count of the last sample.
    pub closed spec fn spec_last_faults(&self) -> u64 {
        self.last_faults
    }

    /// The time of the last sample; zero before the first.
    pub closed spec fn spec_last_time(&self) -> u64 {
        self.last_sample_time
    }

    /// The sampling interval in seconds.
    pub closed spec fn spec_interval(&self) -> u64 {
        self.sample_interval_secs
    }

    /// A monitor that has taken no sample yet.
    pub fn new(sample_interval_secs: u64) -> (r: PageFaultMonitor)
        ensures
            r.spec_last_faults() == 0,
            r.spec_last_time() == 0,
            r.spec_interval() == sample_interval_secs,
    {
        PageFaultMonitor { last_faults: 0, last_sample_time: 0, sample_interval_secs }
    }

    /// The sampling interval in seconds.
    pub fn sample_interval_secs(&self) -> (r: u64)
        ensures
            r == self.spec_interval(),
    {
        self.sample_interval_secs
    }

    /// Records a sample of `current_faults` total faults at second
    /// `current_time` and returns the rate since the previous sample, with
    /// its pressure class; none on the first sample or when no whole second
    /// has passed.
    pub fn sample(&mut self, current_faults: u64, current_time: u64) -> (r: Option<PageFaultRate>)
        ensures
            final(self).spec_last_faults() == current_faults,
            final(self).spec_last_time() == current_time,
            final(self).spec_interval() == old(self).spec_interval(),
            r is None <==> rate_between(
                old(self).spec_last_faults(),
                old(self).spec_last_time(),
                current_faults,
                current_time,
            ) is None,
            r matches Some(rate) ==> rate_between(
                old(self).spec_last_faults(),
                old(self).spec_last_time(),
                current_faults,
                current_time,
            ) == Some(rate.faults_per_sec) && rate.pressure == pressure_of(rate.faults_per_sec),
    {
        let last_faults = self.last_faults;
        let last_time = self.last_sample_time;
        self.last_faults = current_faults;
        self.last_sample_time = current_time;
        if last_time == 0 {
            return None;
        }
        let time_delta: u64 = if current_time >= last_time {
            current_time - last_time
        } else {
            0
        };
        if time_delta == 0 {
            return None;
        }
        let fault_delta: u64 = if current_faults >= last_faults {
            current_faults - last_faults
        } else {
            0
        };
        let faults_per_sec = fault_delta / time_delta;
        Some(PageFaultRate { faults_per_sec, pressure: PagingPressure::classify(faults_per_sec) })
    }
}

/// `a` and `b` differ by at least `d`.
pub open spec fn differ_by_at_least(a: int, b: int, d: int) -> bool {
    a - b >= d || b - a >= d
}

/// Steers the desired worker-thread count by the page-fault rate.
pub struct AdaptiveThreadController {
    /// Number of CPU cores available.
    num_cores: usize,
    /// Current desired thread count.
    desired_threads: usize,
    /// Monitor for page faults.
    monitor: PageFaultMonitor,
    /// Hysteresis: the count changes only by at least this much.
    min_change_delta: usize,
}

impl AdaptiveThreadController {
    /// The number of cores.
    pub closed spec fn spec_num_cores(&self) -> usize {
        self.num_cores
    }

    /// The desired thread count.
    pub closed spec fn spec_desired(&self) -> usize {
        self.desired_threads
    }

    /// The least change of the desired count that is made.
    pub closed spec fn spec_min_change(&self) -> usize {
        self.min_change_delta
    }

    /// The page fault monitor.
    pub closed spec fn spec_monitor(&self) -> PageFaultMonitor {
        self.monitor
    }

    /// A controller for `num_cores` cores that starts at one thread per core,
    /// with a hysteresis of a quarter of the cores (at least one).
    pub fn new(sample_interval_secs: u64, num_cores: usize) -> (r: AdaptiveThreadController)
        ensures
            r.spec_num_cores() == num_cores,
            r.spec_desired() == num_cores,
            r.spec_min_change() == if num_cores / 4 >= 1 {
                num_cores / 4
            } else {
                1
            },
            r.spec_monitor().spec_last_time() == 0,
            r.spec_monitor().spec_last_faults() == 0,
            r.spec_monitor().spec_interval() == sample_interval_secs,
    {
        let quarter = num_cores / 4;
        AdaptiveThreadController {
            num_cores,
            desired_threads: num_cores,
            monitor: PageFaultMonitor::new(sample_interval_secs),
            min_change_delta: if quarter >= 1 {
                quarter
            } else {
                1
            },
        }
    }

    /// Feeds a sample of `current_faults` total faults at second
    /// `current_time` to the monitor; where it yields a rate, moves the
    /// desired count to the recommended one if that differs by at least the
    /// hysteresis.
    pub fn update(&mut self, current_faults: u64, current_time: u64)
        ensures
            final(self).spec_num_cores() == old(self).spec_num_cores(),
            final(self).spec_min_change() == old(self).spec_min_change(),
            final(self).spec_monitor().spec_last_faults() == current_faults,
            final(self).spec_monitor().spec_last_time() == current_time,
            final(self).spec_monitor().spec_interval() == old(self).spec_monitor().spec_interval(),
            ({
                let m = old(self).spec_monitor();
                match rate_between(m.spec_last_faults(), m.spec_last_time(), current_faults, current_time) {
                    None => final(self).spec_desired() == old(self).spec_desired(),
                    Some(fps) => {
                        let want = recommended_spec(pressure_of(fps), old(self).spec_num_cores() as int);
                        if differ_by_at_least(want, old(self).spec_desired() as int, old(self).spec_min_change() as int) {
                            final(self).spec_desired() as int == want
                        } else {
                            final(self).spec_desired() == old(self).spec_desired()
                        }
                    },
                }
            }),
    {
        if let Some(rate) = self.monitor.sample(current_faults, current_time) {
            let desired = rate.recommended_threads(self.num_cores);
            let current = self.desired_threads;
            let delta: usize = if desired >= current {
                desired - current
            } else {
                current - desired
            };
            if delta >= self.min_change_delta {
                self.desired_threads = desired;
            }
        }
    }

    /// The current desired thread count.
    pub fn desired_threads(&self) -> (r: usize)
        ensures
            r == self.spec_desired(),
    {
        self.desired_threads
    }

    /// The number of cores the controller plans for.
    pub fn num_cores(&self) -> (r: usize)
        ensures
            r == self.spec_num_cores(),
    {
        self.num_cores
    }

    /// Sets the desired thread count directly.
    pub fn set_desired_threads(&mut self, count: usize)
        ensures
            final(self).spec_desired() == count,
            final(self).spec_num_cores() == old(self).spec_num_cores(),
            final(self).spec_min_change() == old(self).spec_min_change(),
            final(self).spec_monitor() == old(self).spec_monitor(),
    {
        self.desired_threads = count;
    }
}

} // verus!
