//! The memory tracker's decisions: whether tracking runs and at which
//! interval, when a sample is due, and the values read from the allocator.

use vstd::prelude::*;

verus! {

/// A value read from the allocator's statistics, or why it could not be read.
#[derive(Clone, Debug)]
pub enum PropertyValue<T> {
    Value(T),
    Error(String),
}

/// The allocator statistics sampled at each tick.
#[derive(Clone, Debug)]
pub struct JeMallocMemoryStatistics {
    pub allocated: PropertyValue<u64>,
    pub resident: PropertyValue<u64>,
    pub active: PropertyValue<u64>,
    pub mapped: PropertyValue<u64>,
    pub retained: PropertyValue<u64>,
    pub metadata: PropertyValue<u64>,
}

/// The message for a statistic that could not be read.
pub open spec fn read_error_message(name: Seq<char>, error: Seq<char>) -> Seq<char> {
    "failed to read jemalloc stats for "@ + name + ": "@ + error
}

/// The property for the outcome of reading the statistic `name`: its value,
/// or the message naming it and the reading error.
pub fn property_from_read(name: &str, read: Result<usize, String>) -> (r: PropertyValue<u64>)
    ensures
        match read {
            Ok(v) => r matches PropertyValue::Value(x) && x == v,
            Err(e) => r matches PropertyValue::Error(m) && m@ == read_error_message(name@, e@),
        },
{
    match read {
        Ok(value) => PropertyValue::Value(value as u64),
        Err(err) => {
            let mut error = String::from_str("failed to read jemalloc stats for ");
            error.append(name);
            error.append(": ");
            error.append(err.as_str());
            PropertyValue::Error(error)
        },
    }
}

/// Dumps a jemalloc heap profile; without jemalloc profiling support this
/// always fails with the same message.
pub fn jemalloc_profiling_dump(_filename: &str) -> (r: Result<(), String>)
    ensures
        r matches Err(e) && e@ == "jemalloc profiling dump: unsupported"@,
{
    Err(String::from_str("jemalloc profiling dump: unsupported"))
}

/// The tracker's shared setting: the interval in seconds (0 when off).
#[derive(Clone, Copy, Debug, PartialEq, Eq, Structural)]
pub struct TrackerState {
    pub interval: u64,
}

/// What starting the tracker comes to.
#[derive(Clone, Copy, Debug, PartialEq, Eq, Structural)]
pub enum TrackPlan {
    /// Tracking stays off.
    Disabled,
    /// Sample every `interval` seconds, with database statistics when a
    /// database tracker is given.
    Enabled { interval: u64, with_database: bool },
}

impl TrackerState {
    /// The setting before tracking starts.
    pub fn new() -> (r: Self)
        ensures
            r.interval == 0,
    {
        TrackerState { interval: 0 }
    }
}

/// The tracking interval in seconds.
pub fn interval(state: &TrackerState) -> (r: u64)
    ensures
        r == state.interval,
{
    state.interval
}

/// Records the tracking interval.
pub fn set_interval(state: &mut TrackerState, interval: u64)
    ensures
        final(state).interval == interval,
{
    state.interval = interval;
}

/// Starts tracking the current process: an interval of 0 leaves tracking
/// off; any other interval is recorded and sampling runs at it.
pub fn track_current_process(state: &mut TrackerState, interval: u64, has_database_tracker: bool) -> (r: TrackPlan)
    ensures
        interval == 0 ==> r == TrackPlan::Disabled && *final(state) == *old(state),
        interval != 0 ==> r == (TrackPlan::Enabled { interval, with_database: has_database_tracker })
            && final(state).interval == interval,
{
    if interval == 0 {
        TrackPlan::Disabled
    } else {
        set_interval(state, interval);
        TrackPlan::Enabled { interval, with_database: has_database_tracker }
    }
}

/// Starts tracking the current process without a database tracker.
pub fn track_current_process_simple(state: &mut TrackerState, interval: u64) -> (r: TrackPlan)
    ensures
        interval == 0 ==> r == TrackPlan::Disabled && *final(state) == *old(state),
        interval != 0 ==> r == (TrackPlan::Enabled { interval, with_database: false })
            && final(state).interval == interval,
{
    track_current_process(state, interval, false)
}

/// Whether a sample is due: at least `interval` seconds since the last one.
pub fn sample_due(elapsed_secs: u64, interval: u64) -> (r: bool)
    ensures
        r == (elapsed_secs >= interval),
{
    elapsed_secs >= interval
}

} // verus!
